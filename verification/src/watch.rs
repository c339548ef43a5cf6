//! Telling that the watched file has changed.
//!
//! Whoever watches the file reads off it a version that grows with every
//! write, such as the time of its last modification. The tracker owns the
//! version that was seen last; nothing else remembers it.

use vstd::prelude::*;

verus! {

/// How long the file is left alone after a change before it is read, in
/// milliseconds, so that a save in several writes is read as one.
pub const QUIESCENCE_MILLIS: u64 = 500;

/// The version of the file that was seen last.
#[derive(Clone, Copy, Debug, PartialEq, Eq)]
pub struct ChangeTracker {
    last_seen_version: u128,
}

impl ChangeTracker {
    /// The version that was seen last.
    pub closed spec fn seen(&self) -> u128 {
        self.last_seen_version
    }

    /// A tracker that has seen the given version.
    pub fn new(version: u128) -> (r: ChangeTracker)
        ensures
            r.seen() == version,
    {
        ChangeTracker { last_seen_version: version }
    }

    /// The version that was seen last.
    pub fn last_seen_version(&self) -> (r: u128)
        ensures
            r == self.seen(),
    {
        self.last_seen_version
    }

    /// Looks at the version that the file has now. The file has changed
    /// where that version is later than the one seen last, and it is then
    /// the one seen last from now on.
    pub fn observe(&mut self, version: u128) -> (changed: bool)
        ensures
            (changed, final(self).seen()) == observed(old(self).seen(), version),
    {
        if version > self.last_seen_version {
            self.last_seen_version = version;
            true
        } else {
            false
        }
    }
}

/// What a tracker that has seen `seen` makes of a version: whether the file
/// has changed, and what the tracker has seen afterwards.
pub open spec fn observed(seen: u128, version: u128) -> (bool, u128) {
    if version > seen {
        (true, version)
    } else {
        (false, seen)
    }
}

/// A change is told once: a second look at the same version tells none, and
/// the version seen last never goes back.
pub proof fn law_change_is_told_once(seen: u128, version: u128)
    ensures
        !observed(observed(seen, version).1, version).0,
        observed(seen, version).1 >= seen,
        observed(seen, version).1 >= version,
{
}

} // verus!
