//! File requests: a reply of the assistant that asks for files instead of
//! answering, and the block that is written to the transcript to grant it.

use crate::text::{
    contains_char, first_index_of, from_chars, has_prefix, lemma_first_index_of_is, push_all,
    push_str, same_text, slice, starts_with, texts, to_chars, trim, trimmed,
};
use vstd::prelude::*;

verus! {

/// What a file request begins with.
pub open spec fn request_marker() -> Seq<char> {
    "GROK REQUESTS FILES:"@
}

/// The list of a file request: what follows the marker and one space, where
/// the reply, trimmed, is one line made of the marker, one space and a list
/// that is not blank and has no white space at its ends.
pub open spec fn request_list(reply: Seq<char>) -> Option<Seq<char>> {
    let t = trim(reply);
    if has_prefix(t, request_marker()) && !t.contains('\n') {
        let rest = trim(t.skip(request_marker().len() as int));
        if rest.len() > 0 && t == request_marker() + seq![' '] + rest {
            Some(rest)
        } else {
            None
        }
    } else {
        None
    }
}

/// The items of a list: what stands between its commas, trimmed, without
/// the items that are blank.
pub open spec fn list_items(s: Seq<char>) -> Seq<Seq<char>>
    decreases s.len(),
{
    let i = first_index_of(s, ',');
    let head = trim(s.take(i));
    let first = if head.len() > 0 {
        seq![head]
    } else {
        seq![]
    };
    if 0 <= i < s.len() {
        first + list_items(s.skip(i + 1))
    } else {
        first
    }
}

/// Whether a character separates the segments of a path.
pub open spec fn is_separator(c: char) -> bool {
    c == '/' || c == '\\'
}

/// Whether the segment of `p` that begins at `i` is `..`, the parent
/// directory.
pub open spec fn parent_segment_at(p: Seq<char>, i: int) -> bool {
    &&& 0 <= i
    &&& i + 2 <= p.len()
    &&& p[i] == '.'
    &&& p[i + 1] == '.'
    &&& i == 0 || is_separator(p[i - 1])
    &&& i + 2 == p.len() || is_separator(p[i + 2])
}

/// Whether a path has a segment that is the parent directory.
pub open spec fn has_parent_segment(p: Seq<char>) -> bool {
    exists|i: int| parent_segment_at(p, i)
}

/// Whether any of the paths has a segment that is the parent directory.
pub open spec fn any_parent_segment(paths: Seq<Seq<char>>) -> bool {
    exists|k: int| 0 <= k < paths.len() && has_parent_segment(#[trigger] paths[k])
}

/// The paths that a reply asks for, where the reply is a file request: it
/// has the form of one, names at least one path, and none of its paths has a
/// segment that is the parent directory. Any other reply is an ordinary
/// answer.
pub open spec fn file_request(reply: Seq<char>) -> Option<Seq<Seq<char>>> {
    match request_list(reply) {
        Some(list) => {
            let paths = list_items(list);
            if paths.len() > 0 && !any_parent_segment(paths) {
                Some(paths)
            } else {
                None
            }
        },
        None => None,
    }
}

/// The texts of some strings.
pub open spec fn strings(v: Seq<String>) -> Seq<Seq<char>> {
    Seq::new(v.len(), |i: int| v[i]@)
}

/// The texts of some strings, if there are any.
pub open spec fn opt_strings(v: Option<Vec<String>>) -> Option<Seq<Seq<char>>> {
    match v {
        Some(v) => Some(strings(v@)),
        None => None,
    }
}

/// The list of a file request, if the reply has the form of one.
fn read_request_list(reply: &Vec<char>) -> (r: Option<Vec<char>>)
    ensures
        match request_list(reply@) {
            Some(list) => r matches Some(v) && v@ == list,
            None => r is None,
        },
{
    let t = trimmed(reply);
    let marker = to_chars("GROK REQUESTS FILES:");
    if !starts_with(&t, &marker) || contains_char(&t, '\n') {
        return None;
    }
    let after = slice(&t, marker.len(), t.len());
    assert(after@ =~= t@.skip(marker@.len() as int));
    let rest = trimmed(&after);
    if rest.len() == 0 {
        return None;
    }
    let mut want: Vec<char> = Vec::new();
    push_all(&mut want, &marker);
    want.push(' ');
    push_all(&mut want, &rest);
    assert(want@ =~= request_marker() + seq![' '] + rest@);
    if same_text(&t, &want) {
        Some(rest)
    } else {
        None
    }
}

/// The items of a list.
fn read_list_items(list: &Vec<char>) -> (r: Vec<Vec<char>>)
    ensures
        texts(r@) == list_items(list@),
{
    let n = list.len();
    let mut out: Vec<Vec<char>> = Vec::new();
    let mut start: usize = 0;
    let mut done: bool = false;
    assert(list@.skip(0) =~= list@);
    while !done
        invariant
            start <= n == list.len(),
            !done ==> texts(out@) + list_items(list@.skip(start as int)) == list_items(
                list@,
            ),
            done ==> texts(out@) == list_items(list@),
        decreases n - start + if done { 0int } else { 1int },
    {
        let mut end: usize = start;
        while end < n && list[end] != ','
            invariant
                start <= end <= n == list.len(),
                forall|k: int| start <= k < end ==> #[trigger] list@[k] != ',',
            decreases n - end,
        {
            end += 1;
        }
        let ghost rest = list@.skip(start as int);
        let ghost before = texts(out@);
        proof {
            assert forall|k: int| 0 <= k < end - start implies #[trigger] rest[k] != ',' by {
                assert(rest[k] == list@[k + start]);
            }
            lemma_first_index_of_is(rest, ',', end - start);
            assert(rest.take(end - start) =~= list@.subrange(start as int, end as int));
        }
        let piece = slice(list, start, end);
        let item = trimmed(&piece);
        let ghost first = if item@.len() > 0 {
            seq![item@]
        } else {
            seq![]
        };
        if item.len() > 0 {
            out.push(item);
            assert(texts(out@) =~= before + first);
        } else {
            assert(texts(out@) =~= before + first);
        }
        if end < n {
            proof {
                assert(rest.skip(end - start + 1) =~= list@.skip(end as int + 1));
                let tail = list_items(list@.skip(end as int + 1));
                assert(texts(out@) + tail =~= before + (first + tail));
            }
            start = end + 1;
        } else {
            proof {
                assert(texts(out@) =~= before + first);
            }
            done = true;
        }
    }
    out
}

/// Whether a path has a segment that is the parent directory.
pub fn climbs_to_parent(p: &Vec<char>) -> (r: bool)
    ensures
        r == has_parent_segment(p@),
{
    if p.len() < 2 {
        return false;
    }
    let mut i: usize = 0;
    while i < p.len() - 1
        invariant
            p.len() >= 2,
            i <= p.len() - 1,
            forall|k: int| 0 <= k < i ==> !parent_segment_at(p@, k),
        decreases p.len() - i,
    {
        if p[i] == '.' && p[i + 1] == '.' {
            let opens = i == 0 || p[i - 1] == '/' || p[i - 1] == '\\';
            let closes = i + 2 == p.len() || p[i + 2] == '/' || p[i + 2] == '\\';
            if opens && closes {
                assert(parent_segment_at(p@, i as int));
                return true;
            }
        }
        i += 1;
    }
    false
}

/// Reads a reply as a file request: hands back the paths it asks for, or
/// `None` where the reply is an ordinary answer.
#[verifier::loop_isolation(false)]
pub fn read_file_request(reply: &str) -> (r: Option<Vec<String>>)
    ensures
        opt_strings(r) == file_request(reply@),
{
    let chars = to_chars(reply);
    let list = match read_request_list(&chars) {
        Some(list) => list,
        None => return None,
    };
    let items = read_list_items(&list);
    if items.len() == 0 {
        return None;
    }
    let ghost paths = list_items(list@);
    let mut out: Vec<String> = Vec::new();
    let mut i: usize = 0;
    while i < items.len()
        invariant
            i <= items.len(),
            texts(items@) == paths,
            out.len() == i,
            forall|k: int| 0 <= k < i ==> (#[trigger] out@[k])@ == paths[k],
            forall|k: int| 0 <= k < i ==> !has_parent_segment(#[trigger] paths[k]),
        decreases items.len() - i,
    {
        assert(paths[i as int] == items@[i as int]@);
        if climbs_to_parent(&items[i]) {
            assert(has_parent_segment(paths[i as int]));
            return None;
        }
        out.push(from_chars(&items[i]));
        i += 1;
    }
    assert(strings(out@) =~= paths);
    Some(out)
}

/// The block that grants a file request: a heading, and one file
/// placeholder for each path.
pub open spec fn request_block(paths: Seq<Seq<char>>) -> Seq<char> {
    "\n\nGROK REQUESTED FILES:\n"@ + request_lines(paths)
}

/// One file placeholder for each path, each on a line of its own.
pub open spec fn request_lines(paths: Seq<Seq<char>>) -> Seq<char>
    decreases paths.len(),
{
    if paths.len() == 0 {
        seq![]
    } else {
        request_lines(paths.drop_last()) + "@f:"@ + paths.last() + seq!['\n']
    }
}

/// Writes the block that grants a file request.
pub fn write_request_block(paths: &Vec<String>) -> (r: String)
    ensures
        r@ == request_block(strings(paths@)),
{
    let mut out: Vec<char> = Vec::new();
    push_str(&mut out, "\n\nGROK REQUESTED FILES:\n");
    let ghost head = out@;
    let ghost all = strings(paths@);
    let mut i: usize = 0;
    assert(all.take(0) =~= Seq::<Seq<char>>::empty());
    assert(out@ =~= head + request_lines(all.take(0)));
    while i < paths.len()
        invariant
            i <= paths.len(),
            all == strings(paths@),
            out@ == head + request_lines(all.take(i as int)),
        decreases paths.len() - i,
    {
        proof {
            let upto = all.take(i as int + 1);
            assert(upto.last() == paths@[i as int]@);
            assert(upto.drop_last() =~= all.take(i as int));
        }
        push_str(&mut out, "@f:");
        push_str(&mut out, paths[i].as_str());
        out.push('\n');
        assert(out@ =~= head + request_lines(all.take(i as int + 1)));
        i += 1;
    }
    assert(all.take(paths@.len() as int) =~= all);
    from_chars(&out)
}

/// What the file system says of one requested path.
#[derive(Clone, Copy, Debug, PartialEq, Eq)]
pub struct PathFacts {
    /// The path is absolute.
    pub absolute: bool,
    /// The path, in canonical form, lies within the working directory.
    pub inside: bool,
}

/// A file request is granted only where every path is relative and lies
/// within the working directory, and the file system was asked of each.
pub open spec fn all_granted(paths: Seq<Seq<char>>, facts: Seq<PathFacts>) -> bool {
    &&& facts.len() == paths.len()
    &&& forall|i: int| 0 <= i < facts.len() ==> !(#[trigger] facts[i]).absolute && facts[i].inside
}

/// Whether the file system's answers grant a request for `count` paths.
pub fn check_granted(count: usize, facts: &Vec<PathFacts>) -> (r: bool)
    ensures
        r == (facts@.len() == count && forall|i: int|
            0 <= i < facts@.len() ==> !(#[trigger] facts@[i]).absolute && facts@[i].inside),
{
    if facts.len() != count {
        return false;
    }
    let mut i: usize = 0;
    while i < facts.len()
        invariant
            i <= facts.len(),
            forall|k: int| 0 <= k < i ==> !(#[trigger] facts@[k]).absolute && facts@[k].inside,
        decreases facts.len() - i,
    {
        if facts[i].absolute || !facts[i].inside {
            assert(!(!facts@[i as int].absolute && facts@[i as int].inside));
            return false;
        }
        i += 1;
    }
    true
}

} // verus!
