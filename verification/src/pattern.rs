//! Searching a text with a regular expression.
//!
//! The search itself is the `regex` crate's. It reports where matches lie as
//! byte offsets into the UTF-8 form of the text; this module turns them into
//! character positions, which is what the rest of the library works with.

use regex::Regex;
use vstd::prelude::*;

use crate::text::to_chars;

verus! {

/// A stretch of a text, from `start` up to `end`, which is not part of it.
#[derive(Clone, Copy, Debug, PartialEq, Eq)]
pub struct Span {
    pub start: usize,
    pub end: usize,
}

/// One match of a pattern with up to two capture groups: where the whole
/// match lies, and where each group lies if it took part in the match.
#[derive(Clone, Copy, Debug, PartialEq, Eq)]
pub struct Capture {
    pub whole: Span,
    pub first: Option<Span>,
    pub second: Option<Span>,
}

/// How many bytes a character takes in UTF-8.
pub open spec fn utf8_width(c: char) -> nat {
    let u = c as u32;
    if u < 0x80 {
        1
    } else if u < 0x800 {
        2
    } else if u < 0x1_0000 {
        3
    } else {
        4
    }
}

/// How many bytes a text takes in UTF-8.
pub open spec fn utf8_len(s: Seq<char>) -> nat
    decreases s.len(),
{
    if s.len() == 0 {
        0
    } else {
        utf8_len(s.drop_last()) + utf8_width(s.last())
    }
}

/// Whether a byte offset into the UTF-8 form of `s` is where a character
/// begins, or the end of the text.
pub open spec fn is_boundary(s: Seq<char>, offset: int) -> bool {
    exists|i: int| 0 <= i <= s.len() && #[trigger] utf8_len(s.take(i)) == offset
}

/// The position of the character that begins at a byte offset.
pub open spec fn char_index(s: Seq<char>, offset: int) -> int {
    choose|i: int| 0 <= i <= s.len() && #[trigger] utf8_len(s.take(i)) == offset
}

/// A span in byte offsets as a span in character positions.
pub open spec fn char_span(s: Seq<char>, span: Span) -> Span {
    Span {
        start: char_index(s, span.start as int) as usize,
        end: char_index(s, span.end as int) as usize,
    }
}

/// A span in byte offsets, if there is one, as a span in character
/// positions.
pub open spec fn char_span_opt(s: Seq<char>, span: Option<Span>) -> Option<Span> {
    match span {
        Some(sp) => Some(char_span(s, sp)),
        None => None,
    }
}

/// A capture in byte offsets as a capture in character positions.
pub open spec fn char_capture(s: Seq<char>, c: Capture) -> Capture {
    Capture {
        whole: char_span(s, c.whole),
        first: char_span_opt(s, c.first),
        second: char_span_opt(s, c.second),
    }
}

/// A span in byte offsets that begins and ends between characters of `s`.
pub open spec fn byte_span_ok(s: Seq<char>, span: Span) -> bool {
    &&& span.start <= span.end
    &&& is_boundary(s, span.start as int)
    &&& is_boundary(s, span.end as int)
}

/// A span in byte offsets, if there is one, begins and ends between
/// characters of `s`.
pub open spec fn byte_span_opt_ok(s: Seq<char>, span: Option<Span>) -> bool {
    span matches Some(sp) ==> byte_span_ok(s, sp)
}

/// Captures in byte offsets of which every span begins and ends between
/// characters of `s`, and whose whole matches follow each other without
/// overlap.
pub open spec fn byte_captures_ok(s: Seq<char>, caps: Seq<Capture>) -> bool {
    &&& forall|i: int|
        0 <= i < caps.len() ==> {
            &&& byte_span_ok(s, (#[trigger] caps[i]).whole)
            &&& byte_span_opt_ok(s, caps[i].first)
            &&& byte_span_opt_ok(s, caps[i].second)
        }
    &&& forall|i: int, j: int|
        0 <= i < j < caps.len() ==> (#[trigger] caps[i]).whole.end <= (#[trigger] caps[j]).whole.start
}

/// A span in character positions that lies within a text of `len` characters.
pub open spec fn span_ok(len: nat, span: Span) -> bool {
    span.start <= span.end <= len
}

/// A span in character positions, if there is one, lies within a text of
/// `len` characters.
pub open spec fn span_opt_ok(len: nat, span: Option<Span>) -> bool {
    span matches Some(sp) ==> span_ok(len, sp)
}

/// Captures in character positions that lie within a text of `len`
/// characters, and whose whole matches follow each other without overlap.
pub open spec fn captures_ok(len: nat, caps: Seq<Capture>) -> bool {
    &&& forall|i: int|
        0 <= i < caps.len() ==> {
            &&& span_ok(len, (#[trigger] caps[i]).whole)
            &&& span_opt_ok(len, caps[i].first)
            &&& span_opt_ok(len, caps[i].second)
        }
    &&& forall|i: int, j: int|
        0 <= i < j < caps.len() ==> (#[trigger] caps[i]).whole.end <= (#[trigger] caps[j]).whole.start
}

/// What the `regex` crate finds when it compiles `pattern` and searches
/// `text` for all its matches: nothing where it rejects the pattern, else
/// the matches from left to right, in byte offsets.
pub uninterp spec fn regex_captures(pattern: Seq<char>, text: Seq<char>) -> Option<Seq<Capture>>;

/// The matches of `pattern` in `text`, in character positions.
pub open spec fn captures(pattern: Seq<char>, text: Seq<char>) -> Option<Seq<Capture>> {
    match regex_captures(pattern, text) {
        Some(caps) => Some(Seq::new(caps.len(), |i: int| char_capture(text, caps[i]))),
        None => None,
    }
}

/// Compiles `pattern` with `regex::Regex::new` and collects what
/// `Regex::captures_iter` yields on `text`.
///
/// The contract names the outcome `regex_captures` and claims of it what the
/// crate documents: the iterator yields successive matches that do not
/// overlap, and the offsets of a match satisfy `start <= end` and fall on
/// UTF-8 code point boundaries of the text. Of groups beyond the second
/// nothing is kept.
#[verifier::external_body]
fn search(pattern: &str, text: &str) -> (r: Option<Vec<Capture>>)
    ensures
        r matches Some(v) ==> regex_captures(pattern@, text@) == Some(v@) && byte_captures_ok(
            text@,
            v@,
        ),
        r is None ==> regex_captures(pattern@, text@) is None,
{
    let re = match Regex::new(pattern) {
        Ok(re) => re,
        Err(_) => return None,
    };
    Some(
        re.captures_iter(text).map(
            |c| Capture {
                whole: Span { start: c.get_match().start(), end: c.get_match().end() },
                first: c.get(1).map(|m| Span { start: m.start(), end: m.end() }),
                second: c.get(2).map(|m| Span { start: m.start(), end: m.end() }),
            },
        ).collect(),
    )
}

/// One more character makes the text longer by the width of the character.
proof fn lemma_utf8_len_step(s: Seq<char>, i: int)
    requires
        0 <= i < s.len(),
    ensures
        utf8_len(s.take(i + 1)) == utf8_len(s.take(i)) + utf8_width(s[i]),
{
    assert(s.take(i + 1).drop_last() =~= s.take(i));
}

/// Every character takes at least one byte: a longer piece of the text
/// takes more bytes.
proof fn lemma_utf8_len_grows(s: Seq<char>, i: int, j: int)
    requires
        0 <= i <= j <= s.len(),
    ensures
        utf8_len(s.take(i)) + (j - i) <= utf8_len(s.take(j)),
    decreases j - i,
{
    if i < j {
        lemma_utf8_len_grows(s, i, j - 1);
        lemma_utf8_len_step(s, j - 1);
    }
}

/// A boundary belongs to one character position only.
proof fn lemma_char_index(s: Seq<char>, offset: int, i: int)
    requires
        0 <= i <= s.len(),
        utf8_len(s.take(i)) == offset,
    ensures
        char_index(s, offset) == i,
{
    let k = char_index(s, offset);
    assert(0 <= k <= s.len() && utf8_len(s.take(k)) == offset);
    if k < i {
        lemma_utf8_len_grows(s, k, i);
    } else if i < k {
        lemma_utf8_len_grows(s, i, k);
    }
}

/// Character positions keep the order of the byte offsets they stand for.
proof fn lemma_char_index_order(s: Seq<char>, a: int, b: int)
    requires
        is_boundary(s, a),
        is_boundary(s, b),
        a <= b,
    ensures
        0 <= char_index(s, a) <= char_index(s, b) <= s.len(),
{
    let i = char_index(s, a);
    let j = char_index(s, b);
    if j < i {
        lemma_utf8_len_grows(s, j, i);
    }
}

/// How many bytes `c` takes in UTF-8.
fn width(c: char) -> (r: usize)
    ensures
        r == utf8_width(c),
{
    let u: u32 = c as u32;
    if u < 0x80 {
        1
    } else if u < 0x800 {
        2
    } else if u < 0x1_0000 {
        3
    } else {
        4
    }
}

/// The position of the character that begins at byte `offset`.
fn char_position(text: &Vec<char>, offset: usize) -> (r: usize)
    requires
        is_boundary(text@, offset as int),
    ensures
        r <= text.len(),
        r == char_index(text@, offset as int),
{
    let ghost goal = char_index(text@, offset as int);
    let mut i: usize = 0;
    let mut at: usize = 0;
    assert(text@.take(0) =~= Seq::<char>::empty());
    while at < offset
        invariant
            i <= text.len(),
            at == utf8_len(text@.take(i as int)),
            at <= offset,
            0 <= goal <= text.len(),
            utf8_len(text@.take(goal)) == offset,
        decreases offset - at,
    {
        proof {
            if goal <= i {
                lemma_utf8_len_grows(text@, goal, i as int);
            }
            lemma_utf8_len_step(text@, i as int);
            lemma_utf8_len_grows(text@, i as int + 1, goal);
        }
        at = at + width(text[i]);
        i += 1;
    }
    proof {
        lemma_char_index(text@, offset as int, i as int);
    }
    i
}

/// A span in byte offsets as a span in character positions.
fn span_position(text: &Vec<char>, span: Span) -> (r: Span)
    requires
        byte_span_ok(text@, span),
    ensures
        r == char_span(text@, span),
        span_ok(text@.len(), r),
{
    proof {
        lemma_char_index_order(text@, span.start as int, span.end as int);
    }
    Span { start: char_position(text, span.start), end: char_position(text, span.end) }
}

/// A span in byte offsets, if there is one, as a span in character
/// positions.
fn span_opt_position(text: &Vec<char>, span: Option<Span>) -> (r: Option<Span>)
    requires
        byte_span_opt_ok(text@, span),
    ensures
        r == char_span_opt(text@, span),
        span_opt_ok(text@.len(), r),
{
    match span {
        Some(sp) => Some(span_position(text, sp)),
        None => None,
    }
}

/// All matches of `pattern` in `text`, from left to right, in character
/// positions; `None` where the pattern is rejected.
pub fn find_all(pattern: &str, text: &str) -> (r: Option<Vec<Capture>>)
    ensures
        r matches Some(v) ==> captures(pattern@, text@) == Some(v@) && captures_ok(
            text@.len(),
            v@,
        ),
        r is None ==> captures(pattern@, text@) is None,
{
    let found = match search(pattern, text) {
        Some(found) => found,
        None => return None,
    };
    let chars = to_chars(text);
    let mut out: Vec<Capture> = Vec::new();
    let mut i: usize = 0;
    while i < found.len()
        invariant
            i <= found.len(),
            chars@ == text@,
            byte_captures_ok(text@, found@),
            out.len() == i,
            forall|k: int| 0 <= k < i ==> #[trigger] out@[k] == char_capture(text@, found@[k]),
            forall|k: int|
                0 <= k < i ==> {
                    &&& span_ok(text@.len(), (#[trigger] out@[k]).whole)
                    &&& span_opt_ok(text@.len(), out@[k].first)
                    &&& span_opt_ok(text@.len(), out@[k].second)
                },
        decreases found.len() - i,
    {
        let c = found[i];
        let converted = Capture {
            whole: span_position(&chars, c.whole),
            first: span_opt_position(&chars, c.first),
            second: span_opt_position(&chars, c.second),
        };
        out.push(converted);
        i += 1;
    }
    proof {
        let want = Seq::new(found@.len(), |k: int| char_capture(text@, found@[k]));
        assert(out@ =~= want);
        assert forall|a: int, b: int| 0 <= a < b < out@.len() implies (#[trigger] out@[a]).whole.end
            <= (#[trigger] out@[b]).whole.start by {
            assert(found@[a].whole.end <= found@[b].whole.start);
            lemma_char_index_order(
                text@,
                found@[a].whole.end as int,
                found@[b].whole.start as int,
            );
        }
    }
    Some(out)
}

} // verus!
