//! Directives: tags that the user writes into a prompt. Two of them override a
//! parameter of the turn and are taken out of the prompt; two stand for files
//! or for a directory listing and are replaced by what they stand for.
//!
//! Where the directives lie is found with regular expressions. What is done
//! with them once they are found is stated here over the matches themselves.

use crate::level::MAX_LEVEL;
use crate::pattern::{captures, captures_ok, find_all, Capture, Span};
use crate::text::{
    from_chars, is_digit, is_ascii_digit, parse_u32, push_all, push_range, read_u32, slice,
    texts, to_chars,
};
use crate::transcript::{Message, MessageView, Role};
use vstd::prelude::*;

verus! {

/// The text that a span covers.
pub open spec fn span_text(text: Seq<char>, span: Span) -> Seq<char> {
    text.subrange(span.start as int, span.end as int)
}

/// Spans that lie within a text of `len` characters and follow each other
/// without overlap.
pub open spec fn spans_ok(len: nat, spans: Seq<Span>) -> bool {
    &&& forall|i: int| 0 <= i < spans.len() ==> (#[trigger] spans[i]).start <= spans[i].end <= len
    &&& forall|i: int, j: int|
        0 <= i < j < spans.len() ==> (#[trigger] spans[i]).end <= (#[trigger] spans[j]).start
}

/// Where the whole matches of some captures lie.
pub open spec fn wholes(caps: Seq<Capture>) -> Seq<Span> {
    Seq::new(caps.len(), |i: int| caps[i].whole)
}

/// What is left of `text` from `cursor` on, where each of the spans from the
/// `i`-th on gives way to its replacement and all else stays as it is.
pub open spec fn splice_from(
    text: Seq<char>,
    spans: Seq<Span>,
    with: Seq<Seq<char>>,
    i: int,
    cursor: int,
) -> Seq<char>
    decreases spans.len() - i,
{
    if i < 0 || i >= spans.len() {
        text.skip(cursor)
    } else {
        text.subrange(cursor, spans[i].start as int) + with[i] + splice_from(
            text,
            spans,
            with,
            i + 1,
            spans[i].end as int,
        )
    }
}

/// `text` with each span replaced by the replacement of the same index, and
/// nothing else changed.
pub open spec fn splice(text: Seq<char>, spans: Seq<Span>, with: Seq<Seq<char>>) -> Seq<char> {
    splice_from(text, spans, with, 0, 0)
}

/// `text` without what the spans cover.
pub open spec fn strip(text: Seq<char>, spans: Seq<Span>) -> Seq<char> {
    splice(text, spans, Seq::new(spans.len(), |i: int| Seq::<char>::empty()))
}

/// Replaces each span of `text` by the replacement of the same index, in one
/// pass from left to right.
pub fn splice_text(text: &Vec<char>, spans: &Vec<Span>, with: &Vec<Vec<char>>) -> (r: Vec<char>)
    requires
        spans_ok(text@.len(), spans@),
        with.len() == spans.len(),
    ensures
        r@ == splice(text@, spans@, texts(with@)),
{
    let mut out: Vec<char> = Vec::new();
    let mut cursor: usize = 0;
    let mut i: usize = 0;
    let ghost reps = texts(with@);
    assert(out@ + splice_from(text@, spans@, reps, 0, 0) =~= splice(text@, spans@, reps));
    while i < spans.len()
        invariant
            i <= spans.len(),
            with.len() == spans.len(),
            reps == texts(with@),
            spans_ok(text@.len(), spans@),
            cursor <= text.len(),
            i == 0 ==> cursor == 0,
            i > 0 ==> cursor == spans@[i - 1].end,
            out@ + splice_from(text@, spans@, reps, i as int, cursor as int) == splice(
                text@,
                spans@,
                reps,
            ),
        decreases spans.len() - i,
    {
        let sp = spans[i];
        let ghost before = out@;
        proof {
            assert(sp == spans@[i as int]);
            assert(sp.start <= sp.end <= text@.len());
            if i > 0 {
                assert(spans@[i as int - 1].end <= spans@[i as int].start);
            }
        }
        push_range(&mut out, text, cursor, sp.start);
        push_all(&mut out, &with[i]);
        proof {
            assert(reps[i as int] == with@[i as int]@);
            let tail = splice_from(text@, spans@, reps, i as int + 1, sp.end as int);
            assert(out@ + tail =~= before + (text@.subrange(cursor as int, sp.start as int)
                + reps[i as int] + tail));
        }
        cursor = sp.end;
        i += 1;
    }
    let ghost before = out@;
    push_range(&mut out, text, cursor, text.len());
    proof {
        assert(text@.skip(cursor as int) =~= text@.subrange(cursor as int, text@.len() as int));
        assert(out@ =~= before + splice_from(text@, spans@, reps, i as int, cursor as int));
    }
    out
}

/// The whole matches of some captures, and as many empty replacements.
fn wholes_and_blanks(caps: &Vec<Capture>) -> (r: (Vec<Span>, Vec<Vec<char>>))
    ensures
        r.0@ == wholes(caps@),
        r.1.len() == caps.len(),
        texts(r.1@) == Seq::new(caps@.len(), |i: int| Seq::<char>::empty()),
{
    let mut spans: Vec<Span> = Vec::new();
    let mut blanks: Vec<Vec<char>> = Vec::new();
    let mut i: usize = 0;
    while i < caps.len()
        invariant
            i <= caps.len(),
            spans.len() == i,
            blanks.len() == i,
            forall|k: int| 0 <= k < i ==> #[trigger] spans@[k] == caps@[k].whole,
            forall|k: int| 0 <= k < i ==> (#[trigger] blanks@[k])@.len() == 0,
        decreases caps.len() - i,
    {
        spans.push(caps[i].whole);
        blanks.push(Vec::new());
        i += 1;
    }
    assert(spans@ =~= wholes(caps@));
    assert forall|k: int| 0 <= k < blanks@.len() implies #[trigger] texts(blanks@)[k]
        == Seq::<char>::empty() by {
        assert(blanks@[k]@ =~= Seq::<char>::empty());
    }
    assert(texts(blanks@) =~= Seq::new(caps@.len(), |i: int| Seq::<char>::empty()));
    (spans, blanks)
}

/// The whole matches of captures that lie in order lie in order.
pub proof fn lemma_wholes_ok(len: nat, caps: Seq<Capture>)
    requires
        captures_ok(len, caps),
    ensures
        spans_ok(len, wholes(caps)),
{
    let w = wholes(caps);
    assert forall|i: int| 0 <= i < w.len() implies (#[trigger] w[i]).start <= w[i].end <= len by {
        assert(caps[i].whole == w[i]);
    }
    assert forall|i: int, j: int| 0 <= i < j < w.len() implies (#[trigger] w[i]).end <= (
    #[trigger] w[j]).start by {
        assert(caps[i].whole.end <= caps[j].whole.start);
    }
}

/// The two directives that override a parameter of the turn.
#[derive(Clone, Copy, Debug, PartialEq, Eq, Structural)]
pub enum Override {
    /// `@t:L<n>` sets the token-budget level.
    TokenBudget,
    /// `@p:<number>` sets the sampling temperature.
    Temperature,
}

/// The regular expression that finds an override directive. Its one group
/// is the directive's value.
pub open spec fn override_pattern(kind: Override) -> Seq<char> {
    match kind {
        Override::TokenBudget => "@t\\s*:\\s*L(\\d+)"@,
        Override::Temperature => "@p\\s*:\\s*(\\d*\\.?\\d+)"@,
    }
}

/// The regular expression that finds an override directive.
pub fn pattern_of(kind: Override) -> (r: &'static str)
    ensures
        r@ == override_pattern(kind),
{
    match kind {
        Override::TokenBudget => "@t\\s*:\\s*L(\\d+)",
        Override::Temperature => "@p\\s*:\\s*(\\d*\\.?\\d+)",
    }
}

/// A number in ASCII digits with at most one point in it, which is not its
/// last character.
pub open spec fn is_decimal(s: Seq<char>) -> bool {
    &&& s.len() > 0
    &&& is_digit(s.last())
    &&& forall|i: int| 0 <= i < s.len() ==> is_digit(#[trigger] s[i]) || s[i] == '.'
    &&& forall|i: int, j: int| 0 <= i < j < s.len() ==> !(#[trigger] s[i] == '.' && #[trigger] s[j] == '.')
}

/// Whether a directive's value can be used: a level is a number that fits in
/// 32 bits, a temperature a decimal number. A directive whose value cannot be
/// used is taken out like the others and sets nothing.
pub open spec fn is_value(kind: Override, token: Seq<char>) -> bool {
    match kind {
        Override::TokenBudget => parse_u32(token) is Some,
        Override::Temperature => is_decimal(token),
    }
}

/// The value of one match, if it has one that can be used.
pub open spec fn value_of(kind: Override, text: Seq<char>, cap: Capture) -> Option<Seq<char>> {
    match cap.first {
        Some(sp) => if is_value(kind, span_text(text, sp)) {
            Some(span_text(text, sp))
        } else {
            None
        },
        None => None,
    }
}

/// The value of the last match that has one.
pub open spec fn last_value(kind: Override, text: Seq<char>, caps: Seq<Capture>) -> Option<
    Seq<char>,
>
    decreases caps.len(),
{
    if caps.len() == 0 {
        None
    } else {
        match value_of(kind, text, caps.last()) {
            Some(v) => Some(v),
            None => last_value(kind, text, caps.drop_last()),
        }
    }
}

/// The text of an optional string.
pub open spec fn opt_text(s: Option<String>) -> Option<Seq<char>> {
    match s {
        Some(s) => Some(s@),
        None => None,
    }
}

/// Whether `text[lo..hi]` is a decimal number.
fn check_decimal(text: &Vec<char>, lo: usize, hi: usize) -> (r: bool)
    requires
        lo <= hi <= text.len(),
    ensures
        r == is_decimal(text@.subrange(lo as int, hi as int)),
{
    let ghost s = text@.subrange(lo as int, hi as int);
    if lo == hi {
        return false;
    }
    assert(s.last() == text@[hi - 1]);
    if !is_ascii_digit(text[hi - 1]) {
        return false;
    }
    let mut seen: bool = false;
    let ghost mut at: int = 0;
    let mut i: usize = lo;
    while i < hi
        invariant
            lo <= i <= hi <= text.len(),
            s == text@.subrange(lo as int, hi as int),
            forall|k: int| 0 <= k < i - lo ==> is_digit(#[trigger] s[k]) || s[k] == '.',
            forall|k: int, j: int|
                0 <= k < j < i - lo ==> !(#[trigger] s[k] == '.' && #[trigger] s[j] == '.'),
            seen ==> 0 <= at < i - lo && s[at] == '.',
            !seen ==> forall|k: int| 0 <= k < i - lo ==> #[trigger] s[k] != '.',
        decreases hi - i,
    {
        let c = text[i];
        assert(s[i - lo] == c);
        if c == '.' {
            if seen {
                assert(s[at] == '.' && s[i - lo] == '.');
                return false;
            }
            seen = true;
            proof {
                at = i - lo;
            }
        } else if !is_ascii_digit(c) {
            return false;
        }
        i += 1;
    }
    true
}

/// Whether `text[lo..hi]` is a value that the directive can use.
fn check_value(kind: Override, text: &Vec<char>, lo: usize, hi: usize) -> (r: bool)
    requires
        lo <= hi <= text.len(),
    ensures
        r == is_value(kind, text@.subrange(lo as int, hi as int)),
{
    match kind {
        Override::TokenBudget => read_u32(text, lo, hi).is_some(),
        Override::Temperature => check_decimal(text, lo, hi),
    }
}

/// Takes the override directives that `caps` locates out of `content` and
/// hands back what is left, with the value of the last directive that has
/// one.
pub fn extract_override(kind: Override, content: &str, caps: &Vec<Capture>) -> (r: (
    String,
    Option<String>,
))
    requires
        captures_ok(content@.len(), caps@),
    ensures
        r.0@ == strip(content@, wholes(caps@)),
        opt_text(r.1) == last_value(kind, content@, caps@),
{
    let chars = to_chars(content);
    let mut value: Option<String> = None;
    let mut i: usize = 0;
    assert(caps@.take(0) =~= Seq::<Capture>::empty());
    while i < caps.len()
        invariant
            i <= caps.len(),
            chars@ == content@,
            captures_ok(content@.len(), caps@),
            opt_text(value) == last_value(kind, content@, caps@.take(i as int)),
        decreases caps.len() - i,
    {
        let ghost upto = caps@.take(i as int + 1);
        proof {
            assert(upto.last() == caps@[i as int]);
            assert(upto.drop_last() =~= caps@.take(i as int));
        }
        match caps[i].first {
            Some(sp) => {
                if check_value(kind, &chars, sp.start, sp.end) {
                    let token = slice(&chars, sp.start, sp.end);
                    value = Some(from_chars(&token));
                }
            },
            None => {},
        }
        i += 1;
    }
    assert(caps@.take(caps@.len() as int) =~= caps@);
    let (spans, blanks) = wholes_and_blanks(caps);
    proof {
        lemma_wholes_ok(content@.len(), caps@);
    }
    let stripped = splice_text(&chars, &spans, &blanks);
    (from_chars(&stripped), value)
}

/// What taking the override directives out of a text gives: `None` where the
/// pattern is rejected, else what is left of the text and the value of the
/// last directive that has one.
pub open spec fn override_of(kind: Override, content: Seq<char>) -> Option<
    (Seq<char>, Option<Seq<char>>),
> {
    match captures(override_pattern(kind), content) {
        Some(caps) => Some((strip(content, wholes(caps)), last_value(kind, content, caps))),
        None => None,
    }
}

/// Finds the override directives in `content`, takes them out and hands
/// back what is left, with the value of the last directive that has one.
pub fn take_override(kind: Override, content: &str) -> (r: Option<(String, Option<String>)>)
    ensures
        match override_of(kind, content@) {
            Some((rest, value)) => r matches Some((s, v)) && s@ == rest && opt_text(v) == value,
            None => r is None,
        },
{
    match find_all(pattern_of(kind), content) {
        Some(caps) => Some(extract_override(kind, content, &caps)),
        None => None,
    }
}

/// The later of two values: `next` where it is there, else `prev`.
pub open spec fn later(prev: Option<Seq<char>>, next: Option<Seq<char>>) -> Option<Seq<char>> {
    match next {
        Some(v) => Some(v),
        None => prev,
    }
}

/// What taking the override directives out of every message of the user
/// gives: the messages without them, and the value of the last directive
/// that has one, whichever message it stands in. Messages of other roles are
/// not looked at. `None` where the pattern is rejected.
pub open spec fn overrides_of(kind: Override, messages: Seq<MessageView>) -> Option<
    (Seq<MessageView>, Option<Seq<char>>),
>
    decreases messages.len(),
{
    if messages.len() == 0 {
        Some((seq![], None))
    } else {
        let m = messages.last();
        match overrides_of(kind, messages.drop_last()) {
            Some((done, value)) => if m.role == Role::User {
                match override_of(kind, m.content) {
                    Some((rest, v)) => Some(
                        (done.push(MessageView { role: m.role, content: rest }), later(value, v)),
                    ),
                    None => None,
                }
            } else {
                Some((done.push(m), value))
            },
            None => None,
        }
    }
}

/// Takes the override directives of one kind out of every message of the
/// user.
pub fn take_overrides(kind: Override, messages: &Vec<Message>) -> (r: Option<
    (Vec<Message>, Option<String>),
>)
    ensures
        match overrides_of(kind, messages.deep_view()) {
            Some((done, value)) => r matches Some((ms, v)) && ms.deep_view() == done && opt_text(v)
                == value,
            None => r is None,
        },
{
    let mut out: Vec<Message> = Vec::new();
    let mut value: Option<String> = None;
    let mut i: usize = 0;
    let ghost all = messages.deep_view();
    assert(all.take(0) =~= Seq::<MessageView>::empty());
    assert(out.deep_view() =~= Seq::<MessageView>::empty());
    while i < messages.len()
        invariant
            i <= messages.len(),
            all == messages.deep_view(),
            out.len() == i,
            overrides_of(kind, all.take(i as int)) == Some((out.deep_view(), opt_text(value))),
        decreases messages.len() - i,
    {
        let m = &messages[i];
        let ghost upto = all.take(i as int + 1);
        let ghost before = out.deep_view();
        proof {
            assert(upto.last() == m@);
            assert(upto.drop_last() =~= all.take(i as int));
        }
        if m.role == Role::User {
            match take_override(kind, m.content.as_str()) {
                Some((rest, v)) => {
                    out.push(Message { role: m.role, content: rest });
                    if v.is_some() {
                        value = v;
                    }
                },
                None => {
                    proof {
                        lemma_overrides_fail(kind, all, i as int + 1);
                    }
                    return None;
                },
            }
        } else {
            out.push(m.duplicate());
        }
        proof {
            assert(out.deep_view() =~= before.push(out@[i as int]@));
        }
        i += 1;
    }
    assert(all.take(messages.len() as int) =~= all);
    Some((out, value))
}

/// Once the pattern is rejected on a message, the whole fails.
proof fn lemma_overrides_fail(kind: Override, messages: Seq<MessageView>, n: int)
    requires
        0 <= n <= messages.len(),
        overrides_of(kind, messages.take(n)) is None,
    ensures
        overrides_of(kind, messages) is None,
    decreases messages.len() - n,
{
    if n < messages.len() {
        assert(messages.take(n + 1).drop_last() =~= messages.take(n));
        lemma_overrides_fail(kind, messages, n + 1);
    } else {
        assert(messages.take(n) =~= messages);
    }
}

/// The value that the directives of one text give, if they give one.
pub open spec fn value_in(kind: Override, content: Seq<char>) -> Option<Seq<char>> {
    match override_of(kind, content) {
        Some((_, value)) => value,
        None => None,
    }
}

/// The value that the directives of a turn give, if they give one.
pub open spec fn turn_value(kind: Override, messages: Seq<MessageView>) -> Option<Seq<char>> {
    match overrides_of(kind, messages) {
        Some((_, value)) => value,
        None => None,
    }
}

/// The messages of a turn without their directives of one kind.
pub open spec fn messages_left(kind: Override, messages: Seq<MessageView>) -> Seq<MessageView> {
    match overrides_of(kind, messages) {
        Some((done, _)) => done,
        None => seq![],
    }
}

/// Taking the directives out leaves every message in its place and under its
/// role: a message of the user is left without what the pattern matched in
/// it, and any other message is left as it was.
pub proof fn law_every_directive_is_taken_out(kind: Override, messages: Seq<MessageView>)
    requires
        overrides_of(kind, messages) is Some,
    ensures
        ({
            let done = messages_left(kind, messages);
            &&& done.len() == messages.len()
            &&& forall|i: int|
                0 <= i < messages.len() ==> {
                    &&& (#[trigger] done[i]).role == messages[i].role
                    &&& messages[i].role != Role::User ==> done[i] == messages[i]
                    &&& messages[i].role == Role::User ==> {
                        &&& captures(override_pattern(kind), messages[i].content) matches Some(caps)
                        &&& done[i].content == strip(messages[i].content, wholes(caps))
                    }
                }
        }),
    decreases messages.len(),
{
    if messages.len() > 0 {
        let shorter = messages.drop_last();
        law_every_directive_is_taken_out(kind, shorter);
        let before = messages_left(kind, shorter);
        let done = messages_left(kind, messages);
        assert forall|i: int| 0 <= i < messages.len() implies {
            &&& (#[trigger] done[i]).role == messages[i].role
            &&& messages[i].role != Role::User ==> done[i] == messages[i]
            &&& messages[i].role == Role::User ==> {
                &&& captures(override_pattern(kind), messages[i].content) matches Some(caps)
                &&& done[i].content == strip(messages[i].content, wholes(caps))
            }
        } by {
            if i < shorter.len() {
                assert(done[i] == before[i]);
                assert(shorter[i] == messages[i]);
            }
        }
    }
}

/// The last directive that has a value decides, whichever message of the
/// user it stands in: where message `i` is the user's and has a value, and no
/// message of the user behind it has one, that value is the turn's.
pub proof fn law_last_directive_wins(kind: Override, messages: Seq<MessageView>, i: int)
    requires
        overrides_of(kind, messages) is Some,
        0 <= i < messages.len(),
        messages[i].role == Role::User,
        value_in(kind, messages[i].content) is Some,
        forall|j: int|
            i < j < messages.len() && messages[j].role == Role::User ==> (#[trigger] value_in(
                kind,
                messages[j].content,
            )) is None,
    ensures
        turn_value(kind, messages) == value_in(kind, messages[i].content),
    decreases messages.len(),
{
    let shorter = messages.drop_last();
    if i < messages.len() - 1 {
        assert(shorter[i] == messages[i]);
        assert forall|j: int| i < j < shorter.len() && shorter[j].role == Role::User implies (
        #[trigger] value_in(kind, shorter[j].content)) is None by {
            assert(shorter[j] == messages[j]);
        }
        law_last_directive_wins(kind, shorter, i);
        if messages.last().role == Role::User {
            assert(value_in(kind, messages[messages.len() - 1].content) is None);
        }
    }
}

/// Where no message of the user has a directive with a value, the turn has
/// none.
pub proof fn law_no_directive_no_value(kind: Override, messages: Seq<MessageView>)
    requires
        overrides_of(kind, messages) is Some,
        forall|j: int|
            0 <= j < messages.len() && messages[j].role == Role::User ==> (#[trigger] value_in(
                kind,
                messages[j].content,
            )) is None,
    ensures
        turn_value(kind, messages) is None,
    decreases messages.len(),
{
    if messages.len() > 0 {
        let shorter = messages.drop_last();
        assert forall|j: int| 0 <= j < shorter.len() && shorter[j].role == Role::User implies (
        #[trigger] value_in(kind, shorter[j].content)) is None by {
            assert(shorter[j] == messages[j]);
        }
        law_no_directive_no_value(kind, shorter);
        if messages.last().role == Role::User {
            assert(value_in(kind, messages[messages.len() - 1].content) is None);
        }
    }
}

/// The texts that some spans cover.
pub open spec fn span_texts(text: Seq<char>, spans: Seq<Span>) -> Seq<Seq<char>> {
    Seq::new(spans.len(), |i: int| span_text(text, spans[i]))
}

/// From any place between two spans on, replacing every span by the text it
/// covers gives the rest of the text.
proof fn lemma_splice_own_text(text: Seq<char>, spans: Seq<Span>, i: int, cursor: int)
    requires
        spans_ok(text.len(), spans),
        0 <= i <= spans.len(),
        0 <= cursor <= text.len(),
        i < spans.len() ==> cursor <= spans[i].start,
    ensures
        splice_from(text, spans, span_texts(text, spans), i, cursor) == text.skip(cursor),
    decreases spans.len() - i,
{
    if i < spans.len() {
        let sp = spans[i];
        if i + 1 < spans.len() {
            assert(spans[i].end <= spans[i + 1].start);
        }
        lemma_splice_own_text(text, spans, i + 1, sp.end as int);
        assert(text.subrange(cursor, sp.start as int) + span_text(text, sp) + text.skip(
            sp.end as int,
        ) =~= text.skip(cursor));
    }
}

/// Replacing every span by the text it covers changes nothing: whatever the
/// spans, what is not replaced stays where it is and as it is.
pub proof fn law_splice_with_own_text(text: Seq<char>, spans: Seq<Span>)
    requires
        spans_ok(text.len(), spans),
    ensures
        splice(text, spans, span_texts(text, spans)) == text,
{
    lemma_splice_own_text(text, spans, 0, 0);
    assert(text.skip(0) =~= text);
}

/// How much longer the text has become before the `i`-th span: the lengths
/// of the replacements before it, less the lengths of what they replace.
pub open spec fn growth_before(spans: Seq<Span>, with: Seq<Seq<char>>, i: int) -> int
    decreases i,
{
    if i <= 0 {
        0
    } else {
        growth_before(spans, with, i - 1) + with[i - 1].len() - (spans[i - 1].end - spans[i
            - 1].start)
    }
}

/// Where the text before the `i`-th span has been dealt with: at the end of
/// the span before it, or at the start of the text.
pub open spec fn end_before(spans: Seq<Span>, i: int) -> int {
    if i <= 0 {
        0
    } else {
        spans[i - 1].end as int
    }
}

/// The spliced text up to the end of the replacement before the `i`-th span.
pub open spec fn spliced_before(text: Seq<char>, spans: Seq<Span>, with: Seq<Seq<char>>, i: int) -> Seq<
    char,
>
    decreases i,
{
    if i <= 0 {
        seq![]
    } else {
        spliced_before(text, spans, with, i - 1) + text.subrange(
            end_before(spans, i - 1),
            spans[i - 1].start as int,
        ) + with[i - 1]
    }
}

/// The spliced text is what was spliced before the `i`-th span, followed by
/// what the splicing gives from there on.
proof fn lemma_spliced_before(text: Seq<char>, spans: Seq<Span>, with: Seq<Seq<char>>, i: int)
    requires
        spans_ok(text.len(), spans),
        with.len() == spans.len(),
        0 <= i <= spans.len(),
    ensures
        splice(text, spans, with) == spliced_before(text, spans, with, i) + splice_from(
            text,
            spans,
            with,
            i,
            end_before(spans, i),
        ),
        spliced_before(text, spans, with, i).len() == end_before(spans, i) + growth_before(
            spans,
            with,
            i,
        ),
        0 <= end_before(spans, i) <= text.len(),
        i < spans.len() ==> end_before(spans, i) <= spans[i].start,
    decreases i,
{
    if i > 0 {
        lemma_spliced_before(text, spans, with, i - 1);
        let head = spliced_before(text, spans, with, i - 1);
        let gap = text.subrange(end_before(spans, i - 1), spans[i - 1].start as int);
        let tail = splice_from(text, spans, with, i, spans[i - 1].end as int);
        assert(head + (gap + with[i - 1] + tail) =~= head + gap + with[i - 1] + tail);
        if i < spans.len() {
            assert(spans[i - 1].end <= spans[i].start);
        }
    } else {
        assert(spliced_before(text, spans, with, 0) + splice(text, spans, with) =~= splice(
            text,
            spans,
            with,
        ));
    }
}

/// Splicing keeps the order. The `i`-th replacement stands where the `i`-th
/// span stood, moved by as much as the replacements before it made the text
/// grow; and directly before it stands, unchanged, what stood between the
/// span before and this one.
pub proof fn law_splice_keeps_order(text: Seq<char>, spans: Seq<Span>, with: Seq<Seq<char>>, i: int)
    requires
        spans_ok(text.len(), spans),
        with.len() == spans.len(),
        0 <= i < spans.len(),
    ensures
        ({
            let out = splice(text, spans, with);
            let moved = growth_before(spans, with, i);
            let from = end_before(spans, i);
            let start = spans[i].start as int;
            &&& 0 <= from + moved <= start + moved
            &&& start + moved + with[i].len() <= out.len()
            &&& out.subrange(from + moved, start + moved) == text.subrange(from, start)
            &&& out.subrange(start + moved, start + moved + with[i].len()) == with[i]
        }),
{
    lemma_spliced_before(text, spans, with, i);
    let out = splice(text, spans, with);
    let head = spliced_before(text, spans, with, i);
    let gap = text.subrange(end_before(spans, i), spans[i].start as int);
    let tail = splice_from(text, spans, with, i + 1, spans[i].end as int);
    assert(out =~= head + (gap + with[i] + tail));
    let moved = growth_before(spans, with, i);
    let from = end_before(spans, i);
    let start = spans[i].start as int;
    assert(out.subrange(from + moved, start + moved) =~= gap);
    assert(out.subrange(start + moved, start + moved + with[i].len()) =~= with[i]);
}

/// Behind the last replacement stands, unchanged, what stood behind the
/// last span; and the spliced text has the length of the text, less what the
/// spans cover, plus what replaces them.
pub proof fn law_splice_keeps_the_rest(text: Seq<char>, spans: Seq<Span>, with: Seq<Seq<char>>)
    requires
        spans_ok(text.len(), spans),
        with.len() == spans.len(),
    ensures
        ({
            let out = splice(text, spans, with);
            let n = spans.len() as int;
            let moved = growth_before(spans, with, n);
            let from = end_before(spans, n);
            &&& out.len() == text.len() + moved
            &&& 0 <= from + moved <= out.len()
            &&& out.skip(from + moved) == text.skip(from)
        }),
{
    let n = spans.len() as int;
    lemma_spliced_before(text, spans, with, n);
    let out = splice(text, spans, with);
    let head = spliced_before(text, spans, with, n);
    assert(out =~= head + text.skip(end_before(spans, n)));
    assert(out.skip(head.len() as int) =~= text.skip(end_before(spans, n)));
}

/// The parameters of a turn.
#[derive(Clone, Debug, PartialEq, Eq)]
pub struct TurnParameters {
    /// The token-budget level to start the turn with.
    pub level: u32,
    /// The level that a directive asked for, if one did. It may lie above
    /// `MAX_LEVEL`; `level` does not.
    pub level_override: Option<u32>,
    /// The temperature that a directive asked for, if one did, as it was
    /// written.
    pub temperature_override: Option<String>,
}

/// The messages of a turn without their override directives, and the
/// parameters that the directives and the defaults give.
#[derive(Clone, Debug, PartialEq, Eq)]
pub struct Turn {
    pub messages: Vec<Message>,
    pub parameters: TurnParameters,
}

/// The level that a turn starts with: the level asked for, capped at
/// `MAX_LEVEL`, or the default where none was asked for.
pub open spec fn effective_level(asked: Option<u32>, default_level: u32) -> u32 {
    match asked {
        Some(level) => if level > MAX_LEVEL {
            MAX_LEVEL
        } else {
            level
        },
        None => default_level,
    }
}

/// The number that a level directive's value stands for.
pub open spec fn level_value(token: Option<Seq<char>>) -> Option<u32> {
    match token {
        Some(t) => parse_u32(t),
        None => None,
    }
}

/// A turn as the contracts see it.
pub struct TurnView {
    pub messages: Seq<MessageView>,
    pub level: u32,
    pub level_override: Option<u32>,
    pub temperature_override: Option<Seq<char>>,
}

impl View for Turn {
    type V = TurnView;

    open spec fn view(&self) -> TurnView {
        TurnView {
            messages: self.messages.deep_view(),
            level: self.parameters.level,
            level_override: self.parameters.level_override,
            temperature_override: opt_text(self.parameters.temperature_override),
        }
    }
}

/// What resolving the parameters of a turn gives. The level directives are
/// taken out first, the temperature directives after them, from what is then
/// left. `None` where a pattern is rejected.
pub open spec fn resolved(messages: Seq<MessageView>, default_level: u32) -> Option<TurnView> {
    match overrides_of(Override::TokenBudget, messages) {
        Some((first, level)) => match overrides_of(Override::Temperature, first) {
            Some((second, temperature)) => Some(
                TurnView {
                    messages: second,
                    level: effective_level(level_value(level), default_level),
                    level_override: level_value(level),
                    temperature_override: temperature,
                },
            ),
            None => None,
        },
        None => None,
    }
}

/// Resolves the parameters of a turn: takes every override directive out of
/// the messages of the user, and lets the last directive of each kind decide,
/// whichever message it stands in.
pub fn resolve_turn_parameters(messages: &Vec<Message>, default_level: u32) -> (r: Option<Turn>)
    ensures
        match resolved(messages.deep_view(), default_level) {
            Some(turn) => r matches Some(t) && t@ == turn,
            None => r is None,
        },
        r matches Some(t) ==> default_level <= MAX_LEVEL ==> t.parameters.level <= MAX_LEVEL,
{
    let (first, level) = match take_overrides(Override::TokenBudget, messages) {
        Some(pair) => pair,
        None => return None,
    };
    let (second, temperature) = match take_overrides(Override::Temperature, &first) {
        Some(pair) => pair,
        None => return None,
    };
    let asked: Option<u32> = match level {
        Some(token) => {
            let chars = to_chars(token.as_str());
            assert(chars@.subrange(0, chars@.len() as int) =~= chars@);
            read_u32(&chars, 0, chars.len())
        },
        None => None,
    };
    let level: u32 = match asked {
        Some(l) => if l > MAX_LEVEL {
            MAX_LEVEL
        } else {
            l
        },
        None => default_level,
    };
    Some(
        Turn {
            messages: second,
            parameters: TurnParameters {
                level,
                level_override: asked,
                temperature_override: temperature,
            },
        },
    )
}

} // verus!
