//! Writing messages out in the form in which replies are appended, and
//! reading them back: what the parser gave, it gives again.

use crate::text::{
    first_index_of, is_trimmed, is_whitespace, lemma_first_index_of, lemma_first_index_of_is,
    lemma_leading_space, lemma_leading_space_is, lemma_trailing_space, lemma_trailing_space_is,
    lemma_trim_of_trimmed, lines, strip_cr, trim, trim_start,
};
use crate::transcript::{
    assistant_marker, flush, marker_role, parse, parse_lines, reply_block, user_marker,
    MessageView, Role,
};
use vstd::prelude::*;

verus! {

/// The marker line under which a role's messages are written. The parser
/// knows two roles: what is not the assistant's is written as the user's.
pub open spec fn marker_of(role: Role) -> Seq<char> {
    match role {
        Role::Assistant => assistant_marker(),
        _ => user_marker(),
    }
}

/// A message as it is appended to a transcript: on a new line its marker,
/// below the marker its text, and a line feed behind the text.
pub open spec fn written(m: MessageView) -> Seq<char> {
    seq!['\n'] + marker_of(m.role) + seq!['\n'] + m.content + seq!['\n']
}

/// The transcript that holds the given messages, each as it is appended.
pub open spec fn transcript_of(messages: Seq<MessageView>) -> Seq<char>
    decreases messages.len(),
{
    if messages.len() == 0 {
        seq![]
    } else {
        written(messages[0]) + transcript_of(messages.drop_first())
    }
}

/// Whether a carriage return stands directly before a line feed.
pub open spec fn has_crlf(s: Seq<char>) -> bool {
    exists|i: int| 0 <= i < s.len() - 1 && #[trigger] s[i] == '\r' && s[i + 1] == '\n'
}

/// Whether a line of the text is a marker.
pub open spec fn has_marker_line(s: Seq<char>) -> bool {
    exists|k: int| 0 <= k < lines(s).len() && marker_role(#[trigger] lines(s)[k]) is Some
}

/// A message that can be written and read back: it is the user's or the
/// assistant's, its text is trimmed and not empty, no line of the text is a
/// marker, and no carriage return in it stands before a line feed.
pub open spec fn survives(m: MessageView) -> bool {
    &&& m.role != Role::System
    &&& m.content.len() > 0
    &&& is_trimmed(m.content)
    &&& !has_crlf(m.content)
    &&& !has_marker_line(m.content)
}

/// Every message can be written and read back.
pub open spec fn all_survive(messages: Seq<MessageView>) -> bool {
    forall|i: int| 0 <= i < messages.len() ==> survives(#[trigger] messages[i])
}

/// The lines, each followed by a line feed.
pub open spec fn joined(ls: Seq<Seq<char>>) -> Seq<char>
    decreases ls.len(),
{
    if ls.len() == 0 {
        seq![]
    } else {
        ls[0] + seq!['\n'] + joined(ls.drop_first())
    }
}

/// What the two markers look like: neither is empty or holds a line feed,
/// both end in a colon, and each opens the turn of its own role.
proof fn lemma_markers()
    ensures
        user_marker().len() == 12,
        assistant_marker().len() == 14,
        !user_marker().contains('\n'),
        !assistant_marker().contains('\n'),
        user_marker().last() == ':',
        assistant_marker().last() == ':',
        marker_role(user_marker()) == Some(Role::User),
        marker_role(assistant_marker()) == Some(Role::Assistant),
        marker_role(seq![]) is None,
{
    reveal_strlit("USER PROMPT:");
    reveal_strlit("GROK RESPONSE:");
    let u = user_marker();
    let a = assistant_marker();
    assert(u.len() == 12);
    assert(a.len() == 14);
    assert forall|i: int| 0 <= i < u.len() implies u[i] != '\n' by {
        assert(u[0] == 'U' && u[1] == 'S' && u[2] == 'E' && u[3] == 'R' && u[4] == ' ' && u[5]
            == 'P' && u[6] == 'R' && u[7] == 'O' && u[8] == 'M' && u[9] == 'P' && u[10] == 'T'
            && u[11] == ':');
    }
    assert forall|i: int| 0 <= i < a.len() implies a[i] != '\n' by {
        assert(a[0] == 'G' && a[1] == 'R' && a[2] == 'O' && a[3] == 'K' && a[4] == ' ' && a[5]
            == 'R' && a[6] == 'E' && a[7] == 'S' && a[8] == 'P' && a[9] == 'O' && a[10] == 'N'
            && a[11] == 'S' && a[12] == 'E' && a[13] == ':');
    }
    assert(u[11] == ':');
    assert(a[13] == ':');
    assert(Seq::<char>::empty().len() == 0);
}

/// The lines of two texts of which the first ends in a line feed are the
/// lines of the first, then those of the second.
proof fn lemma_lines_concat(a: Seq<char>, b: Seq<char>)
    requires
        a.len() > 0 ==> a.last() == '\n',
    ensures
        lines(a + b) == lines(a) + lines(b),
    decreases a.len(),
{
    if a.len() == 0 {
        assert(a + b =~= b);
        assert(lines(a) + lines(b) =~= lines(b));
    } else {
        let i = first_index_of(a, '\n');
        lemma_first_index_of(a, '\n');
        assert(i < a.len()) by {
            if i >= a.len() {
                assert(a[a.len() - 1] != '\n');
            }
        }
        let ab = a + b;
        assert forall|k: int| 0 <= k < i implies #[trigger] ab[k] != '\n' by {
            assert(ab[k] == a[k]);
        }
        assert(ab[i] == a[i]);
        lemma_first_index_of_is(ab, '\n', i);
        assert(ab.take(i) =~= a.take(i));
        assert(ab.skip(i + 1) =~= a.skip(i + 1) + b);
        let rest = a.skip(i + 1);
        if rest.len() > 0 {
            assert(rest.last() == a.last());
        }
        lemma_lines_concat(rest, b);
        assert(lines(ab) =~= lines(a) + lines(b));
    }
}

/// A line feed behind a text that ends in neither a line feed nor a carriage
/// return gives no new line.
proof fn lemma_lines_terminated(c: Seq<char>)
    requires
        c.len() > 0,
        c.last() != '\n',
        c.last() != '\r',
    ensures
        lines(c + seq!['\n']) == lines(c),
    decreases c.len(),
{
    let i = first_index_of(c, '\n');
    lemma_first_index_of(c, '\n');
    let cn = c + seq!['\n'];
    assert forall|k: int| 0 <= k < i implies #[trigger] cn[k] != '\n' by {
        assert(cn[k] == c[k]);
    }
    if i >= c.len() {
        assert(cn[c.len() as int] == '\n');
        lemma_first_index_of_is(cn, '\n', c.len() as int);
        assert(cn.take(c.len() as int) =~= c);
        assert(cn.skip(c.len() as int + 1).len() == 0);
        assert(lines(cn.skip(c.len() as int + 1)) =~= Seq::<Seq<char>>::empty());
        assert(strip_cr(c) == c);
        assert(lines(cn) =~= seq![c]);
    } else {
        assert(cn[i] == c[i]);
        lemma_first_index_of_is(cn, '\n', i);
        assert(i < c.len() - 1);
        let rest = c.skip(i + 1);
        assert(rest.last() == c.last());
        lemma_lines_terminated(rest);
        assert(cn.take(i) =~= c.take(i));
        assert(cn.skip(i + 1) =~= rest + seq!['\n']);
    }
}

/// The lines of a text that ends in a line feed, joined again, are the text,
/// unless a carriage return before a line feed was lost.
proof fn lemma_joined_lines(s: Seq<char>)
    requires
        s.len() > 0 ==> s.last() == '\n',
        !has_crlf(s),
    ensures
        joined(lines(s)) == s,
    decreases s.len(),
{
    if s.len() == 0 {
        assert(joined(lines(s)) =~= s);
    } else {
        let i = first_index_of(s, '\n');
        lemma_first_index_of(s, '\n');
        assert(i < s.len()) by {
            if i >= s.len() {
                assert(s[s.len() - 1] != '\n');
            }
        }
        let head = s.take(i);
        let rest = s.skip(i + 1);
        assert(strip_cr(head) == head) by {
            if head.len() > 0 && head.last() == '\r' {
                assert(s[i - 1] == '\r' && s[i - 1 + 1] == '\n');
            }
        }
        if rest.len() > 0 {
            assert(rest.last() == s.last());
        }
        assert(!has_crlf(rest)) by {
            if has_crlf(rest) {
                let k = choose|k: int| 0 <= k < rest.len() - 1 && #[trigger] rest[k] == '\r' && rest[k
                    + 1] == '\n';
                assert(s[k + i + 1] == '\r' && s[k + i + 1 + 1] == '\n');
            }
        }
        lemma_joined_lines(rest);
        let ls = lines(s);
        assert(ls[0] == head);
        assert(ls.drop_first() =~= lines(rest));
        assert(joined(ls) =~= head + seq!['\n'] + rest);
        assert(head + seq!['\n'] + rest =~= s);
    }
}

/// Lines of which none is a marker all join the open section.
proof fn lemma_lines_join_section(
    ls: Seq<Seq<char>>,
    tail: Seq<Seq<char>>,
    role: Option<Role>,
    body: Seq<char>,
)
    requires
        forall|k: int| 0 <= k < ls.len() ==> marker_role(#[trigger] ls[k]) is None,
    ensures
        parse_lines(ls + tail, role, body) == parse_lines(tail, role, body + joined(ls)),
    decreases ls.len(),
{
    if ls.len() == 0 {
        assert(ls + tail =~= tail);
        assert(body + joined(ls) =~= body);
    } else {
        let all = ls + tail;
        assert(all[0] == ls[0]);
        assert(all.drop_first() =~= ls.drop_first() + tail);
        assert forall|k: int| 0 <= k < ls.drop_first().len() implies marker_role(
            #[trigger] ls.drop_first()[k],
        ) is None by {
            assert(ls.drop_first()[k] == ls[k + 1]);
        }
        lemma_lines_join_section(ls.drop_first(), tail, role, body + ls[0] + seq!['\n']);
        assert(body + ls[0] + seq!['\n'] + joined(ls.drop_first()) =~= body + joined(ls));
    }
}

/// White space behind a text does not change what trimming leaves of it.
proof fn lemma_trim_ignores_line_feed(s: Seq<char>)
    ensures
        trim(s + seq!['\n']) == trim(s),
{
    let t = s + seq!['\n'];
    assert(is_whitespace('\n'));
    lemma_leading_space(s);
    let a = crate::text::leading_space(s) as int;
    if a == s.len() {
        // all of `s` is white space, and so is all of `t`
        assert forall|k: int| 0 <= k < t.len() implies is_whitespace(#[trigger] t[k]) by {
            if k < s.len() {
                assert(t[k] == s[k]);
            }
        }
        lemma_leading_space_is(t, t.len() as int);
        assert(trim_start(t).len() == 0);
        assert(trim_start(s).len() == 0);
        lemma_trailing_space_is(trim_start(t), 0);
        lemma_trailing_space_is(trim_start(s), 0);
        assert(trim(t) =~= trim(s));
    } else {
        assert forall|k: int| 0 <= k < a implies is_whitespace(#[trigger] t[k]) by {
            assert(t[k] == s[k]);
        }
        assert(t[a] == s[a]);
        lemma_leading_space_is(t, a);
        let ts = trim_start(s);
        let tt = trim_start(t);
        assert(tt =~= ts + seq!['\n']);
        lemma_trailing_space(ts);
        let n = crate::text::trailing_space(ts) as int;
        assert(n < ts.len()) by {
            if n >= ts.len() {
                assert(is_whitespace(ts[0]));
                assert(ts[0] == s[a]);
            }
        }
        assert forall|k: int| tt.len() - (n + 1) <= k < tt.len() implies is_whitespace(
            #[trigger] tt[k],
        ) by {
            if k < ts.len() {
                assert(tt[k] == ts[k]);
            }
        }
        assert(tt[tt.len() - (n + 1) - 1] == ts[ts.len() - n - 1]);
        lemma_trailing_space_is(tt, n + 1);
        assert(trim(t) =~= trim(s));
    }
}

/// A line feed alone is one empty line.
proof fn lemma_line_of_line_feed()
    ensures
        lines(seq!['\n']) == seq![Seq::<char>::empty()],
{
    let nl = seq!['\n'];
    assert(nl[0] == '\n');
    lemma_first_index_of_is(nl, '\n', 0);
    assert(nl.take(0) =~= Seq::<char>::empty());
    assert(nl.skip(1).len() == 0);
    assert(lines(nl.skip(1)) =~= Seq::<Seq<char>>::empty());
    assert(lines(nl) =~= seq![Seq::<char>::empty()]);
}

/// A marker with a line feed behind it is one line, the marker.
proof fn lemma_line_of_marker(role: Role)
    ensures
        lines(marker_of(role) + seq!['\n']) == seq![marker_of(role)],
{
    lemma_markers();
    let marker = marker_of(role);
    let mn = marker + seq!['\n'];
    assert forall|k: int| 0 <= k < marker.len() implies #[trigger] mn[k] != '\n' by {
        assert(mn[k] == marker[k]);
        assert(marker.contains(marker[k]));
    }
    assert(mn[marker.len() as int] == '\n');
    lemma_first_index_of_is(mn, '\n', marker.len() as int);
    assert(mn.take(marker.len() as int) =~= marker);
    assert(mn.skip(marker.len() as int + 1).len() == 0);
    assert(strip_cr(marker) == marker);
    assert(lines(mn.skip(marker.len() as int + 1)) =~= Seq::<Seq<char>>::empty());
    assert(lines(mn) =~= seq![marker]);
}

/// The lines of a message as it is written: an empty line, the marker, and
/// the lines of the text.
proof fn lemma_lines_of_written(m: MessageView, rest: Seq<char>)
    requires
        survives(m),
    ensures
        lines(written(m) + rest) == seq![Seq::<char>::empty(), marker_of(m.role)] + lines(
            m.content,
        ) + lines(rest),
        joined(lines(m.content)) == m.content + seq!['\n'],
{
    lemma_markers();
    let nl = seq!['\n'];
    let marker = marker_of(m.role);
    let c = m.content;
    let w = written(m);
    // the text, with its line feed
    assert(is_whitespace('\n') && is_whitespace('\r'));
    lemma_lines_terminated(c);
    assert(!has_crlf(c + nl)) by {
        if has_crlf(c + nl) {
            let k = choose|k: int| 0 <= k < (c + nl).len() - 1 && #[trigger] (c + nl)[k] == '\r' && (c
                + nl)[k + 1] == '\n';
            if k < c.len() - 1 {
                assert(c[k] == '\r' && c[k + 1] == '\n');
            } else {
                assert(c[k] == '\r');
            }
        }
    }
    assert((c + nl).last() == '\n');
    lemma_joined_lines(c + nl);
    // the marker with its line feed, and the line feed in front
    let mn = marker + nl;
    lemma_line_of_marker(m.role);
    lemma_line_of_line_feed();
    // one after the other
    assert(w + rest =~= nl + (mn + ((c + nl) + rest)));
    lemma_lines_concat(c + nl, rest);
    assert(mn.last() == '\n');
    lemma_lines_concat(mn, (c + nl) + rest);
    lemma_lines_concat(nl, mn + ((c + nl) + rest));
    assert(lines(w + rest) =~= seq![Seq::<char>::empty(), marker] + lines(c) + lines(rest));
}

/// Reading what was written gives the open section's message, if it has
/// one, and then the messages that were written.
proof fn lemma_read_written(messages: Seq<MessageView>, role: Option<Role>, body: Seq<char>)
    requires
        all_survive(messages),
    ensures
        parse_lines(lines(transcript_of(messages)), role, body) == flush(role, body) + messages,
    decreases messages.len(),
{
    if messages.len() == 0 {
        assert(lines(transcript_of(messages)) =~= Seq::<Seq<char>>::empty());
        assert(flush(role, body) + messages =~= flush(role, body));
    } else {
        lemma_markers();
        let m = messages[0];
        let later = messages.drop_first();
        assert(survives(m));
        assert forall|i: int| 0 <= i < later.len() implies survives(#[trigger] later[i]) by {
            assert(later[i] == messages[i + 1]);
        }
        let rest = transcript_of(later);
        let marker = marker_of(m.role);
        let empty = Seq::<char>::empty();
        lemma_lines_of_written(m, rest);
        let all = lines(transcript_of(messages));
        let content_lines = lines(m.content);
        let tail = lines(rest);
        assert(all == seq![empty, marker] + content_lines + tail);
        // the empty line joins the open section
        assert(all[0] == empty);
        assert(marker_role(empty) is None);
        let body1 = body + empty + seq!['\n'];
        assert(body1 =~= body + seq!['\n']);
        let after_empty = all.drop_first();
        assert(after_empty =~= seq![marker] + content_lines + tail);
        // the marker closes it
        assert(after_empty[0] == marker);
        assert(marker_role(marker) == Some(m.role));
        let after_marker = after_empty.drop_first();
        assert(after_marker =~= content_lines + tail);
        lemma_trim_ignores_line_feed(body);
        assert(flush(role, body1) == flush(role, body));
        // the lines of the text join the new section
        assert forall|k: int| 0 <= k < content_lines.len() implies marker_role(
            #[trigger] content_lines[k],
        ) is None by {
            if marker_role(content_lines[k]) is Some {
                assert(has_marker_line(m.content));
            }
        }
        lemma_lines_join_section(content_lines, tail, Some(m.role), empty);
        let body2 = m.content + seq!['\n'];
        assert(empty + joined(content_lines) =~= body2);
        // and the text is what trimming leaves of them
        lemma_read_written(later, Some(m.role), body2);
        lemma_trim_ignores_line_feed(m.content);
        lemma_trim_of_trimmed(m.content);
        assert(flush(Some(m.role), body2) == seq![m]);
        let opened: Seq<char> = seq![];
        assert(opened =~= empty);
        assert(parse_lines(all, role, body) == parse_lines(after_empty, role, body1));
        assert(parse_lines(after_empty, role, body1) == flush(role, body1) + parse_lines(
            after_marker,
            Some(m.role),
            opened,
        ));
        assert(parse_lines(after_marker, Some(m.role), opened) == parse_lines(
            tail,
            Some(m.role),
            body2,
        ));
        assert(parse_lines(tail, Some(m.role), body2) == seq![m] + later);
        assert(parse_lines(all, role, body) == flush(role, body) + (seq![m] + later));
        assert(seq![m] + later =~= messages);
    }
}

/// Messages that can be written and read back are read back as they were:
/// the parser gives the same roles and the same texts, in the same order.
pub proof fn law_written_messages_read_back(messages: Seq<MessageView>)
    requires
        all_survive(messages),
    ensures
        parse(transcript_of(messages)) == messages,
{
    lemma_read_written(messages, None, seq![]);
    assert(trim(Seq::<char>::empty()).len() == 0) by {
        crate::text::lemma_trim_is_trimmed(Seq::<char>::empty());
    }
    assert(flush(None, seq![]) + messages =~= messages);
}

/// What the parser reads from a transcript, written out and read again, is
/// the same, provided that trimming laid bare no marker at the edge of a
/// message and that no message holds a carriage return before a line feed.
pub proof fn law_reparse(text: Seq<char>)
    requires
        forall|i: int|
            0 <= i < parse(text).len() ==> !has_crlf((#[trigger] parse(text)[i]).content)
                && !has_marker_line(parse(text)[i].content),
    ensures
        parse(transcript_of(parse(text))) == parse(text),
{
    let messages = parse(text);
    lemma_parsed_roles(lines(text), None, seq![]);
    crate::transcript::lemma_parse_lines_well_formed(lines(text), None, seq![]);
    assert forall|i: int| 0 <= i < messages.len() implies survives(#[trigger] messages[i]) by {
        assert(!has_crlf(messages[i].content));
    }
    law_written_messages_read_back(messages);
}

/// The parser gives messages of the user and of the assistant only.
pub proof fn lemma_parsed_roles(ls: Seq<Seq<char>>, role: Option<Role>, body: Seq<char>)
    requires
        role != Some(Role::System),
    ensures
        forall|i: int|
            0 <= i < parse_lines(ls, role, body).len() ==> (#[trigger] parse_lines(
                ls,
                role,
                body,
            )[i]).role != Role::System,
    decreases ls.len(),
{
    if ls.len() > 0 {
        match marker_role(ls[0]) {
            Some(r) => {
                lemma_parsed_roles(ls.drop_first(), Some(r), seq![]);
            },
            None => {
                lemma_parsed_roles(ls.drop_first(), role, body + ls[0] + seq!['\n']);
            },
        }
    }
}

/// The block that a reply is appended as is the reply as it is written,
/// followed by the marker of the user's next turn, which is still empty.
pub proof fn law_reply_block_is_written(reply: Seq<char>)
    ensures
        reply_block(reply) == written(MessageView { role: Role::Assistant, content: reply })
            + written(MessageView { role: Role::User, content: seq![] }),
{
    reveal_strlit("\nGROK RESPONSE:\n");
    reveal_strlit("\n\nUSER PROMPT:\n\n");
    reveal_strlit("USER PROMPT:");
    reveal_strlit("GROK RESPONSE:");
    let head = "\nGROK RESPONSE:\n"@;
    let foot = "\n\nUSER PROMPT:\n\n"@;
    let a = assistant_marker();
    let u = user_marker();
    assert(head =~= seq!['\n'] + a + seq!['\n']);
    assert(foot =~= seq!['\n'] + seq!['\n'] + u + seq!['\n'] + Seq::<char>::empty() + seq!['\n']);
    assert(reply_block(reply) =~= written(MessageView { role: Role::Assistant, content: reply })
        + written(MessageView { role: Role::User, content: seq![] }));
}

/// The section that is open after some lines were read, and the messages
/// that were closed on the way.
pub open spec fn section_after(ls: Seq<Seq<char>>, role: Option<Role>, body: Seq<char>) -> (
    Seq<MessageView>,
    Option<Role>,
    Seq<char>,
)
    decreases ls.len(),
{
    if ls.len() == 0 {
        (seq![], role, body)
    } else {
        match marker_role(ls[0]) {
            Some(r) => {
                let (closed, open_role, open_body) = section_after(ls.drop_first(), Some(r), seq![]);
                (flush(role, body) + closed, open_role, open_body)
            },
            None => section_after(ls.drop_first(), role, body + ls[0] + seq!['\n']),
        }
    }
}

/// Reading lines in two parts: the second part is read from the section
/// that the first part left open.
proof fn lemma_read_in_two(a: Seq<Seq<char>>, b: Seq<Seq<char>>, role: Option<Role>, body: Seq<char>)
    ensures
        ({
            let (closed, open_role, open_body) = section_after(a, role, body);
            parse_lines(a + b, role, body) == closed + parse_lines(b, open_role, open_body)
        }),
    decreases a.len(),
{
    if a.len() == 0 {
        assert(a + b =~= b);
        let none: Seq<MessageView> = seq![];
        assert(none + parse_lines(b, role, body) =~= parse_lines(b, role, body));
    } else {
        let all = a + b;
        assert(all[0] == a[0]);
        assert(all.drop_first() =~= a.drop_first() + b);
        match marker_role(a[0]) {
            Some(r) => {
                lemma_read_in_two(a.drop_first(), b, Some(r), seq![]);
                let (closed, open_role, open_body) = section_after(a.drop_first(), Some(r), seq![]);
                assert(flush(role, body) + (closed + parse_lines(b, open_role, open_body)) =~= (
                flush(role, body) + closed) + parse_lines(b, open_role, open_body));
            },
            None => {
                lemma_read_in_two(a.drop_first(), b, role, body + a[0] + seq!['\n']);
            },
        }
    }
}

/// The lines of a transcript with a line feed behind it: those of the
/// transcript, and an empty line where the transcript was empty or ended in
/// a line feed.
proof fn lemma_lines_with_line_feed(t: Seq<char>)
    requires
        t.len() > 0 ==> t.last() != '\r',
    ensures
        lines(t + seq!['\n']) == lines(t) + if t.len() == 0 || t.last() == '\n' {
            seq![Seq::<char>::empty()]
        } else {
            seq![]
        },
{
    let nl = seq!['\n'];
    lemma_line_of_line_feed();
    if t.len() == 0 || t.last() == '\n' {
        lemma_lines_concat(t, nl);
    } else {
        lemma_lines_terminated(t);
        assert(lines(t) + Seq::<Seq<char>>::empty() =~= lines(t));
    }
}

/// What the reply block adds, read from whatever section is open: the open
/// section is closed, and the reply is the assistant's message.
proof fn lemma_read_reply_block(
    front: Seq<Seq<char>>,
    reply: Seq<char>,
    role: Option<Role>,
    body: Seq<char>,
)
    requires
        front.len() <= 1,
        front.len() == 1 ==> front[0].len() == 0,
        !has_crlf(reply + seq!['\n']),
        !has_marker_line(reply + seq!['\n']),
    ensures
        parse_lines(
            front + (seq![assistant_marker()] + lines(reply + seq!['\n']) + seq![
                Seq::<char>::empty(),
                user_marker(),
                Seq::<char>::empty(),
            ]),
            role,
            body,
        ) == flush(role, body) + flush(Some(Role::Assistant), reply),
{
    lemma_markers();
    let nl = seq!['\n'];
    let empty = Seq::<char>::empty();
    let opened: Seq<char> = seq![];
    assert(opened =~= empty);
    let reply_lines = lines(reply + nl);
    let foot = seq![empty, user_marker(), empty];
    let block = seq![assistant_marker()] + reply_lines + foot;
    // the empty line in front, if there is one, joins the open section
    let body1 = if front.len() == 1 {
        body + nl
    } else {
        body
    };
    lemma_trim_ignores_line_feed(body);
    assert(flush(role, body1) == flush(role, body));
    assert(parse_lines(front + block, role, body) == parse_lines(block, role, body1)) by {
        if front.len() == 1 {
            let all = front + block;
            assert(all[0] == empty);
            assert(all.drop_first() =~= block);
            assert(body + empty + nl =~= body1);
        } else {
            assert(front + block =~= block);
        }
    }
    // the assistant's marker closes it
    assert(block[0] == assistant_marker());
    assert(block.drop_first() =~= reply_lines + foot);
    assert(parse_lines(block, role, body1) == flush(role, body1) + parse_lines(
        reply_lines + foot,
        Some(Role::Assistant),
        opened,
    ));
    // the lines of the reply join the assistant's section
    assert forall|k: int| 0 <= k < reply_lines.len() implies marker_role(
        #[trigger] reply_lines[k],
    ) is None by {
        if marker_role(reply_lines[k]) is Some {
            assert(has_marker_line(reply + nl));
        }
    }
    lemma_lines_join_section(reply_lines, foot, Some(Role::Assistant), empty);
    assert((reply + nl).last() == '\n');
    lemma_joined_lines(reply + nl);
    let body2 = reply + nl;
    assert(empty + joined(reply_lines) =~= body2);
    // the empty line behind the reply joins it too, and the user's marker closes it
    assert(foot[0] == empty);
    let foot1 = foot.drop_first();
    assert(foot1 =~= seq![user_marker(), empty]);
    let body3 = body2 + empty + nl;
    assert(body3 =~= body2 + nl);
    assert(parse_lines(foot, Some(Role::Assistant), body2) == parse_lines(
        foot1,
        Some(Role::Assistant),
        body3,
    ));
    assert(foot1[0] == user_marker());
    let foot2 = foot1.drop_first();
    assert(foot2 =~= seq![empty]);
    assert(parse_lines(foot1, Some(Role::Assistant), body3) == flush(Some(Role::Assistant), body3)
        + parse_lines(foot2, Some(Role::User), opened));
    lemma_trim_ignores_line_feed(body2);
    lemma_trim_ignores_line_feed(reply);
    assert(flush(Some(Role::Assistant), body3) == flush(Some(Role::Assistant), reply));
    // the user's next turn is still blank
    assert(foot2[0] == empty);
    assert(foot2.drop_first() =~= Seq::<Seq<char>>::empty());
    let body4 = opened + empty + nl;
    assert(body4 =~= nl);
    assert(marker_role(empty) is None);
    assert(parse_lines(foot2.drop_first(), Some(Role::User), body4) == flush(
        Some(Role::User),
        body4,
    ));
    assert(parse_lines(foot2, Some(Role::User), opened) == flush(Some(Role::User), body4));
    lemma_trim_ignores_line_feed(empty);
    assert(empty + nl =~= nl);
    crate::text::lemma_trim_is_trimmed(empty);
    assert(trim(nl).len() == 0);
    let none: Seq<MessageView> = seq![];
    assert(flush(Some(Role::User), body4) =~= none);
    assert(flush(Some(Role::Assistant), reply) + none =~= flush(Some(Role::Assistant), reply));
}

/// Appending a reply changes nothing that stood in the transcript: read
/// again, the transcript gives the messages it gave before, and behind them
/// the reply, trimmed, as the assistant's message, or nothing where the reply
/// is blank. This holds where the transcript does not end in a carriage
/// return, no line of the reply is a marker, and no carriage return in the
/// reply stands before a line feed or at its end.
pub proof fn law_appended_reply_is_read(transcript: Seq<char>, reply: Seq<char>)
    requires
        transcript.len() > 0 ==> transcript.last() != '\r',
        !has_crlf(reply + seq!['\n']),
        !has_marker_line(reply + seq!['\n']),
    ensures
        parse(transcript + reply_block(reply)) == parse(transcript) + flush(
            Some(Role::Assistant),
            reply,
        ),
{
    lemma_markers();
    reveal_strlit("\nGROK RESPONSE:\n");
    reveal_strlit("\n\nUSER PROMPT:\n\n");
    reveal_strlit("USER PROMPT:");
    reveal_strlit("GROK RESPONSE:");
    let nl = seq!['\n'];
    let empty = Seq::<char>::empty();
    let a = assistant_marker();
    let u = user_marker();
    let t = transcript;
    // the block, piece by piece
    let an = a + nl;
    let rn = reply + nl;
    let un = u + nl;
    assert("\nGROK RESPONSE:\n"@ =~= nl + an);
    assert("\n\nUSER PROMPT:\n\n"@ =~= nl + (nl + (un + nl)));
    assert(t + reply_block(reply) =~= (t + nl) + (an + (rn + (nl + (un + nl)))));
    // the lines of each piece
    lemma_line_of_line_feed();
    lemma_line_of_marker(Role::Assistant);
    lemma_line_of_marker(Role::User);
    // one after the other
    assert(un.last() == '\n');
    lemma_lines_concat(un, nl);
    lemma_lines_concat(nl, un + nl);
    assert(rn.last() == '\n');
    lemma_lines_concat(rn, nl + (un + nl));
    assert(an.last() == '\n');
    lemma_lines_concat(an, rn + (nl + (un + nl)));
    assert((t + nl).last() == '\n');
    lemma_lines_concat(t + nl, an + (rn + (nl + (un + nl))));
    lemma_lines_with_line_feed(t);
    let front: Seq<Seq<char>> = if t.len() == 0 || t.last() == '\n' {
        seq![empty]
    } else {
        seq![]
    };
    let block = seq![a] + lines(rn) + seq![empty, u, empty];
    assert(lines(an + (rn + (nl + (un + nl)))) =~= block);
    assert(lines(t + reply_block(reply)) =~= lines(t) + (front + block));
    // read in two parts
    let opened: Seq<char> = seq![];
    lemma_read_in_two(lines(t), front + block, None, opened);
    lemma_read_in_two(lines(t), Seq::<Seq<char>>::empty(), None, opened);
    assert(lines(t) + Seq::<Seq<char>>::empty() =~= lines(t));
    let (closed, open_role, open_body) = section_after(lines(t), None, opened);
    lemma_read_reply_block(front, reply, open_role, open_body);
    assert(parse(t) == closed + flush(open_role, open_body));
    assert(closed + (flush(open_role, open_body) + flush(Some(Role::Assistant), reply)) =~= (closed
        + flush(open_role, open_body)) + flush(Some(Role::Assistant), reply));
}

} // verus!
