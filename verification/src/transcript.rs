//! The transcript: a flat text in which marker lines separate the turns of a
//! conversation, and the blocks that are appended to it.

use crate::text::{
    from_chars, is_trimmed, lemma_trim_is_trimmed, lines, push_all, push_str, same_text,
    split_lines, texts, to_chars, trim, trimmed,
};
use vstd::prelude::*;

verus! {

/// Who wrote a message.
#[derive(Clone, Copy, Debug, PartialEq, Eq, Structural)]
pub enum Role {
    User,
    Assistant,
    System,
}

/// One message of a conversation.
#[derive(Clone, Debug, PartialEq, Eq)]
pub struct Message {
    pub role: Role,
    pub content: String,
}

/// A message as the contracts see it: its role and its text.
pub struct MessageView {
    pub role: Role,
    pub content: Seq<char>,
}

impl View for Message {
    type V = MessageView;

    open spec fn view(&self) -> MessageView {
        MessageView { role: self.role, content: self.content@ }
    }
}

impl DeepView for Message {
    type V = MessageView;

    open spec fn deep_view(&self) -> MessageView {
        self@
    }
}

/// The name under which the completion API knows a role.
pub open spec fn role_name(role: Role) -> Seq<char> {
    match role {
        Role::User => "user"@,
        Role::Assistant => "assistant"@,
        Role::System => "system"@,
    }
}

impl Role {
    /// The name under which the completion API knows this role.
    pub fn name(&self) -> (r: &'static str)
        ensures
            r@ == role_name(*self),
    {
        match self {
            Role::User => "user",
            Role::Assistant => "assistant",
            Role::System => "system",
        }
    }
}

impl Message {
    /// A message of the given role and text.
    pub fn new(role: Role, content: &str) -> (r: Message)
        ensures
            r@ == (MessageView { role, content: content@ }),
    {
        Message { role, content: content.to_owned() }
    }

    /// A copy of this message.
    pub fn duplicate(&self) -> (r: Message)
        ensures
            r@ == self@,
    {
        Message { role: self.role, content: self.content.clone() }
    }
}

/// The line that opens a turn of the user.
pub open spec fn user_marker() -> Seq<char> {
    "USER PROMPT:"@
}

/// The line that opens a turn of the assistant.
pub open spec fn assistant_marker() -> Seq<char> {
    "GROK RESPONSE:"@
}

/// The role whose turn a line opens, if the line is a marker.
pub open spec fn marker_role(line: Seq<char>) -> Option<Role> {
    if line == user_marker() {
        Some(Role::User)
    } else if line == assistant_marker() {
        Some(Role::Assistant)
    } else {
        None
    }
}

/// The role of a section; the text before the first marker is the user's.
pub open spec fn section_role(role: Option<Role>) -> Role {
    match role {
        Some(r) => r,
        None => Role::User,
    }
}

/// The message that a section gives when it closes: none where its body is
/// blank, else its trimmed body under its role.
pub open spec fn flush(role: Option<Role>, body: Seq<char>) -> Seq<MessageView> {
    if trim(body).len() == 0 {
        seq![]
    } else {
        seq![MessageView { role: section_role(role), content: trim(body) }]
    }
}

/// The messages of the lines that remain, where a section of role `role` is
/// open and holds `body` so far. A marker line closes the open section and
/// opens one of its own role; any other line joins the open section, followed
/// by a line feed.
pub open spec fn parse_lines(lines: Seq<Seq<char>>, role: Option<Role>, body: Seq<char>) -> Seq<
    MessageView,
>
    decreases lines.len(),
{
    if lines.len() == 0 {
        flush(role, body)
    } else {
        match marker_role(lines[0]) {
            Some(r) => flush(role, body) + parse_lines(lines.drop_first(), Some(r), seq![]),
            None => parse_lines(lines.drop_first(), role, body + lines[0] + seq!['\n']),
        }
    }
}

/// The messages of a transcript.
pub open spec fn parse(text: Seq<char>) -> Seq<MessageView> {
    parse_lines(lines(text), None, seq![])
}

/// A turn can be processed only where the transcript ends in a prompt of the
/// user that is not blank.
pub open spec fn awaits_reply(messages: Seq<MessageView>) -> bool {
    &&& messages.len() > 0
    &&& messages.last().role == Role::User
    &&& trim(messages.last().content).len() > 0
}

/// Every message that `flush` gives has a trimmed text that is not empty.
pub open spec fn well_formed(messages: Seq<MessageView>) -> bool {
    forall|i: int|
        0 <= i < messages.len() ==> (#[trigger] messages[i]).content.len() > 0 && is_trimmed(
            messages[i].content,
        )
}

/// The parser hands out no blank message and no message with white space
/// around it.
pub proof fn lemma_parse_lines_well_formed(lines: Seq<Seq<char>>, role: Option<Role>, body: Seq<char>)
    ensures
        well_formed(parse_lines(lines, role, body)),
    decreases lines.len(),
{
    lemma_trim_is_trimmed(body);
    if lines.len() > 0 {
        match marker_role(lines[0]) {
            Some(r) => {
                lemma_parse_lines_well_formed(lines.drop_first(), Some(r), seq![]);
            },
            None => {
                lemma_parse_lines_well_formed(
                    lines.drop_first(),
                    role,
                    body + lines[0] + seq!['\n'],
                );
            },
        }
    }
}

/// Closes a section: appends its message to `out`, if it has one.
fn flush_section(out: &mut Vec<Message>, role: Option<Role>, body: &Vec<char>)
    ensures
        final(out).deep_view() == old(out).deep_view() + flush(role, body@),
{
    let content = trimmed(body);
    if content.len() > 0 {
        let r = match role {
            Some(r) => r,
            None => Role::User,
        };
        let m = Message { role: r, content: from_chars(&content) };
        out.push(m);
        assert(final(out).deep_view() =~= old(out).deep_view() + flush(role, body@));
    } else {
        assert(final(out).deep_view() =~= old(out).deep_view() + flush(role, body@));
    }
}

/// Reads a transcript into its messages, in the order in which they stand.
///
/// A line that is exactly a marker closes the section before it and opens
/// one of the marker's role. The text before the first marker belongs to the
/// user. A section whose body is blank gives no message.
pub fn parse_chat_messages(content: &str) -> (r: Vec<Message>)
    ensures
        r.deep_view() == parse(content@),
        well_formed(r.deep_view()),
{
    let chars = to_chars(content);
    let ls = split_lines(&chars);
    let user = to_chars("USER PROMPT:");
    let assistant = to_chars("GROK RESPONSE:");
    let mut out: Vec<Message> = Vec::new();
    let mut role: Option<Role> = None;
    let mut body: Vec<char> = Vec::new();
    let mut i: usize = 0;
    let ghost all = lines(content@);
    assert(all.skip(0) =~= all);
    assert(out.deep_view() =~= Seq::<MessageView>::empty());
    assert(body@ =~= Seq::<char>::empty());
    while i < ls.len()
        invariant
            i <= ls.len(),
            texts(ls@) == all,
            all == lines(content@),
            user@ == user_marker(),
            assistant@ == assistant_marker(),
            out.deep_view() + parse_lines(all.skip(i as int), role, body@) == parse(content@),
        decreases ls.len() - i,
    {
        let line = &ls[i];
        let ghost rest = all.skip(i as int);
        let ghost before = out.deep_view();
        let ghost open_role = role;
        let ghost open_body = body@;
        proof {
            assert(rest[0] == line@);
            assert(rest.drop_first() =~= all.skip(i as int + 1));
        }
        let is_user = same_text(line, &user);
        let is_assistant = same_text(line, &assistant);
        if is_user || is_assistant {
            flush_section(&mut out, role, &body);
            role = Some(if is_user { Role::User } else { Role::Assistant });
            body = Vec::new();
            proof {
                assert(body@ =~= Seq::<char>::empty());
                assert(marker_role(rest[0]) == role);
                let tail = parse_lines(rest.drop_first(), role, seq![]);
                assert(out.deep_view() + tail =~= before + (flush(open_role, open_body) + tail));
            }
        } else {
            push_all(&mut body, line);
            body.push('\n');
            proof {
                assert(marker_role(rest[0]) is None);
                assert(body@ =~= open_body + rest[0] + seq!['\n']);
            }
        }
        i += 1;
    }
    proof {
        lemma_parse_lines_well_formed(all, None, seq![]);
    }
    flush_section(&mut out, role, &body);
    out
}

/// Whether the transcript ends in a prompt of the user that is not blank.
pub fn has_pending_prompt(messages: &Vec<Message>) -> (r: bool)
    ensures
        r == awaits_reply(messages.deep_view()),
{
    if messages.len() == 0 {
        return false;
    }
    let last = &messages[messages.len() - 1];
    assert(messages.deep_view().last() == last@);
    if last.role != Role::User {
        return false;
    }
    let chars = to_chars(last.content.as_str());
    trimmed(&chars).len() > 0
}

/// What a new transcript holds: the marker of the user's first turn.
pub open spec fn empty_transcript() -> Seq<char> {
    "USER PROMPT:\n\n"@
}

/// The text of a new transcript.
pub fn new_transcript() -> (r: &'static str)
    ensures
        r@ == empty_transcript(),
{
    "USER PROMPT:\n\n"
}

/// The block that a reply is appended as: the assistant's marker on a line
/// of its own, the reply, and the marker of the user's next turn.
pub open spec fn reply_block(reply: Seq<char>) -> Seq<char> {
    "\nGROK RESPONSE:\n"@ + reply + "\n\nUSER PROMPT:\n\n"@
}

/// Writes the block that a reply is appended as.
pub fn write_reply_block(reply: &str) -> (r: String)
    ensures
        r@ == reply_block(reply@),
{
    let mut out: Vec<char> = Vec::new();
    push_str(&mut out, "\nGROK RESPONSE:\n");
    push_str(&mut out, reply);
    push_str(&mut out, "\n\nUSER PROMPT:\n\n");
    assert(out@ =~= reply_block(reply@));
    from_chars(&out)
}

/// What the assistant is told where it may ask for files.
pub const SYSTEM_INSTRUCTIONS: &'static str =
    "\nYou are Grok, a helpful AI. If you need the contents of files to better answer the user's query, you can request them by responding with EXACTLY this format and NOTHING ELSE:\nGROK REQUESTS FILES: relative/path1, relative/path2\nPaths must be relative to the current working directory (e.g., src/main.rs, not /absolute/path or ../outside). Do not request files outside the project directory. You can request multiple files, directories, or globs (e.g., src/*.rs). The system will automatically include their contents in the next user message. Request all needed files at once if possible. You may request again if more are needed after seeing the contents.\n";

/// The messages that are sent: the messages of the transcript, behind the
/// system's instructions where the assistant may ask for files.
pub open spec fn outgoing(messages: Seq<MessageView>, file_negotiation: bool) -> Seq<MessageView> {
    if file_negotiation {
        seq![MessageView { role: Role::System, content: SYSTEM_INSTRUCTIONS@ }] + messages
    } else {
        messages
    }
}

/// The messages that are sent to the completion API.
pub fn api_messages(messages: &Vec<Message>, file_negotiation: bool) -> (r: Vec<Message>)
    ensures
        r.deep_view() == outgoing(messages.deep_view(), file_negotiation),
{
    let mut out: Vec<Message> = Vec::new();
    if file_negotiation {
        out.push(Message::new(Role::System, SYSTEM_INSTRUCTIONS));
    }
    let ghost head = out.deep_view();
    let mut i: usize = 0;
    assert(out.deep_view() =~= head + messages.deep_view().take(0));
    while i < messages.len()
        invariant
            i <= messages.len(),
            out.deep_view() == head + messages.deep_view().take(i as int),
        decreases messages.len() - i,
    {
        let ghost before = out.deep_view();
        out.push(messages[i].duplicate());
        assert(out.deep_view() =~= before.push(messages@[i as int]@));
        assert(out.deep_view() =~= head + messages.deep_view().take(i as int + 1));
        i += 1;
    }
    assert(messages.deep_view().take(messages@.len() as int) =~= messages.deep_view());
    assert(out.deep_view() =~= outgoing(messages.deep_view(), file_negotiation));
    out
}

} // verus!
