//! The state machine that drives one turn.
//!
//! A turn runs through two loops. The inner loop sends the same messages
//! again with a doubled token budget while the reply comes back cut off. The
//! outer loop starts over from the transcript after a reply that asked for
//! files has been granted. The machine decides; whoever runs it reads and
//! writes the transcript, talks to the completion API and to the file system,
//! and reports back what happened.

use crate::directive::{resolve_turn_parameters, resolved, Turn};
use crate::level::{parse_level, token_budget, MAX_LEVEL};
use crate::request::{
    all_granted, check_granted, file_request, read_file_request, request_block, strings,
    write_request_block, PathFacts,
};
use crate::text::{same_text, to_chars};
use crate::transcript::{
    awaits_reply, has_pending_prompt, parse, parse_chat_messages, reply_block, write_reply_block,
};
use vstd::prelude::*;

verus! {

/// What the machine may do by itself.
#[derive(Clone, Copy, Debug, PartialEq, Eq)]
pub struct Settings {
    /// Grant the files that a reply asks for.
    pub file_negotiation: bool,
    /// Send again with a higher budget after a reply that was cut off.
    pub escalation: bool,
}

/// Why a turn failed.
#[derive(Clone, Copy, Debug, PartialEq, Eq, Structural)]
pub enum Failure {
    /// There is no credential for the completion API.
    Credential,
    /// The request did not get through, or was answered with an error.
    Transport,
    /// The answer could not be read, or held no choice.
    Protocol,
    /// The transcript could not be prepared.
    Preparation,
}

/// Whether a failure is signalled with the warning sound: one is where a
/// request was made and came to nothing.
pub open spec fn is_signalled(failure: Failure) -> bool {
    failure is Transport || failure is Protocol
}

impl Failure {
    /// Whether this failure is signalled with the warning sound.
    pub fn calls_for_warning(&self) -> (r: bool)
        ensures
            r == is_signalled(*self),
    {
        match self {
            Failure::Transport => true,
            Failure::Protocol => true,
            _ => false,
        }
    }
}

/// Where a turn stands.
#[derive(Clone, Debug, PartialEq, Eq)]
pub enum State {
    /// No request is out. A prepared transcript is expected: at the start of
    /// a turn, and again after a file request was written to the transcript.
    Idle,
    /// The first request of a pass is out, at this level.
    AwaitingResponse { level: u32 },
    /// A request with a raised budget is out, at this level.
    Escalating { level: u32 },
    /// A reply asked for files; the file system is being asked about them.
    NegotiatingFiles { level: u32, content: String, truncated: bool, paths: Vec<String> },
    /// The turn ended with a reply in the transcript.
    Done,
    /// The turn ended with an error; the transcript is as it was.
    Failed,
}

/// What happened.
#[derive(Clone, Debug, PartialEq, Eq)]
pub enum Event {
    /// The transcript was read and prepared: it holds a prompt to answer,
    /// starting at this level, or none.
    Prepared(Option<u32>),
    /// The completion API replied.
    Reply { content: String, finish_reason: Option<String> },
    /// The file system was asked about the requested paths, in their order.
    PathsChecked(Vec<PathFacts>),
    /// Something failed for good.
    Failed(Failure),
}

/// What is to be done next.
#[derive(Clone, Debug, PartialEq, Eq)]
pub enum Action {
    /// Nothing.
    Nothing,
    /// Send the messages of the turn with this budget, and report the reply.
    Send { level: u32, max_tokens: u32 },
    /// Ask the file system about these paths, and report what it says.
    CheckPaths(Vec<String>),
    /// Append this block to the transcript, then read and prepare the
    /// transcript again and report it.
    AppendRequest(String),
    /// Append this block to the transcript: the turn is answered. Warn where
    /// the reply was cut off although the budget could not be higher.
    AppendReply { text: String, warn_truncated: bool },
    /// Report the failure; the transcript stays as it is.
    Fail(Failure),
}

/// A state as the contracts see it.
pub enum StateView {
    Idle,
    AwaitingResponse { level: u32 },
    Escalating { level: u32 },
    NegotiatingFiles { level: u32, content: Seq<char>, truncated: bool, paths: Seq<Seq<char>> },
    Done,
    Failed,
}

/// An event as the contracts see it.
pub enum EventView {
    Prepared(Option<u32>),
    Reply { content: Seq<char>, finish_reason: Option<Seq<char>> },
    PathsChecked(Seq<PathFacts>),
    Failed(Failure),
}

/// An action as the contracts see it.
pub enum ActionView {
    Nothing,
    Send { level: u32, max_tokens: u32 },
    CheckPaths(Seq<Seq<char>>),
    AppendRequest(Seq<char>),
    AppendReply { text: Seq<char>, warn_truncated: bool },
    Fail(Failure),
}

impl View for State {
    type V = StateView;

    open spec fn view(&self) -> StateView {
        match *self {
            State::Idle => StateView::Idle,
            State::AwaitingResponse { level } => StateView::AwaitingResponse { level },
            State::Escalating { level } => StateView::Escalating { level },
            State::NegotiatingFiles { level, content, truncated, paths } => {
                StateView::NegotiatingFiles {
                    level,
                    content: content@,
                    truncated,
                    paths: strings(paths@),
                }
            },
            State::Done => StateView::Done,
            State::Failed => StateView::Failed,
        }
    }
}

impl View for Event {
    type V = EventView;

    open spec fn view(&self) -> EventView {
        match *self {
            Event::Prepared(level) => EventView::Prepared(level),
            Event::Reply { content, finish_reason } => EventView::Reply {
                content: content@,
                finish_reason: match finish_reason {
                    Some(s) => Some(s@),
                    None => None,
                },
            },
            Event::PathsChecked(facts) => EventView::PathsChecked(facts@),
            Event::Failed(f) => EventView::Failed(f),
        }
    }
}

impl View for Action {
    type V = ActionView;

    open spec fn view(&self) -> ActionView {
        match *self {
            Action::Nothing => ActionView::Nothing,
            Action::Send { level, max_tokens } => ActionView::Send { level, max_tokens },
            Action::CheckPaths(paths) => ActionView::CheckPaths(strings(paths@)),
            Action::AppendRequest(text) => ActionView::AppendRequest(text@),
            Action::AppendReply { text, warn_truncated } => ActionView::AppendReply {
                text: text@,
                warn_truncated,
            },
            Action::Fail(f) => ActionView::Fail(f),
        }
    }
}

impl StateView {
    /// The level of a state is a level.
    pub open spec fn wf(self) -> bool {
        match self {
            StateView::AwaitingResponse { level } => level <= MAX_LEVEL,
            StateView::Escalating { level } => level <= MAX_LEVEL,
            StateView::NegotiatingFiles { level, .. } => level <= MAX_LEVEL,
            _ => true,
        }
    }

    /// No request is out and nothing is being negotiated.
    pub open spec fn is_resting(self) -> bool {
        self is Idle || self is Done || self is Failed
    }

    /// The level at which a request is out, if one is.
    pub open spec fn requested_level(self) -> Option<u32> {
        match self {
            StateView::AwaitingResponse { level } => Some(level),
            StateView::Escalating { level } => Some(level),
            _ => None,
        }
    }
}

impl EventView {
    /// The level that a turn starts at is a level.
    pub open spec fn wf(self) -> bool {
        self matches EventView::Prepared(Some(level)) ==> level <= MAX_LEVEL
    }
}

/// Whether a reply was cut off because the token budget ran out, by the
/// reason the completion API gives for its end.
pub open spec fn is_truncated(finish_reason: Option<Seq<char>>) -> bool {
    match finish_reason {
        Some(r) => r == "max_tokens"@ || r == "length"@,
        None => false,
    }
}

/// The request at a level.
pub open spec fn send_at(level: u32) -> ActionView {
    ActionView::Send { level, max_tokens: token_budget(level) as u32 }
}

/// What becomes of a reply that is an answer: where it was cut off, the
/// budget may be raised and can be, the request goes out again one level
/// higher. Else the reply ends the turn.
pub open spec fn settle(settings: Settings, level: u32, content: Seq<char>, truncated: bool) -> (
    StateView,
    ActionView,
) {
    if settings.escalation && truncated && level < MAX_LEVEL {
        (StateView::Escalating { level: (level + 1) as u32 }, send_at((level + 1) as u32))
    } else {
        (
            StateView::Done,
            ActionView::AppendReply {
                text: reply_block(content),
                warn_truncated: truncated && level >= MAX_LEVEL,
            },
        )
    }
}

/// What becomes of a reply: where files may be granted and the reply is a
/// file request, the file system is asked about its paths. Else the reply is
/// an answer.
pub open spec fn on_reply(settings: Settings, level: u32, content: Seq<char>, truncated: bool) -> (
    StateView,
    ActionView,
) {
    if settings.file_negotiation {
        match file_request(content) {
            Some(paths) => (
                StateView::NegotiatingFiles { level, content, truncated, paths },
                ActionView::CheckPaths(paths),
            ),
            None => settle(settings, level, content, truncated),
        }
    } else {
        settle(settings, level, content, truncated)
    }
}

/// The transition function: the state after an event, and what is to be
/// done. An event that the state does not expect changes nothing.
pub open spec fn next(settings: Settings, state: StateView, event: EventView) -> (
    StateView,
    ActionView,
) {
    match event {
        EventView::Failed(f) => (StateView::Failed, ActionView::Fail(f)),
        EventView::Prepared(prompt) => if state.is_resting() {
            match prompt {
                Some(level) => (StateView::AwaitingResponse { level }, send_at(level)),
                None => (StateView::Idle, ActionView::Nothing),
            }
        } else {
            (state, ActionView::Nothing)
        },
        EventView::Reply { content, finish_reason } => match state.requested_level() {
            Some(level) => on_reply(settings, level, content, is_truncated(finish_reason)),
            None => (state, ActionView::Nothing),
        },
        EventView::PathsChecked(facts) => match state {
            StateView::NegotiatingFiles { level, content, truncated, paths } => if all_granted(
                paths,
                facts,
            ) {
                (StateView::Idle, ActionView::AppendRequest(request_block(paths)))
            } else {
                settle(settings, level, content, truncated)
            },
            _ => (state, ActionView::Nothing),
        },
    }
}

/// Whether the reason given for a reply's end says that it was cut off.
pub fn check_truncated(finish_reason: &Option<String>) -> (r: bool)
    ensures
        r == is_truncated(
            match *finish_reason {
                Some(s) => Some(s@),
                None => None,
            },
        ),
{
    match finish_reason {
        Some(reason) => {
            let chars = to_chars(reason.as_str());
            let budget = to_chars("max_tokens");
            let length = to_chars("length");
            same_text(&chars, &budget) || same_text(&chars, &length)
        },
        None => false,
    }
}

/// The request at a level.
fn send(level: u32) -> (r: Action)
    requires
        level <= MAX_LEVEL,
    ensures
        r@ == send_at(level),
{
    Action::Send { level, max_tokens: parse_level(level) }
}

/// Decides on a reply that is an answer.
fn settle_reply(settings: &Settings, level: u32, content: &str, truncated: bool) -> (r: (
    State,
    Action,
))
    requires
        level <= MAX_LEVEL,
    ensures
        (r.0@, r.1@) == settle(*settings, level, content@, truncated),
        r.0@.wf(),
{
    if settings.escalation && truncated && level < MAX_LEVEL {
        (State::Escalating { level: level + 1 }, send(level + 1))
    } else {
        (
            State::Done,
            Action::AppendReply {
                text: write_reply_block(content),
                warn_truncated: truncated && level >= MAX_LEVEL,
            },
        )
    }
}

/// A copy of some strings.
fn copy_strings(v: &Vec<String>) -> (r: Vec<String>)
    ensures
        strings(r@) == strings(v@),
{
    let mut out: Vec<String> = Vec::new();
    let mut i: usize = 0;
    while i < v.len()
        invariant
            i <= v.len(),
            out.len() == i,
            forall|k: int| 0 <= k < i ==> (#[trigger] out@[k])@ == v@[k]@,
        decreases v.len() - i,
    {
        out.push(v[i].clone());
        i += 1;
    }
    assert(strings(out@) =~= strings(v@));
    out
}

/// Takes the machine one step: hands back the state after the event, and
/// what is to be done next.
pub fn step(settings: &Settings, state: State, event: Event) -> (r: (State, Action))
    requires
        state@.wf(),
        event@.wf(),
    ensures
        (r.0@, r.1@) == next(*settings, state@, event@),
        r.0@.wf(),
{
    match event {
        Event::Failed(f) => (State::Failed, Action::Fail(f)),
        Event::Prepared(prompt) => {
            let resting = match &state {
                State::Idle => true,
                State::Done => true,
                State::Failed => true,
                _ => false,
            };
            if resting {
                match prompt {
                    Some(level) => (State::AwaitingResponse { level }, send(level)),
                    None => (State::Idle, Action::Nothing),
                }
            } else {
                (state, Action::Nothing)
            }
        },
        Event::Reply { content, finish_reason } => {
            let level = match &state {
                State::AwaitingResponse { level } => *level,
                State::Escalating { level } => *level,
                _ => {
                    return (state, Action::Nothing);
                },
            };
            let truncated = check_truncated(&finish_reason);
            if settings.file_negotiation {
                match read_file_request(content.as_str()) {
                    Some(paths) => {
                        let asked = copy_strings(&paths);
                        (
                            State::NegotiatingFiles { level, content, truncated, paths },
                            Action::CheckPaths(asked),
                        )
                    },
                    None => settle_reply(settings, level, content.as_str(), truncated),
                }
            } else {
                settle_reply(settings, level, content.as_str(), truncated)
            }
        },
        Event::PathsChecked(facts) => match state {
            State::NegotiatingFiles { level, content, truncated, paths } => {
                if check_granted(paths.len(), &facts) {
                    proof {
                        assert(all_granted(strings(paths@), facts@));
                    }
                    (State::Idle, Action::AppendRequest(write_request_block(&paths)))
                } else {
                    proof {
                        assert(!all_granted(strings(paths@), facts@));
                    }
                    settle_reply(settings, level, content.as_str(), truncated)
                }
            },
            other => (other, Action::Nothing),
        },
    }
}

/// The machine after a run of events, and what it asked for on the way.
pub open spec fn run(settings: Settings, state: StateView, events: Seq<EventView>) -> (
    StateView,
    Seq<ActionView>,
)
    decreases events.len(),
{
    if events.len() == 0 {
        (state, seq![])
    } else {
        let (before, actions) = run(settings, state, events.drop_last());
        let (after, action) = next(settings, before, events.last());
        (after, actions.push(action))
    }
}

/// A reply that was cut off.
pub open spec fn cut_off(content: Seq<char>) -> EventView {
    EventView::Reply { content, finish_reason: Some("length"@) }
}

/// A reply that came to its end.
pub open spec fn complete(content: Seq<char>) -> EventView {
    EventView::Reply { content, finish_reason: Some("stop"@) }
}

/// Whether a reply is dealt with as an answer: files are not granted, or the
/// reply is no file request.
pub open spec fn is_answer(settings: Settings, content: Seq<char>) -> bool {
    !settings.file_negotiation || file_request(content) is None
}

/// The machine keeps its levels within bounds.
pub proof fn law_levels_stay_in_bounds(settings: Settings, state: StateView, event: EventView)
    requires
        state.wf(),
        event.wf(),
    ensures
        next(settings, state, event).0.wf(),
{
}

/// A transcript whose last message is blank or the assistant's leads to no
/// request, from any state, and a second look at it changes nothing: the
/// machine rests in `Idle` and asks for nothing, or stays where it is.
pub proof fn law_no_prompt_no_request(
    settings: Settings,
    state: StateView,
    content: Seq<char>,
    default_level: u32,
)
    requires
        !awaits_reply(parse(content)),
    ensures
        ({
            let event = prepared_event(content, default_level);
            let (after, action) = next(settings, state, event);
            &&& action == ActionView::Nothing
            &&& after == if state.is_resting() {
                StateView::Idle
            } else {
                state
            }
            &&& next(settings, after, event) == (after, ActionView::Nothing)
        }),
{
}

/// After a reply that was cut off the request goes out again exactly one
/// level higher, and only where escalation is on and the level was below
/// the highest.
pub proof fn law_escalation_goes_one_level_up(
    settings: Settings,
    state: StateView,
    content: Seq<char>,
    finish_reason: Option<Seq<char>>,
)
    requires
        state.wf(),
        next(settings, state, EventView::Reply { content, finish_reason }).1 is Send,
    ensures
        ({
            let (after, action) = next(settings, state, EventView::Reply { content, finish_reason });
            &&& state.requested_level() matches Some(level)
            &&& settings.escalation
            &&& is_truncated(finish_reason)
            &&& level < MAX_LEVEL
            &&& after == StateView::Escalating { level: (level + 1) as u32 }
            &&& action == send_at((level + 1) as u32)
        }),
{
    let level = state.requested_level()->0;
    let truncated = is_truncated(finish_reason);
    assert(on_reply(settings, level, content, truncated).1 is Send);
}

/// The reply that ends a turn carries a truncation warning only where it
/// was cut off at the highest level.
pub proof fn law_warning_only_at_the_highest_level(
    settings: Settings,
    state: StateView,
    content: Seq<char>,
    finish_reason: Option<Seq<char>>,
)
    requires
        next(settings, state, EventView::Reply { content, finish_reason }).1 matches ActionView::AppendReply {
            warn_truncated,
            ..
        } && warn_truncated,
    ensures
        is_truncated(finish_reason),
        state.requested_level() matches Some(level) && level >= MAX_LEVEL,
{
    let level = state.requested_level()->0;
    let truncated = is_truncated(finish_reason);
    assert(on_reply(settings, level, content, truncated).1 is AppendReply);
}

/// Two replies that were cut off and a third that was not, starting two
/// levels or more below the highest: the request goes out again twice, each
/// time one level higher, and the third reply is the one appended, without a
/// truncation warning.
pub proof fn law_two_escalations_then_the_answer(
    settings: Settings,
    level: u32,
    first: Seq<char>,
    second: Seq<char>,
    third: Seq<char>,
)
    requires
        settings.escalation,
        level + 2 <= MAX_LEVEL,
        is_answer(settings, first),
        is_answer(settings, second),
        is_answer(settings, third),
    ensures
        run(
            settings,
            StateView::AwaitingResponse { level },
            seq![cut_off(first), cut_off(second), complete(third)],
        ) == (
            StateView::Done,
            seq![
                send_at((level + 1) as u32),
                send_at((level + 2) as u32),
                ActionView::AppendReply { text: reply_block(third), warn_truncated: false },
            ],
        ),
{
    reveal_strlit("length");
    reveal_strlit("stop");
    reveal_strlit("max_tokens");
    let s0 = StateView::AwaitingResponse { level };
    let events = seq![cut_off(first), cut_off(second), complete(third)];
    let e2 = events.drop_last();
    let e1 = e2.drop_last();
    let e0 = e1.drop_last();
    assert(e0.len() == 0);
    assert(run(settings, s0, e0) == (s0, Seq::<ActionView>::empty()));
    assert(e1.last() == cut_off(first));
    assert(is_truncated(Some("length"@)));
    assert("stop"@.len() == 4 && "length"@.len() == 6 && "max_tokens"@.len() == 10);
    assert(!is_truncated(Some("stop"@)));
    let s1 = StateView::Escalating { level: (level + 1) as u32 };
    assert(next(settings, s0, cut_off(first)) == (s1, send_at((level + 1) as u32)));
    assert(run(settings, s0, e1).0 == s1);
    assert(run(settings, s0, e1).1 =~= seq![send_at((level + 1) as u32)]);
    assert(e2.last() == cut_off(second));
    let s2 = StateView::Escalating { level: (level + 2) as u32 };
    assert(next(settings, s1, cut_off(second)) == (s2, send_at((level + 2) as u32)));
    assert(run(settings, s0, e2).0 == s2);
    assert(run(settings, s0, e2).1 =~= seq![
        send_at((level + 1) as u32),
        send_at((level + 2) as u32),
    ]);
    assert(events.last() == complete(third));
    assert(run(settings, s0, events).1 =~= seq![
        send_at((level + 1) as u32),
        send_at((level + 2) as u32),
        ActionView::AppendReply { text: reply_block(third), warn_truncated: false },
    ]);
}

/// The events of some replies that were all cut off.
pub open spec fn all_cut_off(replies: Seq<Seq<char>>) -> Seq<EventView> {
    Seq::new(replies.len(), |i: int| cut_off(replies[i]))
}

/// The requests one level higher each, from the level above `level` on.
pub open spec fn sends_above(level: u32, count: nat) -> Seq<ActionView> {
    Seq::new(count, |i: int| send_at((level + i + 1) as u32))
}

/// However many replies are cut off, as long as there are levels left: the
/// request goes out again after each of them, one level higher each time, and
/// nothing is appended to the transcript.
pub proof fn law_escalation_climbs_level_by_level(
    settings: Settings,
    level: u32,
    replies: Seq<Seq<char>>,
)
    requires
        settings.escalation,
        replies.len() > 0,
        level + replies.len() <= MAX_LEVEL,
        forall|i: int| 0 <= i < replies.len() ==> is_answer(settings, #[trigger] replies[i]),
    ensures
        run(settings, StateView::AwaitingResponse { level }, all_cut_off(replies)) == (
            StateView::Escalating { level: (level + replies.len()) as u32 },
            sends_above(level, replies.len()),
        ),
    decreases replies.len(),
{
    reveal_strlit("length");
    let start = StateView::AwaitingResponse { level };
    let events = all_cut_off(replies);
    let n = replies.len() as int;
    let shorter = replies.drop_last();
    assert(events.drop_last() =~= all_cut_off(shorter));
    assert(events.last() == cut_off(replies[n - 1]));
    assert(is_answer(settings, replies[n - 1]));
    assert(is_truncated(Some("length"@)));
    if n == 1 {
        assert(all_cut_off(shorter).len() == 0);
        assert(run(settings, start, all_cut_off(shorter)) == (start, Seq::<ActionView>::empty()));
        assert(run(settings, start, events).1 =~= sends_above(level, 1));
    } else {
        assert forall|i: int| 0 <= i < shorter.len() implies is_answer(
            settings,
            #[trigger] shorter[i],
        ) by {
            assert(shorter[i] == replies[i]);
        }
        law_escalation_climbs_level_by_level(settings, level, shorter);
        let before = StateView::Escalating { level: (level + n - 1) as u32 };
        assert(run(settings, start, all_cut_off(shorter)).0 == before);
        assert(next(settings, before, cut_off(replies[n - 1])) == (
            StateView::Escalating { level: (level + n) as u32 },
            send_at((level + n) as u32),
        ));
        assert(run(settings, start, events).1 =~= sends_above(level, n as nat));
    }
}

/// At the highest level there is no going higher: a reply that was cut off
/// there ends the turn, and is appended with a truncation warning.
pub proof fn law_escalation_ends_at_the_highest_level(
    settings: Settings,
    state: StateView,
    content: Seq<char>,
)
    requires
        state.requested_level() == Some(MAX_LEVEL),
        is_answer(settings, content),
    ensures
        next(settings, state, cut_off(content)) == (
            StateView::Done,
            ActionView::AppendReply { text: reply_block(content), warn_truncated: true },
        ),
{
    reveal_strlit("length");
    assert(is_truncated(Some("length"@)));
}

/// Whatever happens, a request never asks for more than the budget of the
/// highest level, and always for the budget of its own.
pub proof fn law_requests_stay_within_budget(settings: Settings, state: StateView, event: EventView)
    requires
        state.wf(),
        event.wf(),
    ensures
        next(settings, state, event).1 matches ActionView::Send { level, max_tokens } ==> level
            <= MAX_LEVEL && max_tokens == token_budget(level) && max_tokens <= token_budget(
            MAX_LEVEL,
        ),
{
    vstd::arithmetic::power2::lemma2_to64();
    if next(settings, state, event).1 is Send {
        match event {
            EventView::Reply { content, finish_reason } => {
                law_escalation_goes_one_level_up(settings, state, content, finish_reason);
            },
            EventView::PathsChecked(facts) => {},
            _ => {},
        }
    }
}

/// A reply that has the form of a file request and names a path that
/// climbs to a parent directory is an answer like any other, whatever else
/// it names: the file system is not asked,
/// nothing is written for the request, and the whole reply is settled as an
/// answer.
pub proof fn law_traversal_attempt_is_an_answer(
    settings: Settings,
    state: StateView,
    content: Seq<char>,
    finish_reason: Option<Seq<char>>,
    list: Seq<char>,
    k: int,
)
    requires
        crate::request::request_list(content) == Some(list),
        0 <= k < crate::request::list_items(list).len(),
        crate::request::has_parent_segment(crate::request::list_items(list)[k]),
        state.requested_level() is Some,
    ensures
        file_request(content) is None,
        next(settings, state, EventView::Reply { content, finish_reason }) == settle(
            settings,
            state.requested_level()->0,
            content,
            is_truncated(finish_reason),
        ),
        !(next(settings, state, EventView::Reply { content, finish_reason }).1 is CheckPaths),
        !(next(settings, state, EventView::Reply { content, finish_reason }).1 is AppendRequest),
{
    assert(crate::request::any_parent_segment(crate::request::list_items(list)));
}

/// A request block is written only after the file system granted every
/// path of a file request.
pub proof fn law_request_block_needs_every_path_granted(
    settings: Settings,
    state: StateView,
    event: EventView,
)
    requires
        next(settings, state, event).1 is AppendRequest,
    ensures
        state matches StateView::NegotiatingFiles { paths, .. } && event matches EventView::PathsChecked(
            facts,
        ) && all_granted(paths, facts),
{
    match event {
        EventView::Reply { content, finish_reason } => {
            if state.requested_level() is Some {
                let level = state.requested_level()->0;
                assert(!(on_reply(settings, level, content, is_truncated(finish_reason)).1
                    is AppendRequest));
            }
        },
        _ => {},
    }
}

/// What reading a transcript gives: the turn to answer, if the transcript
/// ends in a prompt and its directives could be read.
#[derive(Clone, Debug, PartialEq, Eq)]
pub enum Preparation {
    /// The transcript does not end in a prompt of the user.
    NoPrompt,
    /// A pattern for the directives was rejected.
    Rejected,
    /// The turn, with its parameters resolved.
    Ready(Turn),
}

/// The event that reports a preparation.
pub open spec fn prepared_event(content: Seq<char>, default_level: u32) -> EventView {
    if !awaits_reply(parse(content)) {
        EventView::Prepared(None)
    } else {
        match resolved(parse(content), default_level) {
            Some(turn) => EventView::Prepared(Some(turn.level)),
            None => EventView::Failed(Failure::Preparation),
        }
    }
}

/// Reads a transcript and prepares its turn: parses it, and where it ends
/// in a prompt of the user that is not blank, resolves the turn's parameters.
pub fn prepare_turn(content: &str, default_level: u32) -> (r: Preparation)
    ensures
        !awaits_reply(parse(content@)) ==> r is NoPrompt,
        awaits_reply(parse(content@)) ==> match resolved(parse(content@), default_level) {
            Some(turn) => r matches Preparation::Ready(t) && t@ == turn,
            None => r is Rejected,
        },
        r matches Preparation::Ready(t) ==> default_level <= MAX_LEVEL ==> t.parameters.level
            <= MAX_LEVEL,
{
    let messages = parse_chat_messages(content);
    if !has_pending_prompt(&messages) {
        return Preparation::NoPrompt;
    }
    match resolve_turn_parameters(&messages, default_level) {
        Some(turn) => Preparation::Ready(turn),
        None => Preparation::Rejected,
    }
}

/// Starts a pass over the transcript as it stands: prepares the turn and
/// takes the machine one step with what that gave. Hands back the turn too
/// where there is one to answer.
pub fn start_turn(settings: &Settings, state: State, content: &str, default_level: u32) -> (r: (
    State,
    Action,
    Option<Turn>,
))
    requires
        state@.wf(),
        default_level <= MAX_LEVEL,
    ensures
        (r.0@, r.1@) == next(*settings, state@, prepared_event(content@, default_level)),
        r.0@.wf(),
        match r.2 {
            Some(t) => awaits_reply(parse(content@)) && resolved(parse(content@), default_level)
                == Some(t@),
            None => !awaits_reply(parse(content@)) || resolved(parse(content@), default_level)
                is None,
        },
        !awaits_reply(parse(content@)) ==> !(r.1 is Send),
{
    match prepare_turn(content, default_level) {
        Preparation::NoPrompt => {
            let (s, a) = step(settings, state, Event::Prepared(None));
            (s, a, None)
        },
        Preparation::Rejected => {
            let (s, a) = step(settings, state, Event::Failed(Failure::Preparation));
            (s, a, None)
        },
        Preparation::Ready(turn) => {
            let (s, a) = step(settings, state, Event::Prepared(Some(turn.parameters.level)));
            (s, a, Some(turn))
        },
    }
}

} // verus!
