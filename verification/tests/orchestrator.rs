use gchat::orchestrator::{
    check_truncated, prepare_turn, start_turn, step, Action, Event, Failure, Preparation,
    Settings, State,
};
use gchat::request::PathFacts;
use gchat::transcript::{Message, Role};

const BOTH: Settings = Settings { file_negotiation: true, escalation: true };
const NEITHER: Settings = Settings { file_negotiation: false, escalation: false };
const ESCALATE: Settings = Settings { file_negotiation: false, escalation: true };
const NEGOTIATE: Settings = Settings { file_negotiation: true, escalation: false };

fn reply(content: &str, finish_reason: Option<&str>) -> Event {
    Event::Reply {
        content: content.to_string(),
        finish_reason: finish_reason.map(|s| s.to_string()),
    }
}

fn good() -> PathFacts {
    PathFacts { absolute: false, inside: true }
}

#[test]
fn prompt_starts_a_request_at_its_level() {
    let (state, action) = step(&BOTH, State::Idle, Event::Prepared(Some(3)));
    assert_eq!(state, State::AwaitingResponse { level: 3 });
    assert_eq!(action, Action::Send { level: 3, max_tokens: 4096 });
}

#[test]
fn no_prompt_no_request() {
    for state in [State::Idle, State::Done, State::Failed] {
        let (next, action) = step(&BOTH, state, Event::Prepared(None));
        assert_eq!(next, State::Idle);
        assert_eq!(action, Action::Nothing);
    }
}

#[test]
fn transcript_ending_in_a_reply_yields_no_call() {
    for text in [
        "",
        "USER PROMPT:\n\n",
        "USER PROMPT:\nHello\nGROK RESPONSE:\nHi there\n\nUSER PROMPT:\n\n",
        "USER PROMPT:\nHello\nGROK RESPONSE:\nHi there",
    ] {
        let (state, action, turn) = start_turn(&BOTH, State::Idle, text, 3);
        assert_eq!(state, State::Idle);
        assert_eq!(action, Action::Nothing);
        assert_eq!(turn, None);
        let (again, action, turn) = start_turn(&BOTH, state, text, 3);
        assert_eq!(again, State::Idle);
        assert_eq!(action, Action::Nothing);
        assert_eq!(turn, None);
    }
}

#[test]
fn pending_prompt_starts_the_turn() {
    let (state, action, turn) =
        start_turn(&BOTH, State::Done, "USER PROMPT:\nHello @t:L5 @p:0.2", 3);
    assert_eq!(state, State::AwaitingResponse { level: 5 });
    assert_eq!(action, Action::Send { level: 5, max_tokens: 16384 });
    let turn = turn.unwrap();
    assert_eq!(turn.messages, vec![Message::new(Role::User, "Hello  ")]);
    assert_eq!(turn.parameters.level, 5);
    assert_eq!(turn.parameters.temperature_override, Some("0.2".to_string()));
}

#[test]
fn preparation_tells_whether_a_prompt_awaits() {
    assert!(matches!(prepare_turn("USER PROMPT:\n", 3), Preparation::NoPrompt));
    assert!(matches!(prepare_turn("GROK RESPONSE:\nx", 3), Preparation::NoPrompt));
    match prepare_turn("USER PROMPT:\nHello", 3) {
        Preparation::Ready(turn) => {
            assert_eq!(turn.parameters.level, 3);
            assert_eq!(turn.parameters.level_override, None);
            assert_eq!(turn.messages, vec![Message::new(Role::User, "Hello")]);
        }
        _ => panic!("a prompt awaits its answer"),
    }
}

#[test]
fn simple_answer_is_appended() {
    let (state, action) = step(&BOTH, State::Idle, Event::Prepared(Some(3)));
    assert_eq!(action, Action::Send { level: 3, max_tokens: 4096 });
    let (state, action) = step(&BOTH, state, reply("Hi there", Some("stop")));
    assert_eq!(state, State::Done);
    assert_eq!(
        action,
        Action::AppendReply {
            text: "\nGROK RESPONSE:\nHi there\n\nUSER PROMPT:\n\n".to_string(),
            warn_truncated: false,
        }
    );
}

#[test]
fn two_truncations_then_a_normal_reply() {
    let (state, action) = step(&ESCALATE, State::Idle, Event::Prepared(Some(4)));
    assert_eq!(action, Action::Send { level: 4, max_tokens: 8192 });
    let (state, action) = step(&ESCALATE, state, reply("first", Some("length")));
    assert_eq!(state, State::Escalating { level: 5 });
    assert_eq!(action, Action::Send { level: 5, max_tokens: 16384 });
    let (state, action) = step(&ESCALATE, state, reply("second", Some("max_tokens")));
    assert_eq!(state, State::Escalating { level: 6 });
    assert_eq!(action, Action::Send { level: 6, max_tokens: 32768 });
    let (state, action) = step(&ESCALATE, state, reply("third", Some("stop")));
    assert_eq!(state, State::Done);
    assert_eq!(
        action,
        Action::AppendReply {
            text: "\nGROK RESPONSE:\nthird\n\nUSER PROMPT:\n\n".to_string(),
            warn_truncated: false,
        }
    );
}

#[test]
fn truncation_at_the_highest_level_is_final_with_a_warning() {
    let mut state = State::Idle;
    let (next, _) = step(&ESCALATE, state, Event::Prepared(Some(5)));
    state = next;
    let mut sends = 0;
    let mut last = Action::Nothing;
    for n in 0..10 {
        let (next, action) = step(&ESCALATE, state, reply(&format!("r{}", n), Some("length")));
        state = next;
        last = action;
        if let Action::Send { .. } = last {
            sends += 1;
        } else {
            break;
        }
    }
    assert_eq!(sends, 2);
    assert_eq!(state, State::Done);
    assert_eq!(
        last,
        Action::AppendReply {
            text: "\nGROK RESPONSE:\nr2\n\nUSER PROMPT:\n\n".to_string(),
            warn_truncated: true,
        }
    );
}

#[test]
fn truncated_reply_is_final_where_escalation_is_off() {
    let (state, action) =
        step(&NEITHER, State::AwaitingResponse { level: 2 }, reply("cut", Some("length")));
    assert_eq!(state, State::Done);
    assert_eq!(
        action,
        Action::AppendReply {
            text: "\nGROK RESPONSE:\ncut\n\nUSER PROMPT:\n\n".to_string(),
            warn_truncated: false,
        }
    );
    let (_, action) =
        step(&NEITHER, State::AwaitingResponse { level: 7 }, reply("cut", Some("length")));
    assert_eq!(
        action,
        Action::AppendReply {
            text: "\nGROK RESPONSE:\ncut\n\nUSER PROMPT:\n\n".to_string(),
            warn_truncated: true,
        }
    );
}

#[test]
fn finish_reasons_that_mean_truncation() {
    assert!(check_truncated(&Some("length".to_string())));
    assert!(check_truncated(&Some("max_tokens".to_string())));
    assert!(!check_truncated(&Some("stop".to_string())));
    assert!(!check_truncated(&Some("LENGTH".to_string())));
    assert!(!check_truncated(&Some(String::new())));
    assert!(!check_truncated(&None));
}

#[test]
fn file_request_is_checked_then_granted() {
    let asked = "GROK REQUESTS FILES: src/a.rs, b.txt";
    let (state, action) = step(&BOTH, State::AwaitingResponse { level: 3 }, reply(asked, None));
    assert_eq!(
        state,
        State::NegotiatingFiles {
            level: 3,
            content: asked.to_string(),
            truncated: false,
            paths: vec!["src/a.rs".to_string(), "b.txt".to_string()],
        }
    );
    assert_eq!(
        action,
        Action::CheckPaths(vec!["src/a.rs".to_string(), "b.txt".to_string()])
    );
    let (state, action) = step(&BOTH, state, Event::PathsChecked(vec![good(), good()]));
    assert_eq!(state, State::Idle);
    assert_eq!(
        action,
        Action::AppendRequest("\n\nGROK REQUESTED FILES:\n@f:src/a.rs\n@f:b.txt\n".to_string())
    );
    let (state, action) = step(&BOTH, state, Event::Prepared(Some(3)));
    assert_eq!(state, State::AwaitingResponse { level: 3 });
    assert_eq!(action, Action::Send { level: 3, max_tokens: 4096 });
}

#[test]
fn traversal_attempt_makes_the_reply_an_answer() {
    let asked = "GROK REQUESTS FILES: src/a.rs, ../../etc/passwd";
    let (state, action) = step(&BOTH, State::AwaitingResponse { level: 3 }, reply(asked, None));
    assert_eq!(state, State::Done);
    assert_eq!(
        action,
        Action::AppendReply {
            text: format!("\nGROK RESPONSE:\n{}\n\nUSER PROMPT:\n\n", asked),
            warn_truncated: false,
        }
    );
}

#[test]
fn path_outside_the_project_makes_the_reply_an_answer() {
    let asked = "GROK REQUESTS FILES: a, link";
    let waiting = State::NegotiatingFiles {
        level: 3,
        content: asked.to_string(),
        truncated: false,
        paths: vec!["a".to_string(), "link".to_string()],
    };
    let outside = PathFacts { absolute: false, inside: false };
    let absolute = PathFacts { absolute: true, inside: true };
    for facts in [vec![good(), outside], vec![absolute, good()], vec![good()], vec![]] {
        let (state, action) = step(&BOTH, waiting.clone(), Event::PathsChecked(facts));
        assert_eq!(state, State::Done);
        assert_eq!(
            action,
            Action::AppendReply {
                text: format!("\nGROK RESPONSE:\n{}\n\nUSER PROMPT:\n\n", asked),
                warn_truncated: false,
            }
        );
    }
}

#[test]
fn refused_file_request_that_was_cut_off_is_escalated() {
    let asked = "GROK REQUESTS FILES: a";
    let (state, action) =
        step(&BOTH, State::AwaitingResponse { level: 3 }, reply(asked, Some("length")));
    assert_eq!(action, Action::CheckPaths(vec!["a".to_string()]));
    let outside = PathFacts { absolute: false, inside: false };
    let (state, action) = step(&BOTH, state, Event::PathsChecked(vec![outside]));
    assert_eq!(state, State::Escalating { level: 4 });
    assert_eq!(action, Action::Send { level: 4, max_tokens: 8192 });
}

#[test]
fn escalated_reply_can_be_a_file_request() {
    let (state, _) = step(&BOTH, State::AwaitingResponse { level: 3 }, reply("cut", Some("length")));
    assert_eq!(state, State::Escalating { level: 4 });
    let (state, action) = step(&BOTH, state, reply("GROK REQUESTS FILES: a", Some("stop")));
    assert_eq!(action, Action::CheckPaths(vec!["a".to_string()]));
    assert!(matches!(state, State::NegotiatingFiles { level: 4, .. }));
}

#[test]
fn file_request_is_an_answer_where_negotiation_is_off() {
    let asked = "GROK REQUESTS FILES: a";
    for settings in [NEITHER, ESCALATE] {
        let (state, action) =
            step(&settings, State::AwaitingResponse { level: 3 }, reply(asked, None));
        assert_eq!(state, State::Done);
        assert_eq!(
            action,
            Action::AppendReply {
                text: format!("\nGROK RESPONSE:\n{}\n\nUSER PROMPT:\n\n", asked),
                warn_truncated: false,
            }
        );
    }
    let (state, _) = step(&NEGOTIATE, State::AwaitingResponse { level: 3 }, reply(asked, None));
    assert!(matches!(state, State::NegotiatingFiles { .. }));
}

#[test]
fn failure_ends_the_turn_from_any_state() {
    let states = [
        State::Idle,
        State::AwaitingResponse { level: 3 },
        State::Escalating { level: 4 },
        State::NegotiatingFiles {
            level: 3,
            content: "c".to_string(),
            truncated: false,
            paths: vec!["a".to_string()],
        },
        State::Done,
        State::Failed,
    ];
    for state in states {
        for failure in
            [Failure::Credential, Failure::Transport, Failure::Protocol, Failure::Preparation]
        {
            let (next, action) = step(&BOTH, state.clone(), Event::Failed(failure));
            assert_eq!(next, State::Failed);
            assert_eq!(action, Action::Fail(failure));
        }
    }
}

#[test]
fn unexpected_events_change_nothing() {
    let (state, action) = step(&BOTH, State::Idle, reply("late", None));
    assert_eq!((state, action), (State::Idle, Action::Nothing));
    let (state, action) = step(&BOTH, State::Done, Event::PathsChecked(vec![good()]));
    assert_eq!((state, action), (State::Done, Action::Nothing));
    let busy = State::AwaitingResponse { level: 2 };
    let (state, action) = step(&BOTH, busy.clone(), Event::Prepared(Some(5)));
    assert_eq!((state, action), (busy.clone(), Action::Nothing));
    let (state, action) = step(&BOTH, busy.clone(), Event::PathsChecked(vec![]));
    assert_eq!((state, action), (busy, Action::Nothing));
}

#[test]
fn after_a_failure_the_next_change_starts_anew() {
    let (state, _) = step(&BOTH, State::AwaitingResponse { level: 3 }, Event::Failed(Failure::Transport));
    assert_eq!(state, State::Failed);
    let (state, action) = step(&BOTH, state, Event::Prepared(Some(2)));
    assert_eq!(state, State::AwaitingResponse { level: 2 });
    assert_eq!(action, Action::Send { level: 2, max_tokens: 2048 });
}

#[test]
fn every_truncation_below_the_top_raises_the_level_by_one() {
    for start in 0..=7u32 {
        let mut state = State::AwaitingResponse { level: start };
        let mut level = start;
        loop {
            let (next, action) = step(&ESCALATE, state, reply("cut", Some("length")));
            state = next;
            match action {
                Action::Send { level: sent, max_tokens } => {
                    assert_eq!(sent, level + 1);
                    assert_eq!(max_tokens, 512u32 << sent);
                    assert_eq!(state, State::Escalating { level: sent });
                    level = sent;
                }
                Action::AppendReply { warn_truncated, .. } => {
                    assert_eq!(level, 7);
                    assert!(warn_truncated);
                    assert_eq!(state, State::Done);
                    break;
                }
                other => panic!("unexpected {:?}", other),
            }
        }
    }
}

#[test]
fn blank_transcript_is_prepared_as_no_prompt() {
    assert_eq!(prepare_turn("", 3), Preparation::NoPrompt);
    assert_eq!(prepare_turn("GROK RESPONSE:\nHi", 3), Preparation::NoPrompt);
}
