use gchat::directive::{
    extract_override, pattern_of, resolve_turn_parameters, splice_text, take_override,
    take_overrides, Override,
};
use gchat::pattern::{find_all, Capture, Span};
use gchat::transcript::{Message, Role};

fn user(text: &str) -> Message {
    Message::new(Role::User, text)
}

fn assistant(text: &str) -> Message {
    Message::new(Role::Assistant, text)
}

fn chars(text: &str) -> Vec<char> {
    text.chars().collect()
}

fn span(start: usize, end: usize) -> Span {
    Span { start, end }
}

#[test]
fn patterns_are_the_documented_ones() {
    assert_eq!(pattern_of(Override::TokenBudget), r"@t\s*:\s*L(\d+)");
    assert_eq!(pattern_of(Override::Temperature), r"@p\s*:\s*(\d*\.?\d+)");
}

#[test]
fn matches_are_reported_in_character_positions() {
    let found = find_all(r"@t\s*:\s*L(\d+)", "\u{00e9}\u{65e5} @t:L3 \u{1F600}@t : L12").unwrap();
    assert_eq!(
        found,
        vec![
            Capture { whole: span(3, 8), first: Some(span(7, 8)), second: None },
            Capture { whole: span(10, 18), first: Some(span(16, 18)), second: None },
        ]
    );
}

#[test]
fn text_without_a_match_has_no_captures() {
    assert_eq!(find_all(r"@t\s*:\s*L(\d+)", "nothing here"), Some(vec![]));
    assert_eq!(find_all(r"@t\s*:\s*L(\d+)", ""), Some(vec![]));
}

#[test]
fn rejected_pattern_gives_none() {
    assert_eq!(find_all(r"(unclosed", "text"), None);
}

#[test]
fn second_group_is_reported() {
    let found = find_all(r"@f\s*:(\S+)|@d\s*:(\S+)", "@d:src @f:a.txt").unwrap();
    assert_eq!(
        found,
        vec![
            Capture { whole: span(0, 6), first: None, second: Some(span(3, 6)) },
            Capture { whole: span(7, 15), first: Some(span(10, 15)), second: None },
        ]
    );
}

#[test]
fn splice_replaces_only_the_spans() {
    let text = chars("0123456789");
    let spans = vec![span(1, 3), span(3, 4), span(8, 8)];
    let with = vec![chars("<a>"), chars(""), chars("|")];
    let out: String = splice_text(&text, &spans, &with).into_iter().collect();
    assert_eq!(out, "0<a>4567|89");
}

#[test]
fn splice_without_spans_is_the_text() {
    let text = chars("unchanged");
    let out: String = splice_text(&text, &vec![], &vec![]).into_iter().collect();
    assert_eq!(out, "unchanged");
}

#[test]
fn level_directive_is_taken_out_and_read() {
    let (rest, value) = take_override(Override::TokenBudget, "please @t:L5 answer").unwrap();
    assert_eq!(rest, "please  answer");
    assert_eq!(value, Some("5".to_string()));
}

#[test]
fn last_directive_of_a_message_wins() {
    let (rest, value) =
        take_override(Override::TokenBudget, "@t:L1 a @t : L2 b @t:L3").unwrap();
    assert_eq!(rest, " a  b ");
    assert_eq!(value, Some("3".to_string()));
}

#[test]
fn directive_with_unusable_value_is_taken_out_and_sets_nothing() {
    let (rest, value) =
        take_override(Override::TokenBudget, "a @t:L2 b @t:L99999999999 c").unwrap();
    assert_eq!(rest, "a  b  c");
    assert_eq!(value, Some("2".to_string()));
    let (rest, value) = take_override(Override::TokenBudget, "x @t:L\u{0663} y").unwrap();
    assert_eq!(rest, "x  y");
    assert_eq!(value, None);
}

#[test]
fn temperature_directive_is_taken_out_and_kept_as_written() {
    let (rest, value) = take_override(Override::Temperature, "hot @p:0.7 stuff").unwrap();
    assert_eq!(rest, "hot  stuff");
    assert_eq!(value, Some("0.7".to_string()));
    let (rest, value) = take_override(Override::Temperature, "@p: .5 and @p:2").unwrap();
    assert_eq!(rest, " and ");
    assert_eq!(value, Some("2".to_string()));
    let (rest, value) = take_override(Override::Temperature, "@p:1.5.2").unwrap();
    assert_eq!(rest, ".2");
    assert_eq!(value, Some("1.5".to_string()));
}

#[test]
fn temperature_values_read_as_floats() {
    for text in ["@p:0.7", "@p:.5", "@p:2", "@p:007.250", "@p:123456789012345678901234567890"] {
        let (_, value) = take_override(Override::Temperature, text).unwrap();
        let value = value.unwrap();
        assert!(value.parse::<f32>().is_ok());
    }
    let (_, value) = take_override(Override::Temperature, "@p:0.7").unwrap();
    assert_eq!(value.unwrap().parse::<f32>().unwrap(), 0.7f32);
}

#[test]
fn extract_works_on_given_captures() {
    let caps = vec![
        Capture { whole: span(0, 4), first: Some(span(2, 4)), second: None },
        Capture { whole: span(6, 9), first: Some(span(7, 9)), second: None },
        Capture { whole: span(9, 10), first: None, second: None },
    ];
    let (rest, value) = extract_override(Override::TokenBudget, "ab12cdx7yz!", &caps);
    assert_eq!(rest, "cd!");
    assert_eq!(value, Some("12".to_string()));
    let (rest, value) = extract_override(Override::Temperature, "ab12cdx7yz!", &caps);
    assert_eq!(rest, "cd!");
    assert_eq!(value, Some("12".to_string()));
    let (rest, value) = extract_override(Override::TokenBudget, "ab12cdx7yz!", &vec![]);
    assert_eq!(rest, "ab12cdx7yz!");
    assert_eq!(value, None);
}

#[test]
fn last_directive_wins_whichever_message_holds_it() {
    let messages = vec![
        user("first @t:L6 prompt"),
        assistant("reply with @t:L1 inside"),
        user("second prompt without directive"),
    ];
    let (stripped, value) = take_overrides(Override::TokenBudget, &messages).unwrap();
    assert_eq!(value, Some("6".to_string()));
    assert_eq!(
        stripped,
        vec![
            user("first  prompt"),
            assistant("reply with @t:L1 inside"),
            user("second prompt without directive"),
        ]
    );
    let messages = vec![user("a @t:L6"), user("b @t:L2"), user("c")];
    let (stripped, value) = take_overrides(Override::TokenBudget, &messages).unwrap();
    assert_eq!(value, Some("2".to_string()));
    assert_eq!(stripped, vec![user("a "), user("b "), user("c")]);
}

#[test]
fn turn_parameters_come_from_the_last_directives() {
    let messages = vec![
        user("q1 @t:L2 @p:0.3"),
        assistant("a1 @t:L7 @p:9"),
        user("q2 @p:1.25"),
    ];
    let turn = resolve_turn_parameters(&messages, 3).unwrap();
    assert_eq!(turn.parameters.level, 2);
    assert_eq!(turn.parameters.level_override, Some(2));
    assert_eq!(turn.parameters.temperature_override, Some("1.25".to_string()));
    assert_eq!(
        turn.messages,
        vec![user("q1  "), assistant("a1 @t:L7 @p:9"), user("q2 ")]
    );
}

#[test]
fn turn_without_directives_keeps_the_defaults() {
    let messages = vec![user("plain question")];
    let turn = resolve_turn_parameters(&messages, 3).unwrap();
    assert_eq!(turn.parameters.level, 3);
    assert_eq!(turn.parameters.level_override, None);
    assert_eq!(turn.parameters.temperature_override, None);
    assert_eq!(turn.messages, messages);
}

#[test]
fn level_above_the_maximum_is_capped() {
    let turn = resolve_turn_parameters(&vec![user("big @t:L12 one")], 3).unwrap();
    assert_eq!(turn.parameters.level, 7);
    assert_eq!(turn.parameters.level_override, Some(12));
    let turn = resolve_turn_parameters(&vec![user("exact @t:L7")], 3).unwrap();
    assert_eq!(turn.parameters.level, 7);
    assert_eq!(turn.parameters.level_override, Some(7));
}

#[test]
fn temperature_is_searched_in_what_the_level_pass_left() {
    let turn = resolve_turn_parameters(&vec![user("@p@t:L4:1.5 x")], 3).unwrap();
    assert_eq!(turn.parameters.level, 4);
    assert_eq!(turn.parameters.temperature_override, Some("1.5".to_string()));
    assert_eq!(turn.messages, vec![user(" x")]);
}
