use gchat::level::{get_level_from_str, parse_level, read_level, LevelError, MAX_LEVEL};

#[test]
fn level_three_is_4096_tokens() {
    assert_eq!(get_level_from_str("L3"), Ok(3));
    assert_eq!(parse_level(3), 4096);
}

#[test]
fn lowest_and_highest_level() {
    assert_eq!(get_level_from_str("L0"), Ok(0));
    assert_eq!(parse_level(0), 512);
    assert_eq!(get_level_from_str("L7"), Ok(7));
    assert_eq!(parse_level(MAX_LEVEL), 65536);
}

#[test]
fn each_level_doubles_the_budget() {
    let mut level = 0;
    while level < MAX_LEVEL {
        assert_eq!(parse_level(level + 1), 2 * parse_level(level));
        level += 1;
    }
}

#[test]
fn budget_runs_out_of_32_bits() {
    assert_eq!(parse_level(22), 2_147_483_648);
    assert_eq!(parse_level(23), 0);
    assert_eq!(parse_level(31), 0);
}

#[test]
fn white_space_around_a_level_is_ignored() {
    assert_eq!(get_level_from_str("  L5\n"), Ok(5));
    assert_eq!(read_level("\tL2 "), Ok(2));
}

#[test]
fn level_above_maximum_is_refused() {
    assert_eq!(
        get_level_from_str(" L9 "),
        Err("Level too high: L9, max L7 (65536 tokens)".to_string())
    );
    assert_eq!(read_level("L8"), Err(LevelError::TooHigh(8)));
    assert_eq!(
        read_level("L4294967295"),
        Err(LevelError::TooHigh(4_294_967_295))
    );
}

#[test]
fn level_without_number_is_refused() {
    assert_eq!(
        get_level_from_str("Lx"),
        Err("Invalid level: expected L followed by a number (e.g., L7)".to_string())
    );
    assert_eq!(read_level("L"), Err(LevelError::NotANumber));
    assert_eq!(read_level("L-1"), Err(LevelError::NotANumber));
    assert_eq!(read_level("L 3"), Err(LevelError::NotANumber));
    assert_eq!(read_level("L4294967296"), Err(LevelError::NotANumber));
}

#[test]
fn level_without_prefix_is_refused() {
    assert_eq!(
        get_level_from_str("7"),
        Err("Invalid format: expected L<level> (e.g., L7)".to_string())
    );
    assert_eq!(read_level(""), Err(LevelError::NoPrefix));
    assert_eq!(read_level("l3"), Err(LevelError::NoPrefix));
}

#[test]
fn level_reads_as_the_standard_parser_does() {
    assert_eq!(read_level("L+5"), Ok(5));
    assert_eq!(read_level("L007"), Ok(7));
    assert_eq!(read_level("L+"), Err(LevelError::NotANumber));
    for text in ["3", "+3", "03", "", "+", "-3", "3a", "4294967295", "4294967296", "٣"] {
        let ours = read_level(&format!("L{}", text));
        match text.parse::<u32>() {
            Ok(n) if n <= MAX_LEVEL => assert_eq!(ours, Ok(n)),
            Ok(n) => assert_eq!(ours, Err(LevelError::TooHigh(n))),
            Err(_) => assert_eq!(ours, Err(LevelError::NotANumber)),
        }
    }
}

#[test]
fn error_messages_name_the_level() {
    assert_eq!(
        LevelError::TooHigh(120).message(),
        "Level too high: L120, max L7 (65536 tokens)"
    );
    assert_eq!(
        LevelError::NotANumber.message(),
        "Invalid level: expected L followed by a number (e.g., L7)"
    );
    assert_eq!(
        LevelError::NoPrefix.message(),
        "Invalid format: expected L<level> (e.g., L7)"
    );
}
