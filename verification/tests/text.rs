use gchat::text::{
    contains_char, from_chars, is_ascii_digit, is_space, push_all, push_decimal, push_range,
    push_str, read_u32, same_text, slice, split_lines, starts_with, to_chars, trim_bounds,
    trimmed,
};

fn chars(text: &str) -> Vec<char> {
    text.chars().collect()
}

fn text(chars: &[char]) -> String {
    chars.iter().collect()
}

const SAMPLES: [&str; 14] = [
    "",
    " ",
    "a",
    "  a  ",
    "\n\ta b\r\n",
    "\u{00A0}x\u{3000}",
    "\u{2003}\u{2028}\u{2029}",
    "no space at all",
    "line one\nline two",
    "line one\r\nline two\r\n",
    "\n\n\n",
    "a\rb\r",
    "trailing\r",
    "\u{65e5}\u{672c}\u{8a9e} \u{1F600}\n\u{00e9}",
];

#[test]
fn strings_and_characters_convert_both_ways() {
    for sample in SAMPLES {
        assert_eq!(to_chars(sample), chars(sample));
        assert_eq!(from_chars(&chars(sample)), sample);
    }
}

#[test]
fn white_space_is_what_the_standard_library_says() {
    for code in 0u32..=0x10FFFF {
        if let Some(c) = char::from_u32(code) {
            assert_eq!(is_space(c), c.is_whitespace(), "U+{:04X}", code);
        }
    }
}

#[test]
fn digits_are_the_ten_ascii_digits() {
    for code in 0u32..=0x10FFFF {
        if let Some(c) = char::from_u32(code) {
            assert_eq!(is_ascii_digit(c), c.is_ascii_digit(), "U+{:04X}", code);
        }
    }
}

#[test]
fn trimming_agrees_with_the_standard_library() {
    for sample in SAMPLES {
        assert_eq!(text(&trimmed(&chars(sample))), sample.trim());
        let (a, b) = trim_bounds(&chars(sample));
        assert_eq!(text(&chars(sample)[a..b]), sample.trim());
    }
}

#[test]
fn trimmed_text_has_exact_bounds() {
    assert_eq!(trim_bounds(&chars("  ab \n")), (2, 4));
    assert_eq!(trim_bounds(&chars("ab")), (0, 2));
    assert_eq!(trim_bounds(&chars("   ")), (3, 3));
    assert_eq!(trim_bounds(&chars("")), (0, 0));
}

#[test]
fn lines_agree_with_the_standard_library() {
    for sample in SAMPLES {
        let ours: Vec<String> = split_lines(&chars(sample)).iter().map(|l| text(l)).collect();
        let theirs: Vec<String> = sample.lines().map(|l| l.to_string()).collect();
        assert_eq!(ours, theirs);
    }
}

#[test]
fn lines_are_split_at_line_feeds() {
    let lines: Vec<String> =
        split_lines(&chars("a\n\nb\r\nc\r")).iter().map(|l| text(l)).collect();
    assert_eq!(lines, vec!["a", "", "b", "c\r"]);
    assert!(split_lines(&chars("")).is_empty());
    assert_eq!(split_lines(&chars("\n")), vec![Vec::<char>::new()]);
}

#[test]
fn numbers_read_as_the_standard_parser_reads_them() {
    for sample in [
        "0", "7", "007", "+7", "+", "", "-7", "7 ", " 7", "4294967295", "4294967296",
        "99999999999999999999", "12a", "١٢", "+0", "++1",
    ] {
        let v = chars(sample);
        assert_eq!(read_u32(&v, 0, v.len()), sample.parse::<u32>().ok(), "{:?}", sample);
    }
}

#[test]
fn numbers_are_read_from_the_given_range() {
    let v = chars("ab123cd");
    assert_eq!(read_u32(&v, 2, 5), Some(123));
    assert_eq!(read_u32(&v, 2, 4), Some(12));
    assert_eq!(read_u32(&v, 1, 5), None);
    assert_eq!(read_u32(&v, 3, 3), None);
}

#[test]
fn numbers_are_written_in_base_ten() {
    for n in [0u32, 1, 9, 10, 11, 99, 100, 512, 65536, 4294967295] {
        let mut out = chars("n=");
        push_decimal(&mut out, n);
        assert_eq!(text(&out), format!("n={}", n));
    }
}

#[test]
fn pieces_are_appended_in_order() {
    let mut out = chars("ab");
    push_range(&mut out, &chars("0123456"), 2, 5);
    push_all(&mut out, &chars("cd"));
    push_str(&mut out, "\u{00e9}f");
    push_range(&mut out, &chars("xyz"), 1, 1);
    assert_eq!(text(&out), "ab234cd\u{00e9}f");
    assert_eq!(text(&slice(&chars("0123456"), 1, 4)), "123");
    assert_eq!(text(&slice(&chars("0123456"), 7, 7)), "");
}

#[test]
fn texts_are_compared_character_by_character() {
    assert!(same_text(&chars("abc"), &chars("abc")));
    assert!(same_text(&chars(""), &chars("")));
    assert!(!same_text(&chars("abc"), &chars("abd")));
    assert!(!same_text(&chars("abc"), &chars("ab")));
    assert!(starts_with(&chars("abc"), &chars("ab")));
    assert!(starts_with(&chars("abc"), &chars("")));
    assert!(starts_with(&chars("abc"), &chars("abc")));
    assert!(!starts_with(&chars("abc"), &chars("abcd")));
    assert!(!starts_with(&chars("abc"), &chars("b")));
    assert!(contains_char(&chars("a*b"), '*'));
    assert!(!contains_char(&chars("ab"), '*'));
    assert!(!contains_char(&chars(""), 'a'));
}
