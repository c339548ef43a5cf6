use gchat::request::{
    check_granted, climbs_to_parent, read_file_request, write_request_block, PathFacts,
};

fn strings(items: &[&str]) -> Vec<String> {
    items.iter().map(|s| s.to_string()).collect()
}

#[test]
fn request_for_two_files_is_read() {
    assert_eq!(
        read_file_request("GROK REQUESTS FILES: src/a.rs, src/b.rs"),
        Some(strings(&["src/a.rs", "src/b.rs"]))
    );
}

#[test]
fn white_space_around_the_reply_is_ignored() {
    assert_eq!(
        read_file_request("\n  GROK REQUESTS FILES: a.txt \n"),
        Some(strings(&["a.txt"]))
    );
}

#[test]
fn blank_items_are_skipped() {
    assert_eq!(
        read_file_request("GROK REQUESTS FILES: a,, b ,c,"),
        Some(strings(&["a", "b", "c"]))
    );
}

#[test]
fn globs_and_directories_may_be_asked_for() {
    assert_eq!(
        read_file_request("GROK REQUESTS FILES: src/*.rs, docs"),
        Some(strings(&["src/*.rs", "docs"]))
    );
}

#[test]
fn reply_with_other_content_is_an_answer() {
    assert_eq!(read_file_request("Sure! GROK REQUESTS FILES: a.txt"), None);
    assert_eq!(read_file_request("GROK REQUESTS FILES: a.txt\nThanks"), None);
    assert_eq!(read_file_request("An ordinary answer."), None);
    assert_eq!(read_file_request(""), None);
}

#[test]
fn the_form_is_exact() {
    assert_eq!(read_file_request("GROK REQUESTS FILES:a.txt"), None);
    assert_eq!(read_file_request("GROK REQUESTS FILES:  a.txt"), None);
    assert_eq!(read_file_request("GROK REQUESTS FILES:\ta.txt"), None);
    assert_eq!(read_file_request("grok requests files: a.txt"), None);
    assert_eq!(read_file_request("GROK REQUESTS FILES: "), None);
    assert_eq!(read_file_request("GROK REQUESTS FILES:"), None);
}

#[test]
fn request_without_a_path_is_an_answer() {
    assert_eq!(read_file_request("GROK REQUESTS FILES: ,"), None);
    assert_eq!(read_file_request("GROK REQUESTS FILES: , ,"), None);
}

#[test]
fn one_traversal_attempt_spoils_the_whole_request() {
    assert_eq!(read_file_request("GROK REQUESTS FILES: a.txt, ../secret, b.txt"), None);
    assert_eq!(read_file_request("GROK REQUESTS FILES: ../secret"), None);
    assert_eq!(read_file_request("GROK REQUESTS FILES: a/../../etc/passwd"), None);
    assert_eq!(read_file_request("GROK REQUESTS FILES: src/.., a"), None);
    assert_eq!(read_file_request("GROK REQUESTS FILES: a, .."), None);
    assert_eq!(read_file_request("GROK REQUESTS FILES: a\\..\\b"), None);
}

#[test]
fn dots_within_a_name_are_no_traversal() {
    assert_eq!(
        read_file_request("GROK REQUESTS FILES: ./a.b.c, .hidden, a..b, ...,..x,x.."),
        Some(strings(&["./a.b.c", ".hidden", "a..b", "...", "..x", "x.."]))
    );
}

#[test]
fn parent_segments_are_found_wherever_they_stand() {
    for (path, climbs) in [
        ("..", true),
        ("../a", true),
        ("a/..", true),
        ("a/../b", true),
        ("a\\..\\b", true),
        ("/..", true),
        ("", false),
        (".", false),
        ("a.b.c", false),
        ("a..b", false),
        ("...", false),
        ("..a/b", false),
        ("a/b..", false),
        ("a/.../b", false),
    ] {
        let chars: Vec<char> = path.chars().collect();
        assert_eq!(climbs_to_parent(&chars), climbs);
    }
}

#[test]
fn request_block_names_each_path() {
    assert_eq!(
        write_request_block(&strings(&["src/a.rs", "b.txt"])),
        "\n\nGROK REQUESTED FILES:\n@f:src/a.rs\n@f:b.txt\n"
    );
    assert_eq!(write_request_block(&Vec::new()), "\n\nGROK REQUESTED FILES:\n");
}

#[test]
fn request_is_granted_only_for_relative_paths_inside() {
    let good = PathFacts { absolute: false, inside: true };
    let absolute = PathFacts { absolute: true, inside: true };
    let outside = PathFacts { absolute: false, inside: false };
    assert!(check_granted(2, &vec![good, good]));
    assert!(!check_granted(2, &vec![good, absolute]));
    assert!(!check_granted(2, &vec![outside, good]));
    assert!(!check_granted(2, &vec![good]));
    assert!(!check_granted(1, &vec![good, good]));
    assert!(check_granted(0, &vec![]));
}
