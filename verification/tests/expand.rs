use gchat::expand::{
    expand_placeholders, find_placeholders, has_glob_characters, placeholders_from, ExpandError,
    Placeholder, PlaceholderKind,
};
use gchat::listing::{
    check_depths, expand_dir_tree, expand_file_path, FoundEntry, IncludeSource, TreeEntry,
    TreeSource,
};
use gchat::order::{comes_before, sorted_order};
use gchat::pattern::{Capture, Span};
use gchat::transcript::{Message, Role};

fn chars(text: &str) -> Vec<char> {
    text.chars().collect()
}

fn file(path: &str, content: &str) -> FoundEntry {
    FoundEntry { path: path.to_string(), is_file: true, content: Some(content.to_string()) }
}

fn dir(path: &str) -> FoundEntry {
    FoundEntry { path: path.to_string(), is_file: false, content: None }
}

fn tree(path: &str, depth: usize, is_dir: bool) -> TreeEntry {
    TreeEntry { path: path.to_string(), depth, is_dir }
}

#[test]
fn placeholders_of_a_prompt_are_found() {
    let found = find_placeholders(&Message::new(Role::User, "see @f:src/a.rs and @d :docs now"))
        .unwrap();
    assert_eq!(
        found,
        vec![
            Placeholder {
                kind: PlaceholderKind::File,
                span: Span { start: 4, end: 15 },
                path: "src/a.rs".to_string(),
            },
            Placeholder {
                kind: PlaceholderKind::Directory,
                span: Span { start: 20, end: 28 },
                path: "docs".to_string(),
            },
        ]
    );
}

#[test]
fn a_path_runs_up_to_the_next_white_space() {
    let found = find_placeholders(&Message::new(Role::User, "@f:a,b;c\tz")).unwrap();
    assert_eq!(found.len(), 1);
    assert_eq!(found[0].path, "a,b;c");
    assert_eq!(found[0].span, Span { start: 0, end: 8 });
}

#[test]
fn replies_are_never_searched_for_placeholders() {
    let text = "here is @f:/etc/passwd for you";
    assert_eq!(find_placeholders(&Message::new(Role::Assistant, text)), Some(vec![]));
    assert_eq!(find_placeholders(&Message::new(Role::System, text)), Some(vec![]));
    assert_eq!(find_placeholders(&Message::new(Role::User, text)).unwrap().len(), 1);
}

#[test]
fn placeholders_follow_the_given_captures() {
    let caps = vec![
        Capture {
            whole: Span { start: 0, end: 3 },
            first: Some(Span { start: 2, end: 3 }),
            second: None,
        },
        Capture {
            whole: Span { start: 4, end: 7 },
            first: None,
            second: Some(Span { start: 5, end: 7 }),
        },
        Capture { whole: Span { start: 7, end: 8 }, first: None, second: None },
    ];
    assert_eq!(
        placeholders_from("abXdefgh", &caps),
        vec![
            Placeholder {
                kind: PlaceholderKind::File,
                span: Span { start: 0, end: 3 },
                path: "X".to_string(),
            },
            Placeholder {
                kind: PlaceholderKind::Directory,
                span: Span { start: 4, end: 7 },
                path: "fg".to_string(),
            },
            Placeholder {
                kind: PlaceholderKind::Directory,
                span: Span { start: 7, end: 8 },
                path: String::new(),
            },
        ]
    );
}

#[test]
fn only_the_placeholders_are_replaced() {
    let message = Message::new(Role::User, "A @f:one B @d:two C @f:three D");
    let found = find_placeholders(&message).unwrap();
    let outcomes = vec![Some("<1>".to_string()), Some(String::new()), Some("<3>".to_string())];
    assert_eq!(
        expand_placeholders(&message.content, &found, &outcomes),
        "A <1> B  C <3> D"
    );
}

#[test]
fn failed_placeholder_stays_as_written() {
    let message = Message::new(Role::User, "A @f:one B @d:two C @f :three");
    let found = find_placeholders(&message).unwrap();
    let outcomes = vec![None, Some("<2>".to_string()), None];
    assert_eq!(
        expand_placeholders(&message.content, &found, &outcomes),
        "A @f:one B <2> C @f :three"
    );
    let none = vec![None, None, None];
    assert_eq!(expand_placeholders(&message.content, &found, &none), message.content);
}

#[test]
fn text_without_placeholders_is_unchanged() {
    assert_eq!(expand_placeholders("plain text", &vec![], &vec![]), "plain text");
    assert_eq!(expand_placeholders("", &vec![], &vec![]), "");
}

#[test]
fn many_placeholders_keep_their_order() {
    let mut text = String::new();
    let mut expected = String::new();
    let mut outcomes = Vec::new();
    for i in 0..50 {
        text.push_str(&format!("t{} @f:p{} ", i, i));
        expected.push_str(&format!("t{} [{}] ", i, i));
        outcomes.push(Some(format!("[{}]", i)));
    }
    let message = Message::new(Role::User, &text);
    let found = find_placeholders(&message).unwrap();
    assert_eq!(found.len(), 50);
    assert_eq!(expand_placeholders(&text, &found, &outcomes), expected);
}

#[test]
fn glob_characters_are_star_and_question_mark() {
    assert!(has_glob_characters("src/*.rs"));
    assert!(has_glob_characters("file?.txt"));
    assert!(!has_glob_characters("src/[ab].rs"));
    assert!(!has_glob_characters("plain/path.txt"));
    assert!(!has_glob_characters(""));
}

#[test]
fn single_file_is_shown_in_a_fenced_block() {
    let source = IncludeSource::File(Some("fn main() {}\n".to_string()));
    assert_eq!(
        expand_file_path("src/a.rs", &source),
        Ok("Contents of src/a.rs:\n```\nfn main() {}\n\n```\n\n".to_string())
    );
}

#[test]
fn glob_matches_are_shown_in_the_order_of_their_paths() {
    let source = IncludeSource::Matches(vec![file("b.txt", "B"), dir("sub"), file("a.txt", "A")]);
    assert_eq!(
        expand_file_path("*.txt", &source),
        Ok("Contents of a.txt:\n```\nA\n```\n\nContents of b.txt:\n```\nB\n```\n\n".to_string())
    );
}

#[test]
fn directory_files_are_shown_in_the_order_of_their_paths() {
    let source = IncludeSource::Directory(vec![
        dir("d"),
        file("d/main.rs", "M"),
        dir("d/main"),
        file("d/main/x.rs", "X"),
        file("d/a-b/c.txt", "C"),
        file("d/a/b.txt", "B"),
    ]);
    let expected = "Contents of d/a/b.txt:\n```\nB\n```\n\n\
Contents of d/a-b/c.txt:\n```\nC\n```\n\n\
Contents of d/main/x.rs:\n```\nX\n```\n\n\
Contents of d/main.rs:\n```\nM\n```\n\n";
    assert_eq!(expand_file_path("d", &source), Ok(expected.to_string()));
}

#[test]
fn listing_order_does_not_matter() {
    let one = vec![file("z", "1"), file("m/b", "2"), file("m/a", "3"), file("a", "4")];
    let mut other = one.clone();
    other.reverse();
    let mut third = one.clone();
    third.swap(0, 2);
    let first = expand_file_path("d", &IncludeSource::Directory(one));
    assert_eq!(first, expand_file_path("d", &IncludeSource::Directory(other)));
    assert_eq!(first, expand_file_path("d", &IncludeSource::Directory(third)));
    assert_eq!(
        first,
        Ok("Contents of a:\n```\n4\n```\n\nContents of m/a:\n```\n3\n```\n\nContents of m/b:\n```\n2\n```\n\nContents of z:\n```\n1\n```\n\n".to_string())
    );
}

#[test]
fn each_include_error_has_its_input() {
    assert_eq!(
        expand_file_path("[", &IncludeSource::BadPattern),
        Err(ExpandError::BadPattern)
    );
    assert_eq!(
        expand_file_path("*.none", &IncludeSource::Matches(vec![])),
        Err(ExpandError::NoMatches)
    );
    assert_eq!(
        expand_file_path("*", &IncludeSource::Matches(vec![dir("only"), dir("dirs")])),
        Err(ExpandError::NoMatches)
    );
    assert_eq!(
        expand_file_path("d", &IncludeSource::Directory(vec![dir("d"), dir("d/e")])),
        Err(ExpandError::EmptyDirectory)
    );
    assert_eq!(
        expand_file_path("gone", &IncludeSource::Missing),
        Err(ExpandError::FileNotFound)
    );
    assert_eq!(
        expand_file_path("/dev/null", &IncludeSource::Other),
        Err(ExpandError::NotAFile)
    );
    assert_eq!(
        expand_file_path("locked", &IncludeSource::File(None)),
        Err(ExpandError::Unreadable)
    );
    let unreadable = FoundEntry { path: "b".to_string(), is_file: true, content: None };
    assert_eq!(
        expand_file_path("*", &IncludeSource::Matches(vec![file("a", "A"), unreadable])),
        Err(ExpandError::Unreadable)
    );
}

#[test]
fn error_messages() {
    assert_eq!(ExpandError::BadPattern.message(), "Invalid glob pattern");
    assert_eq!(ExpandError::NoMatches.message(), "No files matched the pattern");
    assert_eq!(ExpandError::EmptyDirectory.message(), "No files found in directory");
    assert_eq!(ExpandError::FileNotFound.message(), "File not found");
    assert_eq!(ExpandError::NotAFile.message(), "Path is not a file");
    assert_eq!(ExpandError::Unreadable.message(), "File could not be read");
    assert_eq!(ExpandError::DirectoryNotFound.message(), "Directory not found");
    assert_eq!(ExpandError::NotADirectory.message(), "Path is not a directory");
}

#[test]
fn directory_tree_is_indented_by_depth() {
    let source = TreeSource::Entries(vec![
        tree("src", 1, true),
        tree("README.md", 1, false),
        tree("src/main.rs", 2, false),
        tree("src/util", 2, true),
        tree("src/util/mod.rs", 3, false),
    ]);
    let expected = "Contents of directory proj:\n```\nREADME.md\nsrc/\n  src/main.rs\n  src/util/\n    src/util/mod.rs\n```\n";
    assert_eq!(expand_dir_tree("proj", &source), Ok(expected.to_string()));
}

#[test]
fn empty_directory_gets_a_note() {
    assert_eq!(
        expand_dir_tree("empty", &TreeSource::Entries(vec![])),
        Ok("Contents of directory empty:\n```\n(empty directory)\n```\n".to_string())
    );
}

#[test]
fn each_tree_error_has_its_input() {
    assert_eq!(
        expand_dir_tree("gone", &TreeSource::Missing),
        Err(ExpandError::DirectoryNotFound)
    );
    assert_eq!(
        expand_dir_tree("a.txt", &TreeSource::NotADirectory),
        Err(ExpandError::NotADirectory)
    );
}

#[test]
fn tree_order_does_not_depend_on_the_listing() {
    let one = vec![tree("b", 1, false), tree("a", 1, true), tree("a/x", 2, false)];
    let mut other = one.clone();
    other.reverse();
    assert_eq!(
        expand_dir_tree("d", &TreeSource::Entries(one)),
        expand_dir_tree("d", &TreeSource::Entries(other))
    );
}

#[test]
fn depths_start_at_one() {
    assert!(check_depths(&TreeSource::Entries(vec![tree("a", 1, false), tree("a/b", 2, false)])));
    assert!(!check_depths(&TreeSource::Entries(vec![tree("a", 1, false), tree("", 0, true)])));
    assert!(check_depths(&TreeSource::Missing));
    assert!(check_depths(&TreeSource::NotADirectory));
}

#[test]
fn paths_are_ordered_component_by_component() {
    assert!(comes_before(&chars("a/b"), &chars("a-b")));
    assert!(!comes_before(&chars("a-b"), &chars("a/b")));
    assert!(comes_before(&chars("a"), &chars("a/b")));
    assert!(comes_before(&chars("a/b"), &chars("a/c")));
    assert!(comes_before(&chars("src/main/x.rs"), &chars("src/main.rs")));
    assert!(!comes_before(&chars("same"), &chars("same")));
    assert!(comes_before(&chars(""), &chars("a")));
    assert!(!comes_before(&chars("a"), &chars("")));
    assert!(comes_before(&chars("Z"), &chars("a")));
}

#[test]
fn path_order_agrees_with_the_standard_one() {
    let paths = [
        "a", "a/b", "a-b", "a/b/c", "a.b", "ab", "b", "a/b.c", "a/b-c/d", "src/main.rs",
        "src/main/x.rs", "src/lib.rs", "Z", "z/1", "z/10", "z/2",
    ];
    for x in paths {
        for y in paths {
            let std_order = std::path::Path::new(x) < std::path::Path::new(y);
            assert_eq!(comes_before(&chars(x), &chars(y)), std_order);
        }
    }
}

#[test]
fn sorted_order_is_stable_and_complete() {
    let keys = vec![chars("b"), chars("a"), chars("b"), chars("a/x"), chars("")];
    assert_eq!(sorted_order(&keys), vec![4, 1, 3, 0, 2]);
    assert_eq!(sorted_order(&Vec::new()), Vec::<usize>::new());
}
