//! Placeholders: `@f:<path>` stands for the contents of files, `@d:<path>` for
//! the listing of a directory. The library finds the placeholders and puts
//! their expansions in their place. What a placeholder expands to is told from
//! what the file system holds; the library does not touch the file system
//! itself.

use crate::directive::{span_text, spans_ok, splice, splice_text};
use crate::pattern::{captures, captures_ok, find_all, Capture, Span};
use crate::text::{contains_char, from_chars, slice, texts, to_chars};
use crate::transcript::{Message, Role};
use vstd::prelude::*;

verus! {

/// The two placeholders.
#[derive(Clone, Copy, Debug, PartialEq, Eq, Structural)]
pub enum PlaceholderKind {
    /// `@f:<path>`: a file, a directory of files, or a glob.
    File,
    /// `@d:<path>`: the listing of a directory.
    Directory,
}

/// A placeholder in a text: where it lies, and the path it names.
#[derive(Clone, Debug, PartialEq, Eq)]
pub struct Placeholder {
    pub kind: PlaceholderKind,
    pub span: Span,
    pub path: String,
}

/// A placeholder as the contracts see it.
pub struct PlaceholderView {
    pub kind: PlaceholderKind,
    pub span: Span,
    pub path: Seq<char>,
}

impl View for Placeholder {
    type V = PlaceholderView;

    open spec fn view(&self) -> PlaceholderView {
        PlaceholderView { kind: self.kind, span: self.span, path: self.path@ }
    }
}

impl DeepView for Placeholder {
    type V = PlaceholderView;

    open spec fn deep_view(&self) -> PlaceholderView {
        self@
    }
}

/// The regular expression that finds the placeholders. Its first group is
/// the path of a file placeholder, its second that of a directory
/// placeholder; a path runs up to the next white space.
pub open spec fn placeholder_pattern() -> Seq<char> {
    "@f\\s*:(\\S+)|@d\\s*:(\\S+)"@
}

/// The placeholder that a match stands for. A match in which neither group
/// took part names no path.
pub open spec fn placeholder_of(text: Seq<char>, cap: Capture) -> PlaceholderView {
    match cap.first {
        Some(sp) => PlaceholderView {
            kind: PlaceholderKind::File,
            span: cap.whole,
            path: span_text(text, sp),
        },
        None => match cap.second {
            Some(sp) => PlaceholderView {
                kind: PlaceholderKind::Directory,
                span: cap.whole,
                path: span_text(text, sp),
            },
            None => PlaceholderView {
                kind: PlaceholderKind::Directory,
                span: cap.whole,
                path: seq![],
            },
        },
    }
}

/// The placeholders that some matches stand for, in the same order.
pub open spec fn placeholders_of(text: Seq<char>, caps: Seq<Capture>) -> Seq<PlaceholderView> {
    Seq::new(caps.len(), |i: int| placeholder_of(text, caps[i]))
}

/// Where some placeholders lie.
pub open spec fn spans_of(placeholders: Seq<PlaceholderView>) -> Seq<Span> {
    Seq::new(placeholders.len(), |i: int| placeholders[i].span)
}

/// The placeholders that the given matches locate in `content`.
pub fn placeholders_from(content: &str, caps: &Vec<Capture>) -> (r: Vec<Placeholder>)
    requires
        captures_ok(content@.len(), caps@),
    ensures
        r.deep_view() == placeholders_of(content@, caps@),
        spans_ok(content@.len(), spans_of(r.deep_view())),
{
    let chars = to_chars(content);
    let mut out: Vec<Placeholder> = Vec::new();
    let mut i: usize = 0;
    while i < caps.len()
        invariant
            i <= caps.len(),
            chars@ == content@,
            captures_ok(content@.len(), caps@),
            out.len() == i,
            forall|k: int| 0 <= k < i ==> (#[trigger] out@[k])@ == placeholder_of(content@, caps@[k]),
        decreases caps.len() - i,
    {
        let cap = caps[i];
        let (kind, path) = match cap.first {
            Some(sp) => (PlaceholderKind::File, slice(&chars, sp.start, sp.end)),
            None => match cap.second {
                Some(sp) => (PlaceholderKind::Directory, slice(&chars, sp.start, sp.end)),
                None => (PlaceholderKind::Directory, Vec::new()),
            },
        };
        out.push(Placeholder { kind, span: cap.whole, path: from_chars(&path) });
        i += 1;
    }
    proof {
        assert(out.deep_view() =~= placeholders_of(content@, caps@));
        let spans = spans_of(out.deep_view());
        assert forall|k: int| 0 <= k < spans.len() implies (#[trigger] spans[k]).start
            <= spans[k].end <= content@.len() by {
            assert(spans[k] == caps@[k].whole);
        }
        assert forall|a: int, b: int| 0 <= a < b < spans.len() implies (#[trigger] spans[a]).end <= (
        #[trigger] spans[b]).start by {
            assert(caps@[a].whole.end <= caps@[b].whole.start);
        }
    }
    out
}

/// The placeholders of a message: those that the pattern locates in a
/// message of the user, and none in a message of any other role, whose text
/// is never searched. `None` where the pattern is rejected.
pub open spec fn placeholders_in(role: Role, content: Seq<char>) -> Option<Seq<PlaceholderView>> {
    if role == Role::User {
        match captures(placeholder_pattern(), content) {
            Some(caps) => Some(placeholders_of(content, caps)),
            None => None,
        }
    } else {
        Some(seq![])
    }
}

/// Finds the placeholders of a message.
pub fn find_placeholders(message: &Message) -> (r: Option<Vec<Placeholder>>)
    ensures
        match placeholders_in(message.role, message.content@) {
            Some(found) => r matches Some(v) && v.deep_view() == found && spans_ok(
                message.content@.len(),
                spans_of(found),
            ),
            None => r is None,
        },
{
    if message.role == Role::User {
        match find_all("@f\\s*:(\\S+)|@d\\s*:(\\S+)", message.content.as_str()) {
            Some(caps) => Some(placeholders_from(message.content.as_str(), &caps)),
            None => None,
        }
    } else {
        let none: Vec<Placeholder> = Vec::new();
        assert(none.deep_view() =~= Seq::<PlaceholderView>::empty());
        Some(none)
    }
}

/// What stands in for each placeholder: its expansion where there is one,
/// else the placeholder as it was written.
pub open spec fn replacements(
    text: Seq<char>,
    placeholders: Seq<PlaceholderView>,
    outcomes: Seq<Option<String>>,
) -> Seq<Seq<char>> {
    Seq::new(
        placeholders.len(),
        |i: int|
            match outcomes[i] {
                Some(s) => s@,
                None => span_text(text, placeholders[i].span),
            },
    )
}

/// The text with its placeholders expanded: each placeholder gives way to
/// its expansion, one that could not be expanded stays as it was written,
/// and everything between the placeholders stays as it is.
pub open spec fn expanded(
    text: Seq<char>,
    placeholders: Seq<PlaceholderView>,
    outcomes: Seq<Option<String>>,
) -> Seq<char> {
    splice(text, spans_of(placeholders), replacements(text, placeholders, outcomes))
}

/// Writes the text with its placeholders expanded. `outcomes` holds for each
/// placeholder its expansion, or `None` where it could not be expanded.
pub fn expand_placeholders(
    text: &str,
    placeholders: &Vec<Placeholder>,
    outcomes: &Vec<Option<String>>,
) -> (r: String)
    requires
        spans_ok(text@.len(), spans_of(placeholders.deep_view())),
        outcomes.len() == placeholders.len(),
    ensures
        r@ == expanded(text@, placeholders.deep_view(), outcomes@),
{
    let chars = to_chars(text);
    let mut spans: Vec<Span> = Vec::new();
    let mut with: Vec<Vec<char>> = Vec::new();
    let ghost views = placeholders.deep_view();
    let ghost want = replacements(text@, views, outcomes@);
    let mut i: usize = 0;
    while i < placeholders.len()
        invariant
            i <= placeholders.len(),
            chars@ == text@,
            views == placeholders.deep_view(),
            want == replacements(text@, views, outcomes@),
            spans_ok(text@.len(), spans_of(views)),
            outcomes.len() == placeholders.len(),
            spans.len() == i,
            with.len() == i,
            forall|k: int| 0 <= k < i ==> #[trigger] spans@[k] == views[k].span,
            forall|k: int| 0 <= k < i ==> (#[trigger] with@[k])@ == want[k],
        decreases placeholders.len() - i,
    {
        let sp = placeholders[i].span;
        proof {
            assert(views[i as int] == placeholders@[i as int]@);
            assert(spans_of(views)[i as int] == sp);
        }
        let piece = match &outcomes[i] {
            Some(s) => to_chars(s.as_str()),
            None => slice(&chars, sp.start, sp.end),
        };
        spans.push(sp);
        with.push(piece);
        i += 1;
    }
    proof {
        assert(spans@ =~= spans_of(views));
        assert(texts(with@) =~= want);
    }
    let out = splice_text(&chars, &spans, &with);
    from_chars(&out)
}

/// Why a placeholder could not be expanded.
#[derive(Clone, Copy, Debug, PartialEq, Eq, Structural)]
pub enum ExpandError {
    /// The path is no valid glob.
    BadPattern,
    /// The glob matched no file.
    NoMatches,
    /// The directory holds no file.
    EmptyDirectory,
    /// There is nothing at the path of a file placeholder.
    FileNotFound,
    /// The path of a file placeholder is neither a file nor a directory.
    NotAFile,
    /// A file could not be read.
    Unreadable,
    /// There is nothing at the path of a directory placeholder.
    DirectoryNotFound,
    /// The path of a directory placeholder is no directory.
    NotADirectory,
}

/// What is said of a placeholder that could not be expanded.
pub open spec fn expand_error_text(e: ExpandError) -> Seq<char> {
    match e {
        ExpandError::BadPattern => "Invalid glob pattern"@,
        ExpandError::NoMatches => "No files matched the pattern"@,
        ExpandError::EmptyDirectory => "No files found in directory"@,
        ExpandError::FileNotFound => "File not found"@,
        ExpandError::NotAFile => "Path is not a file"@,
        ExpandError::Unreadable => "File could not be read"@,
        ExpandError::DirectoryNotFound => "Directory not found"@,
        ExpandError::NotADirectory => "Path is not a directory"@,
    }
}

impl ExpandError {
    /// What is said of a placeholder that could not be expanded.
    pub fn message(&self) -> (r: &'static str)
        ensures
            r@ == expand_error_text(*self),
    {
        match self {
            ExpandError::BadPattern => "Invalid glob pattern",
            ExpandError::NoMatches => "No files matched the pattern",
            ExpandError::EmptyDirectory => "No files found in directory",
            ExpandError::FileNotFound => "File not found",
            ExpandError::NotAFile => "Path is not a file",
            ExpandError::Unreadable => "File could not be read",
            ExpandError::DirectoryNotFound => "Directory not found",
            ExpandError::NotADirectory => "Path is not a directory",
        }
    }
}

/// Whether the path of a file placeholder is a glob: it is one where it
/// holds `*` or `?`.
pub open spec fn is_glob(path: Seq<char>) -> bool {
    path.contains('*') || path.contains('?')
}

/// Whether the path of a file placeholder is to be expanded as a glob.
pub fn has_glob_characters(path: &str) -> (r: bool)
    ensures
        r == is_glob(path@),
{
    let chars = to_chars(path);
    contains_char(&chars, '*') || contains_char(&chars, '?')
}

} // verus!
