//! What a placeholder expands to, given what the file system holds at its
//! path: the contents of files in fenced blocks, or the listing of a
//! directory. Files and entries are shown in the order of their paths,
//! whatever the order in which the file system hands them over.

use crate::directive::opt_text;
use crate::expand::ExpandError;
use crate::order::{
    distinct_keys, in_order, keys_of, law_sorting_forgets_the_given_order, same_items,
    sorted_by_key, sorted_order,
};
use crate::text::{from_chars, push_str, texts, to_chars};
use vstd::prelude::*;

verus! {

/// What was found at one path: whether it is a regular file, and what the
/// file holds if it could be read.
#[derive(Clone, Debug, PartialEq, Eq)]
pub struct FoundEntry {
    pub path: String,
    pub is_file: bool,
    pub content: Option<String>,
}

/// A found entry as the contracts see it.
pub struct FoundEntryView {
    pub path: Seq<char>,
    pub is_file: bool,
    pub content: Option<Seq<char>>,
}

impl View for FoundEntry {
    type V = FoundEntryView;

    open spec fn view(&self) -> FoundEntryView {
        FoundEntryView {
            path: self.path@,
            is_file: self.is_file,
            content: opt_text(self.content),
        }
    }
}

impl DeepView for FoundEntry {
    type V = FoundEntryView;

    open spec fn deep_view(&self) -> FoundEntryView {
        self@
    }
}

/// What the file system holds for the path of a file placeholder.
#[derive(Clone, Debug, PartialEq, Eq)]
pub enum IncludeSource {
    /// The path is no valid glob.
    BadPattern,
    /// The path is a glob, and these are the paths it matches.
    Matches(Vec<FoundEntry>),
    /// The path is a directory, and these are the entries below it, at any
    /// depth.
    Directory(Vec<FoundEntry>),
    /// The path is a regular file, with what it holds if it could be read.
    File(Option<String>),
    /// The path is there, but is neither a file nor a directory.
    Other,
    /// There is nothing at the path.
    Missing,
}

/// What the file system holds for the path of a file placeholder, as the
/// contracts see it.
pub enum IncludeSourceView {
    BadPattern,
    Matches(Seq<FoundEntryView>),
    Directory(Seq<FoundEntryView>),
    File(Option<Seq<char>>),
    Other,
    Missing,
}

impl View for IncludeSource {
    type V = IncludeSourceView;

    open spec fn view(&self) -> IncludeSourceView {
        match *self {
            IncludeSource::BadPattern => IncludeSourceView::BadPattern,
            IncludeSource::Matches(entries) => IncludeSourceView::Matches(entries.deep_view()),
            IncludeSource::Directory(entries) => IncludeSourceView::Directory(entries.deep_view()),
            IncludeSource::File(content) => IncludeSourceView::File(opt_text(content)),
            IncludeSource::Other => IncludeSourceView::Other,
            IncludeSource::Missing => IncludeSourceView::Missing,
        }
    }
}

/// A file as it is shown: a label with its path, and its content between
/// fences.
pub open spec fn file_block(path: Seq<char>, content: Seq<char>) -> Seq<char> {
    "Contents of "@ + path + ":\n```\n"@ + content + "\n```\n\n"@
}

/// The regular files among some entries, in the same order.
pub open spec fn regular_files(entries: Seq<FoundEntryView>) -> Seq<FoundEntryView>
    decreases entries.len(),
{
    if entries.len() == 0 {
        seq![]
    } else if entries.last().is_file {
        regular_files(entries.drop_last()).push(entries.last())
    } else {
        regular_files(entries.drop_last())
    }
}

/// The path of a found entry, by which it is ordered.
pub open spec fn file_key() -> spec_fn(FoundEntryView) -> Seq<char> {
    |e: FoundEntryView| e.path
}

/// The blocks of some files, one after the other; the first file that could
/// not be read makes the whole fail.
pub open spec fn file_blocks(files: Seq<FoundEntryView>) -> Result<Seq<char>, ExpandError>
    decreases files.len(),
{
    if files.len() == 0 {
        Ok(seq![])
    } else {
        match file_blocks(files.drop_last()) {
            Ok(done) => match files.last().content {
                Some(c) => Ok(done + file_block(files.last().path, c)),
                None => Err(ExpandError::Unreadable),
            },
            Err(e) => Err(e),
        }
    }
}

/// The regular files among some entries, in the order of their paths.
pub open spec fn listed_files(entries: Seq<FoundEntryView>) -> Seq<FoundEntryView> {
    sorted_by_key(regular_files(entries), file_key())
}

/// What a listing of entries expands to: the blocks of its regular files in
/// the order of their paths, or `none` where it holds no regular file.
pub open spec fn listing_text(entries: Seq<FoundEntryView>, none: ExpandError) -> Result<
    Seq<char>,
    ExpandError,
> {
    if regular_files(entries).len() == 0 {
        Err(none)
    } else {
        file_blocks(listed_files(entries))
    }
}

/// What a file placeholder expands to, given what the file system holds for
/// its path.
pub open spec fn include_text(path: Seq<char>, source: IncludeSourceView) -> Result<
    Seq<char>,
    ExpandError,
> {
    match source {
        IncludeSourceView::BadPattern => Err(ExpandError::BadPattern),
        IncludeSourceView::Matches(entries) => listing_text(entries, ExpandError::NoMatches),
        IncludeSourceView::Directory(entries) => listing_text(entries, ExpandError::EmptyDirectory),
        IncludeSourceView::File(Some(content)) => Ok(file_block(path, content)),
        IncludeSourceView::File(None) => Err(ExpandError::Unreadable),
        IncludeSourceView::Other => Err(ExpandError::NotAFile),
        IncludeSourceView::Missing => Err(ExpandError::FileNotFound),
    }
}

/// The text of a result.
pub open spec fn result_text(r: Result<String, ExpandError>) -> Result<Seq<char>, ExpandError> {
    match r {
        Ok(s) => Ok(s@),
        Err(e) => Err(e),
    }
}

/// Appends the block of one file to `out`.
fn push_file_block(out: &mut Vec<char>, path: &str, content: &str)
    ensures
        final(out)@ == old(out)@ + file_block(path@, content@),
{
    push_str(out, "Contents of ");
    push_str(out, path);
    push_str(out, ":\n```\n");
    push_str(out, content);
    push_str(out, "\n```\n\n");
    assert(final(out)@ =~= old(out)@ + file_block(path@, content@));
}

/// Expands a listing of entries.
fn expand_listing(entries: &Vec<FoundEntry>, none: ExpandError) -> (r: Result<String, ExpandError>)
    ensures
        result_text(r) == listing_text(entries.deep_view(), none),
{
    let ghost all = entries.deep_view();
    let mut files: Vec<&FoundEntry> = Vec::new();
    let mut keys: Vec<Vec<char>> = Vec::new();
    let mut i: usize = 0;
    assert(all.take(0) =~= Seq::<FoundEntryView>::empty());
    while i < entries.len()
        invariant
            i <= entries.len(),
            all == entries.deep_view(),
            files.len() == keys.len(),
            Seq::new(files@.len(), |k: int| files@[k]@) == regular_files(all.take(i as int)),
            forall|k: int| 0 <= k < keys.len() ==> (#[trigger] keys@[k])@ == files@[k].path@,
        decreases entries.len() - i,
    {
        let e = &entries[i];
        let ghost before = Seq::new(files@.len(), |k: int| files@[k]@);
        proof {
            let upto = all.take(i as int + 1);
            assert(upto.last() == e@);
            assert(upto.drop_last() =~= all.take(i as int));
        }
        if e.is_file {
            files.push(e);
            keys.push(to_chars(e.path.as_str()));
            assert(Seq::new(files@.len(), |k: int| files@[k]@) =~= before.push(e@));
        }
        i += 1;
    }
    assert(all.take(entries@.len() as int) =~= all);
    let ghost chosen = regular_files(all);
    assert(texts(keys@) =~= keys_of(chosen, file_key()));
    if files.len() == 0 {
        return Err(none);
    }
    let order = sorted_order(&keys);
    let ghost listed = listed_files(all);
    let mut out: Vec<char> = Vec::new();
    let mut k: usize = 0;
    assert(listed.take(0) =~= Seq::<FoundEntryView>::empty());
    while k < order.len()
        invariant
            k <= order.len(),
            all == entries.deep_view(),
            order.len() == files.len(),
            forall|j: int| 0 <= j < order.len() ==> #[trigger] order@[j] < files.len(),
            listed.len() == order.len(),
            forall|j: int| 0 <= j < order.len() ==> #[trigger] listed[j] == files@[order@[j] as int]@,
            listing_text(all, none) == file_blocks(listed),
            file_blocks(listed.take(k as int)) == Ok::<Seq<char>, ExpandError>(out@),
        decreases order.len() - k,
    {
        let f = files[order[k]];
        proof {
            let upto = listed.take(k as int + 1);
            assert(upto.last() == f@);
            assert(upto.drop_last() =~= listed.take(k as int));
        }
        match &f.content {
            Some(c) => {
                push_file_block(&mut out, f.path.as_str(), c.as_str());
            },
            None => {
                proof {
                    assert(file_blocks(listed.take(k as int + 1)) == Err::<
                        Seq<char>,
                        ExpandError,
                    >(ExpandError::Unreadable));
                    lemma_blocks_fail(listed, k as int + 1);
                }
                return Err(ExpandError::Unreadable);
            },
        }
        k += 1;
    }
    assert(listed.take(listed.len() as int) =~= listed);
    Ok(from_chars(&out))
}

/// Once a file cannot be read, the blocks of all files fail.
proof fn lemma_blocks_fail(files: Seq<FoundEntryView>, n: int)
    requires
        0 <= n <= files.len(),
        file_blocks(files.take(n)) == Err::<Seq<char>, ExpandError>(ExpandError::Unreadable),
    ensures
        file_blocks(files) == Err::<Seq<char>, ExpandError>(ExpandError::Unreadable),
    decreases files.len() - n,
{
    if n < files.len() {
        assert(files.take(n + 1).drop_last() =~= files.take(n));
        lemma_blocks_fail(files, n + 1);
    } else {
        assert(files.take(n) =~= files);
    }
}

/// An entry stands among the regular files of a listing just when it stands
/// in the listing and is a regular file.
pub proof fn lemma_regular_files(entries: Seq<FoundEntryView>)
    ensures
        regular_files(entries).len() <= entries.len(),
        forall|e: FoundEntryView|
            #![trigger regular_files(entries).contains(e)]
            #![trigger entries.contains(e)]
            regular_files(entries).contains(e) <==> entries.contains(e) && e.is_file,
    decreases entries.len(),
{
    let files = regular_files(entries);
    if entries.len() == 0 {
        assert forall|e: FoundEntryView|
            files.contains(e) <==> entries.contains(e) && e.is_file by {}
    } else {
        let shorter = entries.drop_last();
        let last = entries.last();
        let before = regular_files(shorter);
        lemma_regular_files(shorter);
        assert forall|e: FoundEntryView|
            files.contains(e) <==> entries.contains(e) && e.is_file by {
            if files.contains(e) {
                let k = choose|k: int| 0 <= k < files.len() && files[k] == e;
                if last.is_file && k == files.len() - 1 {
                    assert(entries[entries.len() - 1] == e);
                } else {
                    assert(before[k] == e);
                    assert(before.contains(e));
                    let m = choose|m: int| 0 <= m < shorter.len() && shorter[m] == e;
                    assert(entries[m] == e);
                }
            }
            if entries.contains(e) && e.is_file {
                let m = choose|m: int| 0 <= m < entries.len() && entries[m] == e;
                if m == entries.len() - 1 {
                    assert(files[files.len() - 1] == e);
                } else {
                    assert(shorter[m] == e);
                    assert(before.contains(e));
                    let k = choose|k: int| 0 <= k < before.len() && before[k] == e;
                    assert(files[k] == e);
                }
            }
        }
    }
}

/// No two regular files of a listing have the same path.
pub open spec fn distinct_file_paths(entries: Seq<FoundEntryView>) -> bool {
    forall|i: int, j: int|
        0 <= i < j < entries.len() && (#[trigger] entries[i]).is_file && (
        #[trigger] entries[j]).is_file ==> entries[i].path != entries[j].path
}

/// Where no two regular files of a listing have the same path, none of the
/// regular files picked from it have.
proof fn lemma_regular_files_distinct(entries: Seq<FoundEntryView>)
    requires
        distinct_file_paths(entries),
    ensures
        distinct_keys(regular_files(entries), file_key()),
    decreases entries.len(),
{
    let files = regular_files(entries);
    if entries.len() > 0 {
        let shorter = entries.drop_last();
        let last = entries.last();
        let before = regular_files(shorter);
        assert forall|i: int, j: int|
            0 <= i < j < shorter.len() && (#[trigger] shorter[i]).is_file && (
            #[trigger] shorter[j]).is_file implies shorter[i].path != shorter[j].path by {
            assert(shorter[i] == entries[i] && shorter[j] == entries[j]);
        }
        lemma_regular_files_distinct(shorter);
        lemma_regular_files(shorter);
        assert forall|i: int, j: int| 0 <= i < j < files.len() implies file_key()(
            #[trigger] files[i],
        ) != file_key()(#[trigger] files[j]) by {
            if last.is_file && j == files.len() - 1 {
                assert(before[i] == files[i]);
                assert(before.contains(files[i]));
                let m = choose|m: int| 0 <= m < shorter.len() && shorter[m] == files[i];
                assert(entries[m] == files[i]);
                assert(entries[m].is_file && entries[entries.len() - 1].is_file);
            } else {
                assert(before[i] == files[i] && before[j] == files[j]);
            }
        }
    }
}

/// The expansion of a listing does not depend on the order in which the
/// file system lists the entries: two listings of the same entries, in
/// neither of which two regular files have the same path, expand to the same
/// text.
pub proof fn law_listing_order_does_not_matter(
    a: Seq<FoundEntryView>,
    b: Seq<FoundEntryView>,
    none: ExpandError,
)
    requires
        same_items(a, b),
        distinct_file_paths(a),
        distinct_file_paths(b),
        a.len() <= usize::MAX,
        b.len() <= usize::MAX,
    ensures
        listing_text(a, none) == listing_text(b, none),
{
    let fa = regular_files(a);
    let fb = regular_files(b);
    lemma_regular_files(a);
    lemma_regular_files(b);
    lemma_regular_files_distinct(a);
    lemma_regular_files_distinct(b);
    assert forall|e: FoundEntryView| fa.contains(e) <==> fb.contains(e) by {
        assert(a.contains(e) <==> b.contains(e));
    }
    if fa.len() == 0 {
        if fb.len() > 0 {
            assert(fb.contains(fb[0]));
        }
    } else {
        assert(fa.contains(fa[0]));
        if fb.len() == 0 {
            assert(fb.contains(fa[0]));
        }
        law_sorting_forgets_the_given_order(fa, fb, file_key());
    }
}

/// Expands a file placeholder, given what the file system holds for its
/// path.
///
/// A glob and a directory expand to the blocks of the regular files found,
/// in the order of their paths; it is an error if there is none, or if one
/// of them could not be read. A regular file expands to its block.
pub fn expand_file_path(path: &str, source: &IncludeSource) -> (r: Result<String, ExpandError>)
    ensures
        result_text(r) == include_text(path@, source@),
{
    match source {
        IncludeSource::BadPattern => Err(ExpandError::BadPattern),
        IncludeSource::Matches(entries) => expand_listing(entries, ExpandError::NoMatches),
        IncludeSource::Directory(entries) => expand_listing(entries, ExpandError::EmptyDirectory),
        IncludeSource::File(Some(content)) => {
            let mut out: Vec<char> = Vec::new();
            push_file_block(&mut out, path, content.as_str());
            assert(out@ =~= file_block(path@, content@));
            Ok(from_chars(&out))
        },
        IncludeSource::File(None) => Err(ExpandError::Unreadable),
        IncludeSource::Other => Err(ExpandError::NotAFile),
        IncludeSource::Missing => Err(ExpandError::FileNotFound),
    }
}

/// One entry below a listed directory: its path from that directory, how
/// deep it lies (1 for the directory's own entries), and whether it is a
/// directory itself.
#[derive(Clone, Debug, PartialEq, Eq)]
pub struct TreeEntry {
    pub path: String,
    pub depth: usize,
    pub is_dir: bool,
}

/// An entry below a listed directory as the contracts see it.
pub struct TreeEntryView {
    pub path: Seq<char>,
    pub depth: usize,
    pub is_dir: bool,
}

impl View for TreeEntry {
    type V = TreeEntryView;

    open spec fn view(&self) -> TreeEntryView {
        TreeEntryView { path: self.path@, depth: self.depth, is_dir: self.is_dir }
    }
}

impl DeepView for TreeEntry {
    type V = TreeEntryView;

    open spec fn deep_view(&self) -> TreeEntryView {
        self@
    }
}

/// What the file system holds for the path of a directory placeholder.
#[derive(Clone, Debug, PartialEq, Eq)]
pub enum TreeSource {
    /// There is nothing at the path.
    Missing,
    /// The path is no directory.
    NotADirectory,
    /// The path is a directory, and these are the entries below it, at any
    /// depth.
    Entries(Vec<TreeEntry>),
}

/// What the file system holds for the path of a directory placeholder, as
/// the contracts see it.
pub enum TreeSourceView {
    Missing,
    NotADirectory,
    Entries(Seq<TreeEntryView>),
}

impl View for TreeSource {
    type V = TreeSourceView;

    open spec fn view(&self) -> TreeSourceView {
        match *self {
            TreeSource::Missing => TreeSourceView::Missing,
            TreeSource::NotADirectory => TreeSourceView::NotADirectory,
            TreeSource::Entries(entries) => TreeSourceView::Entries(entries.deep_view()),
        }
    }
}

/// The path of an entry, by which it is ordered.
pub open spec fn tree_key() -> spec_fn(TreeEntryView) -> Seq<char> {
    |e: TreeEntryView| e.path
}

/// Two spaces for each level.
pub open spec fn indent(levels: nat) -> Seq<char>
    decreases levels,
{
    if levels == 0 {
        seq![]
    } else {
        indent((levels - 1) as nat) + "  "@
    }
}

/// The line of one entry: indented by its depth, with `/` behind a
/// directory.
pub open spec fn tree_line(e: TreeEntryView) -> Seq<char> {
    indent((e.depth - 1) as nat) + e.path + if e.is_dir {
        "/\n"@
    } else {
        "\n"@
    }
}

/// The lines of some entries, one after the other.
pub open spec fn tree_lines(entries: Seq<TreeEntryView>) -> Seq<char>
    decreases entries.len(),
{
    if entries.len() == 0 {
        seq![]
    } else {
        tree_lines(entries.drop_last()) + tree_line(entries.last())
    }
}

/// The listing of a directory: a label with its path and, between fences,
/// one line for each entry in the order of the paths, or a note where there
/// is no entry.
pub open spec fn tree_listing(path: Seq<char>, entries: Seq<TreeEntryView>) -> Seq<char> {
    "Contents of directory "@ + path + ":\n```\n"@ + if entries.len() == 0 {
        "(empty directory)\n"@
    } else {
        tree_lines(sorted_by_key(entries, tree_key()))
    } + "```\n"@
}

/// What a directory placeholder expands to, given what the file system
/// holds for its path.
pub open spec fn tree_text(path: Seq<char>, source: TreeSourceView) -> Result<
    Seq<char>,
    ExpandError,
> {
    match source {
        TreeSourceView::Missing => Err(ExpandError::DirectoryNotFound),
        TreeSourceView::NotADirectory => Err(ExpandError::NotADirectory),
        TreeSourceView::Entries(entries) => Ok(tree_listing(path, entries)),
    }
}

/// Every entry lies at depth 1 or more.
pub open spec fn all_below(entries: Seq<TreeEntryView>) -> bool {
    forall|i: int| 0 <= i < entries.len() ==> (#[trigger] entries[i]).depth >= 1
}

/// Every entry lies below the listed directory, at depth 1 or more.
pub open spec fn depths_ok(source: TreeSourceView) -> bool {
    match source {
        TreeSourceView::Entries(entries) => all_below(entries),
        _ => true,
    }
}

/// Whether every entry lies at depth 1 or more.
#[verifier::loop_isolation(false)]
pub fn check_depths(source: &TreeSource) -> (r: bool)
    ensures
        r == depths_ok(source@),
{
    match source {
        TreeSource::Entries(entries) => {
            let ghost all = entries.deep_view();
            let mut i: usize = 0;
            while i < entries.len()
                invariant
                    i <= entries.len(),
                    forall|k: int| 0 <= k < i ==> (#[trigger] all[k]).depth >= 1,
                decreases entries.len() - i,
            {
                assert(all[i as int] == entries@[i as int]@);
                if entries[i].depth < 1 {
                    assert(all.len() == entries.len());
                    assert(!(all[i as int].depth >= 1));
                    assert(!all_below(all));
                    return false;
                }
                i += 1;
            }
            true
        },
        _ => true,
    }
}

/// Appends the line of one entry to `out`.
fn push_tree_line(out: &mut Vec<char>, e: &TreeEntry)
    requires
        e.depth >= 1,
    ensures
        final(out)@ == old(out)@ + tree_line(e@),
{
    let mut level: usize = 0;
    assert(out@ =~= old(out)@ + indent(0));
    while level < e.depth - 1
        invariant
            e.depth >= 1,
            level <= e.depth - 1,
            out@ == old(out)@ + indent(level as nat),
        decreases e.depth - 1 - level,
    {
        push_str(out, "  ");
        assert(out@ =~= old(out)@ + indent((level + 1) as nat));
        level += 1;
    }
    push_str(out, e.path.as_str());
    if e.is_dir {
        push_str(out, "/\n");
    } else {
        push_str(out, "\n");
    }
    assert(final(out)@ =~= old(out)@ + tree_line(e@));
}

/// Expands a directory placeholder, given what the file system holds for
/// its path.
pub fn expand_dir_tree(path: &str, source: &TreeSource) -> (r: Result<String, ExpandError>)
    requires
        depths_ok(source@),
    ensures
        result_text(r) == tree_text(path@, source@),
{
    match source {
        TreeSource::Missing => Err(ExpandError::DirectoryNotFound),
        TreeSource::NotADirectory => Err(ExpandError::NotADirectory),
        TreeSource::Entries(entries) => {
            let ghost all = entries.deep_view();
            let mut out: Vec<char> = Vec::new();
            push_str(&mut out, "Contents of directory ");
            push_str(&mut out, path);
            push_str(&mut out, ":\n```\n");
            let ghost head = out@;
            if entries.len() == 0 {
                push_str(&mut out, "(empty directory)\n");
            } else {
                let mut keys: Vec<Vec<char>> = Vec::new();
                let mut i: usize = 0;
                while i < entries.len()
                    invariant
                        i <= entries.len(),
                        keys.len() == i,
                        forall|k: int| 0 <= k < i ==> (#[trigger] keys@[k])@ == entries@[k].path@,
                    decreases entries.len() - i,
                {
                    keys.push(to_chars(entries[i].path.as_str()));
                    i += 1;
                }
                assert(texts(keys@) =~= keys_of(all, tree_key()));
                let order = sorted_order(&keys);
                let ghost listed = in_order(all, order@);
                let mut k: usize = 0;
                assert(listed.take(0) =~= Seq::<TreeEntryView>::empty());
                while k < order.len()
                    invariant
                        k <= order.len(),
                        all == entries.deep_view(),
                        order.len() == entries.len(),
                        forall|j: int| 0 <= j < order.len() ==> #[trigger] order@[j] < entries.len(),
                        forall|j: int| 0 <= j < all.len() ==> (#[trigger] all[j]).depth >= 1,
                        listed == in_order(all, order@),
                        out@ == head + tree_lines(listed.take(k as int)),
                    decreases order.len() - k,
                {
                    let e = &entries[order[k]];
                    proof {
                        let upto = listed.take(k as int + 1);
                        assert(all[order@[k as int] as int] == e@);
                        assert(upto.last() == e@);
                        assert(upto.drop_last() =~= listed.take(k as int));
                    }
                    push_tree_line(&mut out, e);
                    assert(out@ =~= head + tree_lines(listed.take(k as int + 1)));
                    k += 1;
                }
                assert(listed.take(listed.len() as int) =~= listed);
            }
            push_str(&mut out, "```\n");
            assert(out@ =~= tree_listing(path@, all));
            Ok(from_chars(&out))
        },
    }
}

/// The listing of a directory does not depend on the order in which the
/// file system lists its entries: two listings of the same entries, in
/// neither of which two entries have the same path, are shown alike.
pub proof fn law_tree_order_does_not_matter(
    path: Seq<char>,
    a: Seq<TreeEntryView>,
    b: Seq<TreeEntryView>,
)
    requires
        same_items(a, b),
        distinct_keys(a, tree_key()),
        distinct_keys(b, tree_key()),
        a.len() <= usize::MAX,
        b.len() <= usize::MAX,
    ensures
        tree_listing(path, a) == tree_listing(path, b),
{
    if a.len() == 0 {
        if b.len() > 0 {
            assert(b.contains(b[0]));
            assert(a.contains(b[0]));
        }
    } else {
        assert(a.contains(a[0]));
        if b.len() == 0 {
            assert(b.contains(a[0]));
        }
        law_sorting_forgets_the_given_order(a, b, tree_key());
    }
}

} // verus!
