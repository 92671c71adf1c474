//! A directory tree as plain values, its view as a mathematical tree, and
//! what a scan of the tree is to give: which of its files have an entry,
//! which of its directories are folders of the index, and what is reported
//! as left out.
//!
//! The tree is read from disk by the caller: each directory with its path,
//! its files and its subdirectories, and each music file with what a
//! metadata reader found in it.

use vstd::prelude::*;

use crate::entry::{folder_name, EntryView, FileEntry};
use crate::file_format::{is_music_path, path_extension, reading_seconds, DecodeError, Reading};

verus! {

/// A regular file of the tree.
#[derive(Debug)]
pub struct FileNode {
    /// The path of the file.
    pub path: String,
    /// What a metadata reader found in the file; `None` where none was run.
    pub reading: Option<Reading>,
}

/// A directory of the tree.
#[derive(Debug)]
pub struct DirNode {
    /// The path of the directory, without a closing separator.
    pub path: String,
    /// Whether the directory could be listed. Where it could not, `files`
    /// and `dirs` count for nothing.
    pub readable: bool,
    /// The regular files in the directory.
    pub files: Vec<FileNode>,
    /// The directories in the directory.
    pub dirs: Vec<DirNode>,
}

/// A `FileNode` with its path as a character sequence.
pub struct FileView {
    pub path: Seq<char>,
    pub reading: Option<Reading>,
}

impl View for FileNode {
    type V = FileView;

    open spec fn view(&self) -> FileView {
        FileView { path: self.path@, reading: self.reading }
    }
}

/// A `DirNode` as a mathematical tree: its path as a character sequence,
/// its files and its subdirectories as sequences of views.
pub struct DirView {
    pub path: Seq<char>,
    pub readable: bool,
    pub files: Seq<FileView>,
    pub dirs: Seq<DirView>,
}

/// The view of a directory.
pub open spec fn dir_view(dir: DirNode) -> DirView
    decreases dir,
{
    DirView {
        path: dir.path@,
        readable: dir.readable,
        files: dir.files@.map_values(|f: FileNode| f@),
        dirs: dir_views(dir.dirs@, dir.dirs@.len()),
    }
}

/// The views of the first `n` of `dirs`.
pub open spec fn dir_views(dirs: Seq<DirNode>, n: nat) -> Seq<DirView>
    decreases dirs, n,
{
    if n == 0 || n > dirs.len() {
        Seq::empty()
    } else {
        dir_views(dirs, (n - 1) as nat).push(dir_view(dirs[n - 1]))
    }
}

impl View for DirNode {
    type V = DirView;

    open spec fn view(&self) -> DirView {
        dir_view(*self)
    }
}

/// The views of some directories are as many, and in the same order.
pub proof fn lemma_dir_views(dirs: Seq<DirNode>, n: nat)
    requires
        n <= dirs.len(),
    ensures
        dir_views(dirs, n).len() == n,
        forall|i: int| 0 <= i < n ==> #[trigger] dir_views(dirs, n)[i] == dirs[i]@,
    decreases n,
{
    if n > 0 {
        lemma_dir_views(dirs, (n - 1) as nat);
    }
}

/// The subdirectories of a directory's view are the views of its
/// subdirectories.
pub proof fn lemma_view_of_subdirs(dir: DirNode)
    ensures
        dir@.dirs.len() == dir.dirs@.len(),
        forall|i: int| 0 <= i < dir.dirs@.len() ==> #[trigger] dir@.dirs[i] == dir.dirs@[i]@,
{
    lemma_dir_views(dir.dirs@, dir.dirs@.len());
}

/// Why a music file has no entry.
#[derive(Clone, Copy, Debug, PartialEq, Eq, Structural)]
pub enum DropReason {
    /// Its playing time could not be determined.
    Decode(DecodeError),
    /// It has a music extension and no reader was run on it.
    UnclassifiedFormat,
}

/// A `Dropped` with its path as a character sequence.
pub struct DroppedView {
    pub path: Seq<char>,
    pub reason: DropReason,
}

/// What becomes of a file: `None` for a file that is no music file, the
/// playing time for a music file that has one, and else the reason why it
/// has none.
pub open spec fn file_outcome(file: FileView) -> Option<Result<u64, DropReason>> {
    if !is_music_path(file.path) {
        None
    } else {
        Some(
            match file.reading {
                None => Err(DropReason::UnclassifiedFormat),
                Some(reading) => match reading_seconds(reading) {
                    Ok(seconds) => Ok(seconds),
                    Err(e) => Err(DropReason::Decode(e)),
                },
            },
        )
    }
}

/// A file of the tree together with the name of the folder that holds it.
pub struct Located {
    pub folder: Seq<char>,
    pub file: FileView,
}

/// The entry that a file yields, without its identifier: one for a music
/// file with a playing time, none for any other file.
pub open spec fn yield_of(located: Located) -> Option<EntryView> {
    match file_outcome(located.file) {
        Some(Ok(seconds)) => Some(
            FileEntry::described(
                located.folder,
                located.file.path,
                match path_extension(located.file.path) {
                    Some(ext) => ext,
                    None => Seq::empty(),
                },
                seconds,
            ),
        ),
        _ => None,
    }
}

/// The report on a file: one for a music file without a playing time, none
/// for any other file.
pub open spec fn drop_of(located: Located) -> Option<DroppedView> {
    match file_outcome(located.file) {
        Some(Err(reason)) => Some(DroppedView { path: located.file.path, reason }),
        _ => None,
    }
}

/// The files that lie in a directory itself, in the order of its listing.
pub open spec fn own_files(dir: DirView) -> Seq<Located> {
    dir.files.map_values(|f: FileView| Located { folder: folder_name(dir.path), file: f })
}

/// Every file that the walk from `dir` meets: the directory's own files,
/// then those of each subdirectory in turn. A directory that could not be
/// listed has none.
pub open spec fn tree_files(dir: DirView) -> Seq<Located>
    decreases dir,
{
    if dir.readable {
        own_files(dir) + files_below(dir.dirs, dir.dirs.len())
    } else {
        Seq::empty()
    }
}

/// The files that the walk meets in the first `n` of `dirs`.
pub open spec fn files_below(dirs: Seq<DirView>, n: nat) -> Seq<Located>
    decreases dirs, n,
{
    if n == 0 || n > dirs.len() {
        Seq::empty()
    } else {
        files_below(dirs, (n - 1) as nat) + tree_files(dirs[n - 1])
    }
}

/// Every directory that the walk from `dir` meets: the directory itself,
/// then, where it could be listed, those met in each subdirectory in turn.
pub open spec fn tree_dirs(dir: DirView) -> Seq<DirView>
    decreases dir,
{
    if dir.readable {
        seq![dir] + dirs_below(dir.dirs, dir.dirs.len())
    } else {
        seq![dir]
    }
}

/// The directories that the walk meets in the first `n` of `dirs`.
pub open spec fn dirs_below(dirs: Seq<DirView>, n: nat) -> Seq<DirView>
    decreases dirs, n,
{
    if n == 0 || n > dirs.len() {
        Seq::empty()
    } else {
        dirs_below(dirs, (n - 1) as nat) + tree_dirs(dirs[n - 1])
    }
}

/// The entries of some files, without identifiers: one for each music file
/// with a playing time, in the order of the files.
pub open spec fn entries_of(files: Seq<Located>) -> Seq<EntryView> {
    files.filter_map(|l: Located| yield_of(l))
}

/// The reports on some files: one for each music file without a playing
/// time, in the order of the files.
pub open spec fn drops_of(files: Seq<Located>) -> Seq<DroppedView> {
    files.filter_map(|l: Located| drop_of(l))
}

/// The entries of the tree below `dir`, without identifiers.
pub open spec fn tree_entries(dir: DirView) -> Seq<EntryView> {
    entries_of(tree_files(dir))
}

/// Whether `dir` holds music: a music file with a playing time lies in it
/// or somewhere below it.
pub open spec fn has_music(dir: DirView) -> bool {
    tree_entries(dir).len() > 0
}

/// Whether a music file with a playing time lies in `dir` itself.
pub open spec fn has_own_music(dir: DirView) -> bool {
    dir.readable && entries_of(own_files(dir)).len() > 0
}

/// The folder names of those among `dirs` that hold music.
pub open spec fn listed(dirs: Seq<DirView>) -> Set<Seq<char>> {
    Set::new(
        |name: Seq<char>|
            exists|i: int|
                0 <= i < dirs.len() && has_music(#[trigger] dirs[i]) && name == folder_name(
                    dirs[i].path,
                ),
    )
}

/// The paths of those among `dirs` that could not be listed.
pub open spec fn unreadable_among(dirs: Seq<DirView>) -> Seq<Seq<char>> {
    dirs.filter_map(
        |d: DirView|
            if d.readable {
                None
            } else {
                Some(d.path)
            },
    )
}

/// The folders of the index for the tree below `root`: every directory
/// below the root that holds music, and the root itself where a music file
/// with a playing time lies in it. A root that could not be listed has
/// none.
pub open spec fn root_folders(root: DirView) -> Set<Seq<char>> {
    let below = listed(dirs_below(root.dirs, root.dirs.len()));
    if !root.readable {
        Set::empty()
    } else if has_own_music(root) {
        below.insert(folder_name(root.path))
    } else {
        below
    }
}

/// Mapping the files of two sequences one after the other is mapping the
/// files of their concatenation.
pub proof fn lemma_filter_map_add<A, B>(a: Seq<A>, b: Seq<A>, f: spec_fn(A) -> Option<B>)
    ensures
        (a + b).filter_map(f) == a.filter_map(f) + b.filter_map(f),
    decreases b.len(),
{
    if b.len() == 0 {
        assert(a + b =~= a);
        assert(a.filter_map(f) + b.filter_map(f) =~= a.filter_map(f));
    } else {
        lemma_filter_map_add(a, b.drop_last(), f);
        assert((a + b).drop_last() =~= a + b.drop_last());
        assert((a + b).last() == b.last());
        match f(b.last()) {
            Some(x) => {
                assert((a.filter_map(f) + b.drop_last().filter_map(f)) + seq![x]
                    =~= a.filter_map(f) + (b.drop_last().filter_map(f) + seq![x]));
            },
            None => {},
        }
    }
}

/// The folder names listed from two sequences of directories are those
/// listed from their concatenation.
pub proof fn lemma_listed_add(a: Seq<DirView>, b: Seq<DirView>)
    ensures
        listed(a + b) == listed(a).union(listed(b)),
{
    assert forall|name: Seq<char>| listed(a + b).contains(name) <==> (listed(a).contains(name)
        || listed(b).contains(name)) by {
        if listed(a + b).contains(name) {
            let i = choose|i: int|
                0 <= i < (a + b).len() && has_music(#[trigger] (a + b)[i]) && name
                    == folder_name((a + b)[i].path);
            if i < a.len() {
                assert(has_music(a[i]));
            } else {
                assert(has_music(b[i - a.len()]));
            }
        }
        if listed(a).contains(name) {
            let i = choose|i: int|
                0 <= i < a.len() && has_music(#[trigger] a[i]) && name == folder_name(
                    a[i].path,
                );
            assert(has_music((a + b)[i]));
        }
        if listed(b).contains(name) {
            let i = choose|i: int|
                0 <= i < b.len() && has_music(#[trigger] b[i]) && name == folder_name(
                    b[i].path,
                );
            assert(has_music((a + b)[a.len() + i]));
        }
    }
    assert(listed(a + b) =~= listed(a).union(listed(b)));
}

/// What is listed from a single directory.
pub proof fn lemma_listed_one(dir: DirView)
    ensures
        listed(seq![dir]) == if has_music(dir) {
            Set::<Seq<char>>::empty().insert(folder_name(dir.path))
        } else {
            Set::<Seq<char>>::empty()
        },
{
    let one = seq![dir];
    let expected = if has_music(dir) {
        Set::<Seq<char>>::empty().insert(folder_name(dir.path))
    } else {
        Set::<Seq<char>>::empty()
    };
    assert forall|name: Seq<char>| listed(one).contains(name) <==> expected.contains(name) by {
        if has_music(dir) && name == folder_name(dir.path) {
            assert(has_music(one[0]));
        }
    }
    assert(listed(one) =~= expected);
}

/// The entries of two sequences of files, one after the other, are the
/// entries of their concatenation.
pub proof fn lemma_entries_add(a: Seq<Located>, b: Seq<Located>)
    ensures
        entries_of(a + b) == entries_of(a) + entries_of(b),
{
    lemma_filter_map_add(a, b, |l: Located| yield_of(l));
}

/// The reports on two sequences of files, one after the other, are the
/// reports on their concatenation.
pub proof fn lemma_drops_add(a: Seq<Located>, b: Seq<Located>)
    ensures
        drops_of(a + b) == drops_of(a) + drops_of(b),
{
    lemma_filter_map_add(a, b, |l: Located| drop_of(l));
}

/// The unreadable directories of two sequences, one after the other, are
/// those of their concatenation.
pub proof fn lemma_unreadable_add(a: Seq<DirView>, b: Seq<DirView>)
    ensures
        unreadable_among(a + b) == unreadable_among(a) + unreadable_among(b),
{
    lemma_filter_map_add(
        a,
        b,
        |d: DirView|
            if d.readable {
                None
            } else {
                Some(d.path)
            },
    );
}

/// What one more file adds to the entries and to the reports.
pub proof fn lemma_one_more_file(files: Seq<Located>, i: int)
    requires
        0 <= i < files.len(),
    ensures
        entries_of(files.take(i + 1)) == entries_of(files.take(i)) + (match yield_of(files[i]) {
            Some(e) => seq![e],
            None => Seq::empty(),
        }),
        drops_of(files.take(i + 1)) == drops_of(files.take(i)) + (match drop_of(files[i]) {
            Some(d) => seq![d],
            None => Seq::empty(),
        }),
{
    let head = files.take(i);
    let one = seq![files[i]];
    assert(files.take(i + 1) =~= head + one);
    lemma_entries_add(head, one);
    lemma_drops_add(head, one);
    assert(one.drop_last() =~= Seq::<Located>::empty());
    assert(one.last() == files[i]);
    assert(entries_of(one) =~= match yield_of(files[i]) {
        Some(e) => seq![e],
        None => Seq::empty(),
    }) by {
        reveal_with_fuel(Seq::filter_map, 2);
    }
    assert(drops_of(one) =~= match drop_of(files[i]) {
        Some(d) => seq![d],
        None => Seq::empty(),
    }) by {
        reveal_with_fuel(Seq::filter_map, 2);
    }
}

} // verus!
