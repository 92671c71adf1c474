//! The walk over a directory tree: it records an entry for each music file
//! with a playing time, lists each directory that holds music, and reports
//! what it leaves out and why.

use vstd::prelude::*;

use crate::accumulator::{with_folder, ResultAccumulator};
use crate::entry::{contents, folder_name, folder_of, is_identifier, EntryView, FileEntry};
use crate::file_format::{
    lemma_classifier_matches_registry, path_extension, FileFormat, FileFormatFactory,
};
use crate::text::views;
use crate::tree::{
    dirs_below, drops_of, entries_of, file_outcome, files_below, has_music, lemma_drops_add,
    lemma_entries_add, lemma_listed_add, lemma_listed_one, lemma_one_more_file,
    lemma_unreadable_add, lemma_view_of_subdirs, listed, own_files, root_folders, tree_dirs,
    tree_entries, tree_files, unreadable_among, yield_of, DirNode, DirView, DropReason,
    DroppedView, FileNode, Located,
};

verus! {

/// Why a scan gave no index.
#[derive(Clone, Copy, Debug, PartialEq, Eq, Structural)]
pub enum ScanError {
    /// The directory that the walk starts from could not be listed.
    RootUnreadable,
}

/// A music file that was left out of the index.
#[derive(Debug)]
pub struct Dropped {
    /// The path of the file.
    pub path: String,
    /// Why it was left out.
    pub reason: DropReason,
}

impl View for Dropped {
    type V = DroppedView;

    open spec fn view(&self) -> DroppedView {
        DroppedView { path: self.path@, reason: self.reason }
    }
}

/// What a scan could not process.
#[derive(Debug)]
pub struct ScanReport {
    /// The paths of the directories that could not be listed, in the order
    /// of the walk.
    pub unreadable: Vec<String>,
    /// The music files without an entry, in the order of the walk.
    pub dropped: Vec<Dropped>,
}

impl ScanReport {
    /// The paths of the directories that could not be listed.
    pub open spec fn unreadable_paths(&self) -> Seq<Seq<char>> {
        views(self.unreadable@)
    }

    /// The music files without an entry.
    pub open spec fn dropped_files(&self) -> Seq<DroppedView> {
        self.dropped@.map_values(|d: Dropped| d@)
    }

    /// A report that holds nothing.
    pub fn new() -> (r: Self)
        ensures
            r.unreadable_paths() == Seq::<Seq<char>>::empty(),
            r.dropped_files() == Seq::<DroppedView>::empty(),
    {
        let r = ScanReport { unreadable: Vec::new(), dropped: Vec::new() };
        assert(r.unreadable_paths() =~= Seq::<Seq<char>>::empty());
        assert(r.dropped_files() =~= Seq::<DroppedView>::empty());
        r
    }

    /// The number of directories that could not be listed.
    pub fn unreadable_count(&self) -> (n: usize)
        ensures
            n == self.unreadable_paths().len(),
    {
        self.unreadable.len()
    }

    /// The number of music files without an entry.
    pub fn dropped_count(&self) -> (n: usize)
        ensures
            n == self.dropped_files().len(),
    {
        self.dropped.len()
    }
}

/// `after` is `before` with one new entry for each of `added`, in order:
/// each new entry is the added one under an identifier of its own.
pub open spec fn extended_by(
    before: Seq<EntryView>,
    after: Seq<EntryView>,
    added: Seq<EntryView>,
) -> bool {
    &&& after.len() == before.len() + added.len()
    &&& forall|i: int| 0 <= i < before.len() ==> after[i] == before[i]
    &&& forall|i: int|
        0 <= i < added.len() ==> (#[trigger] after[before.len() + i]).content() == added[i]
            && is_identifier(after[before.len() + i].uuid)
}

/// What was added to nothing is all there is: the entries are the added
/// ones but for their identifiers.
pub proof fn lemma_extended_from_nothing(after: Seq<EntryView>, added: Seq<EntryView>)
    requires
        extended_by(Seq::empty(), after, added),
    ensures
        contents(after) == added,
{
    let before = Seq::<EntryView>::empty();
    assert forall|i: int| 0 <= i < added.len() implies contents(after)[i]
        == added[i] by {
        assert(after[before.len() + i].content() == added[i]);
    }
    assert(contents(after) =~= added);
}

/// Two extensions in a row are one extension by both lists.
proof fn lemma_extended_twice(
    a: Seq<EntryView>,
    b: Seq<EntryView>,
    c: Seq<EntryView>,
    x: Seq<EntryView>,
    y: Seq<EntryView>,
)
    requires
        extended_by(a, b, x),
        extended_by(b, c, y),
    ensures
        extended_by(a, c, x + y),
{
    assert forall|i: int| 0 <= i < (x + y).len() implies (#[trigger] c[a.len() + i]).content()
        == (x + y)[i] && is_identifier(c[a.len() + i].uuid) by {
        if i < x.len() {
            assert(c[a.len() + i] == b[a.len() + i]);
        } else {
            assert(c[b.len() + (i - x.len())].content() == y[i - x.len()]);
        }
    }
}

/// Looks at one file: `None` for a file that is no music file; for a music
/// file its entry for the folder `folder`, under a new identifier, or the
/// reason why it has none.
pub fn examine(folder: &str, file: &FileNode) -> (r: Option<Result<FileEntry, DropReason>>)
    ensures
        match file_outcome(file@) {
            None => r.is_none(),
            Some(Err(reason)) => r == Some(Err::<FileEntry, DropReason>(reason)),
            Some(Ok(_)) => r matches Some(Ok(entry)) && Some(entry@.content()) == yield_of(
                Located { folder: folder@, file: file@ },
            ) && is_identifier(entry@.uuid),
        },
{
    match FileFormatFactory::new_file(file.path.as_str()) {
        None => None,
        Some(format) => {
            proof {
                lemma_classifier_matches_registry(path_extension(file.path@)->0);
            }
            match &file.reading {
                None => Some(Err(DropReason::UnclassifiedFormat)),
                Some(reading) => match format.duration(reading) {
                    Ok(seconds) => Some(Ok(FileEntry::new(folder, &format, seconds))),
                    Err(e) => Some(Err(DropReason::Decode(e))),
                },
            }
        },
    }
}

/// Recording a folder adds it to the set of folders.
proof fn lemma_recorded_folder(before: Seq<Seq<char>>, after: Seq<Seq<char>>, name: Seq<char>)
    requires
        after == with_folder(before, name),
    ensures
        after.to_set() == before.to_set().insert(name),
{
    if before.contains(name) {
        assert(after.to_set() =~= before.to_set().insert(name));
    } else {
        assert forall|x: Seq<char>| after.contains(x) <==> (before.contains(x) || x == name) by {
            if after.contains(x) {
                let k = choose|k: int| 0 <= k < after.len() && after[k] == x;
                if k < before.len() {
                    assert(before[k] == x);
                }
            }
            if before.contains(x) {
                let k = choose|k: int| 0 <= k < before.len() && before[k] == x;
                assert(after[k] == x);
            }
            if x == name {
                assert(after[before.len() as int] == x);
            }
        }
        assert(after.to_set() =~= before.to_set().insert(name));
    }
}

/// Records the files that lie in `dir` itself, and says whether one of
/// them got an entry.
fn scan_own_files(dir: &DirNode, acc: &mut ResultAccumulator, report: &mut ScanReport) -> (found:
    bool)
    requires
        old(acc).wf(),
    ensures
        final(acc).wf(),
        final(acc).folders() == old(acc).folders(),
        extended_by(old(acc).files(), final(acc).files(), entries_of(own_files(dir@))),
        final(report).unreadable_paths() == old(report).unreadable_paths(),
        final(report).dropped_files() == old(report).dropped_files() + drops_of(own_files(dir@)),
        found == (entries_of(own_files(dir@)).len() > 0),
{
    let folder = folder_of(dir.path.as_str());
    let ghost own = own_files(dir@);
    let mut found = false;
    let mut i: usize = 0;
    proof {
        assert(own.take(0) =~= Seq::<Located>::empty());
        assert(report.dropped_files() =~= old(report).dropped_files() + drops_of(own.take(0)));
    }
    while i < dir.files.len()
        invariant
            i <= dir.files.len(),
            own == own_files(dir@),
            folder@ == folder_name(dir.path@),
            acc.wf(),
            acc.folders() == old(acc).folders(),
            extended_by(old(acc).files(), acc.files(), entries_of(own.take(i as int))),
            report.unreadable_paths() == old(report).unreadable_paths(),
            report.dropped_files() == old(report).dropped_files() + drops_of(own.take(i as int)),
            found == (entries_of(own.take(i as int)).len() > 0),
        decreases dir.files.len() - i,
    {
        let file = &dir.files[i];
        let ghost files_before = acc.files();
        let ghost drops_before = report.dropped_files();
        proof {
            lemma_one_more_file(own, i as int);
            assert(own[i as int] == Located { folder: folder@, file: file@ });
        }
        match examine(folder.as_str(), file) {
            None => {},
            Some(Ok(entry)) => {
                acc.record_file(entry);
                found = true;
                proof {
                    assert(acc.files() == files_before.push(entry@));
                    assert(extended_by(files_before, acc.files(), seq![entry@.content()]));
                    lemma_extended_twice(
                        old(acc).files(),
                        files_before,
                        acc.files(),
                        entries_of(own.take(i as int)),
                        seq![entry@.content()],
                    );
                }
            },
            Some(Err(reason)) => {
                let dropped = Dropped { path: file.path.clone(), reason };
                report.dropped.push(dropped);
                proof {
                    assert(report.dropped_files() =~= drops_before.push(dropped@));
                    assert(report.dropped_files() =~= old(report).dropped_files() + drops_of(
                        own.take(i + 1),
                    ));
                }
            },
        }
        i = i + 1;
    }
    proof {
        assert(own.take(dir.files.len() as int) =~= own);
    }
    found
}

/// Walks the subdirectories of `dir`, and says whether one of them holds
/// music.
fn scan_subdirs(dir: &DirNode, acc: &mut ResultAccumulator, report: &mut ScanReport) -> (found:
    bool)
    requires
        old(acc).wf(),
    ensures
        final(acc).wf(),
        final(acc).folders().to_set() == old(acc).folders().to_set().union(
            listed(dirs_below(dir@.dirs, dir@.dirs.len())),
        ),
        extended_by(
            old(acc).files(),
            final(acc).files(),
            entries_of(files_below(dir@.dirs, dir@.dirs.len())),
        ),
        final(report).unreadable_paths() == old(report).unreadable_paths() + unreadable_among(
            dirs_below(dir@.dirs, dir@.dirs.len()),
        ),
        final(report).dropped_files() == old(report).dropped_files() + drops_of(
            files_below(dir@.dirs, dir@.dirs.len()),
        ),
        found == (entries_of(files_below(dir@.dirs, dir@.dirs.len())).len() > 0),
    decreases *dir, 0nat,
{
    let mut found = false;
    let mut j: usize = 0;
    proof {
        assert(acc.folders().to_set() =~= old(acc).folders().to_set().union(
            listed(dirs_below(dir@.dirs, 0)),
        ));
        assert(report.unreadable_paths() =~= old(report).unreadable_paths() + unreadable_among(
            dirs_below(dir@.dirs, 0),
        ));
        assert(report.dropped_files() =~= old(report).dropped_files() + drops_of(
            files_below(dir@.dirs, 0),
        ));
    }
    proof {
        lemma_view_of_subdirs(*dir);
    }
    while j < dir.dirs.len()
        invariant
            j <= dir.dirs.len(),
            dir@.dirs.len() == dir.dirs.len(),
            forall|k: int| 0 <= k < dir.dirs.len() ==> #[trigger] dir@.dirs[k] == dir.dirs@[k]@,
            acc.wf(),
            acc.folders().to_set() == old(acc).folders().to_set().union(
                listed(dirs_below(dir@.dirs, j as nat)),
            ),
            extended_by(
                old(acc).files(),
                acc.files(),
                entries_of(files_below(dir@.dirs, j as nat)),
            ),
            report.unreadable_paths() == old(report).unreadable_paths() + unreadable_among(
                dirs_below(dir@.dirs, j as nat),
            ),
            report.dropped_files() == old(report).dropped_files() + drops_of(
                files_below(dir@.dirs, j as nat),
            ),
            found == (entries_of(files_below(dir@.dirs, j as nat)).len() > 0),
        decreases dir.dirs.len() - j,
    {
        let sub = &dir.dirs[j];
        let ghost files_before = acc.files();
        let in_sub = scan_dir(sub, acc, report);
        if in_sub {
            found = true;
        }
        proof {
            let dirs = dir@.dirs;
            assert(dirs[j as int] == sub@);
            let seen_files = files_below(dirs, j as nat);
            let seen_dirs = dirs_below(dirs, j as nat);
            assert(files_below(dirs, (j + 1) as nat) == seen_files + tree_files(sub@));
            assert(dirs_below(dirs, (j + 1) as nat) == seen_dirs + tree_dirs(sub@));
            lemma_entries_add(seen_files, tree_files(sub@));
            lemma_drops_add(seen_files, tree_files(sub@));
            lemma_unreadable_add(seen_dirs, tree_dirs(sub@));
            lemma_listed_add(seen_dirs, tree_dirs(sub@));
            lemma_extended_twice(
                old(acc).files(),
                files_before,
                acc.files(),
                entries_of(seen_files),
                tree_entries(sub@),
            );
            assert(acc.folders().to_set() =~= old(acc).folders().to_set().union(
                listed(dirs_below(dirs, (j + 1) as nat)),
            ));
        }
        j = j + 1;
    }
    found
}

/// Walks the tree below `dir`: records an entry for each music file with a
/// playing time, lists each directory that holds music, `dir` included, and
/// reports what it leaves out. Says whether `dir` holds music.
pub fn scan_dir(dir: &DirNode, acc: &mut ResultAccumulator, report: &mut ScanReport) -> (found:
    bool)
    requires
        old(acc).wf(),
    ensures
        final(acc).wf(),
        final(acc).folders().to_set() == old(acc).folders().to_set().union(
            listed(tree_dirs(dir@)),
        ),
        extended_by(old(acc).files(), final(acc).files(), tree_entries(dir@)),
        final(report).unreadable_paths() == old(report).unreadable_paths() + unreadable_among(
            tree_dirs(dir@),
        ),
        final(report).dropped_files() == old(report).dropped_files() + drops_of(
            tree_files(dir@),
        ),
        found == has_music(dir@),
    decreases *dir, 1nat,
{
    if !dir.readable {
        let ghost paths_before = report.unreadable_paths();
        report.unreadable.push(dir.path.clone());
        proof {
            let one = seq![dir@];
            assert(one.drop_last() =~= Seq::<DirView>::empty());
            assert(unreadable_among(one) =~= seq![dir.path@]) by {
                reveal_with_fuel(Seq::filter_map, 2);
            }
            assert(report.unreadable_paths() =~= paths_before.push(dir.path@));
            assert(report.unreadable_paths() =~= paths_before + unreadable_among(one));
            assert(entries_of(Seq::<Located>::empty()) =~= Seq::<EntryView>::empty());
            assert(drops_of(Seq::<Located>::empty()) =~= Seq::<DroppedView>::empty());
            assert(report.dropped_files() =~= old(report).dropped_files() + drops_of(
                tree_files(dir@),
            ));
            lemma_listed_one(dir@);
            assert(acc.folders().to_set() =~= old(acc).folders().to_set().union(
                listed(tree_dirs(dir@)),
            ));
        }
        return false;
    }
    let own = scan_own_files(dir, acc, report);
    let ghost files_between = acc.files();
    let below = scan_subdirs(dir, acc, report);
    let found = own || below;
    let ghost folders_before = acc.folders();
    if found {
        acc.record_folder(folder_of(dir.path.as_str()));
        proof {
            lemma_recorded_folder(folders_before, acc.folders(), folder_name(dir.path@));
        }
    }
    proof {
        let n = dir@.dirs.len();
        let one = seq![dir@];
        lemma_entries_add(own_files(dir@), files_below(dir@.dirs, n));
        lemma_drops_add(own_files(dir@), files_below(dir@.dirs, n));
        lemma_unreadable_add(one, dirs_below(dir@.dirs, n));
        lemma_listed_add(one, dirs_below(dir@.dirs, n));
        lemma_listed_one(dir@);
        assert(one.drop_last() =~= Seq::<DirView>::empty());
        assert(unreadable_among(one) =~= Seq::<Seq<char>>::empty()) by {
            reveal_with_fuel(Seq::filter_map, 2);
        }
        lemma_extended_twice(
            old(acc).files(),
            files_between,
            acc.files(),
            entries_of(own_files(dir@)),
            entries_of(files_below(dir@.dirs, n)),
        );
        assert(report.unreadable_paths() =~= old(report).unreadable_paths() + unreadable_among(
            tree_dirs(dir@),
        ));
        assert(report.dropped_files() =~= old(report).dropped_files() + drops_of(
            tree_files(dir@),
        ));
        assert(acc.folders().to_set() =~= old(acc).folders().to_set().union(
            listed(tree_dirs(dir@)),
        ));
    }
    found
}

/// What a scan of the tree below `root` gives: each folder once, the
/// folders being those of `root_folders`; one entry for each music file with
/// a playing time, in the order of the walk, each under an identifier of its
/// own; and a report of every directory below the root that could not be
/// listed and of every music file without an entry.
pub open spec fn is_scan_of(
    root: DirView,
    folders: Seq<Seq<char>>,
    files: Seq<EntryView>,
    report: ScanReport,
) -> bool {
    &&& folders.no_duplicates()
    &&& folders.to_set() == root_folders(root)
    &&& extended_by(Seq::empty(), files, tree_entries(root))
    &&& report.unreadable_paths() == unreadable_among(
        dirs_below(root.dirs, root.dirs.len()),
    )
    &&& report.dropped_files() == drops_of(tree_files(root))
}

/// Scans the tree below `root`. A root that could not be listed is the one
/// failure; a directory below it that could not be listed, or a music file
/// without a playing time, is left out and reported.
///
/// The root is where the walk starts: it is listed as a folder only where
/// a music file with a playing time lies in it, not for what lies below.
pub fn scan_tree(root: &DirNode) -> (r: Result<(ResultAccumulator, ScanReport), ScanError>)
    ensures
        match r {
            Err(e) => !root.readable && e == ScanError::RootUnreadable,
            Ok((acc, report)) => root.readable && acc.wf() && is_scan_of(
                root@,
                acc.folders(),
                acc.files(),
                report,
            ),
        },
{
    if !root.readable {
        return Err(ScanError::RootUnreadable);
    }
    let mut acc = ResultAccumulator::new();
    let mut report = ScanReport::new();
    let own = scan_own_files(root, &mut acc, &mut report);
    let ghost files_between = acc.files();
    let _ = scan_subdirs(root, &mut acc, &mut report);
    let ghost folders_before = acc.folders();
    if own {
        acc.record_folder(folder_of(root.path.as_str()));
        proof {
            lemma_recorded_folder(folders_before, acc.folders(), folder_name(root.path@));
        }
    }
    proof {
        let n = root@.dirs.len();
        lemma_entries_add(own_files(root@), files_below(root@.dirs, n));
        lemma_drops_add(own_files(root@), files_below(root@.dirs, n));
        lemma_extended_twice(
            Seq::empty(),
            files_between,
            acc.files(),
            entries_of(own_files(root@)),
            entries_of(files_below(root@.dirs, n)),
        );
        assert(report.unreadable_paths() =~= unreadable_among(dirs_below(root@.dirs, n)));
        assert(report.dropped_files() =~= drops_of(tree_files(root@)));
        assert(acc.folders().to_set() =~= root_folders(root@));
    }
    Ok((acc, report))
}

} // verus!
