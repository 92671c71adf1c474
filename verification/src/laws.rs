//! What holds of every scan: which files have an entry and where it stands,
//! and which directories are listed.

use vstd::prelude::*;

use crate::entry::{folder_name, separator, EntryView};
use crate::file_format::{
    is_music_extension, is_music_path, lemma_name_splits, path_file_name,
};
use crate::tree::{
    dirs_below, drop_of, drops_of, entries_of, file_outcome, files_below, has_music,
    has_own_music, lemma_drops_add, lemma_entries_add, lemma_filter_map_add,
    lemma_one_more_file, listed, own_files, root_folders, tree_dirs, tree_entries, tree_files,
    yield_of, DirView, DroppedView, Located,
};

verus! {

/// Where the entry of the `i`-th file stands among the entries: behind the
/// entries of the files before it.
pub open spec fn position(files: Seq<Located>, i: int) -> int {
    entries_of(files.take(i)).len() as int
}

/// The entries of the first `i` files open the entries of all files.
proof fn lemma_entries_prefix(files: Seq<Located>, i: int)
    requires
        0 <= i <= files.len(),
    ensures
        entries_of(files) == entries_of(files.take(i)) + entries_of(files.skip(i)),
        drops_of(files) == drops_of(files.take(i)) + drops_of(files.skip(i)),
{
    assert(files =~= files.take(i) + files.skip(i));
    lemma_entries_add(files.take(i), files.skip(i));
    lemma_drops_add(files.take(i), files.skip(i));
}

/// An entry names its file: the file lies in the entry's folder, its file
/// name is the entry's name, a dot and the entry's format, and the format is
/// a music extension.
pub proof fn lemma_entry_names_the_file(located: Located)
    requires
        yield_of(located).is_some(),
    ensures
        ({
            let entry = yield_of(located)->0;
            &&& entry.folder == located.folder
            &&& is_music_extension(Some(entry.format))
            &&& path_file_name(located.file.path) == Some(
                entry.name + seq!['.'] + entry.format,
            )
        }),
{
    lemma_name_splits(path_file_name(located.file.path)->0);
}

/// Every music file with a playing time has its entry: the entry stands at
/// the file's position.
pub proof fn lemma_music_file_has_its_entry(files: Seq<Located>, i: int)
    requires
        0 <= i < files.len(),
        yield_of(files[i]).is_some(),
    ensures
        0 <= position(files, i) < entries_of(files).len(),
        Some(entries_of(files)[position(files, i)]) == yield_of(files[i]),
{
    lemma_one_more_file(files, i);
    lemma_entries_prefix(files, i + 1);
}

/// No two files share an entry: the positions of two music files with a
/// playing time differ, and stand in the order of the files.
pub proof fn lemma_entries_stand_apart(files: Seq<Located>, i: int, j: int)
    requires
        0 <= i < j < files.len(),
        yield_of(files[i]).is_some(),
    ensures
        position(files, i) < position(files, j),
{
    let head = files.take(j);
    assert(head.take(i) =~= files.take(i));
    assert(head[i] == files[i]);
    lemma_music_file_has_its_entry(head, i);
}

/// Every entry is that of exactly one file, which is a music file: no
/// other file produces an entry.
pub proof fn lemma_entry_is_of_music_file(files: Seq<Located>, k: int) -> (i: int)
    requires
        0 <= k < entries_of(files).len(),
    ensures
        0 <= i < files.len(),
        is_music_path(files[i].file.path),
        yield_of(files[i]) == Some(entries_of(files)[k]),
        position(files, i) == k,
    decreases files.len(),
{
    let n = files.len() as int;
    assert(n > 0) by {
        if n == 0 {
            assert(entries_of(files) =~= Seq::<EntryView>::empty());
        }
    }
    let rest = files.drop_last();
    assert(files.take(n - 1) =~= rest);
    lemma_one_more_file(files, n - 1);
    assert(files.take(n) =~= files);
    if k < entries_of(rest).len() {
        let i = lemma_entry_is_of_music_file(rest, k);
        assert(rest.take(i) =~= files.take(i));
        i
    } else {
        n - 1
    }
}

/// The music files among `files`.
pub open spec fn music_files(files: Seq<Located>) -> Seq<Located> {
    files.filter(|l: Located| is_music_path(l.file.path))
}

/// Every music file is accounted for: it has an entry or is reported as
/// left out, and no other file is counted.
pub proof fn lemma_every_music_file_accounted(files: Seq<Located>)
    ensures
        entries_of(files).len() + drops_of(files).len() == music_files(files).len(),
    decreases files.len(),
{
    reveal(Seq::filter);
    if files.len() == 0 {
        assert(entries_of(files) =~= Seq::<EntryView>::empty());
        assert(drops_of(files) =~= Seq::<DroppedView>::empty());
    } else {
        let n = files.len() as int;
        let rest = files.drop_last();
        lemma_every_music_file_accounted(rest);
        assert(files.take(n - 1) =~= rest);
        assert(files.take(n) =~= files);
        lemma_one_more_file(files, n - 1);
    }
}

/// One file that cannot be decoded costs one entry and no more: where all
/// files but one are music files with a playing time, and that one is a
/// music file without, there are as many entries as files but one, and the
/// one report is on that file.
pub proof fn lemma_failure_isolation(files: Seq<Located>, bad: int)
    requires
        0 <= bad < files.len(),
        file_outcome(files[bad].file) matches Some(Err(_)),
        forall|i: int| 0 <= i < files.len() && i != bad ==> yield_of(#[trigger] files[i]).is_some(),
    ensures
        entries_of(files).len() == files.len() - 1,
        drops_of(files).len() == 1,
        Some(drops_of(files)[0]) == drop_of(files[bad]),
    decreases files.len(),
{
    let n = files.len() as int;
    let rest = files.drop_last();
    assert(files.take(n - 1) =~= rest);
    assert(files.take(n) =~= files);
    lemma_one_more_file(files, n - 1);
    if bad == n - 1 {
        lemma_all_decoded(rest);
    } else {
        assert(rest[bad] == files[bad]);
        assert forall|i: int| 0 <= i < rest.len() && i != bad implies yield_of(
            #[trigger] rest[i],
        ).is_some() by {
            assert(rest[i] == files[i]);
        }
        lemma_failure_isolation(rest, bad);
    }
}

/// Where every file is a music file with a playing time, every file has an
/// entry and nothing is reported.
pub proof fn lemma_all_decoded(files: Seq<Located>)
    requires
        forall|i: int| 0 <= i < files.len() ==> yield_of(#[trigger] files[i]).is_some(),
    ensures
        entries_of(files).len() == files.len(),
        drops_of(files).len() == 0,
    decreases files.len(),
{
    if files.len() == 0 {
        assert(entries_of(files) =~= Seq::<EntryView>::empty());
        assert(drops_of(files) =~= Seq::<DroppedView>::empty());
    } else {
        let n = files.len() as int;
        let rest = files.drop_last();
        assert(files.take(n - 1) =~= rest);
        assert(files.take(n) =~= files);
        assert forall|i: int| 0 <= i < rest.len() implies yield_of(#[trigger] rest[i]).is_some() by {
            assert(rest[i] == files[i]);
        }
        lemma_all_decoded(rest);
        lemma_one_more_file(files, n - 1);
    }
}

/// Files of which none is a music file give no entry and no report.
pub proof fn lemma_no_music_no_entries(files: Seq<Located>)
    requires
        forall|i: int| 0 <= i < files.len() ==> !is_music_path(#[trigger] files[i].file.path),
    ensures
        entries_of(files) == Seq::<EntryView>::empty(),
        drops_of(files) == Seq::<DroppedView>::empty(),
{
    if entries_of(files).len() > 0 {
        let i = lemma_entry_is_of_music_file(files, 0);
        assert(!is_music_path(files[i].file.path));
    }
    lemma_every_music_file_accounted(files);
    files.lemma_filter_len(|l: Located| is_music_path(l.file.path));
    if music_files(files).len() > 0 {
        let l = music_files(files)[0];
        files.lemma_filter_pred(|l: Located| is_music_path(l.file.path), 0);
        files.lemma_filter_contains_rev(|l: Located| is_music_path(l.file.path), l);
        let i = choose|i: int| 0 <= i < files.len() && files[i] == l;
        assert(!is_music_path(files[i].file.path));
    }
    assert(entries_of(files) =~= Seq::<EntryView>::empty());
    assert(drops_of(files) =~= Seq::<DroppedView>::empty());
}

/// A file met in one of the first `n` directories is met in the walk
/// through them.
proof fn lemma_met_below(dirs: Seq<DirView>, n: nat, j: int, l: Located)
    requires
        0 <= j < n <= dirs.len(),
        tree_files(dirs[j]).contains(l),
    ensures
        files_below(dirs, n).contains(l),
    decreases n,
{
    let before = files_below(dirs, (n - 1) as nat);
    let last = tree_files(dirs[n - 1]);
    if j == n - 1 {
        let k = choose|k: int| 0 <= k < last.len() && last[k] == l;
        assert((before + last)[before.len() + k] == l);
    } else {
        lemma_met_below(dirs, (n - 1) as nat, j, l);
        let k = choose|k: int| 0 <= k < before.len() && before[k] == l;
        assert((before + last)[k] == l);
    }
}

/// A directory met in the walk through the first `n` directories is met in
/// the walk from one of them.
proof fn lemma_met_in_one(dirs: Seq<DirView>, n: nat, m: int) -> (r: (int, int))
    requires
        n <= dirs.len(),
        0 <= m < dirs_below(dirs, n).len(),
    ensures
        0 <= r.0 < n,
        0 <= r.1 < tree_dirs(dirs[r.0]).len(),
        tree_dirs(dirs[r.0])[r.1] == dirs_below(dirs, n)[m],
    decreases n,
{
    let before = dirs_below(dirs, (n - 1) as nat);
    if m < before.len() {
        lemma_met_in_one(dirs, (n - 1) as nat, m)
    } else {
        (n - 1, m - before.len())
    }
}

/// The files below a directory of the tree are files of the tree: what the
/// walk from a directory meets, the walk from any directory above it meets
/// too.
pub proof fn lemma_files_of_subtree(dir: DirView, m: int, l: Located)
    requires
        0 <= m < tree_dirs(dir).len(),
        tree_files(tree_dirs(dir)[m]).contains(l),
    ensures
        tree_files(dir).contains(l),
    decreases dir,
{
    if dir.readable && m > 0 {
        let n = dir.dirs.len();
        let (j, inner) = lemma_met_in_one(dir.dirs, n, m - 1);
        lemma_files_of_subtree(dir.dirs[j], inner, l);
        lemma_met_below(dir.dirs, n, j, l);
        let own = own_files(dir);
        let below = files_below(dir.dirs, n);
        let k = choose|k: int| 0 <= k < below.len() && below[k] == l;
        assert((own + below)[own.len() + k] == l);
    }
}

/// Files that hold a music file with a playing time have an entry.
proof fn lemma_music_among(files: Seq<Located>, l: Located)
    requires
        files.contains(l),
        yield_of(l).is_some(),
    ensures
        entries_of(files).len() > 0,
{
    let i = choose|i: int| 0 <= i < files.len() && files[i] == l;
    lemma_music_file_has_its_entry(files, i);
}

/// Music goes up: a directory in whose subtree a directory holds music
/// holds music itself.
pub proof fn lemma_music_goes_up(dir: DirView, m: int)
    requires
        0 <= m < tree_dirs(dir).len(),
        has_music(tree_dirs(dir)[m]),
    ensures
        has_music(dir),
{
    let sub = tree_dirs(dir)[m];
    let i = lemma_entry_is_of_music_file(tree_files(sub), 0);
    let l = tree_files(sub)[i];
    lemma_files_of_subtree(dir, m, l);
    lemma_music_among(tree_files(dir), l);
}

/// A tree without a music file gives the empty index: no folder and no
/// entry.
pub proof fn lemma_no_music_no_index(root: DirView)
    requires
        forall|i: int|
            0 <= i < tree_files(root).len() ==> !is_music_path(
                #[trigger] tree_files(root)[i].file.path,
            ),
    ensures
        tree_entries(root) == Seq::<EntryView>::empty(),
        root_folders(root) == Set::<Seq<char>>::empty(),
{
    lemma_no_music_no_entries(tree_files(root));
    let below = dirs_below(root.dirs, root.dirs.len());
    if root.readable {
        assert forall|name: Seq<char>| !listed(below).contains(name) by {
            if listed(below).contains(name) {
                let m = choose|m: int|
                    0 <= m < below.len() && has_music(#[trigger] below[m]) && name
                        == folder_name(below[m].path);
                assert(tree_dirs(root)[m + 1] == below[m]);
                lemma_music_goes_up(root, m + 1);
            }
        }
        if has_own_music(root) {
            let own = own_files(root);
            let i = lemma_entry_is_of_music_file(own, 0);
            let rest = files_below(root.dirs, root.dirs.len());
            assert((own + rest)[i] == own[i]);
            assert(!is_music_path(tree_files(root)[i].file.path));
        }
    }
    assert(root_folders(root) =~= Set::<Seq<char>>::empty());
}

/// A file met in the walk through the first `n` directories is met in the
/// walk from one of them.
proof fn lemma_file_met_in_one(dirs: Seq<DirView>, n: nat, k: int) -> (r: (int, int))
    requires
        n <= dirs.len(),
        0 <= k < files_below(dirs, n).len(),
    ensures
        0 <= r.0 < n,
        0 <= r.1 < tree_files(dirs[r.0]).len(),
        tree_files(dirs[r.0])[r.1] == files_below(dirs, n)[k],
    decreases n,
{
    let before = files_below(dirs, (n - 1) as nat);
    if k < before.len() {
        lemma_file_met_in_one(dirs, (n - 1) as nat, k)
    } else {
        (n - 1, k - before.len())
    }
}

/// A directory met in the walk from one of the first `n` directories is
/// met in the walk through them.
proof fn lemma_dir_met_below(dirs: Seq<DirView>, n: nat, j: int, m: int) -> (r: int)
    requires
        0 <= j < n <= dirs.len(),
        0 <= m < tree_dirs(dirs[j]).len(),
    ensures
        0 <= r < dirs_below(dirs, n).len(),
        dirs_below(dirs, n)[r] == tree_dirs(dirs[j])[m],
    decreases n,
{
    let before = dirs_below(dirs, (n - 1) as nat);
    if j == n - 1 {
        before.len() + m
    } else {
        lemma_dir_met_below(dirs, (n - 1) as nat, j, m)
    }
}

/// Every file of the tree lies in a directory of the tree that could be
/// listed, and carries that directory's folder name. The directory is the
/// one the walk starts from exactly for the files that lie in it.
proof fn lemma_file_has_home(dir: DirView, i: int) -> (m: int)
    requires
        0 <= i < tree_files(dir).len(),
    ensures
        0 <= m < tree_dirs(dir).len(),
        tree_dirs(dir)[m].readable,
        own_files(tree_dirs(dir)[m]).contains(tree_files(dir)[i]),
        m == 0 <==> i < own_files(dir).len(),
    decreases dir,
{
    let own = own_files(dir);
    let n = dir.dirs.len();
    if i < own.len() {
        assert(own[i] == tree_files(dir)[i]);
        0
    } else {
        let k = i - own.len();
        let (j, inner) = lemma_file_met_in_one(dir.dirs, n, k);
        let deeper = lemma_file_has_home(dir.dirs[j], inner);
        let at = lemma_dir_met_below(dir.dirs, n, j, deeper);
        assert(tree_dirs(dir)[at + 1] == dirs_below(dir.dirs, n)[at]);
        at + 1
    }
}

/// A directory in which a music file with a playing time lies holds music.
proof fn lemma_own_music_is_music(dir: DirView)
    requires
        has_own_music(dir),
    ensures
        has_music(dir),
{
    lemma_filter_map_add(
        own_files(dir),
        files_below(dir.dirs, dir.dirs.len()),
        |l: Located| yield_of(l),
    );
}

/// Every directory below the root that holds music, in itself or anywhere
/// below it, is among the folders.
pub proof fn lemma_directory_with_music_is_listed(root: DirView, m: int)
    requires
        root.readable,
        1 <= m < tree_dirs(root).len(),
        has_music(tree_dirs(root)[m]),
    ensures
        root_folders(root).contains(folder_name(tree_dirs(root)[m].path)),
{
    let below = dirs_below(root.dirs, root.dirs.len());
    assert(below[m - 1] == tree_dirs(root)[m]);
}

/// Every folder is the folder of a directory of the tree that holds music.
pub proof fn lemma_folder_is_directory_with_music(root: DirView, name: Seq<char>) -> (m: int)
    requires
        root_folders(root).contains(name),
    ensures
        0 <= m < tree_dirs(root).len(),
        has_music(tree_dirs(root)[m]),
        name == folder_name(tree_dirs(root)[m].path),
{
    let below = dirs_below(root.dirs, root.dirs.len());
    if listed(below).contains(name) {
        let k = choose|k: int|
            0 <= k < below.len() && has_music(#[trigger] below[k]) && name == folder_name(
                below[k].path,
            );
        assert(tree_dirs(root)[k + 1] == below[k]);
        k + 1
    } else {
        lemma_own_music_is_music(root);
        0
    }
}

/// Every entry lies in a folder of the index: the folder of an entry is
/// the name of a directory that was walked and is listed.
pub proof fn lemma_entry_lies_in_listed_folder(root: DirView, k: int)
    requires
        0 <= k < tree_entries(root).len(),
    ensures
        root_folders(root).contains(tree_entries(root)[k].folder),
{
    let files = tree_files(root);
    let i = lemma_entry_is_of_music_file(files, k);
    let m = lemma_file_has_home(root, i);
    let home = tree_dirs(root)[m];
    let l = files[i];
    lemma_music_among(own_files(home), l);
    lemma_own_music_is_music(home);
    assert(l.folder == folder_name(home.path)) by {
        let at = choose|at: int| 0 <= at < own_files(home).len() && own_files(home)[at] == l;
        assert(own_files(home)[at].folder == folder_name(home.path));
    }
    if m > 0 {
        lemma_directory_with_music_is_listed(root, m);
    }
}

/// Every folder of the index ends with the separator.
pub proof fn lemma_folder_ends_with_separator(root: DirView, name: Seq<char>)
    requires
        root_folders(root).contains(name),
    ensures
        name.len() > 0,
        name.last() == separator(),
{
    lemma_folder_is_directory_with_music(root, name);
}

} // verus!
