//! Where a scan collects what it finds: folders, each listed once, and file
//! entries in the order of their arrival.
//!
//! The accumulator is changed through `&mut` alone, so a caller that shares
//! it among workers guards it with one lock, and each record is then taken
//! whole or not at all.

use vstd::prelude::*;

use crate::entry::{entry_views, EntryView, FileEntry};
use crate::gather::lemma_filter_map_rearranged;
use crate::text::views;

verus! {

/// The folders after `folder` is recorded: as before where it is listed
/// already, else with it at the end.
pub open spec fn with_folder(folders: Seq<Seq<char>>, folder: Seq<char>) -> Seq<Seq<char>> {
    if folders.contains(folder) {
        folders
    } else {
        folders.push(folder)
    }
}

/// One call on an accumulator.
pub enum Record {
    Folder(Seq<char>),
    File(EntryView),
}

/// What an accumulator holds.
pub struct Contents {
    pub folders: Seq<Seq<char>>,
    pub files: Seq<EntryView>,
}

/// What an accumulator holds after one more record.
pub open spec fn apply(contents: Contents, record: Record) -> Contents {
    match record {
        Record::Folder(folder) => Contents {
            folders: with_folder(contents.folders, folder),
            files: contents.files,
        },
        Record::File(entry) => Contents {
            folders: contents.folders,
            files: contents.files.push(entry),
        },
    }
}

/// What a new accumulator holds after the records in the given order.
pub open spec fn replay(records: Seq<Record>) -> Contents
    decreases records.len(),
{
    if records.len() == 0 {
        Contents { folders: Seq::empty(), files: Seq::empty() }
    } else {
        apply(replay(records.drop_last()), records.last())
    }
}

/// The folders and files of one scan, as they are found.
pub struct ResultAccumulator {
    folders: Vec<String>,
    files: Vec<FileEntry>,
}

impl ResultAccumulator {
    /// The folders recorded, in the order in which each came first.
    pub closed spec fn folders(&self) -> Seq<Seq<char>> {
        views(self.folders@)
    }

    /// The entries recorded, in the order of their arrival.
    pub closed spec fn files(&self) -> Seq<EntryView> {
        entry_views(self.files@)
    }

    /// What the accumulator holds.
    pub open spec fn contents(&self) -> Contents {
        Contents { folders: self.folders(), files: self.files() }
    }

    /// The invariant: no folder is listed twice.
    pub open spec fn wf(&self) -> bool {
        self.folders().no_duplicates()
    }

    /// An accumulator that holds nothing.
    pub fn new() -> (r: Self)
        ensures
            r.wf(),
            r.folders() == Seq::<Seq<char>>::empty(),
            r.files() == Seq::<EntryView>::empty(),
    {
        let r = ResultAccumulator { folders: Vec::new(), files: Vec::new() };
        assert(r.folders() =~= Seq::<Seq<char>>::empty());
        assert(r.files() =~= Seq::<EntryView>::empty());
        r
    }

    /// Adds an entry at the end. No entry is refused.
    pub fn record_file(&mut self, entry: FileEntry)
        requires
            old(self).wf(),
        ensures
            final(self).wf(),
            final(self).contents() == apply(old(self).contents(), Record::File(entry@)),
    {
        self.files.push(entry);
        assert(self.files() =~= old(self).files().push(entry@));
    }

    /// Adds a folder unless it is listed already, and says whether it was
    /// added.
    pub fn record_folder(&mut self, path: String) -> (added: bool)
        requires
            old(self).wf(),
        ensures
            final(self).wf(),
            final(self).contents() == apply(old(self).contents(), Record::Folder(path@)),
            added == !old(self).folders().contains(path@),
    {
        let mut i: usize = 0;
        while i < self.folders.len()
            invariant
                i <= self.folders.len(),
                *self == *old(self),
                self.wf(),
                forall|k: int| 0 <= k < i ==> views(self.folders@)[k] != path@,
            decreases self.folders.len() - i,
        {
            if self.folders[i] == path {
                assert(views(self.folders@)[i as int] == path@);
                return false;
            }
            i = i + 1;
        }
        let ghost before = views(self.folders@);
        self.folders.push(path);
        assert(views(self.folders@) =~= before.push(path@));
        true
    }

    /// Whether anything was recorded.
    pub fn is_empty(&self) -> (r: bool)
        ensures
            r == (self.folders().len() == 0 && self.files().len() == 0),
    {
        self.folders.len() == 0 && self.files.len() == 0
    }

    /// The number of entries recorded.
    pub fn file_count(&self) -> (n: usize)
        ensures
            n == self.files().len(),
    {
        self.files.len()
    }

    /// Hands out the folders and the entries.
    pub fn into_parts(self) -> (r: (Vec<String>, Vec<FileEntry>))
        ensures
            views(r.0@) == self.folders(),
            entry_views(r.1@) == self.files(),
    {
        (self.folders, self.files)
    }
}

/// The folders named by the folder records among `records`.
pub open spec fn folders_named(records: Seq<Record>) -> Set<Seq<char>> {
    Set::new(|folder: Seq<char>| records.contains(Record::Folder(folder)))
}

/// The entry that a record adds, if it adds one.
pub open spec fn file_of(record: Record) -> Option<EntryView> {
    match record {
        Record::File(entry) => Some(entry),
        Record::Folder(_) => None,
    }
}

/// The entries of the file records among `records`, in their order.
pub open spec fn files_recorded(records: Seq<Record>) -> Seq<EntryView> {
    records.filter_map(|r: Record| file_of(r))
}

/// However often and in whatever order folders are recorded, each is listed
/// exactly once: the list has no folder twice, and holds exactly the folders
/// that some record named.
pub proof fn lemma_folders_listed_once(records: Seq<Record>)
    ensures
        replay(records).folders.no_duplicates(),
        replay(records).folders.to_set() == folders_named(records),
    decreases records.len(),
{
    let now = replay(records).folders;
    if records.len() == 0 {
        assert(now.to_set() =~= folders_named(records));
    } else {
        let earlier = records.drop_last();
        let before = replay(earlier).folders;
        lemma_folders_listed_once(earlier);
        assert forall|folder: Seq<char>| now.contains(folder) <==> records.contains(
            Record::Folder(folder),
        ) by {
            let r = Record::Folder(folder);
            if records.contains(r) {
                let k = choose|k: int| 0 <= k < records.len() && records[k] == r;
                if k < records.len() - 1 {
                    assert(earlier[k] == r);
                    assert(folders_named(earlier).contains(folder));
                    assert(before.to_set().contains(folder));
                }
            }
            if before.contains(folder) {
                assert(before.to_set().contains(folder));
                assert(folders_named(earlier).contains(folder));
                let k = choose|k: int| 0 <= k < earlier.len() && earlier[k] == r;
                assert(records[k] == r);
            }
            match records.last() {
                Record::Folder(named) => {
                    if !before.contains(named) {
                        assert(now == before.push(named));
                        assert(now[now.len() - 1] == named);
                        if now.contains(folder) && folder != named {
                            let k = choose|k: int| 0 <= k < now.len() && now[k] == folder;
                            assert(before[k] == folder);
                        }
                        if before.contains(folder) {
                            let k = choose|k: int| 0 <= k < before.len() && before[k] == folder;
                            assert(now[k] == folder);
                        }
                    }
                    if folder == named {
                        assert(records[records.len() - 1] == r);
                    }
                },
                Record::File(_) => {},
            }
        }
        assert(now.to_set() =~= folders_named(records));
    }
}

/// No entry is lost and none is doubled: the entries held are exactly those
/// recorded, in the order of their records.
pub proof fn lemma_files_all_kept(records: Seq<Record>)
    ensures
        replay(records).files == files_recorded(records),
    decreases records.len(),
{
    if records.len() > 0 {
        lemma_files_all_kept(records.drop_last());
        match records.last() {
            Record::File(entry) => {
                let before = files_recorded(records.drop_last());
                assert(before.push(entry) =~= before + seq![entry]);
            },
            Record::Folder(_) => {},
        }
    }
}

/// The order in which workers reach the accumulator does not matter: two
/// runs that make the same records, in any two orders, end with the same
/// set of folders and with the same entries, each as often.
pub proof fn lemma_order_does_not_matter(first: Seq<Record>, second: Seq<Record>)
    requires
        first.to_multiset() == second.to_multiset(),
    ensures
        replay(first).folders.to_set() == replay(second).folders.to_set(),
        replay(first).files.to_multiset() == replay(second).files.to_multiset(),
{
    broadcast use vstd::seq_lib::group_to_multiset_ensures;

    lemma_folders_listed_once(first);
    lemma_folders_listed_once(second);
    assert(folders_named(first) =~= folders_named(second)) by {
        assert forall|folder: Seq<char>|
            first.contains(Record::Folder(folder)) <==> second.contains(
                Record::Folder(folder),
            ) by {
            let r = Record::Folder(folder);
            assert(first.contains(r) <==> first.to_multiset().count(r) > 0);
            assert(second.contains(r) <==> second.to_multiset().count(r) > 0);
        }
    }
    lemma_files_all_kept(first);
    lemma_files_all_kept(second);
    lemma_filter_map_rearranged(first, second, |r: Record| file_of(r));
}

} // verus!
