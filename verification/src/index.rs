//! The index that a scan ends in: the folders in ascending order, the file
//! entries as they were found, and what they add up to.

use vstd::prelude::*;

use crate::accumulator::ResultAccumulator;
use crate::entry::{contents, entry_views, EntryView, FileEntry};
use crate::scanner::{
    is_scan_of, lemma_extended_from_nothing, scan_tree, ScanError, ScanReport,
};
use crate::text::{ascending, sort_strings, views};
use crate::tree::{root_folders, tree_entries, DirNode, DirView};

verus! {

/// The index of a tree.
#[derive(Debug)]
pub struct Index {
    /// The folders that hold music, each once and with its closing
    /// separator, in ascending lexicographic order.
    pub folders: Vec<String>,
    /// The music files, in the order in which they were recorded.
    pub files: Vec<FileEntry>,
}

/// The playing times of the entries added up.
pub open spec fn total_seconds(files: Seq<EntryView>) -> nat
    decreases files.len(),
{
    if files.len() == 0 {
        0
    } else {
        total_seconds(files.drop_last()) + files.last().duration as nat
    }
}

/// A total never shrinks as entries are added.
proof fn lemma_total_seconds_grows(files: Seq<EntryView>, n: int)
    requires
        0 <= n <= files.len(),
    ensures
        total_seconds(files.take(n)) <= total_seconds(files),
    decreases files.len(),
{
    if n == files.len() {
        assert(files.take(n) =~= files);
    } else {
        lemma_total_seconds_grows(files.drop_last(), n);
        assert(files.drop_last().take(n) =~= files.take(n));
    }
}

/// A sequence with the elements of a sequence without repetition, each as
/// often, has no repetition and holds the same elements.
proof fn lemma_rearranged<A>(a: Seq<A>, b: Seq<A>)
    requires
        a.no_duplicates(),
        a.to_multiset() == b.to_multiset(),
    ensures
        b.no_duplicates(),
        a.to_set() == b.to_set(),
{
    broadcast use vstd::seq_lib::group_to_multiset_ensures;

    a.lemma_multiset_has_no_duplicates();
    b.lemma_multiset_has_no_duplicates_conv();
    assert forall|x: A| a.contains(x) <==> b.contains(x) by {
        assert(a.contains(x) <==> a.to_multiset().count(x) > 0);
        assert(b.contains(x) <==> b.to_multiset().count(x) > 0);
    }
    assert(a.to_set() =~= b.to_set());
}

/// The index of a tree, whatever the order in which its files were
/// recorded: the folders of the tree, ascending and each once, and the
/// entries of the tree, each as often as the tree has it.
pub open spec fn is_index_of(root: DirView, index: Index) -> bool {
    &&& index.wf()
    &&& index.folder_names().to_set() == root_folders(root)
    &&& contents(index.entries()).to_multiset() == tree_entries(root).to_multiset()
}

impl Index {
    /// The folders as character sequences.
    pub open spec fn folder_names(&self) -> Seq<Seq<char>> {
        views(self.folders@)
    }

    /// The entries as views.
    pub open spec fn entries(&self) -> Seq<EntryView> {
        entry_views(self.files@)
    }

    /// The invariant of an index: the folders ascend, and none is there
    /// twice.
    pub open spec fn wf(&self) -> bool {
        &&& ascending(self.folder_names())
        &&& self.folder_names().no_duplicates()
    }

    /// The index of what an accumulator holds: its folders in ascending
    /// order, whatever the order in which they were found, and its entries
    /// as they are.
    pub fn build(acc: ResultAccumulator) -> (index: Index)
        requires
            acc.wf(),
        ensures
            index.wf(),
            index.folder_names().to_set() == acc.folders().to_set(),
            index.folder_names().len() == acc.folders().len(),
            index.entries() == acc.files(),
    {
        let (folders, files) = acc.into_parts();
        let sorted = sort_strings(&folders);
        proof {
            lemma_rearranged(views(folders@), views(sorted@));
        }
        Index { folders: sorted, files }
    }

    /// The index of the tree below `root`, with the report of what was left
    /// out; a root that could not be listed is the one failure.
    pub fn of_tree(root: &DirNode) -> (r: Result<(Index, ScanReport), ScanError>)
        ensures
            match r {
                Err(e) => !root.readable && e == ScanError::RootUnreadable,
                Ok((index, report)) => root.readable && is_index_of(root@, index) && is_scan_of(
                    root@,
                    index.folder_names(),
                    index.entries(),
                    report,
                ) && contents(index.entries()) == tree_entries(root@),
            },
    {
        match scan_tree(root) {
            Err(e) => Err(e),
            Ok((acc, report)) => {
                let index = Index::build(acc);
                proof {
                    lemma_extended_from_nothing(index.entries(), tree_entries(root@));
                }
                Ok((index, report))
            },
        }
    }

    /// The number of files in the index.
    pub fn file_count(&self) -> (n: usize)
        ensures
            n == self.entries().len(),
    {
        self.files.len()
    }

    /// The playing time of all files together in seconds; `None` where it
    /// is beyond `u64`.
    pub fn total_duration(&self) -> (total: Option<u64>)
        ensures
            total == if total_seconds(self.entries()) <= u64::MAX {
                Some(total_seconds(self.entries()) as u64)
            } else {
                None
            },
    {
        let mut sum: u64 = 0;
        let mut i: usize = 0;
        assert(self.entries().take(0) =~= Seq::<EntryView>::empty());
        while i < self.files.len()
            invariant
                i <= self.files.len(),
                sum == total_seconds(self.entries().take(i as int)),
            decreases self.files.len() - i,
        {
            proof {
                let next = self.entries().take(i + 1);
                assert(next.drop_last() =~= self.entries().take(i as int));
                assert(next.last() == self.files@[i as int]@);
                lemma_total_seconds_grows(self.entries(), i + 1);
            }
            match sum.checked_add(self.files[i].duration) {
                Some(s) => {
                    sum = s;
                },
                None => {
                    return None;
                },
            }
            i = i + 1;
        }
        assert(self.entries().take(self.files.len() as int) =~= self.entries());
        Some(sum)
    }
}

/// A playing time in days, hours, minutes and seconds.
#[derive(Clone, Copy, Debug, PartialEq, Eq, Structural)]
pub struct Summary {
    pub days: u64,
    pub hours: u64,
    pub minutes: u64,
    pub seconds: u64,
}

/// The seconds of a day.
pub const SECONDS_PER_DAY: u64 = 86400;

/// The seconds of an hour.
pub const SECONDS_PER_HOUR: u64 = 3600;

/// The seconds of a minute.
pub const SECONDS_PER_MINUTE: u64 = 60;

/// `total` seconds in days, hours of the day, minutes of the hour and
/// seconds of the minute.
pub open spec fn summary_of(total: u64) -> Summary {
    Summary {
        days: total / SECONDS_PER_DAY,
        hours: (total / SECONDS_PER_HOUR) % 24,
        minutes: (total / SECONDS_PER_MINUTE) % 60,
        seconds: total % SECONDS_PER_MINUTE,
    }
}

/// Splits a playing time of `total` seconds.
pub fn summarize(total: u64) -> (r: Summary)
    ensures
        r == summary_of(total),
{
    Summary {
        days: total / SECONDS_PER_DAY,
        hours: (total / SECONDS_PER_HOUR) % 24,
        minutes: (total / SECONDS_PER_MINUTE) % 60,
        seconds: total % SECONDS_PER_MINUTE,
    }
}

/// The parts of a summary are in their ranges and add up to the total.
pub proof fn lemma_summary_adds_up(total: u64)
    ensures
        summary_of(total).hours < 24,
        summary_of(total).minutes < 60,
        summary_of(total).seconds < 60,
        summary_of(total).days * 86400 + summary_of(total).hours * 3600 + summary_of(
            total,
        ).minutes * 60 + summary_of(total).seconds == total,
{
    let t = total as int;
    assert((t / 3600) % 24 == t / 3600 - 24 * (t / 86400)) by (nonlinear_arith)
        requires
            t >= 0,
    ;
    assert((t / 60) % 60 == t / 60 - 60 * (t / 3600)) by (nonlinear_arith)
        requires
            t >= 0,
    ;
    assert(t % 60 == t - 60 * (t / 60)) by (nonlinear_arith)
        requires
            t >= 0,
    ;
}

} // verus!
