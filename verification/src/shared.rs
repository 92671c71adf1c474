//! An accumulator behind a lock, for a scan whose workers record at the same
//! time: each record is taken in whole, under the lock. What the lock guards
//! never lists a folder twice, and it only grows: what it was started with
//! stays in it, in its place.

use vstd::prelude::*;
use vstd::rwlock::{RwLock, RwLockPredicate};

use crate::accumulator::{Contents, ResultAccumulator};
use crate::entry::FileEntry;

verus! {

/// `whole` begins with `start`: it is at least as long, and equal to it
/// place by place.
pub open spec fn begins_with<A>(whole: Seq<A>, start: Seq<A>) -> bool {
    &&& start.len() <= whole.len()
    &&& forall|i: int| 0 <= i < start.len() ==> whole[i] == start[i]
}

/// `now` is `start` grown: its folders and its entries begin with those of
/// `start`.
pub open spec fn grown_from(now: Contents, start: Contents) -> bool {
    &&& begins_with(now.folders, start.folders)
    &&& begins_with(now.files, start.files)
}

/// What the lock keeps true of the accumulator that it guards: no folder is
/// listed twice, and the accumulator is `start` grown.
pub struct GrownFrom {
    pub start: Contents,
}

impl RwLockPredicate<ResultAccumulator> for GrownFrom {
    open spec fn inv(self, acc: ResultAccumulator) -> bool {
        &&& acc.wf()
        &&& grown_from(acc.contents(), self.start)
    }
}

/// An accumulator that many workers record into.
pub struct SharedAccumulator {
    lock: RwLock<ResultAccumulator, GrownFrom>,
}

impl SharedAccumulator {
    /// What the accumulator held when the sharing began.
    pub closed spec fn start(&self) -> Contents {
        self.lock.pred().start
    }

    /// A shared accumulator that starts with nothing.
    pub fn new() -> (r: Self)
        ensures
            r.start() == (Contents { folders: Seq::empty(), files: Seq::empty() }),
    {
        let acc = ResultAccumulator::new();
        let ghost start = Contents { folders: Seq::empty(), files: Seq::empty() };
        assert(acc.contents() == start);
        SharedAccumulator { lock: RwLock::new(acc, Ghost(GrownFrom { start })) }
    }

    /// Puts `acc` behind a lock, to be recorded into by many workers.
    pub fn share(acc: ResultAccumulator) -> (r: Self)
        requires
            acc.wf(),
        ensures
            r.start() == acc.contents(),
    {
        let ghost start = acc.contents();
        SharedAccumulator { lock: RwLock::new(acc, Ghost(GrownFrom { start })) }
    }

    /// Adds an entry. What other workers record before and after is theirs
    /// to say: the entry is handed to `ResultAccumulator::record_file` under
    /// the lock, behind whatever is there.
    pub fn record_file(&self, entry: FileEntry) {
        let (mut acc, handle) = self.lock.acquire_write();
        acc.record_file(entry);
        handle.release_write(acc);
    }

    /// Adds a folder unless it is listed at the moment of the call, and
    /// says whether it was added. The test and the addition are one step
    /// under the lock: of two workers that record one folder, one adds it.
    /// A folder that was listed when the sharing began is listed at every
    /// moment, so it is never added.
    pub fn record_folder(&self, path: String) -> (added: bool)
        ensures
            self.start().folders.contains(path@) ==> !added,
    {
        let (mut acc, handle) = self.lock.acquire_write();
        let ghost before = acc.folders();
        proof {
            if self.start().folders.contains(path@) {
                let i = choose|i: int|
                    0 <= i < self.start().folders.len() && self.start().folders[i] == path@;
                assert(before[i] == path@);
            }
        }
        let added = acc.record_folder(path);
        handle.release_write(acc);
        added
    }

    /// Ends the sharing and hands out the accumulator, once every worker is
    /// done. Whatever the workers did, no folder is listed twice in it, and
    /// what it held when the sharing began is still there, in its place.
    pub fn into_inner(self) -> (acc: ResultAccumulator)
        ensures
            acc.wf(),
            grown_from(acc.contents(), self.start()),
    {
        self.lock.into_inner()
    }
}

} // verus!
