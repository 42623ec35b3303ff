use vstd::prelude::*;
use crate::entry::FileInfo;
use crate::entry::entry_size;
use crate::entry::is_file_entry;
use crate::entry::size_of_entries;
use crate::entry::get_size;
use crate::entry::lemma_size_nonneg;
use crate::entry::lemma_size_split;
use crate::order::entries_sorted;
use crate::order::sort_entries;
use crate::evict::files_of;
use crate::evict::filter_files;
use crate::evict::lemma_files_of_files;
use crate::evict::lemma_files_of_size;
use crate::evict::lemma_size_permutation;

verus! {

/// One eviction pass, one deletion at a time. The caller deletes the
/// file that `next_path` names and reports back with `mark_removed`
/// or `mark_failed`; a failed deletion is skipped and the pass goes
/// on with the next candidate, so one undeletable file never blocks
/// the rest.
pub struct Evictor {
    /// The regular files of the snapshot, oldest first.
    pub candidates: Vec<FileInfo>,
    /// How many candidates have been dealt with, removed or skipped.
    pub next: usize,
    /// The snapshot's size minus the sizes of the entries removed so
    /// far.
    pub current_size: u64,
    /// The byte budget the directory is to be brought under.
    pub keep: u64,
    /// The entries whose deletion the caller reported as successful,
    /// in removal order.
    pub removed: Vec<FileInfo>,
}

impl Evictor {
    /// The pass's internal invariant: candidates sorted and all
    /// regular files, and the pending candidates never weigh more
    /// than the size still standing, so a removal cannot underflow.
    pub open spec fn wf(self) -> bool {
        &&& entries_sorted(self.candidates@)
        &&& forall|i: int|
            0 <= i < self.candidates@.len() ==> is_file_entry(#[trigger] self.candidates@[i])
        &&& self.next <= self.candidates@.len()
        &&& size_of_entries(self.candidates@.skip(self.next as int)) <= self.current_size
    }

    /// Whether the pass still wants a deletion: the size is over
    /// budget and candidates are left.
    pub open spec fn active(self) -> bool {
        self.current_size > self.keep && (self.next as int) < self.candidates@.len()
    }

    /// Starts an eviction pass over a snapshot with the given byte
    /// budget.
    pub fn new(entries: Vec<FileInfo>, keep: u64) -> (ev: Evictor)
        requires
            size_of_entries(entries@) <= u64::MAX,
        ensures
            ev.wf(),
            ev.keep == keep,
            ev.next == 0,
            ev.removed@ == Seq::<FileInfo>::empty(),
            ev.current_size as int == size_of_entries(entries@),
            ev.candidates@.to_multiset() == files_of(entries@).to_multiset(),
    {
        broadcast use vstd::seq_lib::group_to_multiset_ensures;

        let ghost all = entries@;
        let files = filter_files(entries);
        let sorted = sort_entries(files);
        proof {
            lemma_files_of_size(all);
            lemma_size_permutation(sorted@, files_of(all));
            lemma_files_of_files(all);
            assert forall|i: int| 0 <= i < sorted@.len() implies is_file_entry(
                #[trigger] sorted@[i],
            ) by {
                assert(sorted@.contains(sorted@[i]));
                assert(sorted@.to_multiset().count(sorted@[i]) > 0);
                assert(files_of(all).to_multiset().count(sorted@[i]) > 0);
                assert(files_of(all).contains(sorted@[i]));
                let j = choose|j: int|
                    0 <= j < files_of(all).len() && files_of(all)[j] == sorted@[i];
                assert(is_file_entry(files_of(all)[j]));
            }
        }
        let total = get_size(&sorted);
        proof {
            assert(sorted@.skip(0) =~= sorted@);
        }
        Evictor { candidates: sorted, next: 0, current_size: total, keep, removed: Vec::new() }
    }

    /// Whether the pass is finished: the budget is met or every
    /// candidate has been dealt with.
    pub fn done(&self) -> (r: bool)
        ensures
            r == !self.active(),
    {
        self.current_size <= self.keep || self.next >= self.candidates.len()
    }

    /// The path of the file to delete next: the oldest candidate not
    /// yet dealt with, or nothing once the pass is finished.
    pub fn next_path(&self) -> (r: Option<String>)
        ensures
            match r {
                Some(p) => self.active() && p == self.candidates@[self.next as int].file_path,
                None => !self.active(),
            },
    {
        if self.current_size > self.keep && self.next < self.candidates.len() {
            Some(self.candidates[self.next].file_path.clone())
        } else {
            None
        }
    }

    /// Records that the current candidate was deleted: its size comes
    /// off the running total and its entry joins the removal list.
    pub fn mark_removed(&mut self)
        requires
            old(self).wf(),
            old(self).active(),
        ensures
            final(self).wf(),
            final(self).candidates == old(self).candidates,
            final(self).keep == old(self).keep,
            final(self).next == old(self).next + 1,
            final(self).removed@ == old(self).removed@.push(
                old(self).candidates@[old(self).next as int],
            ),
            final(self).current_size as int == old(self).current_size - old(
                self,
            ).candidates@[old(self).next as int].size,
    {
        let ghost n = self.next as int;
        proof {
            let pending = self.candidates@.skip(n);
            lemma_size_split(pending, 1);
            assert(pending.take(1) =~= seq![self.candidates@[n]]);
            assert(seq![self.candidates@[n]].drop_first() =~= Seq::<FileInfo>::empty());
            assert(size_of_entries(pending.take(1)) == entry_size(self.candidates@[n]));
            assert(pending.skip(1) =~= self.candidates@.skip(n + 1));
            lemma_size_nonneg(self.candidates@.skip(n + 1));
            assert(entry_size(self.candidates@[n]) == self.candidates@[n].size as int);
            assert(self.candidates.len() == self.candidates@.len());
        }
        let e = self.candidates[self.next].clone();
        self.current_size = self.current_size - e.size;
        self.removed.push(e);
        self.next = self.next + 1;
    }

    /// Records that deleting the current candidate failed: the
    /// candidate is skipped, nothing is removed, the size stands, and
    /// the pass goes on with the next candidate.
    pub fn mark_failed(&mut self)
        requires
            old(self).wf(),
            old(self).active(),
        ensures
            final(self).wf(),
            final(self).candidates == old(self).candidates,
            final(self).keep == old(self).keep,
            final(self).next == old(self).next + 1,
            final(self).removed == old(self).removed,
            final(self).current_size == old(self).current_size,
    {
        let ghost n = self.next as int;
        proof {
            let pending = self.candidates@.skip(n);
            lemma_size_split(pending, 1);
            assert(pending.take(1) =~= seq![self.candidates@[n]]);
            assert(seq![self.candidates@[n]].drop_first() =~= Seq::<FileInfo>::empty());
            assert(entry_size(self.candidates@[n]) >= 0);
            assert(pending.skip(1) =~= self.candidates@.skip(n + 1));
            assert(self.candidates.len() == self.candidates@.len());
        }
        self.next = self.next + 1;
    }

    /// The paths of the entries removed so far, in removal order.
    pub fn removed_paths(&self) -> (r: Vec<String>)
        ensures
            r@.len() == self.removed@.len(),
            forall|i: int| 0 <= i < r@.len() ==> r@[i] == self.removed@[i].file_path,
    {
        paths_of(&self.removed)
    }
}

/// The paths of a list of entries, in the same order.
pub fn paths_of(entries: &Vec<FileInfo>) -> (r: Vec<String>)
    ensures
        r@.len() == entries@.len(),
        forall|i: int| 0 <= i < r@.len() ==> r@[i] == entries@[i].file_path,
{
    let mut r: Vec<String> = Vec::new();
    let mut i: usize = 0;
    while i < entries.len()
        invariant
            i <= entries.len(),
            r@.len() == i,
            forall|k: int| 0 <= k < i ==> r@[k] == entries@[k].file_path,
        decreases entries.len() - i,
    {
        r.push(entries[i].file_path.clone());
        i = i + 1;
    }
    r
}

} // verus!
