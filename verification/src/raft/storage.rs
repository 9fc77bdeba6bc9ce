//! The log store of one replica: the retained log entries, the durable
//! term-and-vote record, and the snapshot that stands for the compacted prefix.
//!
//! The store is a plain value with a single owner. Whoever holds it mutably is
//! the one writer; readers borrow it shared.

use crate::raft::entry::{
    entry_views, total_encoded_len, Entry, EntryView, HardState, Snapshot, SnapshotView,
};
use vstd::prelude::*;

verus! {

/// Why the log store could not serve a request.
#[derive(Clone, Copy, Debug, PartialEq, Eq, Structural)]
pub enum StorageError {
    /// The requested entries were compacted into the snapshot.
    Compacted,
    /// The requested entries are not in the log yet.
    Unavailable,
    /// The snapshot offered is not newer than the one the store holds.
    SnapshotOutOfDate,
    /// No snapshot covers the requested index yet; ask again later.
    SnapshotTemporarilyUnavailable,
    /// The store cannot take the write.
    StorageFailure,
}

/// What a replica starts from: its durable record and the shard's replicas.
#[derive(Debug)]
pub struct RaftState {
    pub hard_state: HardState,
    pub conf_state: Vec<u64>,
}

/// The log store of one replica.
#[derive(Debug)]
pub struct MemStorage {
    entries: Vec<Entry>,
    hard_state: HardState,
    snapshot: Snapshot,
}

/// The mathematical value of a [`MemStorage`].
pub struct MemStorageView {
    /// The retained entries, oldest first.
    pub entries: Seq<EntryView>,
    pub hard_state: HardState,
    pub snapshot: SnapshotView,
}

/// Whether the entries carry consecutive indices, starting at `first`.
pub open spec fn consecutive_from(entries: Seq<EntryView>, first: int) -> bool {
    forall|i: int| 0 <= i < entries.len() ==> (#[trigger] entries[i]).index == first + i
}

impl MemStorageView {
    /// The invariant of a log store: the retained entries follow the snapshot
    /// without a gap, and the last index leaves room for one more.
    pub open spec fn wf(self) -> bool {
        &&& self.snapshot.index + self.entries.len() < u64::MAX
        &&& consecutive_from(self.entries, self.snapshot.index + 1)
    }

    /// The index of the first entry that can still be read from the log.
    pub open spec fn first_index(self) -> int {
        self.snapshot.index + 1
    }

    /// The index of the most recent entry, or of the snapshot when the log
    /// holds no entry.
    pub open spec fn last_index(self) -> int {
        self.snapshot.index + self.entries.len()
    }

    /// Whether the log holds an entry at `index`.
    pub open spec fn holds(self, index: int) -> bool {
        self.first_index() <= index <= self.last_index()
    }

    /// The entry at `index`.
    pub open spec fn entry_at(self, index: int) -> EntryView
        recommends
            self.holds(index),
    {
        self.entries[index - self.first_index()]
    }

    /// The term of the entry at `index`; at the snapshot's index, the
    /// snapshot's term.
    pub open spec fn term(self, index: int) -> Result<u64, StorageError> {
        if index < self.snapshot.index {
            Err(StorageError::Compacted)
        } else if index == self.snapshot.index {
            Ok(self.snapshot.term)
        } else if index > self.last_index() {
            Err(StorageError::Unavailable)
        } else {
            Ok(self.entry_at(index).term)
        }
    }

    /// Whether the range `[low, high)` can be read, and if not, why.
    pub open spec fn range_check(self, low: int, high: int) -> Result<(), StorageError> {
        if low < self.first_index() {
            Err(StorageError::Compacted)
        } else if high > self.last_index() + 1 {
            Err(StorageError::Unavailable)
        } else {
            Ok(())
        }
    }

    /// The entries with an index in `[low, high)`, oldest first.
    pub open spec fn range(self, low: int, high: int) -> Seq<EntryView>
        recommends
            self.range_check(low, high) is Ok,
    {
        if low < high {
            self.entries.subrange(low - self.first_index(), high - self.first_index())
        } else {
            Seq::empty()
        }
    }

    /// Whether the log can be compacted up to `index`, and if not, why.
    pub open spec fn compact_check(self, index: int) -> Result<(), StorageError> {
        if index <= self.snapshot.index {
            Err(StorageError::SnapshotOutOfDate)
        } else if index > self.last_index() {
            Err(StorageError::Unavailable)
        } else {
            Ok(())
        }
    }

    /// The store after its log was compacted up to `index`: the snapshot
    /// stands for the entries up to there and carries `data`, and the
    /// entries beyond stay.
    pub open spec fn compacted(self, index: u64, data: Seq<u8>) -> MemStorageView
        recommends
            self.compact_check(index as int) is Ok,
    {
        MemStorageView {
            entries: self.entries.subrange(index - self.snapshot.index, self.entries.len() as int),
            snapshot: SnapshotView {
                index,
                term: self.entry_at(index as int).term,
                conf_state: self.snapshot.conf_state,
                data,
            },
            ..self
        }
    }

    /// Whether a snapshot can take the place of the log, and if not, why.
    pub open spec fn install_check(self, snapshot: SnapshotView) -> Result<(), StorageError> {
        if snapshot.index <= self.snapshot.index {
            Err(StorageError::SnapshotOutOfDate)
        } else if snapshot.index == u64::MAX {
            Err(StorageError::StorageFailure)
        } else {
            Ok(())
        }
    }

    /// The store after a snapshot took the place of its log.
    pub open spec fn installed(self, snapshot: SnapshotView) -> MemStorageView {
        MemStorageView { entries: Seq::empty(), snapshot, ..self }
    }

    /// Whether a batch can be appended, and if not, why.
    pub open spec fn append_check(self, batch: Seq<EntryView>) -> Result<(), StorageError> {
        if batch.len() == 0 {
            Ok(())
        } else if !consecutive_from(batch, batch[0].index as int) || batch.last().index
            == u64::MAX {
            Err(StorageError::StorageFailure)
        } else if batch[0].index < self.first_index() {
            Err(StorageError::Compacted)
        } else if batch[0].index > self.last_index() + 1 {
            Err(StorageError::Unavailable)
        } else {
            Ok(())
        }
    }

    /// The log after a batch that passes [`Self::append_check`] was appended:
    /// the entries before the batch's first index, then the batch. Whatever
    /// the log held at or beyond that index is dropped, so an entry that meets
    /// another term at its index replaces it and all that followed it.
    pub open spec fn appended(self, batch: Seq<EntryView>) -> Seq<EntryView> {
        if batch.len() == 0 {
            self.entries
        } else {
            self.entries.subrange(0, batch[0].index - self.first_index()) + batch
        }
    }
}

/// The encoded size of a sequence grows with each entry that is added to it.
pub proof fn lemma_total_encoded_len_push(entries: Seq<EntryView>, entry: EntryView)
    ensures
        total_encoded_len(entries.push(entry)) == total_encoded_len(entries) + entry.encoded_len(),
{
    assert(entries.push(entry).drop_last() =~= entries);
}

impl View for MemStorage {
    type V = MemStorageView;

    closed spec fn view(&self) -> MemStorageView {
        MemStorageView {
            entries: entry_views(self.entries@),
            hard_state: self.hard_state,
            snapshot: self.snapshot@,
        }
    }
}

impl MemStorage {
    /// Whether the store satisfies its invariant.
    pub open spec fn wf(&self) -> bool {
        self@.wf()
    }

    /// A store that holds nothing: no entry, no vote, term zero, and a
    /// snapshot at index zero with no replicas.
    pub fn new() -> (store: Self)
        ensures
            store.wf(),
            store@.entries == Seq::<EntryView>::empty(),
            store@.hard_state == HardState::spec_empty(),
            store@.snapshot == (SnapshotView {
                index: 0,
                term: 0,
                conf_state: Seq::empty(),
                data: Seq::empty(),
            }),
    {
        let store = MemStorage {
            entries: Vec::new(),
            hard_state: HardState::empty(),
            snapshot: Snapshot::empty(),
        };
        assert(store@.entries =~= Seq::<EntryView>::empty());
        store
    }

    /// The durable record last written, and the replicas named by the
    /// snapshot.
    pub fn initial_state(&self) -> (state: RaftState)
        ensures
            state.hard_state == self@.hard_state,
            state.conf_state@ == self@.snapshot.conf_state,
    {
        RaftState {
            hard_state: self.hard_state,
            conf_state: self.snapshot.metadata.conf_state.clone(),
        }
    }

    /// The durable record last written.
    pub fn hard_state(&self) -> (hard_state: HardState)
        ensures
            hard_state == self@.hard_state,
    {
        self.hard_state
    }

    /// The index of the first entry that can still be read.
    pub fn first_index(&self) -> (index: u64)
        requires
            self.wf(),
        ensures
            index == self@.first_index(),
    {
        self.snapshot.metadata.index + 1
    }

    /// The index of the most recent entry, or of the snapshot when the log
    /// holds no entry.
    pub fn last_index(&self) -> (index: u64)
        requires
            self.wf(),
        ensures
            index == self@.last_index(),
    {
        self.snapshot.metadata.index + self.entries.len() as u64
    }

    /// The term of the entry at `idx`.
    ///
    /// Fails with `Compacted` below the snapshot's index and with
    /// `Unavailable` beyond the last index.
    pub fn term(&self, idx: u64) -> (term: Result<u64, StorageError>)
        requires
            self.wf(),
        ensures
            term == self@.term(idx as int),
    {
        let base: u64 = self.snapshot.metadata.index;
        if idx < base {
            return Err(StorageError::Compacted);
        }
        if idx == base {
            return Ok(self.snapshot.metadata.term);
        }
        let position: u64 = idx - base - 1;
        if position >= self.entries.len() as u64 {
            return Err(StorageError::Unavailable);
        }
        Ok(self.entries[position as usize].term)
    }

    /// The entries with an index in `[low, high)`, oldest first, cut off
    /// before the first entry with which their encoded size would exceed
    /// `max_size`, if a limit is given.
    ///
    /// Fails with `Compacted` when `low` lies below the first index, and
    /// with `Unavailable` when `high` lies more than one past the last index.
    pub fn entries(&self, low: u64, high: u64, max_size: Option<u64>) -> (found: Result<
        Vec<Entry>,
        StorageError,
    >)
        requires
            self.wf(),
        ensures
            found is Err <==> self@.range_check(low as int, high as int) is Err,
            found matches Err(e) ==> self@.range_check(low as int, high as int) == Err::<
                (),
                StorageError,
            >(e),
            found matches Ok(entries) ==> {
                let range = self@.range(low as int, high as int);
                let taken = entry_views(entries@);
                &&& taken.len() <= range.len()
                &&& taken == range.subrange(0, taken.len() as int)
                &&& max_size is None ==> taken.len() == range.len()
                &&& max_size matches Some(limit) ==> {
                    &&& total_encoded_len(taken) <= limit
                    &&& taken.len() < range.len() ==> total_encoded_len(
                        range.subrange(0, taken.len() as int + 1),
                    ) > limit
                }
            },
    {
        let first: u64 = self.first_index();
        if low < first {
            return Err(StorageError::Compacted);
        }
        let last: u64 = self.last_index();
        if high > last + 1 {
            return Err(StorageError::Unavailable);
        }
        let mut taken: Vec<Entry> = Vec::new();
        if low >= high {
            assert(entry_views(taken@) =~= Seq::<EntryView>::empty());
            return Ok(taken);
        }
        assert(self@.entries.len() == self.entries.len());
        let start: usize = (low - first) as usize;
        let end: usize = (high - first) as usize;
        let ghost range = self@.range(low as int, high as int);
        let mut size: u128 = 0;
        let mut position: usize = start;
        assert(entry_views(taken@) =~= range.subrange(0, 0));
        while position < end
            invariant
                self.wf(),
                start <= position <= end <= self.entries.len(),
                range == entry_views(self.entries@).subrange(start as int, end as int),
                entry_views(taken@) == range.subrange(0, position - start),
                taken.len() == position - start,
                max_size matches Some(limit) ==> size == total_encoded_len(entry_views(taken@))
                    && size <= limit,
            ensures
                start <= position <= end,
                taken.len() == position - start,
                entry_views(taken@) == range.subrange(0, position - start),
                max_size is None ==> position == end,
                max_size matches Some(limit) ==> {
                    &&& total_encoded_len(entry_views(taken@)) <= limit
                    &&& position < end ==> total_encoded_len(
                        range.subrange(0, position - start + 1),
                    ) > limit
                },
            decreases end - position,
        {
            let entry = &self.entries[position];
            let ghost next = range.subrange(0, position - start + 1);
            proof {
                assert(next =~= entry_views(taken@).push(entry@));
                lemma_total_encoded_len_push(entry_views(taken@), entry@);
            }
            match max_size {
                Some(limit) => {
                    let grown: u128 = size + entry.encoded_len();
                    if grown > limit as u128 {
                        break ;
                    }
                    size = grown;
                },
                None => {},
            }
            taken.push(entry.clone());
            assert(entry_views(taken@) =~= next);
            position = position + 1;
        }
        Ok(taken)
    }

    /// The snapshot, if it covers `request_index`.
    ///
    /// Fails with `SnapshotTemporarilyUnavailable` when the snapshot ends
    /// before `request_index`. The receiver `_to` does not change the answer.
    pub fn snapshot(&self, request_index: u64, _to: u64) -> (snapshot: Result<
        Snapshot,
        StorageError,
    >)
        ensures
            request_index <= self@.snapshot.index ==> snapshot is Ok && snapshot->Ok_0@
                == self@.snapshot,
            request_index > self@.snapshot.index ==> snapshot == Err::<Snapshot, StorageError>(
                StorageError::SnapshotTemporarilyUnavailable,
            ),
    {
        if request_index <= self.snapshot.metadata.index {
            return Ok(self.snapshot.clone());
        }
        Err(StorageError::SnapshotTemporarilyUnavailable)
    }

    /// The entry at `idx`, if the log holds one there.
    pub fn entry(&self, idx: u64) -> (entry: Option<&Entry>)
        requires
            self.wf(),
        ensures
            entry is Some <==> self@.holds(idx as int),
            entry matches Some(e) ==> e@ == self@.entry_at(idx as int),
    {
        assert(self@.entries.len() == self.entries.len());
        let base: u64 = self.snapshot.metadata.index;
        if idx <= base {
            return None;
        }
        let position: u64 = idx - base - 1;
        if position >= self.entries.len() as u64 {
            return None;
        }
        Some(&self.entries[position as usize])
    }

    /// Appends a batch to the tail of the log.
    ///
    /// The batch must carry consecutive indices, begin no earlier than the
    /// first index and no later than one past the last index. Entries that the
    /// log holds at or beyond the batch's first index are dropped first.
    pub fn append(&mut self, batch: &Vec<Entry>) -> (done: Result<(), StorageError>)
        requires
            old(self).wf(),
        ensures
            final(self).wf(),
            done == old(self)@.append_check(entry_views(batch@)),
            final(self)@.hard_state == old(self)@.hard_state,
            final(self)@.snapshot == old(self)@.snapshot,
            done is Ok ==> final(self)@.entries == old(self)@.appended(entry_views(batch@)),
            done is Err ==> final(self)@.entries == old(self)@.entries,
    {
        let ghost incoming = entry_views(batch@);
        let count: usize = batch.len();
        if count == 0 {
            return Ok(());
        }
        let begin: u64 = batch[0].index;
        let mut checked: usize = 0;
        while checked < count
            invariant
                *self == *old(self),
                self.wf(),
                count == batch.len(),
                count > 0,
                begin == batch[0].index,
                incoming == entry_views(batch@),
                checked <= count,
                forall|i: int| 0 <= i < checked ==> (#[trigger] incoming[i]).index == begin + i,
            decreases count - checked,
        {
            let expected: u128 = begin as u128 + checked as u128;
            if batch[checked].index as u128 != expected {
                assert(incoming[checked as int].index != begin + checked);
                return Err(StorageError::StorageFailure);
            }
            checked = checked + 1;
        }
        assert(consecutive_from(incoming, begin as int));
        if batch[count - 1].index == u64::MAX {
            return Err(StorageError::StorageFailure);
        }
        let first: u64 = self.first_index();
        if begin < first {
            return Err(StorageError::Compacted);
        }
        let last: u64 = self.last_index();
        if begin > last + 1 {
            return Err(StorageError::Unavailable);
        }
        assert(self@.entries.len() == self.entries.len());
        let offset: usize = (begin - first) as usize;
        let ghost log = entry_views(self.entries@);
        self.entries.truncate(offset);
        assert(entry_views(self.entries@) =~= log.subrange(0, offset as int));
        let mut position: usize = 0;
        while position < count
            invariant
                position <= count,
                count == batch.len(),
                incoming == entry_views(batch@),
                self.hard_state == old(self).hard_state,
                self.snapshot == old(self).snapshot,
                self.entries.len() == offset + position,
                offset + count < u64::MAX - self.snapshot.metadata.index,
                entry_views(self.entries@) == log.subrange(0, offset as int) + incoming.subrange(
                    0,
                    position as int,
                ),
            decreases count - position,
        {
            let ghost before = entry_views(self.entries@);
            self.entries.push(batch[position].clone());
            assert(entry_views(self.entries@) =~= before.push(incoming[position as int]));
            assert(before.push(incoming[position as int]) =~= log.subrange(0, offset as int)
                + incoming.subrange(0, position + 1));
            position = position + 1;
        }
        proof {
            let result = entry_views(self.entries@);
            assert(incoming.subrange(0, count as int) =~= incoming);
            assert(result == old(self)@.appended(incoming));
            assert forall|i: int| 0 <= i < result.len() implies (#[trigger] result[i]).index
                == self.snapshot.metadata.index + 1 + i by {
                if i < offset {
                    assert(result[i] == log[i]);
                } else {
                    assert(result[i] == incoming[i - offset]);
                }
            }
        }
        Ok(())
    }

    /// Compacts the log up to `index`: the entries up to there are dropped,
    /// and the snapshot that stands for them carries `data`, the term of
    /// the entry at `index`, and the replicas named before.
    ///
    /// Fails with `SnapshotOutOfDate` when the snapshot reaches `index`
    /// already, and with `Unavailable` when the log ends before `index`.
    pub fn compact(&mut self, index: u64, data: Vec<u8>) -> (done: Result<(), StorageError>)
        requires
            old(self).wf(),
        ensures
            final(self).wf(),
            done == old(self)@.compact_check(index as int),
            done is Ok ==> final(self)@ == old(self)@.compacted(index, data@),
            done is Err ==> final(self)@ == old(self)@,
    {
        let base: u64 = self.snapshot.metadata.index;
        if index <= base {
            return Err(StorageError::SnapshotOutOfDate);
        }
        assert(self@.entries.len() == self.entries.len());
        if index - base > self.entries.len() as u64 {
            return Err(StorageError::Unavailable);
        }
        let dropped: usize = (index - base) as usize;
        let ghost before = entry_views(self.entries@);
        assert(before[dropped - 1] == self.entries[dropped - 1]@);
        let term: u64 = self.entries[dropped - 1].term;
        let kept: Vec<Entry> = self.entries.split_off(dropped);
        self.entries = kept;
        self.snapshot.metadata.index = index;
        self.snapshot.metadata.term = term;
        self.snapshot.data = data;
        proof {
            let after = entry_views(self.entries@);
            assert(after =~= before.subrange(dropped as int, before.len() as int));
            assert forall|i: int| 0 <= i < after.len() implies (#[trigger] after[i]).index == index
                + 1 + i by {
                assert(after[i] == before[i + dropped]);
            }
        }
        Ok(())
    }

    /// Puts a snapshot in the place of the log: no entry stays.
    ///
    /// Fails with `SnapshotOutOfDate` when the snapshot does not reach
    /// beyond the one the store holds, and with `StorageFailure` when it
    /// leaves no room for an entry.
    pub fn apply_snapshot(&mut self, snapshot: Snapshot) -> (done: Result<(), StorageError>)
        requires
            old(self).wf(),
        ensures
            final(self).wf(),
            done == old(self)@.install_check(snapshot@),
            done is Ok ==> final(self)@ == old(self)@.installed(snapshot@),
            done is Err ==> final(self)@ == old(self)@,
    {
        if snapshot.metadata.index <= self.snapshot.metadata.index {
            return Err(StorageError::SnapshotOutOfDate);
        }
        if snapshot.metadata.index == u64::MAX {
            return Err(StorageError::StorageFailure);
        }
        self.entries.clear();
        self.snapshot = snapshot;
        proof {
            assert(entry_views(self.entries@) =~= Seq::<EntryView>::empty());
        }
        Ok(())
    }

    /// Records a new term, vote and commit index.
    pub fn set_hard_state(&mut self, hard_state: HardState)
        ensures
            final(self)@.hard_state == hard_state,
            final(self)@.entries == old(self)@.entries,
            final(self)@.snapshot == old(self)@.snapshot,
    {
        self.hard_state = hard_state;
    }

    /// Names the replicas of the shard.
    pub fn set_conf_state(&mut self, voters: Vec<u64>)
        ensures
            final(self)@.snapshot == (SnapshotView {
                conf_state: voters@,
                ..old(self)@.snapshot
            }),
            final(self)@.entries == old(self)@.entries,
            final(self)@.hard_state == old(self)@.hard_state,
    {
        self.snapshot.metadata.conf_state = voters;
    }
}

} // verus!
