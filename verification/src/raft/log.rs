//! The log of one replica as the protocol sees it: the entries of the log
//! store, followed by the entries that were accepted but not yet persisted,
//! with the commit and apply positions.

use crate::raft::entry::{
    entry_views, Entry, EntryType, EntryView, HardState, Snapshot, SnapshotView,
};
use crate::raft::storage::{consecutive_from, MemStorage, MemStorageView, StorageError};
use vstd::prelude::*;

verus! {

/// The log of one replica.
#[derive(Debug)]
pub struct RaftLog {
    store: MemStorage,
    /// Entries that follow the persisted part of the log and wait to be
    /// persisted. Where the first of them lies inside the store, it replaces
    /// the store's entries from there on.
    unstable: Vec<Entry>,
    committed: u64,
    applied: u64,
}

/// The mathematical value of a [`RaftLog`].
pub struct RaftLogView {
    pub store: MemStorageView,
    pub unstable: Seq<EntryView>,
    pub committed: u64,
    pub applied: u64,
}

/// The first position at which `batch`, laid over a log so that its first
/// entry follows `prev_index`, meets no entry of the same term, counted from
/// `from`; the length of the batch when every entry is matched.
pub open spec fn first_unmatched(log: RaftLogView, batch: Seq<EntryView>, prev_index: int, from: int) -> int
    decreases batch.len() - from,
{
    if 0 <= from < batch.len() && log.term_at(prev_index + 1 + from) == Some(batch[from].term) {
        first_unmatched(log, batch, prev_index, from + 1)
    } else {
        from
    }
}

impl RaftLogView {
    /// The index that the snapshot ends at; the log's entries follow it.
    pub open spec fn base_index(self) -> int {
        self.store.snapshot.index as int
    }

    /// How many entries of the store belong to the log: all of them, or
    /// those before the first unstable entry.
    pub open spec fn stable_len(self) -> int {
        if self.unstable.len() == 0 {
            self.store.entries.len() as int
        } else {
            self.unstable[0].index - self.store.first_index()
        }
    }

    /// The entries of the log, oldest first.
    pub open spec fn entries(self) -> Seq<EntryView> {
        self.store.entries.subrange(0, self.stable_len()) + self.unstable
    }

    /// The index of the last entry, or of the snapshot when there is none.
    pub open spec fn last_index(self) -> int {
        self.base_index() + self.entries().len()
    }

    /// The term of the entry at `index`, or of the snapshot at its index;
    /// nothing outside the log.
    pub open spec fn term_at(self, index: int) -> Option<u64> {
        if index == self.base_index() {
            Some(self.store.snapshot.term)
        } else if self.base_index() < index <= self.last_index() {
            Some(self.entries()[index - self.base_index() - 1].term)
        } else {
            None
        }
    }

    /// The term of the last entry.
    pub open spec fn last_term(self) -> u64 {
        self.term_at(self.last_index()).unwrap()
    }

    /// Whether a log that ends at `index` in `term` is at least as up to date
    /// as this one: it ends in a later term, or in the same term and no
    /// earlier.
    pub open spec fn is_up_to_date(self, index: u64, term: u64) -> bool {
        term > self.last_term() || (term == self.last_term() && index >= self.last_index())
    }

    /// The invariant of a log.
    pub open spec fn wf(self) -> bool {
        &&& self.store.wf()
        &&& 0 <= self.stable_len() <= self.store.entries.len()
        &&& consecutive_from(self.unstable, self.base_index() + 1 + self.stable_len())
        &&& self.last_index() + 1 < u64::MAX
        &&& self.base_index() <= self.applied <= self.committed <= self.last_index()
    }

    /// The entries with an index in `[low, high)`.
    pub open spec fn range(self, low: int, high: int) -> Seq<EntryView>
        recommends
            self.base_index() < low <= high <= self.last_index() + 1,
    {
        self.entries().subrange(low - self.base_index() - 1, high - self.base_index() - 1)
    }

    /// The commit position after the leader's commit position `to` became
    /// known: it never moves back and never passes the end of the log.
    pub open spec fn committed_after(self, to: u64) -> u64 {
        if to > self.committed {
            if to <= self.last_index() {
                to
            } else {
                self.last_index() as u64
            }
        } else {
            self.committed
        }
    }

    /// The commit position of a follower after it took in a batch that ends
    /// at `last_new` from a leader whose commit position is `leader_commit`:
    /// the smaller of the two, unless the follower's own is higher already.
    pub open spec fn committed_with(self, leader_commit: u64, last_new: u64) -> u64 {
        let reached = if leader_commit < last_new {
            leader_commit
        } else {
            last_new
        };
        if reached > self.committed {
            reached
        } else {
            self.committed
        }
    }

    /// The entry at `index`.
    pub open spec fn entry_at(self, index: int) -> EntryView
        recommends
            self.base_index() < index <= self.last_index(),
    {
        self.entries()[index - self.base_index() - 1]
    }

    /// Whether this log keeps what `earlier` had committed: the commit
    /// position is no lower, and every entry that was committed then and has
    /// not been compacted into the snapshot since is in the log unchanged.
    pub open spec fn extends(self, earlier: RaftLogView) -> bool {
        &&& self.base_index() >= earlier.base_index()
        &&& self.committed >= earlier.committed
        &&& forall|index: int|
            self.base_index() < index <= earlier.committed ==> #[trigger] self.entry_at(index)
                == earlier.entry_at(index)
    }

    /// Whether the log can be compacted up to `index`, and if not, why: only
    /// entries that were applied and persisted can go into a snapshot.
    pub open spec fn compact_check(self, index: u64) -> Result<(), StorageError> {
        if index <= self.base_index() {
            Err(StorageError::SnapshotOutOfDate)
        } else if index > self.applied || index > self.base_index() + self.stable_len() {
            Err(StorageError::Unavailable)
        } else {
            Ok(())
        }
    }

    /// The log after it was compacted up to `index`.
    pub open spec fn compacted(self, index: u64, data: Seq<u8>) -> RaftLogView {
        RaftLogView { store: self.store.compacted(index, data), ..self }
    }

    /// The log with the replicas that its snapshot names replaced.
    pub open spec fn with_conf(self, voters: Seq<u64>) -> RaftLogView {
        RaftLogView {
            store: MemStorageView {
                snapshot: SnapshotView { conf_state: voters, ..self.store.snapshot },
                ..self.store
            },
            ..self
        }
    }

    /// Whether a snapshot can take the place of the log: it reaches beyond
    /// the commit position, and leaves room for entries.
    pub open spec fn accepts_snapshot(self, snapshot: SnapshotView) -> bool {
        self.committed < snapshot.index && snapshot.index + 2 < u64::MAX
    }

    /// The log after a snapshot took its place: no entry stays, and the
    /// commit and apply positions stand on the snapshot's index.
    pub open spec fn restored(self, snapshot: SnapshotView) -> RaftLogView {
        RaftLogView {
            store: self.store.installed(snapshot),
            unstable: Seq::empty(),
            committed: snapshot.index,
            applied: snapshot.index,
        }
    }

    /// The log with one more entry at its end, waiting to be persisted.
    pub open spec fn pushed(self, entry: EntryView) -> RaftLogView {
        RaftLogView { unstable: self.unstable.push(entry), ..self }
    }

    /// The log with the commit position moved up to `to`.
    pub open spec fn committed_to(self, to: u64) -> RaftLogView {
        RaftLogView { committed: self.committed_after(to), ..self }
    }

    /// The log with the apply position moved up to `to`, but not beyond the
    /// commit position, and never back.
    pub open spec fn applied_through(self, to: u64) -> RaftLogView {
        RaftLogView {
            applied: if to <= self.applied {
                self.applied
            } else if to <= self.committed {
                to
            } else {
                self.committed
            },
            ..self
        }
    }

    /// The log after its unstable entries and the record `hard_state` were
    /// written to the store.
    pub open spec fn persisted(self, hard_state: HardState) -> RaftLogView {
        RaftLogView {
            store: MemStorageView {
                entries: self.entries(),
                hard_state,
                snapshot: self.store.snapshot,
            },
            unstable: Seq::empty(),
            ..self
        }
    }

    /// The log after the leader's batch was offered to it: unchanged when the
    /// batch is refused; else the unstable entries are cut where the batch
    /// first goes unmatched, the rest of the batch follows, and the commit
    /// position moves up.
    pub open spec fn taken(
        self,
        prev_index: u64,
        prev_term: u64,
        leader_commit: u64,
        batch: Seq<EntryView>,
    ) -> RaftLogView {
        if !self.accepts(prev_index, prev_term, batch) {
            self
        } else {
            let unmatched = first_unmatched(self, batch, prev_index as int, 0);
            let committed = self.committed_with(leader_commit, (prev_index + batch.len()) as u64);
            if unmatched == batch.len() {
                RaftLogView { committed, ..self }
            } else {
                let cut = prev_index + 1 + unmatched;
                let start = self.base_index() + 1 + self.stable_len();
                let rest = batch.subrange(unmatched, batch.len() as int);
                RaftLogView {
                    unstable: if cut >= start {
                        self.unstable.subrange(0, cut - start) + rest
                    } else {
                        rest
                    },
                    committed,
                    ..self
                }
            }
        }
    }

    /// Whether a batch that follows the entry at `prev_index` of term
    /// `prev_term` can be taken into the log: the log holds that entry, the
    /// batch carries the indices that follow it, and no committed entry would
    /// be replaced.
    pub open spec fn accepts(self, prev_index: u64, prev_term: u64, batch: Seq<EntryView>) -> bool {
        let unmatched = first_unmatched(self, batch, prev_index as int, 0);
        &&& self.term_at(prev_index as int) == Some(prev_term)
        &&& consecutive_from(batch, prev_index + 1)
        &&& prev_index + batch.len() + 1 < u64::MAX
        &&& (unmatched < batch.len() ==> prev_index + 1 + unmatched > self.committed)
    }

    /// The entries of the log after an accepted batch was taken in: where an
    /// entry of the batch meets no entry of the same term, the log is cut and
    /// the rest of the batch follows; a batch that is matched entirely changes
    /// nothing.
    pub open spec fn merged(self, prev_index: u64, batch: Seq<EntryView>) -> Seq<EntryView> {
        let unmatched = first_unmatched(self, batch, prev_index as int, 0);
        if unmatched == batch.len() {
            self.entries()
        } else {
            self.entries().subrange(0, prev_index + unmatched - self.base_index())
                + batch.subrange(unmatched, batch.len() as int)
        }
    }
}

/// The search for the first unmatched entry stays inside the batch.
pub proof fn lemma_first_unmatched_bounds(
    log: RaftLogView,
    batch: Seq<EntryView>,
    prev_index: int,
    from: int,
)
    requires
        0 <= from <= batch.len(),
    ensures
        from <= first_unmatched(log, batch, prev_index, from) <= batch.len(),
    decreases batch.len() - from,
{
    if from < batch.len() && log.term_at(prev_index + 1 + from) == Some(batch[from].term) {
        lemma_first_unmatched_bounds(log, batch, prev_index, from + 1);
    }
}

/// The entries of a well-formed log carry consecutive indices that follow
/// the snapshot.
pub proof fn lemma_log_consecutive(log: RaftLogView)
    requires
        log.wf(),
    ensures
        consecutive_from(log.entries(), log.base_index() + 1),
        log.last_index() == log.base_index() + log.stable_len() + log.unstable.len(),
{
    let entries = log.entries();
    assert forall|i: int| 0 <= i < entries.len() implies (#[trigger] entries[i]).index
        == log.base_index() + 1 + i by {
        if i < log.stable_len() {
            assert(entries[i] == log.store.entries[i]);
        } else {
            assert(entries[i] == log.unstable[i - log.stable_len()]);
        }
    }
}

impl View for RaftLog {
    type V = RaftLogView;

    closed spec fn view(&self) -> RaftLogView {
        RaftLogView {
            store: self.store@,
            unstable: entry_views(self.unstable@),
            committed: self.committed,
            applied: self.applied,
        }
    }
}

impl RaftLog {
    /// Whether the log satisfies its invariant.
    pub open spec fn wf(&self) -> bool {
        self@.wf()
    }

    /// The log over a store, with nothing unstable. Nothing counts as applied
    /// beyond the snapshot, and the commit position is the one the store
    /// recorded, held inside the log.
    pub fn new(store: MemStorage) -> (log: Option<Self>)
        requires
            store.wf(),
        ensures
            log is Some <==> store@.last_index() + 1 < u64::MAX,
            log matches Some(l) ==> {
                &&& l.wf()
                &&& l@.store == store@
                &&& l@.unstable == Seq::<EntryView>::empty()
                &&& l@.applied == store@.snapshot.index
                &&& l@.committed == if store@.hard_state.commit < store@.snapshot.index {
                    store@.snapshot.index
                } else if store@.hard_state.commit > store@.last_index() {
                    store@.last_index() as u64
                } else {
                    store@.hard_state.commit
                }
            },
    {
        let last: u64 = store.last_index();
        if last >= u64::MAX - 1 {
            return None;
        }
        let base: u64 = store.first_index() - 1;
        let recorded: u64 = store.initial_state().hard_state.commit;
        let committed: u64 = if recorded < base {
            base
        } else if recorded > last {
            last
        } else {
            recorded
        };
        let log = RaftLog { store, unstable: Vec::new(), committed, applied: base };
        proof {
            assert(log@.unstable =~= Seq::<EntryView>::empty());
            assert(log@.entries() =~= log@.store.entries);
        }
        Some(log)
    }

    /// The log store beneath the log.
    pub fn store(&self) -> (store: &MemStorage)
        ensures
            store@ == self@.store,
    {
        &self.store
    }

    /// Gives up the log and keeps the log store: what was persisted, and
    /// nothing of what was not.
    pub fn into_store(self) -> (store: MemStorage)
        ensures
            store@ == self@.store,
    {
        self.store
    }

    /// The commit position.
    pub fn committed(&self) -> (index: u64)
        ensures
            index == self@.committed,
    {
        self.committed
    }

    /// The apply position.
    pub fn applied(&self) -> (index: u64)
        ensures
            index == self@.applied,
    {
        self.applied
    }

    /// The index at which the unstable entries begin: that of the first of
    /// them, or one past the store's last index.
    fn unstable_start(&self) -> (start: u64)
        requires
            self.wf(),
        ensures
            start == self@.base_index() + 1 + self@.stable_len(),
    {
        assert(self@.unstable.len() == self.unstable.len());
        if self.unstable.len() > 0 {
            assert(self@.unstable[0] == self.unstable[0]@);
            self.unstable[0].index
        } else {
            self.store.last_index() + 1
        }
    }

    /// The index of the last entry, or of the snapshot when there is none.
    pub fn last_index(&self) -> (index: u64)
        requires
            self.wf(),
        ensures
            index == self@.last_index(),
    {
        proof {
            lemma_log_consecutive(self@);
        }
        assert(self@.unstable.len() == self.unstable.len());
        let start: u64 = self.unstable_start();
        start - 1 + self.unstable.len() as u64
    }

    /// The entry at `index`, if the log holds one there.
    fn entry_ref(&self, index: u64) -> (entry: Option<&Entry>)
        requires
            self.wf(),
        ensures
            entry is Some <==> self@.base_index() < index <= self@.last_index(),
            entry matches Some(e) ==> e@ == self@.entries()[index - self@.base_index() - 1],
    {
        proof {
            lemma_log_consecutive(self@);
        }
        assert(self@.unstable.len() == self.unstable.len());
        let start: u64 = self.unstable_start();
        if index >= start {
            let position: u64 = index - start;
            if position < self.unstable.len() as u64 {
                assert(self@.unstable[position as int] == self.unstable[position as int]@);
                Some(&self.unstable[position as usize])
            } else {
                None
            }
        } else {
            self.store.entry(index)
        }
    }

    /// The term of the entry at `index`, or of the snapshot at its index;
    /// nothing outside the log.
    pub fn term(&self, index: u64) -> (term: Option<u64>)
        requires
            self.wf(),
        ensures
            term == self@.term_at(index as int),
    {
        let base: u64 = self.store.first_index() - 1;
        if index == base {
            match self.store.term(index) {
                Ok(t) => Some(t),
                Err(_) => None,
            }
        } else {
            match self.entry_ref(index) {
                Some(e) => Some(e.term),
                None => None,
            }
        }
    }

    /// The term of the last entry.
    pub fn last_term(&self) -> (term: u64)
        requires
            self.wf(),
        ensures
            term == self@.last_term(),
    {
        match self.term(self.last_index()) {
            Some(t) => t,
            None => 0,
        }
    }

    /// Whether a log that ends at `index` in `term` is at least as up to date
    /// as this one.
    pub fn is_up_to_date(&self, index: u64, term: u64) -> (fresh: bool)
        requires
            self.wf(),
        ensures
            fresh == self@.is_up_to_date(index, term),
    {
        let mine: u64 = self.last_term();
        term > mine || (term == mine && index >= self.last_index())
    }

    /// The entries with an index in `[low, high)`, oldest first.
    pub fn range(&self, low: u64, high: u64) -> (found: Vec<Entry>)
        requires
            self.wf(),
            self@.base_index() < low <= high <= self@.last_index() + 1,
        ensures
            entry_views(found@) == self@.range(low as int, high as int),
    {
        let mut found: Vec<Entry> = Vec::new();
        let mut index: u64 = low;
        let ghost base = self@.base_index();
        assert(entry_views(found@) =~= self@.range(low as int, low as int));
        while index < high
            invariant
                self.wf(),
                base == self@.base_index(),
                base < low <= index <= high <= self@.last_index() + 1,
                entry_views(found@) == self@.range(low as int, index as int),
            decreases high - index,
        {
            let ghost before = entry_views(found@);
            match self.entry_ref(index) {
                Some(e) => {
                    found.push(e.clone());
                    assert(entry_views(found@) =~= before.push(e@));
                    assert(before.push(e@) =~= self@.range(low as int, index + 1));
                },
                None => {},
            }
            index = index + 1;
        }
        found
    }

    /// The entries from `from` to the end of the log.
    pub fn entries_from(&self, from: u64) -> (found: Vec<Entry>)
        requires
            self.wf(),
            self@.base_index() < from <= self@.last_index() + 1,
        ensures
            entry_views(found@) == self@.range(from as int, self@.last_index() + 1),
    {
        self.range(from, self.last_index() + 1)
    }

    /// The committed entries that were not applied yet, oldest first.
    pub fn next_committed_entries(&self) -> (found: Vec<Entry>)
        requires
            self.wf(),
        ensures
            entry_views(found@) == self@.range(self@.applied + 1, self@.committed + 1),
    {
        self.range(self.applied + 1, self.committed + 1)
    }

    /// The entries that wait to be persisted, oldest first.
    pub fn unstable_entries(&self) -> (found: Vec<Entry>)
        ensures
            entry_views(found@) == self@.unstable,
    {
        let mut found: Vec<Entry> = Vec::new();
        let mut position: usize = 0;
        assert(entry_views(found@) =~= self@.unstable.subrange(0, 0));
        while position < self.unstable.len()
            invariant
                position <= self.unstable.len(),
                entry_views(found@) == self@.unstable.subrange(0, position as int),
            decreases self.unstable.len() - position,
        {
            let ghost before = entry_views(found@);
            found.push(self.unstable[position].clone());
            assert(entry_views(found@) =~= before.push(self.unstable[position as int]@));
            assert(before.push(self.unstable[position as int]@) =~= self@.unstable.subrange(
                0,
                position + 1,
            ));
            position = position + 1;
        }
        assert(self@.unstable.subrange(0, position as int) =~= self@.unstable);
        found
    }

    /// Whether entries wait to be persisted.
    pub fn has_unstable(&self) -> (waiting: bool)
        ensures
            waiting == (self@.unstable.len() > 0),
    {
        assert(self@.unstable.len() == self.unstable.len());
        self.unstable.len() > 0
    }

    /// Adds a new entry of `term` at the end of the log and returns its
    /// index. The entry waits to be persisted.
    pub fn append_new(&mut self, term: u64, entry_type: EntryType, data: Vec<u8>) -> (index: u64)
        requires
            old(self).wf(),
            old(self)@.last_index() + 2 < u64::MAX,
        ensures
            final(self).wf(),
            index == old(self)@.last_index() + 1,
            final(self)@ == old(self)@.pushed(EntryView { entry_type, term, index, data: data@ }),
            final(self)@.entries() == old(self)@.entries().push(
                EntryView { entry_type, term, index, data: data@ },
            ),
            final(self)@.last_index() == index,
    {
        proof {
            lemma_log_consecutive(self@);
        }
        let index: u64 = self.last_index() + 1;
        let ghost before = self@;
        let ghost added = EntryView { entry_type, term, index, data: data@ };
        self.unstable.push(Entry { entry_type, term, index, data });
        proof {
            assert(self@.unstable =~= before.unstable.push(added));
            assert(self@.stable_len() == before.stable_len());
            assert(self@.entries() =~= before.entries().push(added));
        }
        index
    }

    /// The position in `batch` of the first entry that the log does not hold
    /// with the same term.
    fn find_unmatched(&self, prev_index: u64, batch: &Vec<Entry>) -> (unmatched: usize)
        requires
            self.wf(),
            prev_index + batch.len() + 1 < u64::MAX,
        ensures
            unmatched == first_unmatched(self@, entry_views(batch@), prev_index as int, 0),
            unmatched <= batch.len(),
    {
        let ghost incoming = entry_views(batch@);
        let mut position: usize = 0;
        loop
            invariant
                self.wf(),
                position <= batch.len(),
                prev_index + batch.len() + 1 < u64::MAX,
                incoming == entry_views(batch@),
                first_unmatched(self@, incoming, prev_index as int, position as int)
                    == first_unmatched(self@, incoming, prev_index as int, 0),
            ensures
                position <= batch.len(),
                position == first_unmatched(self@, incoming, prev_index as int, 0),
            decreases batch.len() - position,
        {
            if position >= batch.len() {
                break ;
            }
            let held = self.term(prev_index + 1 + position as u64);
            assert(incoming[position as int] == batch[position as int]@);
            let same: bool = match held {
                Some(t) => t == batch[position].term,
                None => false,
            };
            if !same {
                break ;
            }
            position = position + 1;
        }
        position
    }

    /// Takes a batch from the leader into the log, if it can be accepted, and
    /// moves the commit position up to the leader's, as far as the batch
    /// reaches. Returns the index of the last entry of the batch, or nothing
    /// when the batch was refused and the log is unchanged.
    pub fn maybe_append(
        &mut self,
        prev_index: u64,
        prev_term: u64,
        leader_commit: u64,
        batch: &Vec<Entry>,
    ) -> (last_new: Option<u64>)
        requires
            old(self).wf(),
        ensures
            final(self).wf(),
            final(self)@ == old(self)@.taken(
                prev_index,
                prev_term,
                leader_commit,
                entry_views(batch@),
            ),
            last_new == if old(self)@.accepts(prev_index, prev_term, entry_views(batch@)) {
                Some((prev_index + batch.len()) as u64)
            } else {
                None
            },
            old(self)@.accepts(prev_index, prev_term, entry_views(batch@))
                ==> final(self)@.entries() == old(self)@.merged(prev_index, entry_views(batch@)),
    {
        let ghost incoming = entry_views(batch@);
        let ghost before = self@;
        proof {
            lemma_log_consecutive(before);
            lemma_taken(before, prev_index, prev_term, leader_commit, incoming);
            lemma_first_unmatched_bounds(before, incoming, prev_index as int, 0);
        }
        if self.term(prev_index) != Some(prev_term) {
            return None;
        }
        proof {
            lemma_unmatched_within_log(before, incoming, prev_index as int, 0);
        }
        let count: usize = batch.len();
        let last: u64 = self.last_index();
        assert(prev_index <= last);
        if count as u64 >= u64::MAX - 1 - prev_index {
            return None;
        }
        let mut checked: usize = 0;
        while checked < count
            invariant
                *self == *old(self),
                self.wf(),
                count == batch.len(),
                checked <= count,
                prev_index + count + 1 < u64::MAX,
                incoming == entry_views(batch@),
                forall|i: int|
                    0 <= i < checked ==> (#[trigger] incoming[i]).index == prev_index + 1 + i,
            decreases count - checked,
        {
            if batch[checked].index != prev_index + 1 + checked as u64 {
                assert(incoming[checked as int] == batch[checked as int]@);
                return None;
            }
            assert(incoming[checked as int] == batch[checked as int]@);
            checked = checked + 1;
        }
        assert(consecutive_from(incoming, prev_index + 1));
        let unmatched: usize = self.find_unmatched(prev_index, batch);
        let last_new: u64 = prev_index + count as u64;
        if unmatched < count {
            let cut: u64 = prev_index + 1 + unmatched as u64;
            if cut <= self.committed {
                return None;
            }
            let start: u64 = self.unstable_start();
            assert(self@.unstable.len() == self.unstable.len());
            if cut >= start {
                self.unstable.truncate((cut - start) as usize);
                proof {
                    assert(self@.unstable =~= before.unstable.subrange(0, cut - start));
                }
            } else {
                self.unstable.clear();
                proof {
                    assert(self@.unstable =~= Seq::<EntryView>::empty());
                }
            }
            let ghost kept = self@.unstable;
            let mut position: usize = unmatched;
            while position < count
                invariant
                    unmatched <= position <= count,
                    count == batch.len(),
                    incoming == entry_views(batch@),
                    self.store == old(self).store,
                    self.committed == old(self).committed,
                    self.applied == old(self).applied,
                    self@.unstable == kept + incoming.subrange(unmatched as int, position as int),
                decreases count - position,
            {
                let ghost so_far = self@.unstable;
                self.unstable.push(batch[position].clone());
                proof {
                    assert(self@.unstable =~= so_far.push(incoming[position as int]));
                    assert(so_far.push(incoming[position as int]) =~= kept + incoming.subrange(
                        unmatched as int,
                        position + 1,
                    ));
                }
                position = position + 1;
            }
            proof {
                assert(incoming.subrange(unmatched as int, count as int).len() > 0);
                assert(self@ == (RaftLogView {
                    committed: before.committed,
                    ..before.taken(prev_index, prev_term, leader_commit, incoming)
                }));
            }
        }
        let target: u64 = if leader_commit < last_new {
            leader_commit
        } else {
            last_new
        };
        self.commit_to(target);
        Some(last_new)
    }

    /// Moves the commit position up to `to`, but not beyond the end of the
    /// log, and never back.
    pub fn commit_to(&mut self, to: u64)
        requires
            old(self).wf(),
        ensures
            final(self).wf(),
            final(self)@ == old(self)@.committed_to(to),
    {
        if to > self.committed {
            let last: u64 = self.last_index();
            self.committed = if to <= last {
                to
            } else {
                last
            };
        }
    }

    /// Moves the apply position up to `to`, but not beyond the commit
    /// position, and never back.
    pub fn applied_to(&mut self, to: u64)
        requires
            old(self).wf(),
        ensures
            final(self).wf(),
            final(self)@ == old(self)@.applied_through(to),
    {
        if to > self.applied {
            self.applied = if to <= self.committed {
                to
            } else {
                self.committed
            };
        }
    }

    /// Compacts the log up to `index` into a snapshot that carries `data`.
    ///
    /// Only entries that were applied and persisted can be compacted: else
    /// the log is `Unavailable`. Fails with `SnapshotOutOfDate` when the
    /// snapshot reaches `index` already.
    pub fn compact(&mut self, index: u64, data: Vec<u8>) -> (done: Result<(), StorageError>)
        requires
            old(self).wf(),
        ensures
            final(self).wf(),
            done == old(self)@.compact_check(index),
            done is Ok ==> final(self)@ == old(self)@.compacted(index, data@),
            done is Err ==> final(self)@ == old(self)@,
    {
        proof {
            lemma_log_consecutive(self@);
        }
        let base: u64 = self.store.first_index() - 1;
        if index <= base {
            return Err(StorageError::SnapshotOutOfDate);
        }
        let start: u64 = self.unstable_start();
        if index > self.applied || index >= start {
            return Err(StorageError::Unavailable);
        }
        proof {
            lemma_compacted(self@, index, data@);
        }
        let done = self.store.compact(index, data);
        assert(done is Ok);
        Ok(())
    }

    /// Names the replicas of the shard in the log store's snapshot.
    pub fn set_conf_state(&mut self, voters: Vec<u64>)
        requires
            old(self).wf(),
        ensures
            final(self).wf(),
            final(self)@ == old(self)@.with_conf(voters@),
    {
        proof {
            lemma_with_conf(self@, voters@);
        }
        self.store.set_conf_state(voters);
    }

    /// Puts a snapshot in the place of the log, if it reaches beyond the
    /// commit position and leaves room for entries. Says whether it did.
    pub fn restore(&mut self, snapshot: Snapshot) -> (done: bool)
        requires
            old(self).wf(),
        ensures
            final(self).wf(),
            done == old(self)@.accepts_snapshot(snapshot@),
            done ==> final(self)@ == old(self)@.restored(snapshot@),
            !done ==> final(self)@ == old(self)@,
    {
        let index: u64 = snapshot.metadata.index;
        if index <= self.committed || index >= u64::MAX - 2 {
            return false;
        }
        proof {
            lemma_restored(self@, snapshot@);
        }
        let done = self.store.apply_snapshot(snapshot);
        assert(done is Ok);
        self.unstable.clear();
        self.committed = index;
        self.applied = index;
        proof {
            assert(self@.unstable =~= Seq::<EntryView>::empty());
        }
        true
    }

    /// Writes the unstable entries and the given record to the log store.
    /// The log holds the same entries afterwards, all of them persisted.
    pub fn persist(&mut self, hard_state: HardState)
        requires
            old(self).wf(),
        ensures
            final(self).wf(),
            final(self)@ == old(self)@.persisted(hard_state),
            final(self)@.entries() == old(self)@.entries(),
    {
        let ghost before = self@;
        proof {
            lemma_log_consecutive(before);
        }
        self.store.set_hard_state(hard_state);
        let done = self.store.append(&self.unstable);
        proof {
            if before.unstable.len() > 0 {
                assert(before.unstable.last().index < u64::MAX);
            }
            assert(done is Ok);
        }
        self.unstable.clear();
        proof {
            assert(self@.unstable =~= Seq::<EntryView>::empty());
            if before.unstable.len() == 0 {
                assert(before.entries() =~= before.store.entries);
            }
            assert(self@.entries() =~= self@.store.entries);
        }
    }
}

/// When every entry of the batch from `from` on is matched, the batch ends
/// inside the log.
pub proof fn lemma_unmatched_within_log(
    log: RaftLogView,
    batch: Seq<EntryView>,
    prev_index: int,
    from: int,
)
    requires
        0 <= from <= batch.len(),
        log.base_index() <= prev_index,
        prev_index + from <= log.last_index(),
    ensures
        prev_index + first_unmatched(log, batch, prev_index, from) <= log.last_index(),
    decreases batch.len() - from,
{
    if from < batch.len() && log.term_at(prev_index + 1 + from) == Some(batch[from].term) {
        lemma_unmatched_within_log(log, batch, prev_index, from + 1);
    }
}

/// A log keeps what it has committed itself.
pub proof fn lemma_extends_itself(log: RaftLogView)
    ensures
        log.extends(log),
{
}

/// Keeping what was committed carries over from log to log.
pub proof fn lemma_extends_transitive(a: RaftLogView, b: RaftLogView, c: RaftLogView)
    requires
        b.extends(a),
        c.extends(b),
    ensures
        c.extends(a),
{
    assert forall|index: int| c.base_index() < index <= a.committed implies #[trigger] c.entry_at(
        index,
    ) == a.entry_at(index) by {
        assert(b.entry_at(index) == a.entry_at(index));
    }
}

/// A log with one more entry at its end is well formed, one entry longer,
/// and keeps what was committed.
pub proof fn lemma_pushed(log: RaftLogView, entry: EntryView)
    requires
        log.wf(),
        entry.index == log.last_index() + 1,
        log.last_index() + 2 < u64::MAX,
    ensures
        log.pushed(entry).wf(),
        log.pushed(entry).entries() == log.entries().push(entry),
        log.pushed(entry).last_index() == log.last_index() + 1,
        log.pushed(entry).term_at(entry.index as int) == Some(entry.term),
        log.pushed(entry).extends(log),
{
    lemma_log_consecutive(log);
    let after = log.pushed(entry);
    assert(after.stable_len() == log.stable_len());
    assert(after.entries() =~= log.entries().push(entry));
}

/// A log whose commit position moved up is well formed and keeps what was
/// committed.
pub proof fn lemma_committed_to(log: RaftLogView, to: u64)
    requires
        log.wf(),
    ensures
        log.committed_to(to).wf(),
        log.committed_to(to).extends(log),
        log.committed_to(to).entries() == log.entries(),
{
}

/// A log that was offered a batch is well formed and keeps what was
/// committed; where the batch was accepted, the log holds the merged
/// entries and ends no earlier than the batch.
pub proof fn lemma_taken(
    log: RaftLogView,
    prev_index: u64,
    prev_term: u64,
    leader_commit: u64,
    batch: Seq<EntryView>,
)
    requires
        log.wf(),
    ensures
        log.taken(prev_index, prev_term, leader_commit, batch).wf(),
        log.taken(prev_index, prev_term, leader_commit, batch).extends(log),
        log.accepts(prev_index, prev_term, batch) ==> log.taken(
            prev_index,
            prev_term,
            leader_commit,
            batch,
        ).entries() == log.merged(prev_index, batch),
{
    lemma_log_consecutive(log);
    if log.accepts(prev_index, prev_term, batch) {
        let after = log.taken(prev_index, prev_term, leader_commit, batch);
        let unmatched = first_unmatched(log, batch, prev_index as int, 0);
        lemma_first_unmatched_bounds(log, batch, prev_index as int, 0);
        lemma_unmatched_within_log(log, batch, prev_index as int, 0);
        let base = log.base_index();
        if unmatched < batch.len() {
            let cut = prev_index + 1 + unmatched;
            let start = base + 1 + log.stable_len();
            let rest = batch.subrange(unmatched, batch.len() as int);
            assert(rest.len() > 0);
            assert(rest[0] == batch[unmatched]);
            if cut >= start {
                let kept = log.unstable.subrange(0, cut - start);
                assert(after.unstable == kept + rest);
                if kept.len() > 0 {
                    assert(after.unstable[0] == log.unstable[0]);
                } else {
                    assert(after.unstable[0] == rest[0]);
                }
                assert(after.stable_len() == log.stable_len());
            } else {
                assert(after.unstable[0] == rest[0]);
                assert(after.stable_len() == cut - base - 1);
            }
            assert(after.entries() =~= log.entries().subrange(0, prev_index + unmatched - base)
                + rest);
            assert forall|i: int| 0 <= i < after.unstable.len() implies (
            #[trigger] after.unstable[i]).index == base + 1 + after.stable_len() + i by {
                if cut >= start && i < cut - start {
                    assert(after.unstable[i] == log.unstable[i]);
                } else if cut >= start {
                    assert(after.unstable[i] == batch[unmatched + i - (cut - start)]);
                } else {
                    assert(after.unstable[i] == batch[unmatched + i]);
                }
            }
        } else {
            assert(after.entries() == log.entries());
        }
    }
}

/// A compacted log is well formed, ends where it ended, and keeps every
/// entry beyond the new snapshot.
pub proof fn lemma_compacted(log: RaftLogView, index: u64, data: Seq<u8>)
    requires
        log.wf(),
        log.compact_check(index) is Ok,
    ensures
        log.compacted(index, data).wf(),
        log.compacted(index, data).base_index() == index,
        log.compacted(index, data).last_index() == log.last_index(),
        log.compacted(index, data).entries() == log.entries().subrange(
            index - log.base_index(),
            log.entries().len() as int,
        ),
        log.compacted(index, data).extends(log),
{
    lemma_log_consecutive(log);
    let after = log.compacted(index, data);
    let dropped = index - log.base_index();
    assert(after.store.entries.len() == log.store.entries.len() - dropped);
    assert forall|i: int| 0 <= i < after.store.entries.len() implies (
    #[trigger] after.store.entries[i]).index == index + 1 + i by {
        assert(after.store.entries[i] == log.store.entries[i + dropped]);
    }
    assert(after.stable_len() == log.stable_len() - dropped);
    assert(after.entries() =~= log.entries().subrange(dropped, log.entries().len() as int));
}

/// A log whose snapshot names other replicas holds the entries it held.
pub proof fn lemma_with_conf(log: RaftLogView, voters: Seq<u64>)
    requires
        log.wf(),
    ensures
        log.with_conf(voters).wf(),
        log.with_conf(voters).entries() == log.entries(),
        log.with_conf(voters).extends(log),
{
    assert(log.with_conf(voters).stable_len() == log.stable_len());
}

/// A log that a snapshot took the place of is well formed and keeps what
/// was committed: all of it lies within the snapshot.
pub proof fn lemma_restored(log: RaftLogView, snapshot: SnapshotView)
    requires
        log.wf(),
        log.accepts_snapshot(snapshot),
    ensures
        log.restored(snapshot).wf(),
        log.restored(snapshot).extends(log),
        log.restored(snapshot).last_index() == snapshot.index,
{
    let after = log.restored(snapshot);
    assert(after.entries() =~= Seq::<EntryView>::empty());
}

} // verus!
