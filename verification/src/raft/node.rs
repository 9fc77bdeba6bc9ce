//! The node driver: one replica's part in the election of a leader and the
//! replication of the log, as executable code that follows the protocol
//! model step by step.

use crate::partitioning::{lemma_next_key_wraps, JUMP_MULTIPLIER};
use crate::raft::confchange::{ConfChange, ConfChangeType};
use crate::raft::entry::{
    entry_views, Entry, EntryType, EntryView, HardState, Snapshot, SnapshotView,
};
use crate::raft::log::{lemma_restored, RaftLog, RaftLogView};
use crate::raft::message::{message_views, snapshot_view, Message, MessageType, MessageView};
use crate::raft::model::{
    count_ballots, count_matched, distinct, find_peer, lemma_apply_conf_change_follows,
    lemma_compacted_follows,
    lemma_highest_quorum_bound, lemma_maybe_commit_follows, lemma_reset_wf, NodeView, Progress,
    ReadyView, StateRole,
};
use crate::raft::storage::{MemStorage, MemStorageView, StorageError};
use vstd::prelude::*;

verus! {

/// The number of ticks of an election period.
pub const ELECTION_TICK: u64 = 10;

/// The number of ticks between two heartbeats of a leader.
pub const HEARTBEAT_TICK: u64 = 3;

/// Why a node refused a request.
#[derive(Clone, Copy, Debug, PartialEq, Eq, Structural)]
pub enum RaftError {
    /// The node is not the leader; the proposal belongs to the leader.
    NotLeader,
    /// The leader's log has no room for the proposal.
    ProposalDropped,
    /// The node's id is zero, or a replica is named twice.
    ConfigInvalid,
    /// The log store failed.
    Store(StorageError),
}

/// One replica's protocol state, with its log.
#[derive(Debug)]
pub struct RaftNode {
    id: u64,
    peers: Vec<u64>,
    election_tick: u64,
    heartbeat_tick: u64,
    role: StateRole,
    term: u64,
    vote: Option<u64>,
    leader_id: Option<u64>,
    election_elapsed: u64,
    heartbeat_elapsed: u64,
    election_timeout: u64,
    jitter: u64,
    ballots: Vec<Option<bool>>,
    progress: Vec<Progress>,
    log: RaftLog,
    msgs: Vec<Message>,
    handed_out: u64,
    pending_snapshot: Option<Snapshot>,
}

/// The effects that a node asks its driver to carry out, in this order:
/// record the hard state, add the entries to the log store, send the
/// messages, apply the committed entries.
#[derive(Debug)]
pub struct Ready {
    /// The snapshot to restore the state machine from, if the leader sent
    /// one; it comes before everything else.
    pub snapshot: Option<Snapshot>,
    /// The term, vote and commit position to record, if they changed.
    pub hard_state: Option<HardState>,
    /// The entries to add to the log store.
    pub entries: Vec<Entry>,
    /// The messages to send.
    pub messages: Vec<Message>,
    /// The committed entries to apply to the state machine, in this order.
    pub committed_entries: Vec<Entry>,
}

impl View for Ready {
    type V = ReadyView;

    open spec fn view(&self) -> ReadyView {
        ReadyView {
            snapshot: snapshot_view(self.snapshot),
            hard_state: self.hard_state,
            entries: entry_views(self.entries@),
            messages: message_views(self.messages@),
            committed_entries: entry_views(self.committed_entries@),
        }
    }
}

/// The log store of a replica that starts with nothing but the names of the
/// shard's replicas.
pub open spec fn fresh_store(peers: Seq<u64>) -> MemStorageView {
    MemStorageView {
        entries: Seq::empty(),
        hard_state: HardState::spec_empty(),
        snapshot: SnapshotView { index: 0, term: 0, conf_state: peers, data: Seq::empty() },
    }
}

/// The log over a store when a replica starts: nothing is unstable, nothing
/// counts as applied beyond the snapshot, and the commit position is the
/// recorded one, held inside the log.
pub open spec fn start_log(store: MemStorageView) -> RaftLogView {
    let base = store.snapshot.index;
    let recorded = store.hard_state.commit;
    RaftLogView {
        store,
        unstable: Seq::empty(),
        committed: if recorded < base {
            base
        } else if recorded > store.last_index() {
            store.last_index() as u64
        } else {
            recorded
        },
        applied: base,
    }
}

/// The state in which a replica starts over a log store: a follower in the
/// recorded term, with the recorded vote, that knows of no leader.
pub open spec fn start_view(id: u64, store: MemStorageView) -> NodeView {
    let base = store.snapshot.index;
    let log = start_log(store);
    NodeView {
        id,
        peers: store.snapshot.conf_state,
        election_tick: ELECTION_TICK,
        heartbeat_tick: HEARTBEAT_TICK,
        role: StateRole::Follower,
        term: store.hard_state.term,
        vote: store.hard_state.vote,
        leader_id: None,
        election_elapsed: 0,
        heartbeat_elapsed: 0,
        election_timeout: ELECTION_TICK,
        jitter: id,
        ballots: Seq::empty(),
        progress: Seq::empty(),
        log,
        msgs: Seq::empty(),
        handed_out: base,
        pending_snapshot: None,
    }.reset(store.hard_state.term)
}

impl View for RaftNode {
    type V = NodeView;

    closed spec fn view(&self) -> NodeView {
        NodeView {
            id: self.id,
            peers: self.peers@,
            election_tick: self.election_tick,
            heartbeat_tick: self.heartbeat_tick,
            role: self.role,
            term: self.term,
            vote: self.vote,
            leader_id: self.leader_id,
            election_elapsed: self.election_elapsed,
            heartbeat_elapsed: self.heartbeat_elapsed,
            election_timeout: self.election_timeout,
            jitter: self.jitter,
            ballots: self.ballots@,
            progress: self.progress@,
            log: self.log@,
            msgs: message_views(self.msgs@),
            handed_out: self.handed_out,
            pending_snapshot: snapshot_view(self.pending_snapshot),
        }
    }
}

/// Whether the replicas named are distinct.
fn all_distinct(peers: &Vec<u64>) -> (ok: bool)
    ensures
        ok == distinct(peers@),
{
    let mut i: usize = 0;
    while i < peers.len()
        invariant
            i <= peers.len(),
            forall|a: int, b: int| 0 <= a < b < peers.len() && a < i ==> peers[a] != peers[b],
        decreases peers.len() - i,
    {
        let mut j: usize = i + 1;
        while j < peers.len()
            invariant
                i < j <= peers.len(),
                forall|b: int| i < b < j ==> peers[i as int] != peers[b],
            decreases peers.len() - j,
        {
            if peers[i] == peers[j] {
                return false;
            }
            j = j + 1;
        }
        i = i + 1;
    }
    true
}

impl RaftNode {
    /// Whether the node satisfies its invariant.
    pub open spec fn wf(&self) -> bool {
        self@.wf()
    }

    /// The position of a replica among the peers; their number when it is
    /// not among them.
    fn position_of(&self, id: u64) -> (position: usize)
        ensures
            position == find_peer(self@.peers, id, 0),
            position <= self.peers.len(),
            position < self.peers.len() ==> self.peers[position as int] == id,
    {
        let mut position: usize = 0;
        while position < self.peers.len() && self.peers[position] != id
            invariant
                position <= self.peers.len(),
                find_peer(self.peers@, id, position as int) == find_peer(self.peers@, id, 0),
            decreases self.peers.len() - position,
        {
            position = position + 1;
        }
        position
    }

    /// The number of peers that makes a majority.
    fn quorum(&self) -> (quorum: usize)
        ensures
            quorum == self@.quorum(),
    {
        self.peers.len() / 2 + 1
    }

    /// How many peers answered a vote request with `granted`.
    fn tally(&self, granted: bool) -> (count: usize)
        ensures
            count == count_ballots(self@.ballots, granted, self.ballots.len() as int),
    {
        let mut count: usize = 0;
        let mut i: usize = 0;
        while i < self.ballots.len()
            invariant
                i <= self.ballots.len(),
                count <= i,
                count == count_ballots(self.ballots@, granted, i as int),
            decreases self.ballots.len() - i,
        {
            let same: bool = match self.ballots[i] {
                Some(b) => b == granted,
                None => false,
            };
            if same {
                count = count + 1;
            }
            i = i + 1;
        }
        count
    }

    /// How many peers are known to hold the entry at `index`.
    fn holders(&self, index: u64) -> (count: usize)
        ensures
            count == count_matched(self@.progress, index as int, self.progress.len() as int),
    {
        let mut count: usize = 0;
        let mut i: usize = 0;
        while i < self.progress.len()
            invariant
                i <= self.progress.len(),
                count <= i,
                count == count_matched(self.progress@, index as int, i as int),
            decreases self.progress.len() - i,
        {
            if self.progress[i].matched >= index {
                count = count + 1;
            }
            i = i + 1;
        }
        count
    }

    /// Sets back the timers, ballots and progress for `term`.
    fn reset(&mut self, term: u64)
        requires
            old(self).log.wf(),
            0 < old(self).election_tick <= 0x4000_0000,
        ensures
            final(self)@ == old(self)@.reset(term),
    {
        if self.term != term {
            self.term = term;
            self.vote = None;
        }
        self.leader_id = None;
        self.election_elapsed = 0;
        self.heartbeat_elapsed = 0;
        proof {
            lemma_next_key_wraps(self.jitter);
        }
        let jitter: u64 = self.jitter.wrapping_mul(JUMP_MULTIPLIER).wrapping_add(1);
        self.jitter = jitter;
        let spread: u64 = jitter >> 33;
        assert(spread == jitter / 0x2_0000_0000 && spread < 0x8000_0000) by (bit_vector)
            requires
                spread == jitter >> 33,
        ;
        self.election_timeout = self.election_tick + spread % self.election_tick;
        let last: u64 = self.log.last_index();
        let count: usize = self.peers.len();
        let mut ballots: Vec<Option<bool>> = Vec::new();
        let mut progress: Vec<Progress> = Vec::new();
        let mut i: usize = 0;
        while i < count
            invariant
                i <= count,
                count == self.peers.len(),
                last + 1 < u64::MAX,
                ballots.len() == i,
                progress.len() == i,
                forall|k: int| 0 <= k < i ==> (#[trigger] ballots[k]) is None,
                forall|k: int|
                    0 <= k < i ==> #[trigger] progress[k] == (Progress {
                        matched: if self.peers[k] == self.id {
                            last
                        } else {
                            0
                        },
                        next_idx: (last + 1) as u64,
                    }),
            decreases count - i,
        {
            ballots.push(None);
            let matched: u64 = if self.peers[i] == self.id {
                last
            } else {
                0
            };
            progress.push(Progress { matched, next_idx: last + 1 });
            i = i + 1;
        }
        self.ballots = ballots;
        self.progress = progress;
        proof {
            assert(self@.ballots =~= old(self)@.reset(term).ballots);
            assert(self@.progress =~= old(self)@.reset(term).progress);
        }
    }

    /// Makes the node a follower of `leader` in `term`.
    fn become_follower(&mut self, term: u64, leader: Option<u64>)
        requires
            old(self).log.wf(),
            0 < old(self).election_tick <= 0x4000_0000,
        ensures
            final(self)@ == old(self)@.become_follower(term, leader),
    {
        self.reset(term);
        self.role = StateRole::Follower;
        self.leader_id = leader;
    }

    /// Makes the node a candidate of the next term, with its own vote.
    fn become_candidate(&mut self)
        requires
            old(self).log.wf(),
            0 < old(self).election_tick <= 0x4000_0000,
            old(self).term < u64::MAX,
        ensures
            final(self)@ == old(self)@.become_candidate(),
    {
        let term: u64 = self.term + 1;
        self.reset(term);
        self.role = StateRole::Candidate;
        self.vote = Some(self.id);
        let count: usize = self.peers.len();
        let mut i: usize = 0;
        while i < count
            invariant
                i <= count,
                count == self.peers.len(),
                count == self.ballots.len(),
                self.peers@ == old(self).peers@,
                self.id == old(self).id,
                self.role == StateRole::Candidate,
                self.vote == Some(self.id),
                self@ == (NodeView {
                    role: StateRole::Candidate,
                    vote: Some(self.id),
                    ballots: self.ballots@,
                    ..old(self)@.reset(term)
                }),
                forall|k: int|
                    0 <= k < i ==> #[trigger] self.ballots[k] == if self.peers[k] == self.id {
                        Some(true)
                    } else {
                        None
                    },
                forall|k: int| i <= k < count ==> (#[trigger] self.ballots[k]) is None,
            decreases count - i,
        {
            if self.peers[i] == self.id {
                self.ballots[i] = Some(true);
            }
            i = i + 1;
        }
        proof {
            assert(self@.ballots =~= old(self)@.become_candidate().ballots);
        }
    }

    /// Looks, as leader, for a new commit position.
    fn maybe_commit(&mut self)
        requires
            old(self).wf(),
        ensures
            final(self).wf(),
            final(self)@ == old(self)@.maybe_commit(),
    {
        proof {
            lemma_maybe_commit_follows(self@);
        }
        let last: u64 = self.log.last_index();
        let committed: u64 = self.log.committed();
        let quorum: usize = self.quorum();
        let mut index: u64 = last;
        let mut found: bool = false;
        while index > committed && !found
            invariant
                *self == *old(self),
                self.wf(),
                committed == self@.log.committed,
                quorum == self@.quorum(),
                committed <= index <= last,
                last == self@.log.last_index(),
                self@.highest_quorum(index as int) == self@.highest_quorum(last as int),
                found ==> index > committed && count_matched(
                    self@.progress,
                    index as int,
                    self@.peers.len() as int,
                ) >= quorum,
            decreases index - committed + if found { 0int } else { 1int },
        {
            if self.holders(index) >= quorum {
                found = true;
            } else {
                index = index - 1;
            }
        }
        proof {
            lemma_highest_quorum_bound(self@, index as int);
        }
        if found {
            let held = self.log.term(index);
            if held == Some(self.term) {
                self.log.commit_to(index);
            }
        }
    }

    /// Adds, as leader, an entry of the node's own term to the log and looks
    /// for a new commit position.
    fn append_own(&mut self, entry_type: EntryType, data: Vec<u8>)
        requires
            old(self).wf(),
            old(self)@.has_room(),
        ensures
            final(self).wf(),
            final(self)@ == old(self)@.append_own(entry_type, data@),
    {
        let ghost payload = data@;
        let index: u64 = self.log.append_new(self.term, entry_type, data);
        let count: usize = self.peers.len();
        let ghost middle = self@;
        let mut i: usize = 0;
        while i < count
            invariant
                i <= count,
                count == self.peers.len(),
                count == self.progress.len(),
                index + 1 < u64::MAX,
                middle.progress == old(self)@.progress,
                middle.progress.len() == count,
                self@ == (NodeView { progress: self.progress@, ..middle }),
                forall|k: int|
                    0 <= k < i ==> #[trigger] self.progress[k] == if self.peers[k] == self.id {
                        Progress { matched: index, next_idx: (index + 1) as u64 }
                    } else {
                        middle.progress[k]
                    },
                forall|k: int| i <= k < count ==> #[trigger] self.progress[k] == middle.progress[k],
            decreases count - i,
        {
            if self.peers[i] == self.id {
                self.progress[i] = Progress { matched: index, next_idx: index + 1 };
            }
            i = i + 1;
        }
        proof {
            let target = NodeView {
                log: old(self)@.log.pushed(
                    EntryView { entry_type, term: old(self)@.term, index, data: payload },
                ),
                progress: Seq::new(
                    old(self)@.peers.len(),
                    |i: int|
                        if old(self)@.peers[i] == old(self)@.id {
                            Progress { matched: index, next_idx: (index + 1) as u64 }
                        } else {
                            old(self)@.progress[i]
                        },
                ),
                ..old(self)@
            };
            assert(self@.progress =~= target.progress);
            assert(self@ == target);
            assert(target.wf());
        }
        self.maybe_commit();
    }

    /// Makes the node the leader of its term.
    fn become_leader(&mut self)
        requires
            old(self).wf(),
        ensures
            final(self).wf(),
            final(self)@ == old(self)@.become_leader(),
    {
        proof {
            lemma_reset_wf(self@, self.term);
        }
        let term: u64 = self.term;
        self.reset(term);
        self.role = StateRole::Leader;
        self.leader_id = Some(self.id);
        if self.log.last_index() < u64::MAX - 2 {
            self.append_own(EntryType::EntryNormal, Vec::new());
        }
    }

    /// The offer of entries that the leader has for the peer at `position`.
    fn append_for(&self, position: usize) -> (message: Option<Message>)
        requires
            self.wf(),
            position < self.peers.len(),
        ensures
            message is Some <==> self@.append_for(position as int) is Some,
            message matches Some(m) ==> Some(m@) == self@.append_for(position as int),
    {
        let next: u64 = self.progress[position].next_idx;
        let last: u64 = self.log.last_index();
        let base: u64 = self.log.store().first_index() - 1;
        if base < next && next <= last + 1 {
            let log_term: u64 = match self.log.term(next - 1) {
                Some(t) => t,
                None => 0,
            };
            let entries: Vec<Entry> = self.log.entries_from(next);
            Some(
                Message {
                    msg_type: MessageType::AppendEntries,
                    to: self.peers[position],
                    from: self.id,
                    term: self.term,
                    log_term,
                    index: next - 1,
                    entries,
                    commit: self.log.committed(),
                    reject: false,
                    reject_hint: 0,
                    snapshot: None,
                },
            )
        } else if next <= base {
            match self.log.store().snapshot(0, self.peers[position]) {
                Ok(snapshot) => {
                    let mut message = Message::bare(
                        MessageType::Snapshot,
                        self.id,
                        self.peers[position],
                        self.term,
                    );
                    message.snapshot = Some(snapshot);
                    Some(message)
                },
                Err(_) => None,
            }
        } else {
            None
        }
    }

    /// The message of `kind` that a broadcast has for the peer at `position`.
    fn outbound(&self, kind: MessageType, position: usize) -> (message: Option<Message>)
        requires
            self.wf(),
            position < self.peers.len(),
        ensures
            message is Some <==> self@.outbound(kind, position as int) is Some,
            message matches Some(m) ==> Some(m@) == self@.outbound(kind, position as int),
    {
        let to: u64 = self.peers[position];
        if to == self.id {
            return None;
        }
        match kind {
            MessageType::AppendEntries => self.append_for(position),
            MessageType::Heartbeat => {
                let matched: u64 = self.progress[position].matched;
                let committed: u64 = self.log.committed();
                let mut message = Message::bare(MessageType::Heartbeat, self.id, to, self.term);
                message.commit = if matched < committed {
                    matched
                } else {
                    committed
                };
                Some(message)
            },
            MessageType::RequestVote => {
                let mut message = Message::bare(MessageType::RequestVote, self.id, to, self.term);
                message.log_term = self.log.last_term();
                message.index = self.log.last_index();
                Some(message)
            },
            _ => None,
        }
    }

    /// Adds a message, if there is one, to what the node has to send.
    fn send(&mut self, message: Option<Message>)
        requires
            old(self).wf(),
        ensures
            final(self).wf(),
            final(self)@ == old(self)@.send(
                match message {
                    Some(m) => Some(m@),
                    None => None,
                },
            ),
    {
        match message {
            Some(m) => {
                let ghost before = message_views(self.msgs@);
                let ghost added = m@;
                self.msgs.push(m);
                assert(message_views(self.msgs@) =~= before.push(added));
            },
            None => {},
        }
    }

    /// Adds a message of `kind` for every other peer to what the node has to
    /// send.
    fn broadcast(&mut self, kind: MessageType)
        requires
            old(self).wf(),
        ensures
            final(self).wf(),
            final(self)@ == old(self)@.broadcast(kind),
    {
        let count: usize = self.peers.len();
        let ghost before = self@;
        let mut i: usize = 0;
        assert(before.msgs + before.collect(kind, 0) =~= before.msgs);
        while i < count
            invariant
                i <= count,
                count == before.peers.len(),
                before.wf(),
                self@ == (NodeView { msgs: before.msgs + before.collect(kind, i as int), ..before }),
            decreases count - i,
        {
            let ghost so_far = self@;
            proof {
                assert(so_far.outbound(kind, i as int) == before.outbound(kind, i as int));
            }
            let message = self.outbound(kind, i);
            self.send(message);
            proof {
                match before.outbound(kind, i as int) {
                    Some(m) => {
                        assert(before.msgs + before.collect(kind, i + 1) =~= (before.msgs
                            + before.collect(kind, i as int)).push(m));
                    },
                    None => {},
                }
            }
            i = i + 1;
        }
    }

    /// Stands for election.
    fn campaign(&mut self)
        requires
            old(self).wf(),
        ensures
            final(self).wf(),
            final(self)@ == old(self)@.campaign(),
    {
        if self.term == u64::MAX {
            return ;
        }
        proof {
            lemma_reset_wf(self@, (self.term + 1) as u64);
        }
        self.become_candidate();
        if self.tally(true) >= self.quorum() {
            self.become_leader();
            self.broadcast(MessageType::AppendEntries);
        } else {
            self.broadcast(MessageType::RequestVote);
        }
    }

    /// Advances the node's clock by one tick.
    ///
    /// A leader sends a heartbeat to every peer each time `HEARTBEAT_TICK`
    /// ticks have passed. Any other node that has heard of no leader for its
    /// election timeout stands for election, if it is one of the peers: it
    /// becomes a candidate of the next term and asks for votes, or becomes
    /// leader at once where it is the only peer.
    pub fn tick(&mut self)
        requires
            old(self).wf(),
        ensures
            final(self).wf(),
            final(self)@ == old(self)@.tick(),
    {
        if self.role == StateRole::Leader {
            if self.heartbeat_elapsed + 1 >= self.heartbeat_tick {
                self.heartbeat_elapsed = 0;
                self.broadcast(MessageType::Heartbeat);
            } else {
                self.heartbeat_elapsed = self.heartbeat_elapsed + 1;
            }
        } else if self.election_elapsed + 1 >= self.election_timeout {
            self.election_elapsed = 0;
            if self.position_of(self.id) < self.peers.len() {
                self.campaign();
            }
        } else {
            self.election_elapsed = self.election_elapsed + 1;
        }
    }

    /// The answer of `kind` to the replica `to`.
    fn reply(&self, kind: MessageType, to: u64) -> (message: Message)
        ensures
            message@ == self@.reply(kind, to),
    {
        Message::bare(kind, self.id, to, self.term)
    }

    /// Answers a vote request of the node's own term.
    fn handle_vote_request(&mut self, m: &Message)
        requires
            old(self).wf(),
        ensures
            final(self).wf(),
            final(self)@ == old(self)@.handle_vote_request(m@),
    {
        let free: bool = self.vote == Some(m.from) || (self.vote.is_none()
            && self.leader_id.is_none());
        let grant: bool = free && self.log.is_up_to_date(m.index, m.log_term);
        let mut answer = self.reply(MessageType::RequestVoteResponse, m.from);
        answer.reject = !grant;
        if grant {
            self.vote = Some(m.from);
            self.election_elapsed = 0;
        }
        self.send(Some(answer));
    }

    /// Counts the answer to a vote request.
    fn handle_vote_response(&mut self, m: &Message)
        requires
            old(self).wf(),
        ensures
            final(self).wf(),
            final(self)@ == old(self)@.handle_vote_response(m@),
    {
        let position: usize = self.position_of(m.from);
        if self.role != StateRole::Candidate || position >= self.peers.len() {
            return ;
        }
        if self.ballots[position].is_some() {
            return ;
        }
        self.ballots[position] = Some(!m.reject);
        let quorum: usize = self.quorum();
        if self.tally(true) >= quorum {
            self.become_leader();
            self.broadcast(MessageType::AppendEntries);
        } else if self.tally(false) >= quorum {
            proof {
                lemma_reset_wf(self@, self.term);
            }
            let term: u64 = self.term;
            self.become_follower(term, None);
        }
    }

    /// Takes note of word from the leader `from` of the node's own term.
    fn heard_from_leader(&mut self, from: u64)
        requires
            old(self).wf(),
        ensures
            final(self).wf(),
            final(self)@ == old(self)@.heard_from_leader(from),
    {
        if self.role == StateRole::Candidate {
            proof {
                lemma_reset_wf(self@, self.term);
            }
            let term: u64 = self.term;
            self.become_follower(term, Some(from));
        }
        self.election_elapsed = 0;
        self.leader_id = Some(from);
    }

    /// Takes in the entries that the leader offers, or refuses them.
    fn handle_append(&mut self, m: &Message)
        requires
            old(self).wf(),
        ensures
            final(self).wf(),
            final(self)@ == old(self)@.handle_append(m@),
    {
        if self.role == StateRole::Leader {
            return ;
        }
        self.heard_from_leader(m.from);
        let mut answer = self.reply(MessageType::AppendEntriesResponse, m.from);
        let committed: u64 = self.log.committed();
        if m.index < committed {
            answer.index = committed;
            self.send(Some(answer));
            return ;
        }
        match self.log.maybe_append(m.index, m.log_term, m.commit, &m.entries) {
            Some(last_new) => {
                answer.index = last_new;
            },
            None => {
                let last: u64 = self.log.last_index();
                answer.reject = true;
                answer.index = m.index;
                answer.reject_hint = if m.index < last {
                    m.index
                } else {
                    last
                };
            },
        }
        self.send(Some(answer));
    }

    /// Takes note of a peer's answer to an offer of entries.
    fn handle_append_response(&mut self, m: &Message)
        requires
            old(self).wf(),
        ensures
            final(self).wf(),
            final(self)@ == old(self)@.handle_append_response(m@),
    {
        let position: usize = self.position_of(m.from);
        if self.role != StateRole::Leader || position >= self.peers.len() {
            return ;
        }
        let known: Progress = self.progress[position];
        if m.reject {
            if m.index < u64::MAX && m.index + 1 == known.next_idx && m.index > known.matched {
                let retry: u64 = if m.reject_hint < m.index {
                    m.reject_hint + 1
                } else {
                    m.index
                };
                let next: u64 = if retry > known.matched {
                    retry
                } else {
                    known.matched + 1
                };
                self.progress[position] = Progress { matched: known.matched, next_idx: next };
                let again = self.append_for(position);
                self.send(again);
            }
        } else if m.index > known.matched && m.index <= self.log.last_index() {
            let next: u64 = if known.next_idx > m.index {
                known.next_idx
            } else {
                m.index + 1
            };
            self.progress[position] = Progress { matched: m.index, next_idx: next };
            let before: u64 = self.log.committed();
            proof {
                lemma_maybe_commit_follows(self@);
            }
            self.maybe_commit();
            if self.log.committed() > before {
                self.broadcast(MessageType::AppendEntries);
            } else if next <= self.log.last_index() {
                let more = self.append_for(position);
                self.send(more);
            }
        }
    }

    /// Takes note of a heartbeat of the leader.
    fn handle_heartbeat(&mut self, m: &Message)
        requires
            old(self).wf(),
        ensures
            final(self).wf(),
            final(self)@ == old(self)@.handle_heartbeat(m@),
    {
        if self.role == StateRole::Leader {
            return ;
        }
        self.heard_from_leader(m.from);
        let answer = self.reply(MessageType::HeartbeatResponse, m.from);
        self.log.commit_to(m.commit);
        self.send(Some(answer));
    }

    /// Puts the leader's snapshot in the place of the log, if it reaches
    /// beyond the commit position.
    fn handle_snapshot(&mut self, m: &Message)
        requires
            old(self).wf(),
        ensures
            final(self).wf(),
            final(self)@ == old(self)@.handle_snapshot(m@),
    {
        if self.role == StateRole::Leader {
            return ;
        }
        let snapshot: Snapshot = match &m.snapshot {
            Some(s) => s.clone(),
            None => {
                return ;
            },
        };
        self.heard_from_leader(m.from);
        let mut answer = self.reply(MessageType::AppendEntriesResponse, m.from);
        let index: u64 = snapshot.metadata.index;
        let term: u64 = self.term;
        if index > self.log.committed() && index < u64::MAX - 2 && all_distinct(
            &snapshot.metadata.conf_state,
        ) {
            let kept: Snapshot = snapshot.clone();
            let ghost heard = self@;
            proof {
                lemma_restored(heard.log, snapshot@);
            }
            let done = self.log.restore(snapshot);
            assert(done);
            self.peers = kept.metadata.conf_state.clone();
            self.pending_snapshot = Some(kept);
            proof {
                let restored = NodeView {
                    log: heard.log.restored(snapshot@),
                    peers: snapshot@.conf_state,
                    pending_snapshot: Some(snapshot@),
                    ..heard
                };
                assert(self@ == restored);
                lemma_reset_wf(restored, term);
            }
            self.reset(term);
            self.leader_id = Some(m.from);
            answer.index = index;
        } else {
            answer.index = self.log.committed();
        }
        self.send(Some(answer));
    }

    /// Takes note of a peer's answer to a heartbeat.
    fn handle_heartbeat_response(&mut self, m: &Message)
        requires
            old(self).wf(),
        ensures
            final(self).wf(),
            final(self)@ == old(self)@.handle_heartbeat_response(m@),
    {
        let position: usize = self.position_of(m.from);
        if self.role != StateRole::Leader || position >= self.peers.len() {
            return ;
        }
        if self.progress[position].matched < self.log.last_index() {
            let more = self.append_for(position);
            self.send(more);
        }
    }

    /// Handles a message of the node's own term.
    fn handle(&mut self, m: &Message)
        requires
            old(self).wf(),
        ensures
            final(self).wf(),
            final(self)@ == old(self)@.handle(m@),
    {
        match m.msg_type {
            MessageType::RequestVote => self.handle_vote_request(m),
            MessageType::RequestVoteResponse => self.handle_vote_response(m),
            MessageType::AppendEntries => self.handle_append(m),
            MessageType::AppendEntriesResponse => self.handle_append_response(m),
            MessageType::Heartbeat => self.handle_heartbeat(m),
            MessageType::HeartbeatResponse => self.handle_heartbeat_response(m),
            MessageType::Snapshot => self.handle_snapshot(m),
        }
    }

    /// Feeds one message from a peer to the node.
    ///
    /// A message of a later term makes the node a follower in that term
    /// before it is handled. A request of an earlier term is answered with a
    /// refusal that carries the node's term; an answer of an earlier term is
    /// dropped. Votes are granted to candidates whose log is up to date,
    /// offered entries are taken in where they fit the log, and a leader
    /// moves its commit position when a majority holds an entry of its term.
    pub fn step(&mut self, m: Message)
        requires
            old(self).wf(),
        ensures
            final(self).wf(),
            final(self)@ == old(self)@.step(m@),
    {
        if m.term > self.term {
            let leader: Option<u64> = if m.msg_type.from_leader() {
                Some(m.from)
            } else {
                None
            };
            proof {
                lemma_reset_wf(self@, m.term);
            }
            self.become_follower(m.term, leader);
            self.handle(&m);
        } else if m.term < self.term {
            if m.msg_type.is_request() {
                let mut answer = self.reply(m.msg_type.response(), m.from);
                answer.reject = true;
                self.send(Some(answer));
            }
        } else {
            self.handle(&m);
        }
    }

    /// A node over a log store, as a replica starts or starts again: a
    /// follower in the recorded term, with the recorded vote, among the
    /// replicas that the store's snapshot names.
    ///
    /// Fails with `ConfigInvalid` when `id` is zero or a replica is named
    /// twice, and with a storage failure when the log has no room left.
    pub fn with_storage(id: u64, store: MemStorage) -> (node: Result<Self, RaftError>)
        requires
            store.wf(),
        ensures
            node is Ok <==> id != 0 && distinct(store@.snapshot.conf_state) && store@.last_index()
                + 1 < u64::MAX,
            node matches Ok(n) ==> n.wf() && n@ == start_view(id, store@),
            node matches Err(e) ==> e == if id == 0 || !distinct(store@.snapshot.conf_state) {
                RaftError::ConfigInvalid
            } else {
                RaftError::Store(StorageError::StorageFailure)
            },
    {
        let state = store.initial_state();
        if id == 0 || !all_distinct(&state.conf_state) {
            return Err(RaftError::ConfigInvalid);
        }
        let ghost stored = store@;
        let log = match RaftLog::new(store) {
            Some(log) => log,
            None => {
                return Err(RaftError::Store(StorageError::StorageFailure));
            },
        };
        let handed_out: u64 = log.applied();
        let mut node = RaftNode {
            id,
            peers: state.conf_state,
            election_tick: ELECTION_TICK,
            heartbeat_tick: HEARTBEAT_TICK,
            role: StateRole::Follower,
            term: state.hard_state.term,
            vote: state.hard_state.vote,
            leader_id: None,
            election_elapsed: 0,
            heartbeat_elapsed: 0,
            election_timeout: ELECTION_TICK,
            jitter: id,
            ballots: Vec::new(),
            progress: Vec::new(),
            log,
            msgs: Vec::new(),
            handed_out,
            pending_snapshot: None,
        };
        proof {
            assert(node@.msgs =~= Seq::<MessageView>::empty());
            assert(node@.log == start_log(stored));
            lemma_reset_wf(node@, state.hard_state.term);
        }
        node.reset(state.hard_state.term);
        Ok(node)
    }

    /// A node that starts with an empty log among the replicas `peers`.
    ///
    /// Fails with `ConfigInvalid` when `id` is zero or a replica is named
    /// twice.
    pub fn new(id: u64, peers: Vec<u64>) -> (node: Result<Self, RaftError>)
        ensures
            node is Ok <==> id != 0 && distinct(peers@),
            node matches Ok(n) ==> n.wf() && n@ == start_view(id, fresh_store(peers@)),
            node matches Err(e) ==> e == RaftError::ConfigInvalid,
    {
        let mut store = MemStorage::new();
        store.set_conf_state(peers);
        RaftNode::with_storage(id, store)
    }

    /// The node's id.
    pub fn id(&self) -> (id: u64)
        ensures
            id == self@.id,
    {
        self.id
    }

    /// The node's term.
    pub fn term(&self) -> (term: u64)
        ensures
            term == self@.term,
    {
        self.term
    }

    /// The part the node plays.
    pub fn role(&self) -> (role: StateRole)
        ensures
            role == self@.role,
    {
        self.role
    }

    /// The leader the node knows of, if any.
    pub fn leader_id(&self) -> (leader: Option<u64>)
        ensures
            leader == self@.leader_id,
    {
        self.leader_id
    }

    /// The node's election timeout, in ticks.
    pub fn election_timeout(&self) -> (ticks: u64)
        ensures
            ticks == self@.election_timeout,
    {
        self.election_timeout
    }

    /// The node's log.
    pub fn raft_log(&self) -> (log: &RaftLog)
        ensures
            log@ == self@.log,
    {
        &self.log
    }

    /// Gives up the node and keeps its log store, as a crash does: what was
    /// persisted stays, and nothing else.
    pub fn into_storage(self) -> (store: MemStorage)
        ensures
            store@ == self@.log.store,
    {
        self.log.into_store()
    }

    /// The node's term, vote and commit position.
    pub fn hard_state(&self) -> (hard_state: HardState)
        ensures
            hard_state == self@.hard_state(),
    {
        HardState { term: self.term, vote: self.vote, commit: self.log.committed() }
    }

    /// Proposes a payload for the log.
    ///
    /// Only the leader takes proposals: any other node answers `NotLeader`
    /// and stays exactly as it is. The leader adds the payload to its log as
    /// an entry of its term, offers it to the peers, and commits it at once
    /// where it is the only peer. A leader whose log is full answers
    /// `ProposalDropped`.
    pub fn propose(&mut self, data: Vec<u8>) -> (done: Result<(), RaftError>)
        requires
            old(self).wf(),
        ensures
            final(self).wf(),
            done == if old(self)@.role != StateRole::Leader {
                Err::<(), RaftError>(RaftError::NotLeader)
            } else if !old(self)@.has_room() {
                Err(RaftError::ProposalDropped)
            } else {
                Ok(())
            },
            done is Ok ==> final(self)@ == old(self)@.propose(data@),
            done is Err ==> final(self)@ == old(self)@,
    {
        if self.role != StateRole::Leader {
            return Err(RaftError::NotLeader);
        }
        if self.log.last_index() >= u64::MAX - 2 {
            return Err(RaftError::ProposalDropped);
        }
        self.append_own(EntryType::EntryNormal, data);
        self.broadcast(MessageType::AppendEntries);
        Ok(())
    }

    /// Compacts the node's log up to `index` into a snapshot that carries
    /// `data`, the state machine as it stands after the entry at `index`.
    ///
    /// Only entries that were applied and persisted can be compacted: else
    /// the log is `Unavailable`. Fails with `SnapshotOutOfDate` when the
    /// snapshot reaches `index` already.
    pub fn compact(&mut self, index: u64, data: Vec<u8>) -> (done: Result<(), StorageError>)
        requires
            old(self).wf(),
        ensures
            final(self).wf(),
            done == old(self)@.log.compact_check(index),
            done is Ok ==> final(self)@ == old(self)@.compacted(index, data@),
            done is Err ==> final(self)@ == old(self)@,
    {
        proof {
            if self@.log.compact_check(index) is Ok {
                lemma_compacted_follows(self@, index, data@);
            }
        }
        let done = self.log.compact(index, data);
        if done.is_ok() {
            self.log.set_conf_state(self.peers.clone());
        }
        done
    }

    /// Proposes a change of the shard's configuration for the log.
    ///
    /// Like a payload, a change is taken only by the leader, which adds it
    /// to its log as an entry of its term and offers it to the peers. The
    /// change takes effect when the entry is committed and applied with
    /// [`Self::apply_conf_change`].
    pub fn propose_conf_change(&mut self, change: ConfChange) -> (done: Result<(), RaftError>)
        requires
            old(self).wf(),
        ensures
            final(self).wf(),
            done == if old(self)@.role != StateRole::Leader {
                Err::<(), RaftError>(RaftError::NotLeader)
            } else if !old(self)@.has_room() {
                Err(RaftError::ProposalDropped)
            } else {
                Ok(())
            },
            done is Ok ==> final(self)@ == old(self)@.propose_conf_change(change),
            done is Err ==> final(self)@ == old(self)@,
    {
        if self.role != StateRole::Leader {
            return Err(RaftError::NotLeader);
        }
        if self.log.last_index() >= u64::MAX - 2 {
            return Err(RaftError::ProposalDropped);
        }
        self.append_own(EntryType::EntryConfChange, change.encode());
        self.broadcast(MessageType::AppendEntries);
        Ok(())
    }

    /// Applies a committed change of the shard's configuration.
    ///
    /// A replica that joins is added to the peers, unless it is among them
    /// or its id is zero. A replica that leaves is taken from the peers: a
    /// leader that leaves falls back to follower, and any other leader looks
    /// for a new commit position.
    pub fn apply_conf_change(&mut self, change: ConfChange)
        requires
            old(self).wf(),
        ensures
            final(self).wf(),
            final(self)@ == old(self)@.apply_conf_change(change),
    {
        proof {
            lemma_apply_conf_change_follows(self@, change);
        }
        let position: usize = self.position_of(change.node_id);
        match change.change_type {
            ConfChangeType::AddNode => {
                if change.node_id != 0 && position >= self.peers.len() {
                    let next_idx: u64 = self.log.last_index() + 1;
                    self.peers.push(change.node_id);
                    self.ballots.push(None);
                    self.progress.push(Progress { matched: 0, next_idx });
                }
            },
            ConfChangeType::RemoveNode => {
                if position < self.peers.len() {
                    self.peers.remove(position);
                    self.ballots.remove(position);
                    self.progress.remove(position);
                    if self.role == StateRole::Leader {
                        if change.node_id == self.id {
                            let term: u64 = self.term;
                            self.become_follower(term, None);
                        } else {
                            let before: u64 = self.log.committed();
                            self.maybe_commit();
                            if self.log.committed() > before {
                                self.broadcast(MessageType::AppendEntries);
                            }
                        }
                    }
                }
            },
        }
    }

    /// Whether the node has effects for its driver: messages to send,
    /// entries or a changed hard state to persist, or committed entries to
    /// apply.
    pub fn has_ready(&self) -> (ready: bool)
        requires
            self.wf(),
        ensures
            ready == self@.has_ready(),
    {
        assert(self@.msgs.len() == self.msgs.len());
        self.msgs.len() > 0 || self.log.has_unstable() || self.hard_state()
            != self.log.store().hard_state() || self.log.committed() > self.log.applied()
            || self.pending_snapshot.is_some()
    }

    /// Takes the effects that the node has for its driver. The messages are
    /// handed over; the entries stay with the node until `advance`.
    pub fn ready(&mut self) -> (bundle: Ready)
        requires
            old(self).wf(),
        ensures
            final(self).wf(),
            bundle@ == old(self)@.ready(),
            final(self)@ == old(self)@.after_ready(),
    {
        let current: HardState = self.hard_state();
        let hard_state: Option<HardState> = if current != self.log.store().hard_state() {
            Some(current)
        } else {
            None
        };
        let entries: Vec<Entry> = self.log.unstable_entries();
        let committed_entries: Vec<Entry> = self.log.next_committed_entries();
        let mut messages: Vec<Message> = Vec::new();
        std::mem::swap(&mut self.msgs, &mut messages);
        let mut snapshot: Option<Snapshot> = None;
        std::mem::swap(&mut self.pending_snapshot, &mut snapshot);
        self.handed_out = self.log.committed();
        proof {
            assert(message_views(self.msgs@) =~= Seq::<MessageView>::empty());
        }
        Ready { snapshot, hard_state, entries, messages, committed_entries }
    }

    /// Writes the node's term, vote and unstable entries to its log store
    /// and counts what was handed out as applied.
    fn settle(&mut self)
        requires
            old(self).wf(),
        ensures
            final(self).wf(),
            final(self)@ == old(self)@.advance(),
    {
        let current: HardState = self.hard_state();
        self.log.persist(current);
        self.log.applied_to(self.handed_out);
    }

    /// Tells the node that the effects of `ready` were carried out. The
    /// bundle is given up; the node settles what it holds itself: its term,
    /// vote and unstable entries go to its log store, and what was handed out
    /// counts as applied.
    pub fn advance(&mut self, ready: Ready)
        requires
            old(self).wf(),
        ensures
            final(self).wf(),
            final(self)@ == old(self)@.advance(),
    {
        self.settle();
    }

    /// Counts the committed entries that were handed out as applied.
    pub fn advance_apply(&mut self)
        requires
            old(self).wf(),
        ensures
            final(self).wf(),
            final(self)@ == old(self)@.advance_apply(),
    {
        self.log.applied_to(self.handed_out);
    }

    /// Takes the node's effects and carries out those that concern the log
    /// store: the hard state and the new entries are persisted before the
    /// bundle is returned. The driver still has to send the messages and to
    /// apply the committed entries, in this order.
    pub fn handle_ready(&mut self) -> (bundle: Ready)
        requires
            old(self).wf(),
        ensures
            final(self).wf(),
            bundle@ == old(self)@.ready(),
            final(self)@ == old(self)@.after_ready().advance(),
    {
        let bundle = self.ready();
        self.settle();
        bundle
    }
}

} // verus!
