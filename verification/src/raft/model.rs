//! The protocol of one replica as a mathematical state machine: the state of
//! a node, and the state that follows each tick, message and proposal.

use crate::partitioning::next_key;
use crate::raft::confchange::{spec_decode, spec_encode, ConfChange, ConfChangeType};
use crate::raft::entry::{EntryType, EntryView, HardState, SnapshotView};
use crate::raft::log::{
    lemma_committed_to, lemma_extends_itself, lemma_extends_transitive, lemma_log_consecutive,
    lemma_compacted, lemma_pushed, lemma_restored, lemma_taken, lemma_with_conf, RaftLogView,
};
use crate::raft::storage::consecutive_from;
use crate::raft::message::{MessageType, MessageView};
use vstd::prelude::*;

verus! {

/// The part a replica plays in its shard.
#[derive(Clone, Copy, Debug, PartialEq, Eq, Structural)]
pub enum StateRole {
    Follower,
    Candidate,
    Leader,
}

/// What a leader knows of one replica's log.
#[derive(Clone, Copy, Debug, PartialEq, Eq, Structural)]
pub struct Progress {
    /// The highest index known to be held by the replica.
    pub matched: u64,
    /// The index of the next entry to offer to the replica.
    pub next_idx: u64,
}

/// Whether no replica is named twice.
pub open spec fn distinct(peers: Seq<u64>) -> bool {
    forall|i: int, j: int| 0 <= i < j < peers.len() ==> peers[i] != peers[j]
}

/// The effects that a node asks its driver to carry out.
pub struct ReadyView {
    /// The snapshot to restore the state machine from, if the leader sent
    /// one; it comes before everything else.
    pub snapshot: Option<SnapshotView>,
    /// The term, vote and commit position to record, if they changed.
    pub hard_state: Option<HardState>,
    /// The entries to add to the log store.
    pub entries: Seq<EntryView>,
    /// The messages to send.
    pub messages: Seq<MessageView>,
    /// The committed entries to apply to the state machine, in this order.
    pub committed_entries: Seq<EntryView>,
}

/// The mathematical value of a node.
pub struct NodeView {
    pub id: u64,
    /// The replicas of the shard.
    pub peers: Seq<u64>,
    pub election_tick: u64,
    pub heartbeat_tick: u64,
    pub role: StateRole,
    pub term: u64,
    pub vote: Option<u64>,
    pub leader_id: Option<u64>,
    pub election_elapsed: u64,
    pub heartbeat_elapsed: u64,
    /// The number of ticks without word from a leader after which the node
    /// stands for election; drawn anew whenever the node's state is reset.
    pub election_timeout: u64,
    /// The state of the generator that the election timeouts are drawn from.
    pub jitter: u64,
    /// The answers to the node's vote requests, one place for each peer.
    pub ballots: Seq<Option<bool>>,
    /// What the node, as leader, knows of each peer's log.
    pub progress: Seq<Progress>,
    pub log: RaftLogView,
    /// The messages that wait to be sent.
    pub msgs: Seq<MessageView>,
    /// The commit position at the time the last bundle of effects was taken.
    pub handed_out: u64,
    /// The snapshot that took the place of the log, until the driver has
    /// taken it.
    pub pending_snapshot: Option<SnapshotView>,
}

/// The position of `id` among the peers, searched from `from`; the number of
/// peers when it is not among them.
pub open spec fn find_peer(peers: Seq<u64>, id: u64, from: int) -> int
    decreases peers.len() - from,
{
    if 0 <= from < peers.len() && peers[from] != id {
        find_peer(peers, id, from + 1)
    } else {
        from
    }
}

/// How many of the first `upto` ballots say `granted`.
pub open spec fn count_ballots(ballots: Seq<Option<bool>>, granted: bool, upto: int) -> int
    decreases upto,
{
    if upto <= 0 {
        0
    } else {
        count_ballots(ballots, granted, upto - 1) + if upto <= ballots.len() && ballots[upto - 1]
            == Some(granted) {
            1int
        } else {
            0int
        }
    }
}

/// How many of the first `upto` peers are known to hold the entry at `index`.
pub open spec fn count_matched(progress: Seq<Progress>, index: int, upto: int) -> int
    decreases upto,
{
    if upto <= 0 {
        0
    } else {
        count_matched(progress, index, upto - 1) + if upto <= progress.len() && progress[upto
            - 1].matched >= index {
            1int
        } else {
            0int
        }
    }
}

impl NodeView {
    /// The invariant of a node.
    pub open spec fn wf(self) -> bool {
        &&& self.id != 0
        &&& distinct(self.peers)
        &&& self.ballots.len() == self.peers.len()
        &&& self.progress.len() == self.peers.len()
        &&& 0 < self.heartbeat_tick < self.election_tick <= 0x4000_0000
        &&& self.election_tick <= self.election_timeout < 2 * self.election_tick
        &&& self.election_elapsed < self.election_timeout
        &&& self.heartbeat_elapsed < self.heartbeat_tick
        &&& self.log.wf()
        &&& forall|i: int| 0 <= i < self.progress.len() ==> (#[trigger] self.progress[i]).next_idx >= 1
    }

    /// Whether this state keeps what the state `earlier` had settled: the
    /// term is no lower, the commit position is no lower, and the entries
    /// that were committed then are the first entries of the log now.
    pub open spec fn follows(self, earlier: NodeView) -> bool {
        self.term >= earlier.term && self.log.extends(earlier.log)
    }

    /// The state after `count` ticks.
    pub open spec fn ticks(self, count: nat) -> NodeView
        decreases count,
    {
        if count == 0 {
            self
        } else {
            self.tick().ticks((count - 1) as nat)
        }
    }

    /// The number of peers that makes a majority.
    pub open spec fn quorum(self) -> int {
        self.peers.len() as int / 2 + 1
    }

    /// Whether the node is one of the shard's replicas, and so may lead it.
    pub open spec fn promotable(self) -> bool {
        find_peer(self.peers, self.id, 0) < self.peers.len()
    }

    /// The term, vote and commit position of the node.
    pub open spec fn hard_state(self) -> HardState {
        HardState { term: self.term, vote: self.vote, commit: self.log.committed }
    }

    /// The election timeout drawn from the generator state `jitter`: between
    /// one and two election periods.
    pub open spec fn timeout_from(self, jitter: u64) -> u64 {
        (self.election_tick + (jitter as int / 0x2_0000_0000) % (self.election_tick as int)) as u64
    }

    /// The node in `term` with its timers, ballots and progress set back. The
    /// vote is forgotten when the term is new.
    pub open spec fn reset(self, term: u64) -> NodeView {
        let jitter = next_key(self.jitter);
        let last = self.log.last_index();
        NodeView {
            term,
            vote: if term == self.term {
                self.vote
            } else {
                None
            },
            leader_id: None,
            election_elapsed: 0,
            heartbeat_elapsed: 0,
            jitter,
            election_timeout: self.timeout_from(jitter),
            ballots: Seq::new(self.peers.len(), |i: int| None),
            progress: Seq::new(
                self.peers.len(),
                |i: int|
                    Progress {
                        matched: if self.peers[i] == self.id {
                            last as u64
                        } else {
                            0
                        },
                        next_idx: (last + 1) as u64,
                    },
            ),
            ..self
        }
    }

    /// The node as a follower of `leader` in `term`.
    pub open spec fn become_follower(self, term: u64, leader: Option<u64>) -> NodeView {
        NodeView { role: StateRole::Follower, leader_id: leader, ..self.reset(term) }
    }

    /// The node as a candidate in the next term, with its own vote.
    pub open spec fn become_candidate(self) -> NodeView {
        let fresh = self.reset((self.term + 1) as u64);
        NodeView {
            role: StateRole::Candidate,
            vote: Some(self.id),
            ballots: Seq::new(
                self.peers.len(),
                |i: int|
                    if self.peers[i] == self.id {
                        Some(true)
                    } else {
                        None
                    },
            ),
            ..fresh
        }
    }

    /// Whether the log has room for an entry of the node's own.
    pub open spec fn has_room(self) -> bool {
        self.log.last_index() + 2 < u64::MAX
    }

    /// The highest index at or below `from` that a majority of the peers is
    /// known to hold; zero when there is none above.
    pub open spec fn highest_quorum(self, from: int) -> int
        decreases from,
    {
        if from <= 0 {
            0
        } else if count_matched(self.progress, from, self.peers.len() as int) >= self.quorum() {
            from
        } else {
            self.highest_quorum(from - 1)
        }
    }

    /// The node after it, as leader, looked for a new commit position: the
    /// highest index that a majority holds becomes the commit position if it
    /// lies beyond the present one and the entry there is of the leader's own
    /// term. An entry of an earlier term is never committed by count alone.
    pub open spec fn maybe_commit(self) -> NodeView {
        let reached = self.highest_quorum(self.log.last_index());
        if reached > self.log.committed && self.log.term_at(reached) == Some(self.term) {
            NodeView { log: self.log.committed_to(reached as u64), ..self }
        } else {
            self
        }
    }

    /// The node after it, as leader, added an entry of its own term to its
    /// log and looked for a new commit position.
    pub open spec fn append_own(self, entry_type: EntryType, data: Seq<u8>) -> NodeView
        recommends
            self.has_room(),
    {
        let index = (self.log.last_index() + 1) as u64;
        let log = self.log.pushed(EntryView { entry_type, term: self.term, index, data });
        NodeView {
            log,
            progress: Seq::new(
                self.peers.len(),
                |i: int|
                    if self.peers[i] == self.id {
                        Progress { matched: index, next_idx: (index + 1) as u64 }
                    } else {
                        self.progress[i]
                    },
            ),
            ..self
        }.maybe_commit()
    }

    /// The node as leader of its term. A leader opens its term with an empty
    /// entry, so that an entry of its own term can carry the commit position
    /// forward.
    pub open spec fn become_leader(self) -> NodeView {
        let fresh = NodeView {
            role: StateRole::Leader,
            leader_id: Some(self.id),
            ..self.reset(self.term)
        };
        if fresh.has_room() {
            fresh.append_own(EntryType::EntryNormal, Seq::empty())
        } else {
            fresh
        }
    }

    /// What the leader has for the peer at `position`: an offer of all
    /// entries from the one the peer expects next, or, where the entry before
    /// them was compacted away, the snapshot.
    pub open spec fn append_for(self, position: int) -> Option<MessageView> {
        let next = self.progress[position].next_idx;
        let last = self.log.last_index();
        if self.log.base_index() < next <= last + 1 {
            Some(
                MessageView {
                    log_term: self.log.term_at(next - 1).unwrap(),
                    index: (next - 1) as u64,
                    entries: self.log.range(next as int, last + 1),
                    commit: self.log.committed,
                    ..MessageView::bare(
                        MessageType::AppendEntries,
                        self.id,
                        self.peers[position],
                        self.term,
                    )
                },
            )
        } else if next <= self.log.base_index() {
            Some(
                MessageView {
                    snapshot: Some(self.log.store.snapshot),
                    ..MessageView::bare(
                        MessageType::Snapshot,
                        self.id,
                        self.peers[position],
                        self.term,
                    )
                },
            )
        } else {
            None
        }
    }

    /// The heartbeat for the peer at `position`. It carries the commit
    /// position as far as the peer is known to hold the log.
    pub open spec fn heartbeat_for(self, position: int) -> MessageView {
        let matched = self.progress[position].matched;
        MessageView {
            commit: if matched < self.log.committed {
                matched
            } else {
                self.log.committed
            },
            ..MessageView::bare(MessageType::Heartbeat, self.id, self.peers[position], self.term)
        }
    }

    /// The vote request for the peer at `position`.
    pub open spec fn vote_request_for(self, position: int) -> MessageView {
        MessageView {
            log_term: self.log.last_term(),
            index: self.log.last_index() as u64,
            ..MessageView::bare(MessageType::RequestVote, self.id, self.peers[position], self.term)
        }
    }

    /// The message of `kind` that a broadcast has for the peer at
    /// `position`; nothing for the node itself.
    pub open spec fn outbound(self, kind: MessageType, position: int) -> Option<MessageView> {
        if self.peers[position] == self.id {
            None
        } else {
            match kind {
                MessageType::AppendEntries => self.append_for(position),
                MessageType::Heartbeat => Some(self.heartbeat_for(position)),
                MessageType::RequestVote => Some(self.vote_request_for(position)),
                _ => None,
            }
        }
    }

    /// The messages of a broadcast for the first `upto` peers, in their order.
    pub open spec fn collect(self, kind: MessageType, upto: int) -> Seq<MessageView>
        decreases upto,
    {
        if upto <= 0 {
            Seq::empty()
        } else {
            match self.outbound(kind, upto - 1) {
                Some(m) => self.collect(kind, upto - 1).push(m),
                None => self.collect(kind, upto - 1),
            }
        }
    }

    /// The node with a message of `kind` for every other peer added to what
    /// it has to send.
    pub open spec fn broadcast(self, kind: MessageType) -> NodeView {
        NodeView { msgs: self.msgs + self.collect(kind, self.peers.len() as int), ..self }
    }

    /// The node with one more message to send, if there is one.
    pub open spec fn send(self, message: Option<MessageView>) -> NodeView {
        match message {
            Some(m) => NodeView { msgs: self.msgs.push(m), ..self },
            None => self,
        }
    }

    /// The node after it stood for election: a candidate of the next term
    /// that asks every other peer for its vote, or the leader at once where
    /// its own vote is a majority. A node whose term cannot grow stays as it
    /// is.
    pub open spec fn campaign(self) -> NodeView {
        if self.term == u64::MAX {
            self
        } else {
            let candidate = self.become_candidate();
            if count_ballots(candidate.ballots, true, candidate.peers.len() as int)
                >= candidate.quorum() {
                candidate.become_leader().broadcast(MessageType::AppendEntries)
            } else {
                candidate.broadcast(MessageType::RequestVote)
            }
        }
    }

    /// The node one tick later. A leader sends heartbeats every
    /// `heartbeat_tick` ticks. Any other node that has heard of no leader for
    /// its election timeout stands for election, if it is one of the peers.
    pub open spec fn tick(self) -> NodeView {
        if self.role == StateRole::Leader {
            if self.heartbeat_elapsed + 1 >= self.heartbeat_tick {
                NodeView { heartbeat_elapsed: 0, ..self }.broadcast(MessageType::Heartbeat)
            } else {
                NodeView { heartbeat_elapsed: (self.heartbeat_elapsed + 1) as u64, ..self }
            }
        } else if self.election_elapsed + 1 >= self.election_timeout {
            let rested = NodeView { election_elapsed: 0, ..self };
            if rested.promotable() {
                rested.campaign()
            } else {
                rested
            }
        } else {
            NodeView { election_elapsed: (self.election_elapsed + 1) as u64, ..self }
        }
    }

    /// The answer of `kind` to the replica `to`.
    pub open spec fn reply(self, kind: MessageType, to: u64) -> MessageView {
        MessageView::bare(kind, self.id, to, self.term)
    }

    /// The node after a vote request of its own term. It grants its vote to
    /// a candidate whose log is at least as up to date as its own, if it has
    /// not voted for another and knows of no leader.
    pub open spec fn handle_vote_request(self, m: MessageView) -> NodeView {
        let free = self.vote == Some(m.from) || (self.vote is None && self.leader_id is None);
        let grant = free && self.log.is_up_to_date(m.index, m.log_term);
        let voted = if grant {
            NodeView { vote: Some(m.from), election_elapsed: 0, ..self }
        } else {
            self
        };
        voted.send(
            Some(
                MessageView {
                    reject: !grant,
                    ..self.reply(MessageType::RequestVoteResponse, m.from)
                },
            ),
        )
    }

    /// The node after an answer to one of its vote requests. The first answer
    /// of each peer counts. With a majority of grants the candidate becomes
    /// leader; with a majority of refusals it falls back to follower.
    pub open spec fn handle_vote_response(self, m: MessageView) -> NodeView {
        let position = find_peer(self.peers, m.from, 0);
        if self.role != StateRole::Candidate || position >= self.peers.len()
            || self.ballots[position] is Some {
            self
        } else {
            let counted = NodeView {
                ballots: self.ballots.update(position, Some(!m.reject)),
                ..self
            };
            let peers = counted.peers.len() as int;
            if count_ballots(counted.ballots, true, peers) >= counted.quorum() {
                counted.become_leader().broadcast(MessageType::AppendEntries)
            } else if count_ballots(counted.ballots, false, peers) >= counted.quorum() {
                counted.become_follower(counted.term, None)
            } else {
                counted
            }
        }
    }

    /// The node after it heard from the leader `from` of its own term: a
    /// candidate falls back to follower, and the election timer starts anew.
    pub open spec fn heard_from_leader(self, from: u64) -> NodeView {
        let follower = if self.role == StateRole::Candidate {
            self.become_follower(self.term, Some(from))
        } else {
            self
        };
        NodeView { election_elapsed: 0, leader_id: Some(from), ..follower }
    }

    /// The node after the leader of its term offered it entries.
    pub open spec fn handle_append(self, m: MessageView) -> NodeView {
        if self.role == StateRole::Leader {
            self
        } else {
            let s = self.heard_from_leader(m.from);
            let answer = s.reply(MessageType::AppendEntriesResponse, m.from);
            if m.index < s.log.committed {
                s.send(Some(MessageView { index: s.log.committed, ..answer }))
            } else if s.log.accepts(m.index, m.log_term, m.entries) {
                NodeView { log: s.log.taken(m.index, m.log_term, m.commit, m.entries), ..s }.send(
                    Some(MessageView { index: (m.index + m.entries.len()) as u64, ..answer }),
                )
            } else {
                s.send(
                    Some(
                        MessageView {
                            reject: true,
                            index: m.index,
                            reject_hint: if m.index < s.log.last_index() {
                                m.index
                            } else {
                                s.log.last_index() as u64
                            },
                            ..answer
                        },
                    ),
                )
            }
        }
    }

    /// The leader with what it knows of the peer at `position` replaced.
    pub open spec fn with_progress(self, position: int, progress: Progress) -> NodeView {
        NodeView { progress: self.progress.update(position, progress), ..self }
    }

    /// The node after a peer answered an offer of entries.
    pub open spec fn handle_append_response(self, m: MessageView) -> NodeView {
        let position = find_peer(self.peers, m.from, 0);
        if self.role != StateRole::Leader || position >= self.peers.len() {
            self
        } else {
            let known = self.progress[position];
            if m.reject {
                if m.index + 1 == known.next_idx && m.index > known.matched {
                    let retry = if m.reject_hint < m.index {
                        m.reject_hint + 1
                    } else {
                        m.index as int
                    };
                    let next = if retry > known.matched {
                        retry
                    } else {
                        known.matched + 1
                    };
                    let s = self.with_progress(
                        position,
                        Progress { matched: known.matched, next_idx: next as u64 },
                    );
                    s.send(s.append_for(position))
                } else {
                    self
                }
            } else if m.index > known.matched && m.index <= self.log.last_index() {
                let next = if known.next_idx > m.index {
                    known.next_idx
                } else {
                    (m.index + 1) as u64
                };
                let s = self.with_progress(position, Progress { matched: m.index, next_idx: next });
                let c = s.maybe_commit();
                if c.log.committed > s.log.committed {
                    c.broadcast(MessageType::AppendEntries)
                } else if next <= c.log.last_index() {
                    c.send(c.append_for(position))
                } else {
                    c
                }
            } else {
                self
            }
        }
    }

    /// The node after a heartbeat of the leader of its term.
    pub open spec fn handle_heartbeat(self, m: MessageView) -> NodeView {
        if self.role == StateRole::Leader {
            self
        } else {
            let s = self.heard_from_leader(m.from);
            NodeView { log: s.log.committed_to(m.commit), ..s }.send(
                Some(s.reply(MessageType::HeartbeatResponse, m.from)),
            )
        }
    }

    /// The node after the leader of its term sent its snapshot. A snapshot
    /// that reaches beyond the commit position takes the place of the log,
    /// and the replicas it names become the peers; any other is answered
    /// with the commit position.
    pub open spec fn handle_snapshot(self, m: MessageView) -> NodeView {
        if self.role == StateRole::Leader || m.snapshot is None {
            self
        } else {
            let snapshot = m.snapshot.unwrap();
            let s = self.heard_from_leader(m.from);
            let answer = s.reply(MessageType::AppendEntriesResponse, m.from);
            if s.log.accepts_snapshot(snapshot) && distinct(snapshot.conf_state) {
                let restored = NodeView {
                    log: s.log.restored(snapshot),
                    peers: snapshot.conf_state,
                    pending_snapshot: Some(snapshot),
                    ..s
                };
                NodeView { leader_id: Some(m.from), ..restored.reset(s.term) }.send(
                    Some(MessageView { index: snapshot.index, ..answer }),
                )
            } else {
                s.send(Some(MessageView { index: s.log.committed, ..answer }))
            }
        }
    }

    /// The node after a peer answered a heartbeat: a leader offers the peer
    /// what it is not known to hold.
    pub open spec fn handle_heartbeat_response(self, m: MessageView) -> NodeView {
        let position = find_peer(self.peers, m.from, 0);
        if self.role != StateRole::Leader || position >= self.peers.len() {
            self
        } else if self.progress[position].matched < self.log.last_index() {
            self.send(self.append_for(position))
        } else {
            self
        }
    }

    /// The node after a message of its own term.
    pub open spec fn handle(self, m: MessageView) -> NodeView {
        match m.msg_type {
            MessageType::RequestVote => self.handle_vote_request(m),
            MessageType::RequestVoteResponse => self.handle_vote_response(m),
            MessageType::AppendEntries => self.handle_append(m),
            MessageType::AppendEntriesResponse => self.handle_append_response(m),
            MessageType::Heartbeat => self.handle_heartbeat(m),
            MessageType::HeartbeatResponse => self.handle_heartbeat_response(m),
            MessageType::Snapshot => self.handle_snapshot(m),
        }
    }

    /// The node after one message. A message of a later term makes the node a
    /// follower in that term first. A request of an earlier term is refused
    /// with the node's own term, and an answer of an earlier term is dropped.
    pub open spec fn step(self, m: MessageView) -> NodeView {
        if m.term > self.term {
            self.become_follower(
                m.term,
                if m.msg_type.spec_from_leader() {
                    Some(m.from)
                } else {
                    None
                },
            ).handle(m)
        } else if m.term < self.term {
            if m.msg_type.spec_is_request() {
                self.send(
                    Some(
                        MessageView {
                            reject: true,
                            ..self.reply(m.msg_type.spec_response(), m.from)
                        },
                    ),
                )
            } else {
                self
            }
        } else {
            self.handle(m)
        }
    }

    /// Whether the node takes proposals: it is the leader, and its log has
    /// room.
    pub open spec fn can_propose(self) -> bool {
        self.role == StateRole::Leader && self.has_room()
    }

    /// The leader after it took a proposal into its log and offered it to
    /// the peers.
    pub open spec fn propose(self, data: Seq<u8>) -> NodeView
        recommends
            self.can_propose(),
    {
        self.append_own(EntryType::EntryNormal, data).broadcast(MessageType::AppendEntries)
    }

    /// The leader after it took a change of the configuration into its log
    /// and offered it to the peers. The change takes effect when the entry
    /// is committed and applied.
    pub open spec fn propose_conf_change(self, change: ConfChange) -> NodeView
        recommends
            self.can_propose(),
    {
        self.append_own(EntryType::EntryConfChange, spec_encode(change)).broadcast(
            MessageType::AppendEntries,
        )
    }

    /// The node after a committed change of the configuration was applied.
    ///
    /// A replica that joins is added to the peers, unless it is among them
    /// or its id is zero. A replica that leaves is taken from the peers: a
    /// leader that leaves falls back to follower, and any other leader looks
    /// for a new commit position, since the majority may have shrunk.
    pub open spec fn apply_conf_change(self, change: ConfChange) -> NodeView {
        let position = find_peer(self.peers, change.node_id, 0);
        match change.change_type {
            ConfChangeType::AddNode => if change.node_id == 0 || position < self.peers.len() {
                self
            } else {
                NodeView {
                    peers: self.peers.push(change.node_id),
                    ballots: self.ballots.push(None),
                    progress: self.progress.push(
                        Progress { matched: 0, next_idx: (self.log.last_index() + 1) as u64 },
                    ),
                    ..self
                }
            },
            ConfChangeType::RemoveNode => if position >= self.peers.len() {
                self
            } else {
                let removed = NodeView {
                    peers: self.peers.remove(position),
                    ballots: self.ballots.remove(position),
                    progress: self.progress.remove(position),
                    ..self
                };
                if removed.role != StateRole::Leader {
                    removed
                } else if change.node_id == self.id {
                    removed.become_follower(removed.term, None)
                } else {
                    let settled = removed.maybe_commit();
                    if settled.log.committed > removed.log.committed {
                        settled.broadcast(MessageType::AppendEntries)
                    } else {
                        settled
                    }
                }
            },
        }
    }

    /// The change of the configuration that a log entry holds, if it holds
    /// one.
    pub open spec fn conf_change_of(entry: EntryView) -> Option<ConfChange> {
        if entry.entry_type == EntryType::EntryConfChange {
            spec_decode(entry.data)
        } else {
            None
        }
    }

    /// The node after the changes of the configuration among `entries`, from
    /// position `from` on, were applied in their order.
    pub open spec fn conf_applied(self, entries: Seq<EntryView>, from: int) -> NodeView
        decreases entries.len() - from,
    {
        if 0 <= from < entries.len() {
            match Self::conf_change_of(entries[from]) {
                Some(change) => self.apply_conf_change(change),
                None => self,
            }.conf_applied(entries, from + 1)
        } else {
            self
        }
    }

    /// The node after its log was compacted up to `index` into a snapshot
    /// that carries `data` and names the node's peers.
    pub open spec fn compacted(self, index: u64, data: Seq<u8>) -> NodeView {
        NodeView { log: self.log.compacted(index, data).with_conf(self.peers), ..self }
    }

    /// Whether the node has effects for its driver.
    pub open spec fn has_ready(self) -> bool {
        self.msgs.len() > 0 || self.log.unstable.len() > 0 || self.hard_state()
            != self.log.store.hard_state || self.log.committed > self.log.applied
            || self.pending_snapshot is Some
    }

    /// The effects that the node has for its driver.
    pub open spec fn ready(self) -> ReadyView {
        ReadyView {
            snapshot: self.pending_snapshot,
            hard_state: if self.hard_state() != self.log.store.hard_state {
                Some(self.hard_state())
            } else {
                None
            },
            entries: self.log.unstable,
            messages: self.msgs,
            committed_entries: self.log.range(self.log.applied + 1, self.log.committed + 1),
        }
    }

    /// The node after its effects were taken.
    pub open spec fn after_ready(self) -> NodeView {
        NodeView {
            msgs: Seq::empty(),
            handed_out: self.log.committed,
            pending_snapshot: None,
            ..self
        }
    }

    /// The node after the entries that were handed out were applied.
    pub open spec fn advance_apply(self) -> NodeView {
        NodeView { log: self.log.applied_through(self.handed_out), ..self }
    }

    /// The node after the effects that were taken have been carried out: its
    /// term, vote and entries are in the log store, and what was handed out
    /// counts as applied.
    pub open spec fn advance(self) -> NodeView {
        NodeView { log: self.log.persisted(self.hard_state()), ..self }.advance_apply()
    }
}

/// A reset node satisfies the invariant whenever its log, its id, its peers
/// and its tick counts do.
pub proof fn lemma_reset_wf(s: NodeView, term: u64)
    requires
        s.id != 0,
        distinct(s.peers),
        0 < s.heartbeat_tick < s.election_tick <= 0x4000_0000,
        s.log.wf(),
    ensures
        s.reset(term).wf(),
{
    let jitter = next_key(s.jitter);
    let spread = jitter as int / 0x2_0000_0000;
    let period = s.election_tick as int;
    assert(0 <= spread % period < period) by (nonlinear_arith)
        requires
            spread >= 0,
            period > 0,
    ;
}

/// The highest index that a majority holds lies between zero and where the
/// search began.
pub proof fn lemma_highest_quorum_bound(s: NodeView, from: int)
    ensures
        0 <= s.highest_quorum(from),
        s.highest_quorum(from) <= from || from < 0,
    decreases from,
{
    if from > 0 && !(count_matched(s.progress, from, s.peers.len() as int) >= s.quorum()) {
        lemma_highest_quorum_bound(s, from - 1);
    }
}

/// The search for a peer ends on its position, or behind the last peer.
pub proof fn lemma_find_peer_bounds(peers: Seq<u64>, id: u64, from: int)
    requires
        0 <= from <= peers.len(),
    ensures
        from <= find_peer(peers, id, from) <= peers.len(),
        find_peer(peers, id, from) < peers.len() ==> peers[find_peer(peers, id, from)] == id,
    decreases peers.len() - from,
{
    if from < peers.len() && peers[from] != id {
        lemma_find_peer_bounds(peers, id, from + 1);
    }
}

/// A leader's search for a commit position never takes back what was
/// committed.
pub proof fn lemma_maybe_commit_follows(s: NodeView)
    requires
        s.wf(),
    ensures
        s.maybe_commit().wf(),
        s.maybe_commit().follows(s),
{
    lemma_highest_quorum_bound(s, s.log.last_index());
    lemma_extends_itself(s.log);
    let reached = s.highest_quorum(s.log.last_index());
    lemma_committed_to(s.log, reached as u64);
}

/// A leader that adds an entry of its own keeps the invariant and what was
/// committed.
pub proof fn lemma_append_own_follows(s: NodeView, entry_type: EntryType, data: Seq<u8>)
    requires
        s.wf(),
        s.has_room(),
    ensures
        s.append_own(entry_type, data).wf(),
        s.append_own(entry_type, data).follows(s),
{
    let index = (s.log.last_index() + 1) as u64;
    let entry = EntryView { entry_type, term: s.term, index, data };
    lemma_pushed(s.log, entry);
    let grown = NodeView {
        log: s.log.pushed(entry),
        progress: Seq::new(
            s.peers.len(),
            |i: int|
                if s.peers[i] == s.id {
                    Progress { matched: index, next_idx: (index + 1) as u64 }
                } else {
                    s.progress[i]
                },
        ),
        ..s
    };
    assert(grown.wf());
    lemma_maybe_commit_follows(grown);
    lemma_extends_transitive(s.log, grown.log, grown.maybe_commit().log);
}

/// A node that becomes leader keeps the invariant and what was committed.
pub proof fn lemma_become_leader_follows(s: NodeView)
    requires
        s.wf(),
    ensures
        s.become_leader().wf(),
        s.become_leader().follows(s),
        s.become_leader().role == StateRole::Leader,
{
    lemma_reset_wf(s, s.term);
    lemma_extends_itself(s.log);
    let fresh = NodeView { role: StateRole::Leader, leader_id: Some(s.id), ..s.reset(s.term) };
    if fresh.has_room() {
        lemma_append_own_follows(fresh, EntryType::EntryNormal, Seq::empty());
    }
}

/// A node that stands for election keeps the invariant and what was
/// committed.
pub proof fn lemma_campaign_follows(s: NodeView)
    requires
        s.wf(),
    ensures
        s.campaign().wf(),
        s.campaign().follows(s),
{
    lemma_extends_itself(s.log);
    if s.term < u64::MAX {
        lemma_reset_wf(s, (s.term + 1) as u64);
        let candidate = s.become_candidate();
        assert(candidate.wf());
        if count_ballots(candidate.ballots, true, candidate.peers.len() as int)
            >= candidate.quorum() {
            lemma_become_leader_follows(candidate);
        }
    }
}

/// A tick keeps the invariant, and never takes back the term or what was
/// committed.
pub proof fn lemma_tick_follows(s: NodeView)
    requires
        s.wf(),
    ensures
        s.tick().wf(),
        s.tick().follows(s),
{
    lemma_extends_itself(s.log);
    if s.role != StateRole::Leader && s.election_elapsed + 1 >= s.election_timeout {
        let rested = NodeView { election_elapsed: 0, ..s };
        if rested.promotable() {
            lemma_campaign_follows(rested);
        }
    }
}

/// The handling of a message of the node's own term keeps the invariant,
/// and never takes back what was committed.
pub proof fn lemma_handle_follows(s: NodeView, m: MessageView)
    requires
        s.wf(),
    ensures
        s.handle(m).wf(),
        s.handle(m).follows(s),
{
    lemma_extends_itself(s.log);
    lemma_reset_wf(s, s.term);
    lemma_find_peer_bounds(s.peers, m.from, 0);
    match m.msg_type {
        MessageType::RequestVote => {},
        MessageType::RequestVoteResponse => {
            let position = find_peer(s.peers, m.from, 0);
            if s.role == StateRole::Candidate && position < s.peers.len()
                && s.ballots[position] is None {
                let counted = NodeView { ballots: s.ballots.update(position, Some(!m.reject)), ..s };
                lemma_become_leader_follows(counted);
                lemma_reset_wf(counted, counted.term);
            }
        },
        MessageType::AppendEntries => {
            if s.role != StateRole::Leader {
                let h = s.heard_from_leader(m.from);
                lemma_taken(h.log, m.index, m.log_term, m.commit, m.entries);
            }
        },
        MessageType::AppendEntriesResponse => {
            let position = find_peer(s.peers, m.from, 0);
            if s.role == StateRole::Leader && position < s.peers.len() {
                let known = s.progress[position];
                if !m.reject && m.index > known.matched && m.index <= s.log.last_index() {
                    let next = if known.next_idx > m.index {
                        known.next_idx
                    } else {
                        (m.index + 1) as u64
                    };
                    let t = s.with_progress(position, Progress { matched: m.index, next_idx: next });
                    assert(t.wf());
                    lemma_maybe_commit_follows(t);
                }
            }
        },
        MessageType::Heartbeat => {
            if s.role != StateRole::Leader {
                let h = s.heard_from_leader(m.from);
                lemma_committed_to(h.log, m.commit);
            }
        },
        MessageType::HeartbeatResponse => {},
        MessageType::Snapshot => {
            if s.role != StateRole::Leader && m.snapshot is Some {
                let snapshot = m.snapshot.unwrap();
                let h = s.heard_from_leader(m.from);
                if h.log.accepts_snapshot(snapshot) && distinct(snapshot.conf_state) {
                    lemma_restored(h.log, snapshot);
                    let restored = NodeView {
                        log: h.log.restored(snapshot),
                        peers: snapshot.conf_state,
                        pending_snapshot: Some(snapshot),
                        ..h
                    };
                    lemma_reset_wf(restored, h.term);
                }
            }
        },
    }
}

/// A node that compacts its log keeps the invariant and every entry beyond
/// the new snapshot.
pub proof fn lemma_compacted_follows(s: NodeView, index: u64, data: Seq<u8>)
    requires
        s.wf(),
        s.log.compact_check(index) is Ok,
    ensures
        s.compacted(index, data).wf(),
        s.compacted(index, data).follows(s),
{
    lemma_compacted(s.log, index, data);
    lemma_with_conf(s.log.compacted(index, data), s.peers);
    lemma_extends_transitive(
        s.log,
        s.log.compacted(index, data),
        s.log.compacted(index, data).with_conf(s.peers),
    );
}

/// A change of the configuration keeps the invariant, and never takes back
/// the term or what was committed.
pub proof fn lemma_apply_conf_change_follows(s: NodeView, change: ConfChange)
    requires
        s.wf(),
    ensures
        s.apply_conf_change(change).wf(),
        s.apply_conf_change(change).follows(s),
{
    lemma_extends_itself(s.log);
    lemma_find_peer_bounds(s.peers, change.node_id, 0);
    lemma_find_peer_absent(s.peers, change.node_id, 0);
    let position = find_peer(s.peers, change.node_id, 0);
    match change.change_type {
        ConfChangeType::AddNode => {
            if change.node_id != 0 && position >= s.peers.len() {
                let added = s.apply_conf_change(change);
                assert(distinct(added.peers)) by {
                    assert forall|i: int, j: int| 0 <= i < j < added.peers.len() implies added.peers[i]
                        != added.peers[j] by {
                        if j < s.peers.len() {
                            assert(s.peers[i] != s.peers[j]);
                        }
                    }
                }
            }
        },
        ConfChangeType::RemoveNode => {
            if position < s.peers.len() {
                let removed = NodeView {
                    peers: s.peers.remove(position),
                    ballots: s.ballots.remove(position),
                    progress: s.progress.remove(position),
                    ..s
                };
                assert(distinct(removed.peers)) by {
                    assert forall|i: int, j: int|
                        0 <= i < j < removed.peers.len() implies removed.peers[i]
                        != removed.peers[j] by {
                        let i0 = if i < position { i } else { i + 1 };
                        let j0 = if j < position { j } else { j + 1 };
                        assert(s.peers[i0] != s.peers[j0]);
                    }
                }
                assert forall|i: int| 0 <= i < removed.progress.len() implies (
                #[trigger] removed.progress[i]).next_idx >= 1 by {
                    let i0 = if i < position { i } else { i + 1 };
                    assert(removed.progress[i] == s.progress[i0]);
                }
                assert(removed.wf());
                lemma_reset_wf(removed, removed.term);
                lemma_maybe_commit_follows(removed);
            }
        },
    }
}

/// A replica that the search does not find is none of the peers searched.
pub proof fn lemma_find_peer_absent(peers: Seq<u64>, id: u64, from: int)
    requires
        0 <= from <= peers.len(),
    ensures
        find_peer(peers, id, from) >= peers.len() ==> forall|i: int|
            from <= i < peers.len() ==> peers[i] != id,
    decreases peers.len() - from,
{
    if from < peers.len() && peers[from] != id {
        lemma_find_peer_absent(peers, id, from + 1);
    }
}

/// The changes of the configuration among some entries keep the invariant,
/// and never take back the term or what was committed.
pub proof fn lemma_conf_applied_follows(s: NodeView, entries: Seq<EntryView>, from: int)
    requires
        s.wf(),
    ensures
        s.conf_applied(entries, from).wf(),
        s.conf_applied(entries, from).follows(s),
    decreases entries.len() - from,
{
    lemma_extends_itself(s.log);
    if 0 <= from < entries.len() {
        let next = match NodeView::conf_change_of(entries[from]) {
            Some(change) => s.apply_conf_change(change),
            None => s,
        };
        if NodeView::conf_change_of(entries[from]) is Some {
            lemma_apply_conf_change_follows(s, NodeView::conf_change_of(entries[from]).unwrap());
        }
        lemma_conf_applied_follows(next, entries, from + 1);
        lemma_extends_transitive(s.log, next.log, next.conf_applied(entries, from + 1).log);
    }
}

/// A message keeps the invariant, and never takes back the term or what
/// was committed. A message of a later term brings the node to that term.
pub proof fn lemma_step_follows(s: NodeView, m: MessageView)
    requires
        s.wf(),
    ensures
        s.step(m).wf(),
        s.step(m).follows(s),
        m.term > s.term ==> s.step(m).term == m.term,
{
    lemma_extends_itself(s.log);
    if m.term > s.term {
        lemma_reset_wf(s, m.term);
        let f = s.become_follower(
            m.term,
            if m.msg_type.spec_from_leader() {
                Some(m.from)
            } else {
                None
            },
        );
        lemma_handle_follows(f, m);
        lemma_handle_keeps_term(f, m);
    } else if m.term == s.term {
        lemma_handle_follows(s, m);
    }
}

/// The handling of a message of the node's own term leaves the term as it
/// is.
pub proof fn lemma_handle_keeps_term(s: NodeView, m: MessageView)
    ensures
        s.handle(m).term == s.term,
{
}

/// A proposal that the leader takes keeps the invariant, and never takes
/// back what was committed.
pub proof fn lemma_propose_follows(s: NodeView, data: Seq<u8>)
    requires
        s.wf(),
        s.can_propose(),
    ensures
        s.propose(data).wf(),
        s.propose(data).follows(s),
{
    lemma_append_own_follows(s, EntryType::EntryNormal, data);
}

/// A replica that is the only peer of its shard is leader once its election
/// timeout has passed.
pub proof fn lemma_single_replica_elects_itself(s: NodeView)
    requires
        s.wf(),
        s.peers == seq![s.id],
        s.role != StateRole::Leader,
        s.term < u64::MAX,
    ensures
        s.ticks((s.election_timeout - s.election_elapsed) as nat).role == StateRole::Leader,
    decreases s.election_timeout - s.election_elapsed,
{
    let left = (s.election_timeout - s.election_elapsed) as nat;
    if s.election_elapsed + 1 >= s.election_timeout {
        let rested = NodeView { election_elapsed: 0, ..s };
        assert(find_peer(rested.peers, rested.id, 0) == 0);
        let candidate = rested.become_candidate();
        assert(count_ballots(candidate.ballots, true, 0) == 0);
        assert(count_ballots(candidate.ballots, true, 1) == 1);
        lemma_reset_wf(rested, (rested.term + 1) as u64);
        lemma_become_leader_follows(candidate);
        assert(s.tick().role == StateRole::Leader);
        assert(left == 1);
        assert(s.tick().ticks(0) == s.tick());
    } else {
        let next = s.tick();
        lemma_single_replica_elects_itself(next);
        assert(s.ticks(left) == next.ticks((left - 1) as nat));
    }
}

/// The leader of a shard with a single replica commits a proposal at once:
/// the new entry is the last of the log, carries the payload and the
/// leader's term, and the commit position stands on it.
pub proof fn lemma_single_replica_commits_at_once(s: NodeView, data: Seq<u8>)
    requires
        s.wf(),
        s.peers == seq![s.id],
        s.can_propose(),
    ensures
        s.propose(data).log.last_index() == s.log.last_index() + 1,
        s.propose(data).log.committed == s.log.last_index() + 1,
        s.propose(data).log.entries().last() == (EntryView {
            entry_type: EntryType::EntryNormal,
            term: s.term,
            index: (s.log.last_index() + 1) as u64,
            data,
        }),
{
    let index = (s.log.last_index() + 1) as u64;
    let entry = EntryView { entry_type: EntryType::EntryNormal, term: s.term, index, data };
    lemma_pushed(s.log, entry);
    let grown = NodeView {
        log: s.log.pushed(entry),
        progress: Seq::new(
            s.peers.len(),
            |i: int|
                if s.peers[i] == s.id {
                    Progress { matched: index, next_idx: (index + 1) as u64 }
                } else {
                    s.progress[i]
                },
        ),
        ..s
    };
    assert(count_matched(grown.progress, index as int, 0) == 0);
    assert(count_matched(grown.progress, index as int, 1) == 1);
    assert(grown.highest_quorum(index as int) == index);
}

/// The committed entries are handed out in the order of the log, each once:
/// a bundle holds the entries from the one after the apply position up to
/// the commit position, and once the bundle is done with, the apply position
/// stands on the last of them, so that the next bundle begins behind it.
pub proof fn lemma_ready_hands_out_in_order(s: NodeView)
    requires
        s.wf(),
    ensures
        s.ready().committed_entries.len() == s.log.committed - s.log.applied,
        consecutive_from(s.ready().committed_entries, s.log.applied + 1),
        s.after_ready().advance().log.applied == s.log.committed,
        s.after_ready().advance().log.committed == s.log.committed,
{
    lemma_log_consecutive(s.log);
}

/// A node gives one vote in a term: while the term stays, a vote that was
/// given stays with the replica it was given to.
pub proof fn lemma_one_vote_per_term(s: NodeView, m: MessageView)
    requires
        s.wf(),
        s.vote is Some,
        s.step(m).term == s.term,
    ensures
        s.step(m).vote == s.vote,
{
    lemma_find_peer_bounds(s.peers, m.from, 0);
    if m.term == s.term {
        assert(s.step(m) == s.handle(m));
    }
}

/// A tick leaves the vote as it is unless it opens a new term.
pub proof fn lemma_tick_keeps_vote(s: NodeView)
    requires
        s.wf(),
        s.tick().term == s.term,
    ensures
        s.tick().vote == s.vote,
{
}

/// A leader moves its commit position only onto an entry of its own term
/// that a majority of the peers is known to hold.
pub proof fn lemma_commit_needs_quorum_of_own_term(s: NodeView)
    requires
        s.wf(),
        s.maybe_commit().log.committed > s.log.committed,
    ensures
        s.log.term_at(s.maybe_commit().log.committed as int) == Some(s.term),
        count_matched(
            s.progress,
            s.maybe_commit().log.committed as int,
            s.peers.len() as int,
        ) >= s.quorum(),
{
    lemma_highest_quorum_bound(s, s.log.last_index());
    lemma_highest_quorum_is_held(s, s.log.last_index());
}

/// The highest index that a majority holds is held by a majority, unless it
/// is zero.
pub proof fn lemma_highest_quorum_is_held(s: NodeView, from: int)
    ensures
        s.highest_quorum(from) > 0 ==> count_matched(
            s.progress,
            s.highest_quorum(from),
            s.peers.len() as int,
        ) >= s.quorum(),
    decreases from,
{
    if from > 0 && !(count_matched(s.progress, from, s.peers.len() as int) >= s.quorum()) {
        lemma_highest_quorum_is_held(s, from - 1);
    }
}

/// While a node leads, a message of its own or an earlier term neither takes
/// an entry off its log nor puts one on: only the commit position may move.
pub proof fn lemma_leader_appends_only(s: NodeView, m: MessageView)
    requires
        s.wf(),
        s.role == StateRole::Leader,
        m.term <= s.term,
    ensures
        s.step(m).log.store == s.log.store,
        s.step(m).log.unstable == s.log.unstable,
{
    lemma_find_peer_bounds(s.peers, m.from, 0);
    if m.term == s.term {
        assert(s.step(m) == s.handle(m));
        match m.msg_type {
            MessageType::RequestVote => {},
            MessageType::RequestVoteResponse => {},
            MessageType::AppendEntries => {},
            MessageType::AppendEntriesResponse => {},
            MessageType::Heartbeat => {},
            MessageType::HeartbeatResponse => {},
            MessageType::Snapshot => {},
        }
    }
}

/// An entry that the leader adds to its log is the last of the log, behind
/// the entry that was last before, and carries the leader's term.
pub proof fn lemma_append_own_places_entry(s: NodeView, entry_type: EntryType, data: Seq<u8>)
    requires
        s.wf(),
        s.has_room(),
    ensures
        s.append_own(entry_type, data).term == s.term,
        s.append_own(entry_type, data).role == s.role,
        s.append_own(entry_type, data).log.last_index() == s.log.last_index() + 1,
        s.append_own(entry_type, data).log.entries().last() == (EntryView {
            entry_type,
            term: s.term,
            index: (s.log.last_index() + 1) as u64,
            data,
        }),
{
    let index = (s.log.last_index() + 1) as u64;
    let entry = EntryView { entry_type, term: s.term, index, data };
    lemma_pushed(s.log, entry);
    let grown = NodeView {
        log: s.log.pushed(entry),
        progress: Seq::new(
            s.peers.len(),
            |i: int|
                if s.peers[i] == s.id {
                    Progress { matched: index, next_idx: (index + 1) as u64 }
                } else {
                    s.progress[i]
                },
        ),
        ..s
    };
    let reached = grown.highest_quorum(grown.log.last_index());
    lemma_committed_to(grown.log, reached as u64);
}

} // verus!
