use raftmetrics::metrics::{
    ApplyOutcome, MetricOperation, MetricSeries, MetricValue, MetricsRegistry,
};
use raftmetrics::raft::confchange::{ConfChange, ConfChangeType};
use raftmetrics::raft::driver::{handle_event, Event, ProposalTicket};
use raftmetrics::raft::entry::Entry;
use raftmetrics::raft::message::{Message, MessageType};
use raftmetrics::raft::model::StateRole;
use raftmetrics::raft::node::{RaftError, RaftNode};
use raftmetrics::raft::storage::{MemStorage, StorageError};
use std::collections::VecDeque;

fn encode(operation: &MetricOperation) -> Vec<u8> {
    match operation {
        MetricOperation::Record { name, value } => format!("R{}={}", name, value).into_bytes(),
        MetricOperation::Delete { name } => format!("D{}", name).into_bytes(),
    }
}

fn decode(data: &[u8]) -> Option<MetricOperation> {
    let text = std::str::from_utf8(data).ok()?;
    if let Some(rest) = text.strip_prefix('R') {
        let (name, value) = rest.split_once('=')?;
        Some(MetricOperation::Record { name: name.to_string(), value: value.parse().ok()? })
    } else if let Some(rest) = text.strip_prefix('D') {
        Some(MetricOperation::Delete { name: rest.to_string() })
    } else {
        None
    }
}

fn blob_of(machine: &MetricsRegistry) -> Vec<u8> {
    let mut text = String::new();
    for series in machine.export() {
        let values: Vec<String> =
            series.values.iter().map(|v| format!("{},{}", v.value, v._timestamp)).collect();
        text.push_str(&format!("{}\t{}\n", series.name, values.join(";")));
    }
    text.into_bytes()
}

fn machine_of(last_applied: u64, blob: &[u8]) -> MetricsRegistry {
    let text = std::str::from_utf8(blob).unwrap();
    let mut series = Vec::new();
    for line in text.lines() {
        let (name, values) = line.split_once('\t').unwrap();
        let values: Vec<MetricValue> = values
            .split(';')
            .map(|pair| {
                let (value, stamp) = pair.split_once(',').unwrap();
                MetricValue { value: value.parse().unwrap(), _timestamp: stamp.parse().unwrap() }
            })
            .collect();
        series.push(MetricSeries { name: name.to_string(), values });
    }
    MetricsRegistry::restore(last_applied, series).unwrap()
}

fn record(name: &str, value: f64) -> Vec<u8> {
    encode(&MetricOperation::Record { name: name.to_string(), value: value.to_bits() })
}

struct Cluster {
    nodes: Vec<Option<RaftNode>>,
    machines: Vec<MetricsRegistry>,
    cut_off: Vec<bool>,
    wire: VecDeque<Message>,
    outcomes: Vec<Vec<(u64, ApplyOutcome)>>,
    restored: Vec<usize>,
}

impl Cluster {
    fn new(size: usize) -> Cluster {
        let ids: Vec<u64> = (1..=size as u64).collect();
        Cluster::with_configuration(size, ids)
    }

    fn with_configuration(size: usize, configuration: Vec<u64>) -> Cluster {
        let ids: Vec<u64> = (1..=size as u64).collect();
        let mut nodes = Vec::new();
        let mut machines = Vec::new();
        let mut outcomes = Vec::new();
        for id in &ids {
            nodes.push(Some(RaftNode::new(*id, configuration.clone()).unwrap()));
            machines.push(MetricsRegistry::new());
            outcomes.push(Vec::new());
        }
        Cluster {
            nodes,
            machines,
            cut_off: vec![false; size],
            wire: VecDeque::new(),
            outcomes,
            restored: vec![0; size],
        }
    }

    fn node(&self, at: usize) -> &RaftNode {
        self.nodes[at].as_ref().unwrap()
    }

    fn apply(&mut self, at: usize, entries: &[Entry]) {
        for entry in entries {
            let outcome = self.machines[at].apply_raft_entry(entry, decode(&entry.data));
            self.outcomes[at].push((entry.index, outcome));
        }
    }

    fn turn(&mut self, at: usize, event: Event) -> Option<Result<(), RaftError>> {
        self.turn_with_ticket(at, event).map(|answer| answer.map(|_| ()))
    }

    fn turn_with_ticket(
        &mut self,
        at: usize,
        event: Event,
    ) -> Option<Result<ProposalTicket, RaftError>> {
        let node = self.nodes[at].as_mut().unwrap();
        let turn = handle_event(node, event);
        if let Some(ready) = turn.ready {
            if let Some(snapshot) = &ready.snapshot {
                self.machines[at] = machine_of(snapshot.metadata.index, &snapshot.data);
                self.restored[at] += 1;
            }
            for message in ready.messages {
                self.wire.push_back(message);
            }
            self.apply(at, &ready.committed_entries);
        }
        turn.proposal
    }

    fn deliver(&mut self) {
        let mut budget = 10_000;
        while let Some(message) = self.wire.pop_front() {
            budget -= 1;
            assert!(budget > 0, "the cluster does not settle");
            let to = (message.to - 1) as usize;
            let from = (message.from - 1) as usize;
            if self.cut_off[to] || self.cut_off[from] || self.nodes[to].is_none() {
                continue;
            }
            self.turn(to, Event::Message(message));
        }
    }

    fn tick(&mut self, at: usize) {
        if self.nodes[at].is_some() {
            self.turn(at, Event::Tick);
        }
    }

    fn elect(&mut self, at: usize) {
        let mut budget = 1000;
        while self.node(at).role() != StateRole::Leader {
            budget -= 1;
            assert!(budget > 0, "no leader was elected");
            self.tick(at);
            self.deliver();
        }
    }

    fn tick_all(&mut self, rounds: usize) {
        for _ in 0..rounds {
            for at in 0..self.nodes.len() {
                if !self.cut_off[at] {
                    self.tick(at);
                }
            }
            self.deliver();
        }
    }

    fn leaders(&self) -> Vec<usize> {
        (0..self.nodes.len())
            .filter(|at| self.nodes[*at].is_some() && !self.cut_off[*at])
            .filter(|at| self.node(*at).role() == StateRole::Leader)
            .collect()
    }

    fn propose(&mut self, at: usize, data: Vec<u8>) -> Result<(), RaftError> {
        let answer = self.turn(at, Event::Proposal(data)).unwrap();
        self.deliver();
        answer
    }

    fn heartbeat(&mut self, leader: usize) {
        for _ in 0..3 {
            self.tick(leader);
        }
        self.deliver();
    }

    fn crash(&mut self, at: usize) {
        let node = self.nodes[at].take().unwrap();
        let id = node.id();
        let store = node.into_storage();
        self.nodes[at] = Some(RaftNode::with_storage(id, store).unwrap());
    }

    fn value(&self, at: usize, name: &str) -> Option<f64> {
        self.machines[at].get_metric(name).map(f64::from_bits)
    }
}

fn sum_of(machine: &MetricsRegistry, name: &str) -> f64 {
    machine.values(name).unwrap().iter().map(|v| f64::from_bits(v.value)).sum()
}

#[test]
fn single_replica_becomes_leader_after_one_election_timeout() {
    let mut node = RaftNode::new(1, vec![1]).unwrap();
    assert_eq!(node.role(), StateRole::Follower);
    assert_eq!(node.term(), 0);
    let timeout = node.election_timeout();
    assert!((10..20).contains(&timeout));
    for _ in 0..timeout - 1 {
        node.tick();
        assert_eq!(node.role(), StateRole::Follower);
    }
    node.tick();
    assert_eq!(node.role(), StateRole::Leader);
    assert_eq!(node.term(), 1);
    assert_eq!(node.leader_id(), Some(1));
}

#[test]
fn single_replica_commits_proposals_at_once() {
    let mut node = RaftNode::new(1, vec![1]).unwrap();
    while node.role() != StateRole::Leader {
        node.tick();
    }
    let opening = node.handle_ready();
    // The leader opens its term with an empty entry, committed at once.
    assert_eq!(opening.committed_entries.len(), 1);
    assert_eq!(opening.committed_entries[0].index, 1);
    assert!(opening.committed_entries[0].data.is_empty());
    assert!(opening.messages.is_empty());

    assert_eq!(node.propose(record("cpu", 42.0)), Ok(()));
    assert_eq!(node.raft_log().committed(), 2);
    let bundle = node.handle_ready();
    assert_eq!(bundle.entries.len(), 1);
    assert_eq!(bundle.committed_entries.len(), 1);
    assert_eq!(bundle.committed_entries[0].index, 2);
    assert_eq!(bundle.committed_entries[0].term, 1);
    assert_eq!(bundle.committed_entries[0].data, record("cpu", 42.0));
    assert!(!node.has_ready());
}

#[test]
fn proposing_to_a_follower_fails_and_changes_nothing() {
    let mut node = RaftNode::new(1, vec![1, 2, 3]).unwrap();
    node.tick();
    let before = format!("{:?}", node);
    assert_eq!(node.propose(b"payload".to_vec()), Err(RaftError::NotLeader));
    assert_eq!(format!("{:?}", node), before);
    assert!(!node.has_ready());
}

#[test]
fn proposing_to_a_candidate_fails_and_changes_nothing() {
    let mut node = RaftNode::new(2, vec![1, 2, 3]).unwrap();
    while node.role() != StateRole::Candidate {
        node.tick();
    }
    let before = format!("{:?}", node);
    assert_eq!(node.propose(b"payload".to_vec()), Err(RaftError::NotLeader));
    assert_eq!(format!("{:?}", node), before);
}

#[test]
fn invalid_configurations_are_refused() {
    assert_eq!(RaftNode::new(0, vec![1, 2]).err(), Some(RaftError::ConfigInvalid));
    assert_eq!(RaftNode::new(1, vec![1, 2, 1]).err(), Some(RaftError::ConfigInvalid));
    assert!(RaftNode::new(1, vec![1, 2, 3]).is_ok());
}

#[test]
fn a_replica_outside_the_configuration_never_stands_for_election() {
    let mut node = RaftNode::new(9, vec![1, 2, 3]).unwrap();
    for _ in 0..100 {
        node.tick();
    }
    assert_eq!(node.role(), StateRole::Follower);
    assert_eq!(node.term(), 0);
    assert!(!node.has_ready());
}

#[test]
fn candidate_asks_every_other_peer_for_its_vote() {
    let mut node = RaftNode::new(2, vec![1, 2, 3]).unwrap();
    while node.role() != StateRole::Candidate {
        node.tick();
    }
    assert_eq!(node.term(), 1);
    let bundle = node.handle_ready();
    assert_eq!(bundle.hard_state.map(|hs| (hs.term, hs.vote)), Some((1, Some(2))));
    let asked: Vec<(MessageType, u64, u64, u64)> =
        bundle.messages.iter().map(|m| (m.msg_type, m.from, m.to, m.term)).collect();
    assert_eq!(
        asked,
        vec![(MessageType::RequestVote, 2, 1, 1), (MessageType::RequestVote, 2, 3, 1)]
    );
}

#[test]
fn three_replicas_agree_on_recorded_values() {
    let mut cluster = Cluster::new(3);
    cluster.elect(0);
    assert_eq!(cluster.leaders(), vec![0]);

    assert_eq!(cluster.propose(0, record("cpu", 42.0)), Ok(()));
    cluster.heartbeat(0);
    for at in 0..3 {
        assert_eq!(cluster.value(at, "cpu"), Some(42.0));
        let aggregate = cluster.machines[at].get_metric_aggregate("cpu").unwrap();
        assert_eq!(aggregate.count, 1);
        assert_eq!(f64::from_bits(aggregate.min), 42.0);
        assert_eq!(f64::from_bits(aggregate.max), 42.0);
        assert_eq!(f64::from_bits(aggregate.latest), 42.0);
        let sum = sum_of(&cluster.machines[at], "cpu");
        assert_eq!(sum, 42.0);
        assert_eq!(sum / aggregate.count as f64, 42.0);
    }

    assert_eq!(cluster.propose(0, record("cpu", 58.0)), Ok(()));
    cluster.heartbeat(0);
    for at in 0..3 {
        assert_eq!(cluster.value(at, "cpu"), Some(58.0));
        let aggregate = cluster.machines[at].get_metric_aggregate("cpu").unwrap();
        assert_eq!(aggregate.count, 2);
        assert_eq!(f64::from_bits(aggregate.min), 42.0);
        assert_eq!(f64::from_bits(aggregate.max), 58.0);
        let sum = sum_of(&cluster.machines[at], "cpu");
        assert_eq!(sum, 100.0);
        assert_eq!(sum / aggregate.count as f64, 50.0);
    }
}

#[test]
fn isolated_leader_is_replaced_and_refuses_proposals_after_it_rejoins() {
    let mut cluster = Cluster::new(3);
    cluster.elect(0);
    let old_term = cluster.node(0).term();

    cluster.cut_off[0] = true;
    cluster.wire.clear();
    let mut rounds = 0;
    while cluster.leaders().is_empty() {
        rounds += 1;
        assert!(rounds < 100, "no new leader within a few election timeouts");
        cluster.tick_all(1);
    }
    let leaders = cluster.leaders();
    assert_eq!(leaders.len(), 1);
    let new_leader = leaders[0];
    assert_ne!(new_leader, 0);
    assert!(cluster.node(new_leader).term() > old_term);

    // The old leader comes back and hears of the later term.
    cluster.cut_off[0] = false;
    cluster.heartbeat(new_leader);
    assert_eq!(cluster.node(0).role(), StateRole::Follower);
    assert_eq!(cluster.node(0).term(), cluster.node(new_leader).term());
    assert_eq!(cluster.node(0).leader_id(), Some(new_leader as u64 + 1));
    assert_eq!(cluster.propose(0, record("cpu", 1.0)), Err(RaftError::NotLeader));
    assert_eq!(cluster.propose(0, record("cpu", 1.0)), Err(RaftError::NotLeader));
    assert_eq!(cluster.leaders(), vec![new_leader]);
}

#[test]
fn committed_proposal_survives_rejoin_and_restart() {
    let mut cluster = Cluster::new(3);
    cluster.elect(0);
    cluster.heartbeat(0);

    // One replica is unreachable; two of three still make a majority.
    cluster.cut_off[2] = true;
    assert_eq!(cluster.propose(0, record("cpu", 42.0)), Ok(()));
    cluster.heartbeat(0);
    assert_eq!(cluster.value(0, "cpu"), Some(42.0));
    assert_eq!(cluster.value(1, "cpu"), Some(42.0));
    assert_eq!(cluster.value(2, "cpu"), None);

    // The third replica comes back and catches up.
    cluster.cut_off[2] = false;
    cluster.heartbeat(0);
    cluster.heartbeat(0);
    assert_eq!(cluster.value(2, "cpu"), Some(42.0));

    // Any one replica, the leader too, is stopped and started from its log.
    for stopped in 0..3 {
        let committed = cluster.node(stopped).raft_log().committed();
        cluster.crash(stopped);
        cluster.machines[stopped] = MetricsRegistry::new();
        assert_eq!(cluster.node(stopped).role(), StateRole::Follower);
        assert_eq!(cluster.node(stopped).raft_log().committed(), committed);
        let mut rounds = 0;
        while cluster.leaders().is_empty() {
            rounds += 1;
            assert!(rounds < 100);
            cluster.tick_all(1);
        }
        assert_eq!(cluster.leaders().len(), 1);
        let leader = cluster.leaders()[0];
        cluster.heartbeat(leader);
        cluster.heartbeat(leader);
        for at in 0..3 {
            assert_eq!(cluster.value(at, "cpu"), Some(42.0));
        }
    }
}

#[test]
fn entries_are_applied_in_order_and_once_across_a_crash_before_apply() {
    let mut node = RaftNode::new(1, vec![1]).unwrap();
    let mut machine = MetricsRegistry::new();
    while node.role() != StateRole::Leader {
        node.tick();
    }
    let opening = node.handle_ready();
    for entry in &opening.committed_entries {
        assert_eq!(machine.apply_raft_entry(entry, decode(&entry.data)), ApplyOutcome::Empty);
    }
    assert_eq!(node.propose(record("cpu", 1.0)), Ok(()));
    let first = node.handle_ready();
    for entry in &first.committed_entries {
        assert_eq!(machine.apply_raft_entry(entry, decode(&entry.data)), ApplyOutcome::Applied);
    }
    assert_eq!(machine.last_applied(), 2);

    // The next entry is persisted, and the replica stops before it applies it.
    assert_eq!(node.propose(record("cpu", 2.0)), Ok(()));
    let lost = node.handle_ready();
    assert_eq!(lost.committed_entries.len(), 1);
    drop(lost);
    assert_eq!(machine.last_applied(), 2);

    let store = node.into_storage();
    let mut node = RaftNode::with_storage(1, store).unwrap();
    assert_eq!(node.raft_log().committed(), 3);
    assert!(node.has_ready());
    let replay = node.handle_ready();
    let indices: Vec<u64> = replay.committed_entries.iter().map(|e| e.index).collect();
    assert_eq!(indices, vec![1, 2, 3]);
    let outcomes: Vec<ApplyOutcome> = replay
        .committed_entries
        .iter()
        .map(|entry| machine.apply_raft_entry(entry, decode(&entry.data)))
        .collect();
    assert_eq!(
        outcomes,
        vec![ApplyOutcome::AlreadyApplied, ApplyOutcome::AlreadyApplied, ApplyOutcome::Applied]
    );
    assert_eq!(machine.last_applied(), 3);
    assert_eq!(machine.values("cpu").unwrap().len(), 2);
    assert_eq!(machine.get_metric("cpu").map(f64::from_bits), Some(2.0));
    assert!(!node.has_ready());
}

#[test]
fn every_replica_applies_each_index_once_and_in_order() {
    let mut cluster = Cluster::new(3);
    cluster.elect(1);
    for round in 0..5 {
        assert_eq!(cluster.propose(1, record("load", round as f64)), Ok(()));
    }
    cluster.heartbeat(1);
    cluster.heartbeat(1);
    for at in 0..3 {
        let seen = &cluster.outcomes[at];
        assert_eq!(seen.len(), 6);
        for (position, (index, outcome)) in seen.iter().enumerate() {
            assert_eq!(*index, position as u64 + 1);
            assert_ne!(*outcome, ApplyOutcome::AlreadyApplied);
            assert_ne!(*outcome, ApplyOutcome::OutOfOrder);
        }
        assert_eq!(cluster.machines[at].last_applied(), 6);
        assert_eq!(cluster.machines[at].values("load").unwrap().len(), 5);
    }
}

#[test]
fn stale_request_is_refused_with_the_later_term() {
    let mut cluster = Cluster::new(3);
    cluster.elect(0);
    let term = cluster.node(0).term();
    let mut stale = Message::bare(MessageType::AppendEntries, 3, 1, term - 1);
    stale.index = 0;
    let node = cluster.nodes[0].as_mut().unwrap();
    node.step(stale);
    let bundle = node.handle_ready();
    let last = bundle.messages.last().unwrap();
    assert_eq!(last.msg_type, MessageType::AppendEntriesResponse);
    assert_eq!(last.to, 3);
    assert_eq!(last.term, term);
    assert!(last.reject);
    assert_eq!(node.role(), StateRole::Leader);
}

#[test]
fn leader_steps_down_on_a_later_term() {
    let mut cluster = Cluster::new(3);
    cluster.elect(0);
    let term = cluster.node(0).term();
    let later = Message::bare(MessageType::HeartbeatResponse, 2, 1, term + 5);
    let node = cluster.nodes[0].as_mut().unwrap();
    node.step(later);
    assert_eq!(node.role(), StateRole::Follower);
    assert_eq!(node.term(), term + 5);
    assert_eq!(node.leader_id(), None);
}

#[test]
fn lagging_replica_catches_up_from_the_leaders_snapshot() {
    let mut cluster = Cluster::new(3);
    cluster.elect(0);
    cluster.heartbeat(0);

    cluster.cut_off[2] = true;
    for value in [1.0, 2.0, 3.0] {
        assert_eq!(cluster.propose(0, record("cpu", value)), Ok(()));
    }
    assert_eq!(cluster.propose(0, record("mem", 7.5)), Ok(()));
    cluster.heartbeat(0);

    // The leader compacts everything it has applied.
    let applied = cluster.machines[0].last_applied();
    assert_eq!(applied, 5);
    let blob = blob_of(&cluster.machines[0]);
    let leader = cluster.nodes[0].as_mut().unwrap();
    assert_eq!(leader.compact(applied + 1, blob.clone()), Err(StorageError::Unavailable));
    assert_eq!(leader.compact(applied, blob.clone()), Ok(()));
    assert_eq!(leader.compact(applied, blob.clone()), Err(StorageError::SnapshotOutOfDate));
    assert_eq!(leader.raft_log().store().first_index(), 6);
    assert_eq!(leader.raft_log().last_index(), 5);
    assert_eq!(leader.raft_log().term(5), Some(leader.term()));
    assert_eq!(leader.raft_log().term(4), None);
    assert_eq!(
        leader.raft_log().store().entries(5, 6, None).err(),
        Some(StorageError::Compacted)
    );

    // What the lagging replica needs is gone from the log: it gets the snapshot.
    cluster.cut_off[2] = false;
    cluster.heartbeat(0);
    cluster.heartbeat(0);
    assert_eq!(cluster.restored, vec![0, 0, 1]);
    assert_eq!(cluster.machines[2].last_applied(), 5);
    assert_eq!(cluster.value(2, "cpu"), Some(3.0));
    assert_eq!(cluster.value(2, "mem"), Some(7.5));
    assert_eq!(cluster.machines[2].values("cpu").unwrap().len(), 3);
    assert_eq!(cluster.node(2).raft_log().committed(), 5);

    // And it follows the log from there.
    assert_eq!(cluster.propose(0, record("cpu", 4.0)), Ok(()));
    cluster.heartbeat(0);
    for at in 0..3 {
        assert_eq!(cluster.value(at, "cpu"), Some(4.0));
        assert_eq!(cluster.machines[at].last_applied(), 6);
    }
}

#[test]
fn snapshot_behind_the_commit_position_is_answered_and_ignored() {
    let mut cluster = Cluster::new(3);
    cluster.elect(0);
    assert_eq!(cluster.propose(0, record("cpu", 1.0)), Ok(()));
    cluster.heartbeat(0);
    let term = cluster.node(0).term();
    let committed = cluster.node(1).raft_log().committed();
    assert_eq!(committed, 2);

    let mut stale = Message::bare(MessageType::Snapshot, 1, 2, term);
    let mut snapshot = cluster.node(0).raft_log().store().snapshot(0, 2).unwrap();
    snapshot.metadata.index = 1;
    snapshot.metadata.conf_state = vec![1, 2, 3];
    stale.snapshot = Some(snapshot);
    let follower = cluster.nodes[1].as_mut().unwrap();
    follower.step(stale);
    let bundle = follower.handle_ready();
    assert!(bundle.snapshot.is_none());
    let answer = bundle.messages.last().unwrap();
    assert_eq!(answer.msg_type, MessageType::AppendEntriesResponse);
    assert_eq!((answer.to, answer.index, answer.reject), (1, committed, false));
    assert_eq!(follower.raft_log().last_index(), 2);
}

#[test]
fn replicas_join_and_leave_the_shard() {
    // Three replicas run, two of them make up the shard.
    let mut cluster = Cluster::with_configuration(3, vec![1, 2]);
    cluster.elect(0);
    assert_eq!(cluster.propose(0, record("cpu", 1.0)), Ok(()));
    cluster.heartbeat(0);
    assert_eq!(cluster.value(1, "cpu"), Some(1.0));
    assert_eq!(cluster.value(2, "cpu"), None);

    // The third joins: once the change is applied, the leader feeds it.
    let join = ConfChange { change_type: ConfChangeType::AddNode, node_id: 3 };
    assert_eq!(cluster.turn(1, Event::ConfChange(join)), Some(Err(RaftError::NotLeader)));
    assert_eq!(cluster.turn(0, Event::ConfChange(join)), Some(Ok(())));
    cluster.deliver();
    cluster.heartbeat(0);
    cluster.heartbeat(0);
    cluster.heartbeat(0);
    assert_eq!(cluster.value(2, "cpu"), Some(1.0));
    let last = cluster.node(0).raft_log().last_index();
    for at in 0..3 {
        assert_eq!(cluster.node(at).raft_log().committed(), last);
        assert_eq!(cluster.machines[at].last_applied(), last);
    }

    // Now a majority is two of three: with one replica cut off the shard
    // still commits, with two it does not.
    cluster.cut_off[1] = true;
    assert_eq!(cluster.propose(0, record("cpu", 2.0)), Ok(()));
    cluster.heartbeat(0);
    assert_eq!(cluster.value(0, "cpu"), Some(2.0));
    assert_eq!(cluster.value(2, "cpu"), Some(2.0));
    cluster.cut_off[2] = true;
    assert_eq!(cluster.propose(0, record("cpu", 3.0)), Ok(()));
    cluster.heartbeat(0);
    assert_eq!(cluster.value(0, "cpu"), Some(2.0));
    cluster.cut_off[1] = false;
    cluster.cut_off[2] = false;
    cluster.heartbeat(0);
    cluster.heartbeat(0);
    for at in 0..3 {
        assert_eq!(cluster.value(at, "cpu"), Some(3.0));
    }

    // The second replica leaves: the two that stay are a shard of two.
    let leave = ConfChange { change_type: ConfChangeType::RemoveNode, node_id: 2 };
    assert_eq!(cluster.turn(0, Event::ConfChange(leave)), Some(Ok(())));
    cluster.deliver();
    cluster.heartbeat(0);
    cluster.heartbeat(0);
    cluster.cut_off[1] = true;
    assert_eq!(cluster.propose(0, record("cpu", 4.0)), Ok(()));
    cluster.heartbeat(0);
    assert_eq!(cluster.value(0, "cpu"), Some(4.0));
    assert_eq!(cluster.value(2, "cpu"), Some(4.0));
    assert_eq!(cluster.value(1, "cpu"), Some(3.0));
}

#[test]
fn leader_that_leaves_the_shard_steps_down() {
    let mut cluster = Cluster::new(3);
    cluster.elect(0);
    cluster.heartbeat(0);
    let leave = ConfChange { change_type: ConfChangeType::RemoveNode, node_id: 1 };
    assert_eq!(cluster.turn(0, Event::ConfChange(leave)), Some(Ok(())));
    cluster.deliver();
    cluster.heartbeat(0);
    assert_eq!(cluster.node(0).role(), StateRole::Follower);
    cluster.cut_off[0] = true;
    let mut rounds = 0;
    while cluster.leaders().is_empty() {
        rounds += 1;
        assert!(rounds < 100);
        cluster.tick_all(1);
    }
    assert_eq!(cluster.leaders().len(), 1);
    let leader = cluster.leaders()[0];
    assert_eq!(cluster.propose(leader, record("cpu", 9.0)), Ok(()));
    cluster.heartbeat(leader);
    assert_eq!(cluster.value(1, "cpu"), Some(9.0));
    assert_eq!(cluster.value(2, "cpu"), Some(9.0));
    // The replica that left never stands for election again.
    cluster.cut_off[0] = false;
    let term = cluster.node(leader).term();
    cluster.tick_all(50);
    assert_eq!(cluster.node(leader).term(), term);
    assert_eq!(cluster.node(0).role(), StateRole::Follower);
}

#[test]
fn configuration_change_round_trip() {
    for change in [
        ConfChange { change_type: ConfChangeType::AddNode, node_id: 0 },
        ConfChange { change_type: ConfChangeType::AddNode, node_id: 0x0102_0304_0506_0708 },
        ConfChange { change_type: ConfChangeType::RemoveNode, node_id: u64::MAX },
    ] {
        let data = change.encode();
        assert_eq!(data.len(), 9);
        assert_eq!(ConfChange::decode(&data), Some(change));
    }
    let data = ConfChange { change_type: ConfChangeType::AddNode, node_id: 0x0102 }.encode();
    assert_eq!(data, vec![1, 2, 1, 0, 0, 0, 0, 0, 0]);
    assert_eq!(ConfChange::decode(&[]), None);
    assert_eq!(ConfChange::decode(&[3, 0, 0, 0, 0, 0, 0, 0, 0]), None);
    assert_eq!(ConfChange::decode(&[1, 0, 0, 0, 0, 0, 0, 0]), None);
    assert_eq!(ConfChange::decode(&[1, 0, 0, 0, 0, 0, 0, 0, 0, 0]), None);
}

#[test]
fn ticket_tells_the_fate_of_a_proposal() {
    let mut cluster = Cluster::new(3);
    cluster.elect(0);
    cluster.heartbeat(0);
    let term = cluster.node(0).term();
    let last = cluster.node(0).raft_log().last_index();

    let ticket = cluster.turn_with_ticket(0, Event::Proposal(record("cpu", 1.0))).unwrap().unwrap();
    assert_eq!(ticket, ProposalTicket { index: last + 1, term });
    cluster.deliver();
    cluster.heartbeat(0);
    let entry = cluster.node(0).raft_log().store().entry(ticket.index).unwrap();
    assert_eq!(ticket.fate(entry), Some(Ok(())));
    let other = cluster.node(0).raft_log().store().entry(ticket.index - 1).unwrap();
    assert_eq!(ticket.fate(other), None);

    // A proposal that a cut-off leader takes is lost to the next leader's entry.
    cluster.cut_off[0] = true;
    let lost = cluster.turn_with_ticket(0, Event::Proposal(record("cpu", 2.0))).unwrap().unwrap();
    assert_eq!(lost, ProposalTicket { index: ticket.index + 1, term });
    cluster.wire.clear();
    while cluster.leaders().is_empty() {
        cluster.tick_all(1);
    }
    let leader = cluster.leaders()[0];
    cluster.cut_off[0] = false;
    cluster.heartbeat(leader);
    cluster.heartbeat(leader);
    cluster.heartbeat(leader);
    let taken = cluster.node(0).raft_log().store().entry(lost.index).unwrap();
    assert!(taken.term > term);
    assert_eq!(lost.fate(taken), Some(Err(RaftError::NotLeader)));
    assert_eq!(cluster.value(0, "cpu"), Some(1.0));
    assert_eq!(
        cluster.turn_with_ticket(0, Event::Proposal(record("cpu", 3.0))),
        Some(Err(RaftError::NotLeader))
    );
}

#[test]
fn election_timeouts_differ_between_replicas() {
    let timeouts: Vec<u64> = (1..=3)
        .map(|id| RaftNode::new(id, vec![1, 2, 3]).unwrap().election_timeout())
        .collect();
    assert_eq!(timeouts, vec![11, 12, 13]);
}

#[test]
fn leader_with_a_full_log_drops_proposals() {
    let mut store = MemStorage::new();
    let mut snapshot = store.snapshot(0, 1).unwrap();
    snapshot.metadata.index = u64::MAX - 3;
    snapshot.metadata.term = 1;
    snapshot.metadata.conf_state = vec![1];
    assert_eq!(store.apply_snapshot(snapshot), Ok(()));
    let mut node = RaftNode::with_storage(1, store).unwrap();
    while node.role() != StateRole::Leader {
        node.tick();
    }
    // The entry that opens the term takes the last place the log has.
    assert_eq!(node.raft_log().last_index(), u64::MAX - 2);
    let before = format!("{:?}", node);
    assert_eq!(node.propose(b"late".to_vec()), Err(RaftError::ProposalDropped));
    assert_eq!(format!("{:?}", node), before);
    let change = ConfChange { change_type: ConfChangeType::AddNode, node_id: 2 };
    assert_eq!(node.propose_conf_change(change), Err(RaftError::ProposalDropped));
}

#[test]
fn store_without_room_is_refused() {
    let mut store = MemStorage::new();
    let mut snapshot = store.snapshot(0, 1).unwrap();
    snapshot.metadata.index = u64::MAX - 1;
    snapshot.metadata.conf_state = vec![1];
    assert_eq!(store.apply_snapshot(snapshot), Ok(()));
    assert_eq!(
        RaftNode::with_storage(1, store).err(),
        Some(RaftError::Store(StorageError::StorageFailure))
    );
}

#[test]
fn ready_and_advance_hand_entries_out_once() {
    let mut node = RaftNode::new(1, vec![1]).unwrap();
    while node.role() != StateRole::Leader {
        node.tick();
    }
    assert!(node.has_ready());
    let first = node.ready();
    assert_eq!(first.hard_state.map(|hs| (hs.term, hs.vote, hs.commit)), Some((1, Some(1), 1)));
    assert_eq!(first.entries.len(), 1);
    assert_eq!(first.committed_entries.len(), 1);
    // Until the bundle is done with, the store holds nothing of it.
    assert_eq!(node.raft_log().store().last_index(), 0);
    assert_eq!(node.raft_log().applied(), 0);
    node.advance(first);
    assert_eq!(node.raft_log().store().last_index(), 1);
    assert_eq!(node.raft_log().store().hard_state().term, 1);
    assert_eq!(node.raft_log().applied(), 1);
    assert!(!node.has_ready());

    assert_eq!(node.propose(b"a".to_vec()), Ok(()));
    assert_eq!(node.propose(b"b".to_vec()), Ok(()));
    let second = node.ready();
    let handed: Vec<u64> = second.committed_entries.iter().map(|e| e.index).collect();
    assert_eq!(handed, vec![2, 3]);
    node.advance_apply();
    assert_eq!(node.raft_log().applied(), 3);
    assert!(node.has_ready());
    node.advance(second);
    assert!(!node.has_ready());
    assert_eq!(node.raft_log().store().last_index(), 3);
}
