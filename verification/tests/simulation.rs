use raftmetrics::raft::driver::{handle_event, Event};
use raftmetrics::raft::entry::Entry;
use raftmetrics::raft::message::Message;
use raftmetrics::raft::model::StateRole;
use raftmetrics::raft::node::RaftNode;
use std::collections::HashMap;

struct Dice(u64);

impl Dice {
    fn roll(&mut self, sides: u64) -> u64 {
        self.0 = self.0.wrapping_mul(6364136223846793005).wrapping_add(1442695040888963407);
        (self.0 >> 33) % sides
    }
}

fn copy_of(message: &Message) -> Message {
    Message {
        msg_type: message.msg_type,
        to: message.to,
        from: message.from,
        term: message.term,
        log_term: message.log_term,
        index: message.index,
        entries: message.entries.clone(),
        commit: message.commit,
        reject: message.reject,
        reject_hint: message.reject_hint,
        snapshot: message.snapshot.clone(),
    }
}

struct World {
    nodes: Vec<RaftNode>,
    wire: Vec<Message>,
    cut_off: Vec<bool>,
    // What each replica has applied since it last started, in order.
    applied: Vec<Vec<u64>>,
    // The one entry that may ever be applied at an index, by term and payload.
    settled: HashMap<u64, (u64, Vec<u8>)>,
    // The one leader that a term may ever have.
    leaders: HashMap<u64, u64>,
    proposals: u64,
    highest_applied: u64,
}

impl World {
    fn new(size: usize) -> World {
        let ids: Vec<u64> = (1..=size as u64).collect();
        World {
            nodes: ids.iter().map(|id| RaftNode::new(*id, ids.clone()).unwrap()).collect(),
            wire: Vec::new(),
            cut_off: vec![false; size],
            applied: vec![Vec::new(); size],
            settled: HashMap::new(),
            leaders: HashMap::new(),
            proposals: 0,
            highest_applied: 0,
        }
    }

    fn apply(&mut self, at: usize, entry: &Entry) {
        let expected = self.applied[at].last().map_or(1, |last| last + 1);
        assert_eq!(entry.index, expected, "replica {} applies out of order", at + 1);
        self.applied[at].push(entry.index);
        let seen = self
            .settled
            .entry(entry.index)
            .or_insert_with(|| (entry.term, entry.data.clone()));
        assert_eq!(
            (seen.0, &seen.1),
            (entry.term, &entry.data),
            "two entries were applied at index {}",
            entry.index
        );
        self.highest_applied = self.highest_applied.max(entry.index);
    }

    fn observe(&mut self, at: usize) {
        let node = &self.nodes[at];
        if node.role() == StateRole::Leader {
            let leader = *self.leaders.entry(node.term()).or_insert(node.id());
            assert_eq!(leader, node.id(), "term {} has two leaders", node.term());
        }
        let log = node.raft_log();
        assert!(log.applied() <= log.committed());
        assert!(log.committed() <= log.last_index());
    }

    fn turn(&mut self, at: usize, event: Event) {
        let term_before = self.nodes[at].term();
        let committed_before = self.nodes[at].raft_log().committed();
        let turn = handle_event(&mut self.nodes[at], event);
        assert!(self.nodes[at].term() >= term_before);
        assert!(self.nodes[at].raft_log().committed() >= committed_before);
        if let Some(ready) = turn.ready {
            assert!(ready.snapshot.is_none());
            for message in ready.messages {
                assert_eq!(message.from, at as u64 + 1);
                self.wire.push(message);
            }
            for entry in &ready.committed_entries {
                self.apply(at, entry);
            }
        }
        self.observe(at);
    }

    fn restart(&mut self, at: usize) {
        let id = self.nodes[at].id();
        let committed = self.nodes[at].raft_log().committed();
        let node = std::mem::replace(&mut self.nodes[at], RaftNode::new(id, vec![id]).unwrap());
        let store = node.into_storage();
        self.nodes[at] = RaftNode::with_storage(id, store).unwrap();
        // What was persisted as committed is still committed.
        assert!(self.nodes[at].raft_log().committed() <= committed);
        self.applied[at].clear();
        self.observe(at);
    }

    fn step(&mut self, dice: &mut Dice) {
        let size = self.nodes.len();
        match dice.roll(100) {
            0..=39 => {
                let at = dice.roll(size as u64) as usize;
                self.turn(at, Event::Tick);
            }
            40..=84 => {
                if self.wire.is_empty() {
                    return;
                }
                let pick = dice.roll(self.wire.len() as u64) as usize;
                let message = if dice.roll(10) == 0 {
                    copy_of(&self.wire[pick])
                } else {
                    self.wire.swap_remove(pick)
                };
                let to = (message.to - 1) as usize;
                let from = (message.from - 1) as usize;
                let lost = dice.roll(10) == 0;
                if lost || self.cut_off[to] || self.cut_off[from] {
                    return;
                }
                self.turn(to, Event::Message(message));
            }
            85..=94 => {
                let at = dice.roll(size as u64) as usize;
                self.proposals += 1;
                let payload = format!("proposal {}", self.proposals).into_bytes();
                self.turn(at, Event::Proposal(payload));
            }
            95..=96 => {
                let at = dice.roll(size as u64) as usize;
                self.restart(at);
            }
            97 => {
                let at = dice.roll(size as u64) as usize;
                self.cut_off[at] = true;
            }
            _ => {
                for cut in self.cut_off.iter_mut() {
                    *cut = false;
                }
            }
        }
    }

    fn settle(&mut self) {
        for cut in self.cut_off.iter_mut() {
            *cut = false;
        }
        for _ in 0..400 {
            for at in 0..self.nodes.len() {
                self.turn(at, Event::Tick);
            }
            while let Some(message) = self.wire.pop() {
                let to = (message.to - 1) as usize;
                self.turn(to, Event::Message(message));
            }
        }
    }
}

fn run(size: usize, seed: u64, steps: usize) -> World {
    let mut dice = Dice(seed);
    let mut world = World::new(size);
    for _ in 0..steps {
        world.step(&mut dice);
    }
    world.settle();
    // Once the network is whole and quiet, the replicas agree on everything.
    let committed = world.nodes[0].raft_log().committed();
    let leaders: Vec<u64> = world
        .nodes
        .iter()
        .filter(|node| node.role() == StateRole::Leader)
        .map(|node| node.id())
        .collect();
    assert_eq!(leaders.len(), 1, "seed {}", seed);
    for (at, node) in world.nodes.iter().enumerate() {
        assert_eq!(node.raft_log().committed(), committed, "seed {}", seed);
        assert_eq!(node.raft_log().last_index(), committed, "seed {}", seed);
        assert_eq!(node.raft_log().applied(), committed, "seed {} replica {}", seed, at + 1);
    }
    assert!(world.highest_applied >= 1);
    world
}

#[test]
fn three_replicas_stay_consistent_under_faults() {
    for seed in 1..40 {
        run(3, seed, 3000);
    }
}

#[test]
fn five_replicas_stay_consistent_under_faults() {
    for seed in 100..120 {
        run(5, seed, 3000);
    }
}

#[test]
fn proposals_are_committed_while_a_majority_is_up() {
    let world = run(3, 7, 5000);
    assert!(world.proposals > 100);
    assert!(world.highest_applied > 20, "only {} entries applied", world.highest_applied);
}
