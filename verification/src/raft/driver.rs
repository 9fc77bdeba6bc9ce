//! One turn of the replication loop: an event goes into the node, and the
//! effects that the node then has come out, with the log store's share of
//! them carried out already.
//!
//! The loop itself, which waits for the timer, the peers and the callers,
//! belongs to the program that runs the replica. It hands each event to
//! [`handle_event`], sends the messages of the bundle that comes back, and
//! then applies the committed entries to the state machine.

use crate::raft::confchange::ConfChange;
use crate::raft::entry::{entry_views, Entry, EntryType};
use crate::raft::message::{Message, MessageView};
use crate::raft::model::{lemma_append_own_places_entry, NodeView, ReadyView, StateRole};
use crate::raft::node::{RaftError, RaftNode, Ready};
use vstd::prelude::*;

verus! {

/// What the replication loop waits for.
#[derive(Debug)]
pub enum Event {
    /// The interval timer fired.
    Tick,
    /// A message from a peer arrived.
    Message(Message),
    /// A caller proposed a payload.
    Proposal(Vec<u8>),
    /// A caller proposed a change of the configuration.
    ConfChange(ConfChange),
}

/// The mathematical value of an [`Event`].
pub enum EventView {
    Tick,
    Message(MessageView),
    Proposal(Seq<u8>),
    ConfChange(ConfChange),
}

impl View for Event {
    type V = EventView;

    open spec fn view(&self) -> EventView {
        match self {
            Event::Tick => EventView::Tick,
            Event::Message(m) => EventView::Message(m@),
            Event::Proposal(data) => EventView::Proposal(data@),
            Event::ConfChange(change) => EventView::ConfChange(*change),
        }
    }
}

/// Where a proposal that the leader took stands in the log. The proposal has
/// succeeded once the entry at `index` is committed and applied and carries
/// `term`; if an entry of another term is committed there, another leader
/// has taken over and the proposal is lost.
#[derive(Clone, Copy, Debug, PartialEq, Eq, Structural)]
pub struct ProposalTicket {
    pub index: u64,
    pub term: u64,
}

impl ProposalTicket {
    /// What a committed entry with the given index and term says of the
    /// proposal: nothing when it stands elsewhere in the log, success when it
    /// is the proposed entry, and `NotLeader` when it took its place.
    pub open spec fn spec_fate(self, index: u64, term: u64) -> Option<Result<(), RaftError>> {
        if index != self.index {
            None
        } else if term == self.term {
            Some(Ok(()))
        } else {
            Some(Err(RaftError::NotLeader))
        }
    }

    /// What a committed entry says of the proposal.
    pub fn fate(&self, committed: &Entry) -> (fate: Option<Result<(), RaftError>>)
        ensures
            fate == self.spec_fate(committed.index, committed.term),
    {
        if committed.index != self.index {
            None
        } else if committed.term == self.term {
            Some(Ok(()))
        } else {
            Some(Err(RaftError::NotLeader))
        }
    }
}

/// What one turn of the loop leaves for the program to do.
#[derive(Debug)]
pub struct Turn {
    /// The answer to the caller, when the event was a proposal: where the
    /// proposal stands in the log, or why it was refused.
    pub proposal: Option<Result<ProposalTicket, RaftError>>,
    /// The effects to carry out, when the node has any: the messages to
    /// send, then the committed entries to apply.
    pub ready: Option<Ready>,
}

/// What a proposal is answered with: a node that is not the leader refuses
/// it, and the leader places it behind the last entry of its log, in its
/// term.
pub open spec fn proposal_answer(s: NodeView) -> Result<ProposalTicket, RaftError> {
    if s.role != StateRole::Leader {
        Err(RaftError::NotLeader)
    } else if !s.has_room() {
        Err(RaftError::ProposalDropped)
    } else {
        Ok(ProposalTicket { index: (s.log.last_index() + 1) as u64, term: s.term })
    }
}

/// The node after it took in an event, before its effects are looked at.
pub open spec fn after_event(s: NodeView, event: EventView) -> NodeView {
    match event {
        EventView::Tick => s.tick(),
        EventView::Message(m) => s.step(m),
        EventView::Proposal(data) => if s.can_propose() {
            s.propose(data)
        } else {
            s
        },
        EventView::ConfChange(change) => if s.can_propose() {
            s.propose_conf_change(change)
        } else {
            s
        },
    }
}

/// The node at the end of a turn: where the event left effects, they were
/// taken, the log store's share of them was carried out, and the changes of
/// the configuration among the committed entries were applied.
pub open spec fn after_turn(s: NodeView, event: EventView) -> NodeView {
    let taken = after_event(s, event);
    if taken.has_ready() {
        taken.after_ready().advance().conf_applied(taken.ready().committed_entries, 0)
    } else {
        taken
    }
}

/// The effects that a turn leaves for the program, if any.
pub open spec fn turn_effects(s: NodeView, event: EventView) -> Option<ReadyView> {
    let taken = after_event(s, event);
    if taken.has_ready() {
        Some(taken.ready())
    } else {
        None
    }
}

/// Applies the changes of the configuration among committed entries to the
/// node, in the order of the entries.
pub fn apply_conf_changes(node: &mut RaftNode, entries: &Vec<Entry>)
    requires
        old(node).wf(),
    ensures
        final(node).wf(),
        final(node)@ == old(node)@.conf_applied(entry_views(entries@), 0),
{
    let ghost committed = entry_views(entries@);
    let mut position: usize = 0;
    while position < entries.len()
        invariant
            position <= entries.len(),
            committed == entry_views(entries@),
            node.wf(),
            node@.conf_applied(committed, position as int) == old(node)@.conf_applied(committed, 0),
        decreases entries.len() - position,
    {
        let entry = &entries[position];
        assert(committed[position as int] == entry@);
        let change: Option<ConfChange> = match entry.entry_type {
            EntryType::EntryConfChange => ConfChange::decode(entry.data.as_slice()),
            EntryType::EntryNormal => None,
        };
        match change {
            Some(c) => {
                node.apply_conf_change(c);
            },
            None => {},
        }
        position = position + 1;
    }
}

/// Hands an event to the node, and returns the answer to the caller when the
/// event was a proposal.
fn take_event(node: &mut RaftNode, event: Event) -> (proposal: Option<
    Result<ProposalTicket, RaftError>,
>)
    requires
        old(node).wf(),
    ensures
        final(node).wf(),
        final(node)@ == after_event(old(node)@, event@),
        proposal == match event@ {
            EventView::Proposal(_) => Some(proposal_answer(old(node)@)),
            EventView::ConfChange(_) => Some(proposal_answer(old(node)@)),
            _ => None,
        },
{
    match event {
        Event::Tick => {
            node.tick();
            None
        },
        Event::Message(m) => {
            node.step(m);
            None
        },
        Event::Proposal(data) => {
            proof {
                if node@.can_propose() {
                    lemma_append_own_places_entry(node@, EntryType::EntryNormal, data@);
                }
            }
            match node.propose(data) {
                Ok(()) => Some(Ok(ticket_of(node))),
                Err(e) => Some(Err(e)),
            }
        },
        Event::ConfChange(change) => {
            proof {
                if node@.can_propose() {
                    lemma_append_own_places_entry(
                        node@,
                        EntryType::EntryConfChange,
                        crate::raft::confchange::spec_encode(change),
                    );
                }
            }
            match node.propose_conf_change(change) {
                Ok(()) => Some(Ok(ticket_of(node))),
                Err(e) => Some(Err(e)),
            }
        },
    }
}

/// The ticket for the last entry of the node's log.
fn ticket_of(node: &RaftNode) -> (ticket: ProposalTicket)
    requires
        node.wf(),
    ensures
        ticket == (ProposalTicket { index: node@.log.last_index() as u64, term: node@.term }),
{
    ProposalTicket { index: node.raft_log().last_index(), term: node.term() }
}

/// Takes the node's effects, if it has any: persists the hard state and the
/// new entries, and applies the changes of the configuration among the
/// committed entries.
fn take_effects(node: &mut RaftNode) -> (ready: Option<Ready>)
    requires
        old(node).wf(),
    ensures
        final(node).wf(),
        ready is Some <==> old(node)@.has_ready(),
        ready matches Some(bundle) ==> bundle@ == old(node)@.ready(),
        final(node)@ == if old(node)@.has_ready() {
            old(node)@.after_ready().advance().conf_applied(old(node)@.ready().committed_entries, 0)
        } else {
            old(node)@
        },
{
    if node.has_ready() {
        let bundle = node.handle_ready();
        apply_conf_changes(node, &bundle.committed_entries);
        Some(bundle)
    } else {
        None
    }
}

/// Runs one turn of the replication loop.
///
/// The event is handed to the node: a tick advances its clock, a message is
/// stepped, a proposal of a payload or of a change of the configuration is
/// proposed and its answer is kept for the caller, so that a proposal to a
/// node that is not the leader fails at once. If the
/// node then has effects, they are taken once, the hard state and the new
/// entries are persisted, the changes of the configuration among the
/// committed entries are applied, and the bundle is returned.
pub fn handle_event(node: &mut RaftNode, event: Event) -> (turn: Turn)
    requires
        old(node).wf(),
    ensures
        final(node).wf(),
        final(node)@ == after_turn(old(node)@, event@),
        turn.proposal == match event@ {
            EventView::Proposal(_) => Some(proposal_answer(old(node)@)),
            EventView::ConfChange(_) => Some(proposal_answer(old(node)@)),
            _ => None,
        },
        turn.ready is Some <==> turn_effects(old(node)@, event@) is Some,
        turn.ready matches Some(bundle) ==> Some(bundle@) == turn_effects(old(node)@, event@),
{
    let proposal: Option<Result<ProposalTicket, RaftError>> = take_event(node, event);
    let ready: Option<Ready> = take_effects(node);
    Turn { proposal, ready }
}

} // verus!
