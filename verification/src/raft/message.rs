//! The messages that replicas of one shard exchange.

use crate::raft::entry::{entry_views, Entry, EntryView, Snapshot, SnapshotView};
use vstd::prelude::*;

verus! {

/// The kinds of protocol message.
#[derive(Clone, Copy, Debug, PartialEq, Eq, Structural)]
pub enum MessageType {
    /// A candidate asks for a vote.
    RequestVote,
    /// The answer to a vote request.
    RequestVoteResponse,
    /// The leader offers log entries.
    AppendEntries,
    /// The answer to an offer of log entries.
    AppendEntriesResponse,
    /// The leader shows that it is alive.
    Heartbeat,
    /// The answer to a heartbeat.
    HeartbeatResponse,
    /// The leader sends its snapshot to a replica whose next entries were
    /// compacted away. It is answered like an offer of entries.
    Snapshot,
}

impl MessageType {
    /// Whether the message asks for something, rather than answers.
    pub open spec fn spec_is_request(self) -> bool {
        self == MessageType::RequestVote || self == MessageType::AppendEntries || self
            == MessageType::Heartbeat || self == MessageType::Snapshot
    }

    /// Whether the message asks for something, rather than answers.
    pub fn is_request(self) -> (request: bool)
        ensures
            request == self.spec_is_request(),
    {
        match self {
            MessageType::RequestVote => true,
            MessageType::AppendEntries => true,
            MessageType::Heartbeat => true,
            MessageType::Snapshot => true,
            _ => false,
        }
    }

    /// The kind of message that answers a request of this kind.
    pub open spec fn spec_response(self) -> MessageType {
        match self {
            MessageType::RequestVote => MessageType::RequestVoteResponse,
            MessageType::AppendEntries => MessageType::AppendEntriesResponse,
            MessageType::Heartbeat => MessageType::HeartbeatResponse,
            MessageType::Snapshot => MessageType::AppendEntriesResponse,
            other => other,
        }
    }

    /// The kind of message that answers a request of this kind.
    pub fn response(self) -> (kind: MessageType)
        ensures
            kind == self.spec_response(),
    {
        match self {
            MessageType::RequestVote => MessageType::RequestVoteResponse,
            MessageType::AppendEntries => MessageType::AppendEntriesResponse,
            MessageType::Heartbeat => MessageType::HeartbeatResponse,
            MessageType::Snapshot => MessageType::AppendEntriesResponse,
            other => other,
        }
    }

    /// Whether only a leader sends messages of this kind.
    pub open spec fn spec_from_leader(self) -> bool {
        self == MessageType::AppendEntries || self == MessageType::Heartbeat || self
            == MessageType::Snapshot
    }

    /// Whether only a leader sends messages of this kind.
    pub fn from_leader(self) -> (leader: bool)
        ensures
            leader == self.spec_from_leader(),
    {
        match self {
            MessageType::AppendEntries => true,
            MessageType::Heartbeat => true,
            MessageType::Snapshot => true,
            _ => false,
        }
    }
}

/// One protocol message.
#[derive(Debug)]
pub struct Message {
    pub msg_type: MessageType,
    /// The replica the message is for.
    pub to: u64,
    /// The replica that sent it.
    pub from: u64,
    /// The sender's term.
    pub term: u64,
    /// The term of the entry at `index`: of the entry before the offered
    /// ones, or of the candidate's last entry.
    pub log_term: u64,
    /// An index into the sender's log: of the entry before the offered ones,
    /// of the candidate's last entry, or of the last entry a follower holds
    /// of what was offered.
    pub index: u64,
    /// The entries offered.
    pub entries: Vec<Entry>,
    /// The sender's commit position.
    pub commit: u64,
    /// Whether a response refuses the request.
    pub reject: bool,
    /// With a refused offer: the last index of the refusing log, from which
    /// the leader may try again.
    pub reject_hint: u64,
    /// The leader's snapshot, in a message of that kind.
    pub snapshot: Option<Snapshot>,
}

/// The mathematical value of a [`Message`].
pub struct MessageView {
    pub msg_type: MessageType,
    pub to: u64,
    pub from: u64,
    pub term: u64,
    pub log_term: u64,
    pub index: u64,
    pub entries: Seq<EntryView>,
    pub commit: u64,
    pub reject: bool,
    pub reject_hint: u64,
    pub snapshot: Option<SnapshotView>,
}

/// The value of a snapshot that may be there.
pub open spec fn snapshot_view(snapshot: Option<Snapshot>) -> Option<SnapshotView> {
    match snapshot {
        Some(s) => Some(s@),
        None => None,
    }
}

impl View for Message {
    type V = MessageView;

    open spec fn view(&self) -> MessageView {
        MessageView {
            msg_type: self.msg_type,
            to: self.to,
            from: self.from,
            term: self.term,
            log_term: self.log_term,
            index: self.index,
            entries: entry_views(self.entries@),
            commit: self.commit,
            reject: self.reject,
            reject_hint: self.reject_hint,
            snapshot: snapshot_view(self.snapshot),
        }
    }
}

/// The values of a sequence of messages.
pub open spec fn message_views(messages: Seq<Message>) -> Seq<MessageView> {
    messages.map_values(|m: Message| m@)
}

impl MessageView {
    /// A message that carries nothing but its kind, its ends and a term.
    pub open spec fn bare(msg_type: MessageType, from: u64, to: u64, term: u64) -> MessageView {
        MessageView {
            msg_type,
            to,
            from,
            term,
            log_term: 0,
            index: 0,
            entries: Seq::empty(),
            commit: 0,
            reject: false,
            reject_hint: 0,
            snapshot: None,
        }
    }
}

impl Message {
    /// A message that carries nothing but its kind, its ends and a term.
    pub fn bare(msg_type: MessageType, from: u64, to: u64, term: u64) -> (message: Message)
        ensures
            message@ == MessageView::bare(msg_type, from, to, term),
    {
        let message = Message {
            msg_type,
            to,
            from,
            term,
            log_term: 0,
            index: 0,
            entries: Vec::new(),
            commit: 0,
            reject: false,
            reject_hint: 0,
            snapshot: None,
        };
        assert(message@.entries =~= Seq::<EntryView>::empty());
        message
    }
}

} // verus!
