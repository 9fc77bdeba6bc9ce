//! Changes of a shard's configuration, and their form as the payload of a
//! log entry: one byte for the kind of change, then the replica's id as
//! eight bytes, least significant first.

use vstd::bytes::{
    lemma_auto_spec_u64_to_from_le_bytes, spec_u64_from_le_bytes, spec_u64_to_le_bytes,
    u64_from_le_bytes, u64_to_le_bytes,
};
use vstd::prelude::*;
use vstd::slice::slice_subrange;

verus! {

/// The kinds of configuration change.
#[derive(Clone, Copy, Debug, PartialEq, Eq, Structural)]
pub enum ConfChangeType {
    /// A replica joins the shard.
    AddNode,
    /// A replica leaves the shard.
    RemoveNode,
}

/// One change of a shard's configuration.
#[derive(Clone, Copy, Debug, PartialEq, Eq, Structural)]
pub struct ConfChange {
    pub change_type: ConfChangeType,
    pub node_id: u64,
}

/// The byte that stands for the addition of a replica.
pub const ADD_NODE_TAG: u8 = 1;

/// The byte that stands for the removal of a replica.
pub const REMOVE_NODE_TAG: u8 = 2;

/// The length of an encoded change.
pub const CONF_CHANGE_LEN: usize = 9;

/// The payload that stands for a change.
pub open spec fn spec_encode(change: ConfChange) -> Seq<u8> {
    seq![
        match change.change_type {
            ConfChangeType::AddNode => ADD_NODE_TAG,
            ConfChangeType::RemoveNode => REMOVE_NODE_TAG,
        },
    ] + spec_u64_to_le_bytes(change.node_id)
}

/// The change that a payload stands for, if it stands for one.
pub open spec fn spec_decode(data: Seq<u8>) -> Option<ConfChange> {
    if data.len() != CONF_CHANGE_LEN {
        None
    } else if data[0] == ADD_NODE_TAG {
        Some(
            ConfChange {
                change_type: ConfChangeType::AddNode,
                node_id: spec_u64_from_le_bytes(data.subrange(1, 9)),
            },
        )
    } else if data[0] == REMOVE_NODE_TAG {
        Some(
            ConfChange {
                change_type: ConfChangeType::RemoveNode,
                node_id: spec_u64_from_le_bytes(data.subrange(1, 9)),
            },
        )
    } else {
        None
    }
}

/// A change that was encoded is read back as it was.
pub proof fn lemma_decode_encode(change: ConfChange)
    ensures
        spec_decode(spec_encode(change)) == Some(change),
        spec_encode(change).len() == CONF_CHANGE_LEN,
{
    lemma_auto_spec_u64_to_from_le_bytes();
    let data = spec_encode(change);
    assert(spec_u64_to_le_bytes(change.node_id).len() == 8);
    assert(data.subrange(1, 9) =~= spec_u64_to_le_bytes(change.node_id));
}

impl ConfChange {
    /// The payload that stands for the change.
    pub fn encode(&self) -> (data: Vec<u8>)
        ensures
            data@ == spec_encode(*self),
            data@.len() == CONF_CHANGE_LEN,
    {
        let mut data: Vec<u8> = Vec::new();
        data.push(
            match self.change_type {
                ConfChangeType::AddNode => ADD_NODE_TAG,
                ConfChangeType::RemoveNode => REMOVE_NODE_TAG,
            },
        );
        let mut id: Vec<u8> = u64_to_le_bytes(self.node_id);
        data.append(&mut id);
        data
    }

    /// The change that a payload stands for, if it stands for one.
    pub fn decode(data: &[u8]) -> (change: Option<ConfChange>)
        ensures
            change == spec_decode(data@),
    {
        if data.len() != CONF_CHANGE_LEN {
            return None;
        }
        let tag: u8 = data[0];
        if tag != ADD_NODE_TAG && tag != REMOVE_NODE_TAG {
            return None;
        }
        let node_id: u64 = u64_from_le_bytes(slice_subrange(data, 1, 9));
        let change_type = if tag == ADD_NODE_TAG {
            ConfChangeType::AddNode
        } else {
            ConfChangeType::RemoveNode
        };
        Some(ConfChange { change_type, node_id })
    }
}

} // verus!
