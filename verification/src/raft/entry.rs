//! Log entries and the durable records of a replica, with their encoded size.

use vstd::prelude::*;

verus! {

/// What a log entry carries.
#[derive(Clone, Copy, Debug, PartialEq, Eq, Structural)]
pub enum EntryType {
    /// An opaque payload for the state machine.
    EntryNormal,
    /// A change of the shard's configuration.
    EntryConfChange,
}

impl EntryType {
    /// The number that stands for the entry type on the wire.
    pub open spec fn spec_number(self) -> u64 {
        match self {
            EntryType::EntryNormal => 0,
            EntryType::EntryConfChange => 1,
        }
    }

    /// The number that stands for the entry type on the wire.
    pub fn number(self) -> (n: u64)
        ensures
            n == self.spec_number(),
    {
        match self {
            EntryType::EntryNormal => 0,
            EntryType::EntryConfChange => 1,
        }
    }
}

/// One entry of a replicated log.
#[derive(Debug)]
pub struct Entry {
    pub entry_type: EntryType,
    /// The leadership epoch in which the entry was proposed.
    pub term: u64,
    /// The position of the entry in its log, counted from one.
    pub index: u64,
    /// The payload; the log store never looks inside.
    pub data: Vec<u8>,
}

/// The mathematical value of an [`Entry`].
pub struct EntryView {
    pub entry_type: EntryType,
    pub term: u64,
    pub index: u64,
    pub data: Seq<u8>,
}

impl View for Entry {
    type V = EntryView;

    open spec fn view(&self) -> EntryView {
        EntryView {
            entry_type: self.entry_type,
            term: self.term,
            index: self.index,
            data: self.data@,
        }
    }
}

/// The values of a sequence of entries.
pub open spec fn entry_views(entries: Seq<Entry>) -> Seq<EntryView> {
    entries.map_values(|e: Entry| e@)
}

impl Clone for Entry {
    fn clone(&self) -> (copy: Self)
        ensures
            copy@ == self@,
    {
        Entry {
            entry_type: self.entry_type,
            term: self.term,
            index: self.index,
            data: self.data.clone(),
        }
    }
}

/// The number of bytes that a variable-length integer takes on the wire: one
/// for every seven bits of the value, and one for zero.
pub open spec fn spec_varint_len(value: u64) -> nat {
    if value < 0x80 {
        1
    } else if value < 0x4000 {
        2
    } else if value < 0x20_0000 {
        3
    } else if value < 0x1000_0000 {
        4
    } else if value < 0x8_0000_0000 {
        5
    } else if value < 0x400_0000_0000 {
        6
    } else if value < 0x2_0000_0000_0000 {
        7
    } else if value < 0x100_0000_0000_0000 {
        8
    } else if value < 0x8000_0000_0000_0000 {
        9
    } else {
        10
    }
}

/// Calls `prost::encoding::encoded_len_varint`.
///
/// Trusted: the result is taken to be the length of the value in LEB128
/// form, which is one byte per started group of seven bits, between one and
/// ten bytes.
#[verifier::external_body]
fn varint_len(value: u64) -> (len: usize)
    ensures
        len == spec_varint_len(value),
{
    prost::encoding::encoded_len_varint(value)
}

/// The wire number of the entry type field.
pub const ENTRY_TYPE_TAG: u64 = 1;

/// The wire number of the term field.
pub const TERM_TAG: u64 = 2;

/// The wire number of the index field.
pub const INDEX_TAG: u64 = 3;

/// The wire number of the payload field.
pub const DATA_TAG: u64 = 4;

/// The size of an integer field: nothing when the value is zero, else the
/// field's key and the value as a variable-length integer.
pub open spec fn spec_uint_field_len(tag: u64, value: u64) -> nat
    recommends
        1 <= tag < 16,
{
    if value == 0 {
        0
    } else {
        spec_varint_len((tag * 8) as u64) + spec_varint_len(value)
    }
}

/// The size of a bytes field: nothing when it is empty, else the field's key,
/// the length as a variable-length integer, and the bytes.
pub open spec fn spec_bytes_field_len(tag: u64, len: nat) -> nat
    recommends
        1 <= tag < 16,
        len <= u64::MAX,
{
    if len == 0 {
        0
    } else {
        spec_varint_len((tag * 8) as u64) + spec_varint_len(len as u64) + len
    }
}

impl EntryView {
    /// The number of bytes that the entry takes when it is encoded as a
    /// protocol buffer message: fields that hold their default are left out.
    pub open spec fn encoded_len(self) -> nat {
        spec_uint_field_len(ENTRY_TYPE_TAG, self.entry_type.spec_number()) + spec_uint_field_len(
            TERM_TAG,
            self.term,
        ) + spec_uint_field_len(INDEX_TAG, self.index) + spec_bytes_field_len(
            DATA_TAG,
            self.data.len(),
        )
    }
}

/// The size of an integer field with a wire number below sixteen.
fn uint_field_len(tag: u64, value: u64) -> (len: u64)
    requires
        1 <= tag < 16,
    ensures
        len == spec_uint_field_len(tag, value),
        len <= 11,
{
    if value == 0 {
        0
    } else {
        let key: usize = varint_len(tag * 8);
        let body: usize = varint_len(value);
        (key + body) as u64
    }
}

impl Entry {
    /// The number of bytes that the entry takes when it is encoded.
    pub fn encoded_len(&self) -> (len: u128)
        ensures
            len == self@.encoded_len(),
            len <= 44 + usize::MAX,
    {
        let kind: u64 = uint_field_len(ENTRY_TYPE_TAG, self.entry_type.number());
        let term: u64 = uint_field_len(TERM_TAG, self.term);
        let index: u64 = uint_field_len(INDEX_TAG, self.index);
        let n: usize = self.data.len();
        let payload: u128 = if n == 0 {
            0
        } else {
            let key: usize = varint_len(DATA_TAG * 8);
            let prefix: usize = varint_len(n as u64);
            key as u128 + prefix as u128 + n as u128
        };
        kind as u128 + term as u128 + index as u128 + payload
    }
}

/// The whole encoded size of a sequence of entries.
pub open spec fn total_encoded_len(entries: Seq<EntryView>) -> nat
    decreases entries.len(),
{
    if entries.len() == 0 {
        0
    } else {
        total_encoded_len(entries.drop_last()) + entries.last().encoded_len()
    }
}

/// What a snapshot says about the log prefix it replaces.
#[derive(Debug)]
pub struct SnapshotMetadata {
    /// The index of the last entry that the snapshot covers.
    pub index: u64,
    /// The term of that entry.
    pub term: u64,
    /// The replicas of the shard at that point.
    pub conf_state: Vec<u64>,
}

/// A compacted prefix of the log: the state machine at `metadata.index`.
#[derive(Debug)]
pub struct Snapshot {
    pub metadata: SnapshotMetadata,
    /// The captured state machine; opaque to the log store.
    pub data: Vec<u8>,
}

/// The mathematical value of a [`Snapshot`].
pub struct SnapshotView {
    pub index: u64,
    pub term: u64,
    pub conf_state: Seq<u64>,
    pub data: Seq<u8>,
}

impl View for Snapshot {
    type V = SnapshotView;

    open spec fn view(&self) -> SnapshotView {
        SnapshotView {
            index: self.metadata.index,
            term: self.metadata.term,
            conf_state: self.metadata.conf_state@,
            data: self.data@,
        }
    }
}

impl Snapshot {
    /// The snapshot of a log from which nothing was compacted.
    pub fn empty() -> (snapshot: Snapshot)
        ensures
            snapshot@ == (SnapshotView { index: 0, term: 0, conf_state: Seq::empty(), data: Seq::empty() }),
    {
        Snapshot {
            metadata: SnapshotMetadata { index: 0, term: 0, conf_state: Vec::new() },
            data: Vec::new(),
        }
    }
}

impl Clone for Snapshot {
    fn clone(&self) -> (copy: Self)
        ensures
            copy@ == self@,
    {
        Snapshot {
            metadata: SnapshotMetadata {
                index: self.metadata.index,
                term: self.metadata.term,
                conf_state: self.metadata.conf_state.clone(),
            },
            data: self.data.clone(),
        }
    }
}

/// The term and vote that a replica must remember across a crash, and the
/// commit index it last knew.
#[derive(Clone, Copy, Debug, PartialEq, Eq, Structural)]
pub struct HardState {
    pub term: u64,
    /// The replica voted for in `term`, if any.
    pub vote: Option<u64>,
    pub commit: u64,
}

impl HardState {
    /// The record of a replica that has seen nothing yet.
    pub open spec fn spec_empty() -> HardState {
        HardState { term: 0, vote: None, commit: 0 }
    }

    /// The record of a replica that has seen nothing yet.
    pub fn empty() -> (hs: HardState)
        ensures
            hs == HardState::spec_empty(),
    {
        HardState { term: 0, vote: None, commit: 0 }
    }
}

} // verus!
