//! The fixed-size binary snapshot record and its server-side delivery set.
use std::collections::HashSet;
use vstd::prelude::*;
use vstd::std_specs::hash::group_hash_axioms;

verus! {

broadcast use group_hash_axioms;

/// Length in bytes of one snapshot record on the wire.
pub const STATE_LEN: usize = 24;

/// The big-endian unsigned 32-bit value of the four bytes `b[start..start + 4]`.
pub open spec fn be_u32_at(b: Seq<u8>, start: int) -> int {
    b[start] * 0x1000000 + b[start + 1] * 0x10000 + b[start + 2] * 0x100 + b[start + 3]
}

/// The client-supplied timestamp carried by a record: bytes 1 to 4, big-endian.
pub open spec fn record_millis(b: Seq<u8>) -> int {
    be_u32_at(b, 1)
}

/// One snapshot as the registry sees it: its record bytes and the viewers it
/// has already been delivered to.
pub struct PlayerState {
    bytes: [u8; STATE_LEN],
    sent_to: HashSet<u8>,
}

impl PlayerState {
    /// The record bytes, forwarded verbatim to peers.
    pub closed spec fn bytes_view(&self) -> [u8; STATE_LEN] {
        self.bytes
    }

    /// The viewers this snapshot has been delivered to.
    pub closed spec fn sent_to_view(&self) -> Set<u8> {
        self.sent_to@
    }

    /// Creates a snapshot from its record bytes, not yet delivered to anyone.
    /// Also returns the record's player id (byte 0) and timestamp (bytes 1 to 4,
    /// big-endian).
    pub fn from_bytes(bytes: [u8; STATE_LEN]) -> (r: (u8, u32, Self))
        ensures
            r.0 == bytes@[0],
            r.1 as int == record_millis(bytes@),
            r.2.bytes_view() == bytes,
            r.2.sent_to_view() == Set::<u8>::empty(),
    {
        let id = bytes[0];
        let millis = read_be_u32(&bytes, 1);
        (id, millis, PlayerState { bytes, sent_to: HashSet::new() })
    }

    /// The record bytes.
    pub fn bytes(&self) -> (r: [u8; STATE_LEN])
        ensures
            r == self.bytes_view(),
    {
        self.bytes
    }

    /// Whether this snapshot has already been delivered to `viewer`.
    pub fn was_sent_to(&self, viewer: u8) -> (r: bool)
        ensures
            r == self.sent_to_view().contains(viewer),
    {
        self.sent_to.contains(&viewer)
    }

    /// Records that this snapshot has been delivered to `viewer`.
    pub fn mark_sent_to(&mut self, viewer: u8)
        ensures
            final(self).bytes_view() == old(self).bytes_view(),
            final(self).sent_to_view() == old(self).sent_to_view().insert(viewer),
    {
        self.sent_to.insert(viewer);
    }
}

/// Decodes a binary frame as a snapshot record: `None` unless it is exactly
/// `STATE_LEN` bytes long, else what `PlayerState::from_bytes` gives.
pub fn decode_record(frame: &[u8]) -> (r: Option<(u8, u32, PlayerState)>)
    ensures
        r is None <==> frame@.len() != STATE_LEN,
        r matches Some((id, millis, state)) ==> {
            &&& state.bytes_view()@ == frame@
            &&& id == frame@[0]
            &&& millis as int == record_millis(frame@)
            &&& state.sent_to_view() == Set::<u8>::empty()
        },
{
    if frame.len() != STATE_LEN {
        return None;
    }
    let mut bytes = [0u8; STATE_LEN];
    let mut i: usize = 0;
    while i < STATE_LEN
        invariant
            i <= STATE_LEN == frame@.len(),
            forall|j: int| 0 <= j < i ==> bytes@[j] == frame@[j],
        decreases STATE_LEN - i,
    {
        bytes[i] = frame[i];
        i = i + 1;
    }
    assert(bytes@ =~= frame@);
    Some(PlayerState::from_bytes(bytes))
}

/// Reads the big-endian unsigned 32-bit value at `b[start..start + 4]`.
pub fn read_be_u32(b: &[u8; STATE_LEN], start: usize) -> (r: u32)
    requires
        start + 4 <= STATE_LEN,
    ensures
        r as int == be_u32_at(b@, start as int),
{
    let b0 = b[start] as u32;
    let b1 = b[start + 1] as u32;
    let b2 = b[start + 2] as u32;
    let b3 = b[start + 3] as u32;
    assert(b0 * 0x1000000 + b1 * 0x10000 + b2 * 0x100 + b3 <= 0xffffffff) by (nonlinear_arith)
        requires
            b0 < 256,
            b1 < 256,
            b2 < 256,
            b3 < 256,
    ;
    b0 * 0x1000000 + b1 * 0x10000 + b2 * 0x100 + b3
}

} // verus!
