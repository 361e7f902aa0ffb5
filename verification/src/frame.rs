//! Length-delimited framing for the wire protocol.
//!
//! A frame is a 4-byte little-endian payload length followed by the payload
//! bytes. Inbound parsing is resumable across partial reads: bytes are fed
//! into a [`FrameBuf`] as they arrive, and complete frames are popped off the
//! front one at a time.

use vstd::prelude::*;
use vstd::bytes::*;
use vstd::slice::*;
use vstd::assert_seqs_equal;

verus! {

/// The largest payload a frame can carry: its length must fit the header.
pub open spec fn max_payload_len() -> nat {
    0xFFFF_FFFF
}

/// The encoded form of one frame: length header, then the payload.
pub open spec fn frame_spec(payload: Seq<u8>) -> Seq<u8>
    recommends
        payload.len() <= max_payload_len(),
{
    spec_u32_to_le_bytes(payload.len() as u32) + payload
}

/// Whether `s` starts with one complete frame.
pub open spec fn has_complete_frame(s: Seq<u8>) -> bool {
    s.len() >= 4 && s.len() >= 4 + spec_u32_from_le_bytes(s.subrange(0, 4))
}

/// The payload of the first complete frame of `s`.
pub open spec fn first_payload(s: Seq<u8>) -> Seq<u8>
    recommends
        has_complete_frame(s),
{
    s.subrange(4, 4 + spec_u32_from_le_bytes(s.subrange(0, 4)))
}

/// What remains of `s` after the first complete frame is removed.
pub open spec fn rest_after_frame(s: Seq<u8>) -> Seq<u8>
    recommends
        has_complete_frame(s),
{
    s.subrange(4 + spec_u32_from_le_bytes(s.subrange(0, 4)), s.len() as int)
}

/// Copies `v[start..end]` into a fresh vector.
pub fn copy_range(v: &Vec<u8>, start: usize, end: usize) -> (r: Vec<u8>)
    requires
        start <= end <= v@.len(),
    ensures
        r@ == v@.subrange(start as int, end as int),
{
    let s = slice_subrange(v.as_slice(), start, end);
    slice_to_vec(s)
}

/// Encodes `payload` as one frame: 4-byte little-endian length, then payload.
pub fn encode_frame(payload: &Vec<u8>) -> (r: Vec<u8>)
    requires
        payload@.len() <= max_payload_len(),
    ensures
        r@ == frame_spec(payload@),
{
    let mut r = u32_to_le_bytes(payload.len() as u32);
    let mut i: usize = 0;
    while i < payload.len()
        invariant
            i <= payload@.len() <= max_payload_len(),
            r@ == spec_u32_to_le_bytes(payload@.len() as u32) + payload@.subrange(0, i as int),
        decreases payload@.len() - i,
    {
        r.push(payload[i]);
        proof {
            assert_seqs_equal!(
                r@ == spec_u32_to_le_bytes(payload@.len() as u32)
                    + payload@.subrange(0, i + 1));
        }
        i = i + 1;
    }
    proof {
        assert_seqs_equal!(payload@.subrange(0, payload@.len() as int) == payload@);
    }
    r
}

/// Resumable inbound buffer: raw bytes in, whole frame payloads out.
pub struct FrameBuf {
    data: Vec<u8>,
}

impl View for FrameBuf {
    type V = Seq<u8>;

    closed spec fn view(&self) -> Seq<u8> {
        self.data@
    }
}

impl FrameBuf {
    /// An empty buffer.
    pub fn new() -> (r: FrameBuf)
        ensures
            r@ == Seq::<u8>::empty(),
    {
        FrameBuf { data: Vec::new() }
    }

    /// The number of buffered bytes.
    pub fn len(&self) -> (r: usize)
        ensures
            r == self@.len(),
    {
        self.data.len()
    }

    /// Appends newly received bytes to the end of the buffer.
    pub fn feed(&mut self, bytes: &Vec<u8>)
        ensures
            final(self)@ == old(self)@ + bytes@,
    {
        let mut i: usize = 0;
        while i < bytes.len()
            invariant
                i <= bytes@.len(),
                self@ == old(self)@ + bytes@.subrange(0, i as int),
            decreases bytes@.len() - i,
        {
            self.data.push(bytes[i]);
            proof {
                assert_seqs_equal!(self@ == old(self)@ + bytes@.subrange(0, i + 1));
            }
            i = i + 1;
        }
        proof {
            assert_seqs_equal!(bytes@.subrange(0, bytes@.len() as int) == bytes@);
        }
    }

    /// Discards all buffered bytes.
    pub fn clear(&mut self)
        ensures
            final(self)@ == Seq::<u8>::empty(),
    {
        self.data.clear();
    }

    /// Pops the first complete frame's payload off the front of the buffer,
    /// or returns `None`, leaving the buffer unchanged, when no complete
    /// frame has arrived yet.
    pub fn next_frame(&mut self) -> (r: Option<Vec<u8>>)
        ensures
            match r {
                None => {
                    &&& final(self)@ == old(self)@
                    &&& !has_complete_frame(old(self)@)
                },
                Some(p) => {
                    &&& has_complete_frame(old(self)@)
                    &&& p@ == first_payload(old(self)@)
                    &&& final(self)@ == rest_after_frame(old(self)@)
                },
            },
    {
        if self.data.len() < 4 {
            return None;
        }
        let header = slice_subrange(self.data.as_slice(), 0, 4);
        proof {
            assert_seqs_equal!(header@ == self.data@.subrange(0, 4));
        }
        let len32 = u32_from_le_bytes(header);
        let avail: u64 = (self.data.len() - 4) as u64;
        if avail < (len32 as u64) {
            return None;
        }
        let len = len32 as usize;
        let payload = copy_range(&self.data, 4, 4 + len);
        let rest = copy_range(&self.data, 4 + len, self.data.len());
        self.data = rest;
        Some(payload)
    }
}

/// Feeding one encoded frame followed by any trailing bytes yields exactly
/// that frame's payload, with the trailing bytes left over.
pub proof fn lemma_frame_roundtrip(payload: Seq<u8>, rest: Seq<u8>)
    requires
        payload.len() <= max_payload_len(),
    ensures
        has_complete_frame(frame_spec(payload) + rest),
        first_payload(frame_spec(payload) + rest) == payload,
        rest_after_frame(frame_spec(payload) + rest) == rest,
{
    let s = frame_spec(payload) + rest;
    lemma_auto_spec_u32_to_from_le_bytes();
    assert_seqs_equal!(s.subrange(0, 4) == spec_u32_to_le_bytes(payload.len() as u32));
    assert(spec_u32_from_le_bytes(s.subrange(0, 4)) == payload.len());
    assert_seqs_equal!(s.subrange(4, 4 + payload.len() as int) == payload);
    assert_seqs_equal!(s.subrange(4 + payload.len() as int, s.len() as int) == rest);
}

} // verus!
