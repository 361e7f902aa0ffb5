//! The connection preamble: the first frame on every connection, identifying
//! the remote as a peer replica (a numeric server id) or as a client (a
//! 16-byte client identity).
//!
//! Encoding: a tag byte, then the identity in little-endian. A server
//! preamble is 9 bytes (tag 1, 8 id bytes); a client preamble is 17 bytes
//! (tag 2, 16 id bytes). Anything else is malformed.

use vstd::prelude::*;
use vstd::bytes::*;
use vstd::slice::*;
use vstd::assert_seqs_equal;

verus! {

/// The identity announced by the first frame on a connection.
#[derive(Clone, Copy, Debug, PartialEq, Eq, Structural)]
pub enum Preamble {
    /// The remote is a peer replica with this server id.
    Server(u64),
    /// The remote is a client with this 16-byte identity.
    Client(u128),
}

pub const TAG_SERVER: u8 = 1;

pub const TAG_CLIENT: u8 = 2;

/// The encoded form of a preamble.
pub open spec fn encode_spec(p: Preamble) -> Seq<u8> {
    match p {
        Preamble::Server(id) => seq![TAG_SERVER] + spec_u64_to_le_bytes(id),
        Preamble::Client(id) => seq![TAG_CLIENT] + spec_u128_to_le_bytes(id),
    }
}

/// What a payload decodes to: `None` means the preamble is malformed.
pub open spec fn decode_spec(s: Seq<u8>) -> Option<Preamble> {
    if s.len() == 9 && s[0] == TAG_SERVER {
        Some(Preamble::Server(spec_u64_from_le_bytes(s.subrange(1, 9))))
    } else if s.len() == 17 && s[0] == TAG_CLIENT {
        Some(Preamble::Client(spec_u128_from_le_bytes(s.subrange(1, 17))))
    } else {
        None
    }
}

/// Encodes a preamble for the wire.
pub fn encode(p: &Preamble) -> (r: Vec<u8>)
    ensures
        r@ == encode_spec(*p),
{
    proof {
        lemma_auto_spec_u64_to_from_le_bytes();
        lemma_auto_spec_u128_to_from_le_bytes();
    }
    match p {
        Preamble::Server(id) => {
            let mut r: Vec<u8> = Vec::new();
            r.push(TAG_SERVER);
            let mut idb = u64_to_le_bytes(*id);
            r.append(&mut idb);
            proof {
                assert_seqs_equal!(r@ == encode_spec(*p));
            }
            r
        },
        Preamble::Client(id) => {
            let mut r: Vec<u8> = Vec::new();
            r.push(TAG_CLIENT);
            let mut idb = u128_to_le_bytes(*id);
            r.append(&mut idb);
            proof {
                assert_seqs_equal!(r@ == encode_spec(*p));
            }
            r
        },
    }
}

/// Decodes a preamble payload; `None` when it is malformed.
pub fn decode(bytes: &Vec<u8>) -> (r: Option<Preamble>)
    ensures
        r == decode_spec(bytes@),
{
    if bytes.len() == 9 && bytes[0] == TAG_SERVER {
        let idb = slice_subrange(bytes.as_slice(), 1, 9);
        proof {
            assert_seqs_equal!(idb@ == bytes@.subrange(1, 9));
        }
        Some(Preamble::Server(u64_from_le_bytes(idb)))
    } else if bytes.len() == 17 && bytes[0] == TAG_CLIENT {
        let idb = slice_subrange(bytes.as_slice(), 1, 17);
        proof {
            assert_seqs_equal!(idb@ == bytes@.subrange(1, 17));
        }
        Some(Preamble::Client(u128_from_le_bytes(idb)))
    } else {
        None
    }
}

/// Decoding an encoded preamble gives back the identity that was encoded.
pub proof fn lemma_preamble_roundtrip(p: Preamble)
    ensures
        decode_spec(encode_spec(p)) == Some(p),
{
    lemma_auto_spec_u64_to_from_le_bytes();
    lemma_auto_spec_u128_to_from_le_bytes();
    let s = encode_spec(p);
    match p {
        Preamble::Server(id) => {
            assert_seqs_equal!(s.subrange(1, 9) == spec_u64_to_le_bytes(id));
        },
        Preamble::Client(id) => {
            assert_seqs_equal!(s.subrange(1, 17) == spec_u128_to_le_bytes(id));
        },
    }
}

} // verus!
