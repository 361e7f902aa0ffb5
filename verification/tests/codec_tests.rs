//! Framing and preamble codec behaviour.

use raft_reactor::frame::{FrameBuf, encode_frame};
use raft_reactor::preamble::{self, Preamble};

#[test]
fn frame_round_trip_single() {
    let payload: Vec<u8> = vec![1, 2, 3, 4, 5];
    let framed = encode_frame(&payload);
    assert_eq!(framed.len(), 9);
    assert_eq!(&framed[..4], &[5, 0, 0, 0]);
    let mut buf = FrameBuf::new();
    buf.feed(&framed);
    assert_eq!(buf.next_frame(), Some(payload));
    assert_eq!(buf.next_frame(), None);
    assert_eq!(buf.len(), 0);
}

#[test]
fn frame_empty_payload() {
    let payload: Vec<u8> = Vec::new();
    let framed = encode_frame(&payload);
    assert_eq!(framed, vec![0, 0, 0, 0]);
    let mut buf = FrameBuf::new();
    buf.feed(&framed);
    assert_eq!(buf.next_frame(), Some(Vec::new()));
}

#[test]
fn frame_resumable_across_partial_reads() {
    let payload: Vec<u8> = (0..200).collect();
    let framed = encode_frame(&payload);
    let mut buf = FrameBuf::new();
    for b in &framed[..framed.len() - 1] {
        buf.feed(&vec![*b]);
        assert_eq!(buf.next_frame(), None);
    }
    buf.feed(&vec![framed[framed.len() - 1]]);
    assert_eq!(buf.next_frame(), Some(payload));
}

#[test]
fn frame_two_frames_in_order() {
    let p1: Vec<u8> = vec![9, 9];
    let p2: Vec<u8> = vec![7];
    let mut bytes = encode_frame(&p1);
    bytes.extend_from_slice(&encode_frame(&p2));
    let mut buf = FrameBuf::new();
    buf.feed(&bytes);
    assert_eq!(buf.next_frame(), Some(p1));
    assert_eq!(buf.next_frame(), Some(p2));
    assert_eq!(buf.next_frame(), None);
}

#[test]
fn frame_header_alone_is_incomplete() {
    let mut buf = FrameBuf::new();
    buf.feed(&vec![3, 0, 0, 0, 1]);
    assert_eq!(buf.next_frame(), None);
    assert_eq!(buf.len(), 5);
}

#[test]
fn preamble_server_round_trip() {
    let p = Preamble::Server(42);
    let bytes = preamble::encode(&p);
    assert_eq!(bytes.len(), 9);
    assert_eq!(bytes[0], preamble::TAG_SERVER);
    assert_eq!(preamble::decode(&bytes), Some(p));
}

#[test]
fn preamble_client_round_trip() {
    let p = Preamble::Client(0x00112233445566778899aabbccddeeff);
    let bytes = preamble::encode(&p);
    assert_eq!(bytes.len(), 17);
    assert_eq!(bytes[0], preamble::TAG_CLIENT);
    assert_eq!(preamble::decode(&bytes), Some(p));
}

#[test]
fn preamble_malformed_inputs() {
    assert_eq!(preamble::decode(&Vec::new()), None);
    assert_eq!(preamble::decode(&vec![0xFF; 9]), None);
    assert_eq!(preamble::decode(&vec![preamble::TAG_SERVER; 8]), None);
    assert_eq!(preamble::decode(&vec![preamble::TAG_SERVER; 17]), None);
    assert_eq!(preamble::decode(&vec![preamble::TAG_CLIENT; 9]), None);
    let mut short = preamble::encode(&Preamble::Server(1));
    short.pop();
    assert_eq!(preamble::decode(&short), None);
}
