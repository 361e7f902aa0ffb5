//! One framed-message endpoint over one TCP socket.
//!
//! The connection owns the protocol state around the socket — classification,
//! assigned token, resumable inbound buffer, outbound frame queue with a
//! partial-write cursor, and the peer reconnect back-off — while the socket
//! itself lives with the unverified I/O shell, keyed by the same token.

use vstd::prelude::*;
use crate::frame::{
    FrameBuf, copy_range, encode_frame, first_payload, frame_spec, has_complete_frame,
    max_payload_len, rest_after_frame,
};
use crate::preamble;

verus! {

/// The first reconnect back-off, in milliseconds.
pub const RECONNECT_INITIAL_MS: u64 = 100;

/// The reconnect back-off ceiling, in milliseconds.
pub const RECONNECT_MAX_MS: u64 = 30_000;

/// What the remote end of a connection is.
#[derive(Clone, Copy, Debug, PartialEq, Eq, Structural)]
pub enum ConnectionKind {
    /// A peer replica with this server id.
    Peer(u64),
    /// A client with this 16-byte identity.
    Client(u128),
    /// An accepted socket whose preamble has not arrived yet.
    Unknown,
}

pub open spec fn is_peer(k: ConnectionKind) -> bool {
    k matches ConnectionKind::Peer(_)
}

pub open spec fn is_client(k: ConnectionKind) -> bool {
    k matches ConnectionKind::Client(_)
}

/// The abstract state of a connection.
pub ghost struct ConnView {
    /// Classification: peer, client, or not yet identified.
    pub kind: ConnectionKind,
    /// The connection-table token; 0 until assigned.
    pub token: usize,
    /// The remote address a peer is reconnected to, fixed at construction.
    pub addr: Seq<u8>,
    /// False while a peer sits disconnected awaiting its reconnect timer.
    pub open: bool,
    /// The next reconnect back-off duration, in milliseconds.
    pub backoff_ms: u64,
    /// Buffered inbound bytes not yet assembled into a frame.
    pub inbuf: Seq<u8>,
    /// Outbound frames (already framed), head first.
    pub outq: Seq<Seq<u8>>,
    /// How many bytes of the head frame have already been written.
    pub sent: usize,
}

impl ConnView {
    /// A connection asks for writable readiness exactly while frames wait.
    pub open spec fn wants_write(self) -> bool {
        self.outq.len() > 0
    }

    /// The bytes of the head frame still to be written.
    pub open spec fn head_rest(self) -> Seq<u8>
        recommends
            self.outq.len() > 0,
    {
        self.outq[0].subrange(self.sent as int, self.outq[0].len() as int)
    }

    /// Queued frames are nonempty and the partial-write cursor stays inside
    /// the head frame.
    pub open spec fn wf(self) -> bool {
        &&& forall|i: int| 0 <= i < self.outq.len() ==> (#[trigger] self.outq[i]).len() > 0
        &&& if self.outq.len() > 0 {
            self.sent < self.outq[0].len()
        } else {
            self.sent == 0
        }
    }
}

/// A nonblocking framed-message endpoint; see the module doc.
pub struct Connection {
    kind: ConnectionKind,
    token: usize,
    addr: Vec<u8>,
    open: bool,
    backoff_ms: u64,
    inbuf: FrameBuf,
    outq: Vec<Vec<u8>>,
    sent: usize,
}

impl View for Connection {
    type V = ConnView;

    closed spec fn view(&self) -> ConnView {
        ConnView {
            kind: self.kind,
            token: self.token,
            addr: self.addr@,
            open: self.open,
            backoff_ms: self.backoff_ms,
            inbuf: self.inbuf@,
            outq: self.outq.deep_view(),
            sent: self.sent,
        }
    }
}

impl Connection {
    /// Wraps a just-accepted inbound socket: classification unknown, token
    /// not yet assigned, everything else empty.
    pub fn unknown() -> (c: Connection)
        ensures
            c@ == (ConnView {
                kind: ConnectionKind::Unknown,
                token: 0,
                addr: Seq::<u8>::empty(),
                open: true,
                backoff_ms: RECONNECT_INITIAL_MS,
                inbuf: Seq::<u8>::empty(),
                outq: Seq::<Seq<u8>>::empty(),
                sent: 0,
            }),
            c@.wf(),
    {
        let c = Connection {
            kind: ConnectionKind::Unknown,
            token: 0,
            addr: Vec::new(),
            open: true,
            backoff_ms: RECONNECT_INITIAL_MS,
            inbuf: FrameBuf::new(),
            outq: Vec::new(),
            sent: 0,
        };
        proof {
            assert(c@.outq =~= Seq::<Seq<u8>>::empty());
        }
        c
    }

    /// Constructs an outbound peer endpoint in disconnected state with empty
    /// queues; the remote address is fixed here for every later reconnect.
    pub fn peer(id: u64, addr: Vec<u8>) -> (c: Connection)
        ensures
            c@ == (ConnView {
                kind: ConnectionKind::Peer(id),
                token: 0,
                addr: addr@,
                open: false,
                backoff_ms: RECONNECT_INITIAL_MS,
                inbuf: Seq::<u8>::empty(),
                outq: Seq::<Seq<u8>>::empty(),
                sent: 0,
            }),
            c@.wf(),
    {
        let c = Connection {
            kind: ConnectionKind::Peer(id),
            token: 0,
            addr,
            open: false,
            backoff_ms: RECONNECT_INITIAL_MS,
            inbuf: FrameBuf::new(),
            outq: Vec::new(),
            sent: 0,
        };
        proof {
            assert(c@.outq =~= Seq::<Seq<u8>>::empty());
        }
        c
    }

    /// The connection's classification.
    pub fn kind(&self) -> (k: ConnectionKind)
        ensures
            k == self@.kind,
    {
        self.kind
    }

    /// The connection's assigned token; 0 until assigned.
    pub fn token(&self) -> (t: usize)
        ensures
            t == self@.token,
    {
        self.token
    }

    /// The peer's remote address.
    pub fn addr(&self) -> (a: Vec<u8>)
        ensures
            a@ == self@.addr,
    {
        copy_range(&self.addr, 0, self.addr.len())
    }

    /// Whether the connection currently has a live socket.
    pub fn is_open(&self) -> (r: bool)
        ensures
            r == self@.open,
    {
        self.open
    }

    /// One-shot: records the table token, once inserted.
    pub fn set_token(&mut self, t: usize)
        requires
            old(self)@.token == 0,
            t > 0,
        ensures
            final(self)@ == (ConnView { token: t, ..old(self)@ }),
    {
        self.token = t;
    }

    /// One-shot: promotes an unknown connection to peer or client; a
    /// connection never reverts to unknown.
    pub fn set_kind(&mut self, k: ConnectionKind)
        requires
            old(self)@.kind == ConnectionKind::Unknown,
            k != ConnectionKind::Unknown,
        ensures
            final(self)@ == (ConnView { kind: k, ..old(self)@ }),
    {
        self.kind = k;
    }

    /// Enqueues one frame carrying `payload`. Returns true when the queue
    /// was empty, so the caller must now ask for writable readiness.
    pub fn send_message(&mut self, payload: &Vec<u8>) -> (became_writable: bool)
        requires
            old(self)@.wf(),
            payload@.len() <= max_payload_len(),
        ensures
            final(self)@ == (ConnView {
                outq: old(self)@.outq.push(frame_spec(payload@)),
                ..old(self)@
            }),
            final(self)@.wf(),
            became_writable == !old(self)@.wants_write(),
    {
        let was_empty = self.outq.len() == 0;
        let f = encode_frame(payload);
        proof {
            vstd::bytes::lemma_auto_spec_u32_to_from_le_bytes();
        }
        assert(f@.len() >= 4);
        self.outq.push(f);
        proof {
            assert(self@.outq =~~= old(self)@.outq.push(frame_spec(payload@)));
        }
        was_empty
    }

    /// The bytes of the head frame still to be written, for the I/O shell to
    /// push into the socket; `None` when nothing waits.
    pub fn pending_chunk(&self) -> (r: Option<Vec<u8>>)
        requires
            self@.wf(),
        ensures
            match r {
                None => !self@.wants_write(),
                Some(c) => self@.wants_write() && c@ == self@.head_rest() && c@.len() > 0,
            },
    {
        if self.outq.len() == 0 {
            return None;
        }
        let head = &self.outq[0];
        Some(copy_range(head, self.sent, head.len()))
    }

    /// Acknowledges that `n` bytes of the head frame reached the socket;
    /// a fully-sent frame leaves the queue. Returns true when the queue
    /// just emptied, so the caller must drop writable interest.
    pub fn advance_write(&mut self, n: usize) -> (emptied: bool)
        requires
            old(self)@.wf(),
            old(self)@.wants_write(),
            n <= old(self)@.head_rest().len(),
        ensures
            final(self)@.wf(),
            n < old(self)@.head_rest().len() ==> final(self)@ == (ConnView {
                sent: (old(self)@.sent + n) as usize,
                ..old(self)@
            }),
            n == old(self)@.head_rest().len() ==> final(self)@ == (ConnView {
                sent: 0,
                outq: old(self)@.outq.drop_first(),
                ..old(self)@
            }),
            emptied == !final(self)@.wants_write(),
    {
        let head_len = self.outq[0].len();
        if n < head_len - self.sent {
            self.sent = self.sent + n;
            false
        } else {
            self.outq.remove(0);
            self.sent = 0;
            proof {
                assert(self@.outq =~~= old(self)@.outq.drop_first());
            }
            self.outq.len() == 0
        }
    }

    /// Buffers newly received bytes.
    pub fn feed(&mut self, bytes: &Vec<u8>)
        ensures
            final(self)@ == (ConnView { inbuf: old(self)@.inbuf + bytes@, ..old(self)@ }),
    {
        self.inbuf.feed(bytes);
    }

    /// Pops the next fully-received frame payload, if one is available.
    pub fn next_frame(&mut self) -> (r: Option<Vec<u8>>)
        ensures
            match r {
                None => {
                    &&& final(self)@ == old(self)@
                    &&& !has_complete_frame(old(self)@.inbuf)
                },
                Some(p) => {
                    &&& has_complete_frame(old(self)@.inbuf)
                    &&& p@ == first_payload(old(self)@.inbuf)
                    &&& final(self)@ == (ConnView {
                        inbuf: rest_after_frame(old(self)@.inbuf),
                        ..old(self)@
                    })
                },
            },
    {
        self.inbuf.next_frame()
    }

    /// Tears a faulted peer connection down to its disconnected substate:
    /// both buffers are discarded and the back-off doubles up to its ceiling.
    /// Returns the duration to arm the reconnect timer with.
    pub fn reset_peer(&mut self) -> (d: u64)
        requires
            is_peer(old(self)@.kind),
        ensures
            d == old(self)@.backoff_ms,
            final(self)@ == (ConnView {
                open: false,
                backoff_ms: if 2 * old(self)@.backoff_ms <= RECONNECT_MAX_MS {
                    (2 * old(self)@.backoff_ms) as u64
                } else {
                    RECONNECT_MAX_MS
                },
                inbuf: Seq::<u8>::empty(),
                outq: Seq::<Seq<u8>>::empty(),
                sent: 0,
            ..old(self)@
            }),
            final(self)@.wf(),
    {
        let d = self.backoff_ms;
        self.open = false;
        self.backoff_ms = if d <= RECONNECT_MAX_MS / 2 {
            2 * d
        } else {
            RECONNECT_MAX_MS
        };
        self.inbuf.clear();
        self.outq = Vec::new();
        self.sent = 0;
        proof {
            assert(self@.outq =~= Seq::<Seq<u8>>::empty());
            if 2 * d <= RECONNECT_MAX_MS {
                assert(d <= RECONNECT_MAX_MS / 2);
            }
        }
        d
    }

    /// Prepares a fresh outbound connect to the peer's fixed address: the
    /// connection comes back up with exactly the local preamble queued.
    /// The I/O shell must open a socket to the returned address.
    pub fn reconnect_peer(&mut self, local_id: u64) -> (addr: Vec<u8>)
        requires
            is_peer(old(self)@.kind),
        ensures
            addr@ == old(self)@.addr,
            final(self)@ == (ConnView {
                open: true,
                inbuf: Seq::<u8>::empty(),
                outq: seq![
                    frame_spec(preamble::encode_spec(preamble::Preamble::Server(local_id)))
                ],
                sent: 0,
                ..old(self)@
            }),
            final(self)@.wf(),
    {
        self.open = true;
        self.inbuf.clear();
        let p = preamble::encode(&preamble::Preamble::Server(local_id));
        proof {
            vstd::bytes::lemma_auto_spec_u64_to_from_le_bytes();
        }
        let f = encode_frame(&p);
        proof {
            vstd::bytes::lemma_auto_spec_u32_to_from_le_bytes();
        }
        assert(f@.len() >= 4);
        let mut q: Vec<Vec<u8>> = Vec::new();
        q.push(f);
        self.outq = q;
        self.sent = 0;
        proof {
            assert(self@.outq =~~= seq![
                frame_spec(preamble::encode_spec(preamble::Preamble::Server(local_id)))
            ]);
        }
        copy_range(&self.addr, 0, self.addr.len())
    }
}

} // verus!
