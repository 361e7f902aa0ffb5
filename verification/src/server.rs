//! The reactor: owns the connection table, both secondary indexes and the
//! timer registry, and turns readiness events, received frames and timer
//! expirations into state updates plus effects.
//!
//! The reactor is split from its I/O: every socket and scheduler operation it
//! decides on is returned as an [`Effect`] for the unverified shell to carry
//! out, and everything the outside world produces (accepted sockets, received
//! bytes, replica-emitted [`Actions`], fired timers) comes in as an argument.
//! The replica itself is such an outside collaborator: frames addressed to it
//! leave as `Apply*` effects, and the `Actions` it answers with come back
//! through [`Server::execute_actions`].

use vstd::prelude::*;
use crate::clientmap::ClientMap;
use crate::connection::{
    Connection, ConnectionKind, ConnView, RECONNECT_INITIAL_MS, RECONNECT_MAX_MS, is_peer,
    is_client,
};
use crate::frame::{first_payload, frame_spec, has_complete_frame, max_payload_len,
    rest_after_frame};
use crate::idmap::IdMap;
use crate::preamble;
use crate::table::{ConnTable, table_at, table_has, valid_token};
use crate::timer::{ServerTimeout, TimerRegistry, TimerView};
use crate::Error;

verus! {

/// One instruction to the unverified I/O shell.
#[derive(Clone, Debug, PartialEq, Eq)]
pub enum Effect {
    /// Bind the listening socket and register it at token 0, readable.
    RegisterListener,
    /// Register the just-accepted socket under this token, readable.
    Register(usize),
    /// Open a fresh outbound socket to this connection's address and
    /// register it under the token, readable and writable.
    Connect(usize),
    /// Add or drop writable interest for this token's socket.
    SetWritable(usize, bool),
    /// Remove this token's socket from the multiplexer and drop it, without
    /// touching the table (the peer connection stays, disconnected).
    Deregister(usize),
    /// Remove this token's socket from the multiplexer and drop it; the
    /// table entry is gone.
    Close(usize),
    /// Schedule a one-shot timer under this handle for the identity, with
    /// the duration in milliseconds.
    Arm(usize, ServerTimeout, u64),
    /// Cancel the scheduler entry under this handle.
    Cancel(usize),
    /// Hand this frame to the replica's peer-message hook, then feed the
    /// returned `Actions` back into `execute_actions`.
    ApplyPeer(u64, Vec<u8>),
    /// As `ApplyPeer`, for the client-message hook.
    ApplyClient(u128, Vec<u8>),
    /// Call the replica's timeout hook, then feed the returned `Actions`
    /// back into `execute_actions`.
    ApplyTimeout(u64),
}

/// What one replica invocation asks the reactor to do, in order: outbound
/// peer and client messages, then timer maintenance.
pub struct Actions {
    /// Frames to enqueue on peer connections, by server id.
    pub peer_messages: Vec<(u64, Vec<u8>)>,
    /// Frames to enqueue on client connections, by client id; a message to a
    /// client that is no longer connected is silently dropped.
    pub client_messages: Vec<(u128, Vec<u8>)>,
    /// Replica timeouts to arm, each with its duration in milliseconds.
    pub timeouts: Vec<(u64, u64)>,
    /// Cancel every armed replica timeout first.
    pub clear_timeouts: bool,
}

impl Actions {
    /// An empty bundle: nothing to send, nothing to arm, nothing to clear.
    pub fn new() -> (r: Actions)
        ensures
            r.peer_messages@ == Seq::<(u64, Vec<u8>)>::empty(),
            r.client_messages@ == Seq::<(u128, Vec<u8>)>::empty(),
            r.timeouts@ == Seq::<(u64, u64)>::empty(),
            !r.clear_timeouts,
    {
        Actions {
            peer_messages: Vec::new(),
            client_messages: Vec::new(),
            timeouts: Vec::new(),
            clear_timeouts: false,
        }
    }
}

/// The abstract state of the reactor.
pub ghost struct ServerView {
    /// This server's id.
    pub id: u64,
    /// The connection table: slot `t - 1` holds the connection at token `t`.
    pub table: Seq<Option<ConnView>>,
    /// Peer id to connection token; fixed keys, set at startup.
    pub peer_tokens: Map<u64, usize>,
    /// Client id to connection token.
    pub client_tokens: Map<u128, usize>,
    /// The timer registry.
    pub timers: TimerView,
}

/// The default bound on simultaneous connections, the listener aside.
pub const DEFAULT_MAX_CONNECTIONS: usize = 128;

/// The frame every (re)connecting peer endpoint announces itself with.
pub open spec fn preamble_frame(id: u64) -> Seq<u8> {
    frame_spec(preamble::encode_spec(preamble::Preamble::Server(id)))
}

/// Whether some entry of `peers` carries the id.
pub open spec fn peers_contain(peers: Seq<(u64, Vec<u8>)>, id: u64) -> bool {
    exists|i: int| 0 <= i < peers.len() && (#[trigger] peers[i]).0 == id
}

/// The connection a freshly constructed reactor holds for the `i`th
/// configured peer: disconnected at token `i + 1`, the local preamble queued.
pub open spec fn initial_peer_conn(local_id: u64, peer: (u64, Vec<u8>), t: usize) -> ConnView {
    ConnView {
        kind: ConnectionKind::Peer(peer.0),
        token: t,
        addr: peer.1@,
        open: false,
        backoff_ms: RECONNECT_INITIAL_MS,
        inbuf: Seq::<u8>::empty(),
        outq: seq![preamble_frame(local_id)],
        sent: 0,
    }
}

impl ServerView {
    /// The reactor's invariants, over all reachable states:
    /// - every connection in the table sits at the token it records;
    /// - every peer-index entry points at a connection classified as exactly
    ///   that peer (so no two entries share a token);
    /// - every client-index entry points at a connection classified as
    ///   exactly that client;
    /// - every armed reconnect timer belongs to a live peer connection;
    /// - every connection classified as a client is the one its index entry
    ///   points at.
    pub open spec fn wf(self) -> bool {
        &&& forall|t: usize|
            table_has(self.table, t) ==> (#[trigger] table_at(self.table, t)).token == t
                && table_at(self.table, t).wf()
        &&& forall|pid: u64|
            #[trigger] self.peer_tokens.contains_key(pid) ==> table_has(
                self.table,
                self.peer_tokens[pid],
            ) && table_at(self.table, self.peer_tokens[pid]).kind == ConnectionKind::Peer(pid)
        &&& forall|cid: u128|
            #[trigger] self.client_tokens.contains_key(cid) ==> table_has(
                self.table,
                self.client_tokens[cid],
            ) && table_at(self.table, self.client_tokens[cid]).kind == ConnectionKind::Client(cid)
        &&& forall|k: u64|
            #[trigger] self.timers.reconnect.contains_key(k) ==> k <= usize::MAX && table_has(
                self.table,
                k as usize,
            ) && is_peer(table_at(self.table, k as usize).kind)
        &&& forall|t: usize|
            table_has(self.table, t) && is_client((#[trigger] table_at(self.table, t)).kind)
                ==> self.client_tokens.contains_key(table_at(self.table, t).kind->Client_0)
                && self.client_tokens[table_at(self.table, t).kind->Client_0] == t
    }
}

/// The reactor; see the module doc.
pub struct Server {
    id: u64,
    table: ConnTable,
    peer_tokens: IdMap,
    client_tokens: ClientMap,
    timers: TimerRegistry,
}

impl View for Server {
    type V = ServerView;

    closed spec fn view(&self) -> ServerView {
        ServerView {
            id: self.id,
            table: self.table@,
            peer_tokens: self.peer_tokens@,
            client_tokens: self.client_tokens@,
            timers: self.timers@,
        }
    }
}

impl Server {
    /// The representation invariant: the view invariants of
    /// [`ServerView::wf`] plus well-formedness of the index maps and the
    /// timer registry. Constructors establish it; every method keeps it.
    pub closed spec fn wf(&self) -> bool {
        &&& self.peer_tokens.wf()
        &&& self.client_tokens.wf()
        &&& self.timers.wf()
        &&& self@.wf()
    }

    /// A well-formed reactor satisfies every view-level invariant.
    pub proof fn lemma_wf_view(&self)
        requires
            self.wf(),
        ensures
            self@.wf(),
    {
    }

    /// Constructs the reactor: an empty table of `max_connections` slots,
    /// one disconnected peer connection per configured peer at tokens
    /// `1, 2, ...` in input order, each with the local preamble already
    /// queued, and empty client and timer state. The effects ask the shell
    /// to bind the listener and open one outbound socket per peer.
    ///
    /// The peer set must not contain the local id: that is a configuration
    /// impossible to run, answered with `Fatal`, on which the caller must
    /// abort. More peers than the table holds is `ConnectionLimitReached`.
    pub fn new(id: u64, peers: Vec<(u64, Vec<u8>)>, max_connections: usize) -> (r: Result<
        (Server, Vec<Effect>),
        Error,
    >)
        requires
            forall|i: int, j: int|
                0 <= i < j < peers@.len() ==> (#[trigger] peers@[i]).0 != (#[trigger] peers@[j]).0,
        ensures
            r == Err::<(Server, Vec<Effect>), Error>(Error::Fatal) <==> peers_contain(peers@, id),
            r == Err::<(Server, Vec<Effect>), Error>(Error::ConnectionLimitReached) <==> (
            !peers_contain(peers@, id) && peers@.len() > max_connections),
            r is Ok <==> (!peers_contain(peers@, id) && peers@.len() <= max_connections),
            r matches Ok(p) ==> {
                let s = p.0;
                let eff = p.1;
                &&& s.wf()
                &&& peers@.len() <= max_connections
                &&& s@.id == id
                &&& s@.table.len() == max_connections
                &&& s@.client_tokens == Map::<u128, usize>::empty()
                &&& s@.timers.replica == Map::<u64, usize>::empty()
                &&& s@.timers.reconnect == Map::<u64, usize>::empty()
                &&& s@.timers.next_handle == 1
                &&& forall|i: int|
                    0 <= i < peers@.len() ==> {
                        &&& s@.peer_tokens.contains_key((#[trigger] peers@[i]).0)
                        &&& s@.peer_tokens[peers@[i].0] == i + 1
                        &&& table_has(s@.table, (i + 1) as usize)
                        &&& table_at(s@.table, (i + 1) as usize) == initial_peer_conn(
                            id,
                            peers@[i],
                            (i + 1) as usize,
                        )
                    }
                &&& forall|pid: u64|
                    #[trigger] s@.peer_tokens.contains_key(pid) ==> peers_contain(peers@, pid)
                &&& forall|t: usize|
                    table_has(s@.table, t) ==> 1 <= t <= peers@.len()
                &&& eff@.len() == 1 + peers@.len()
                &&& eff@[0] == Effect::RegisterListener
                &&& forall|i: int|
                    0 <= i < peers@.len() ==> #[trigger] eff@[i + 1] == Effect::Connect(
                        (i + 1) as usize,
                    )
            },
    {
        proof {
            vstd::bytes::lemma_auto_spec_u32_to_from_le_bytes();
            vstd::bytes::lemma_auto_spec_u64_to_from_le_bytes();
        }
        let n = peers.len();
        let mut i: usize = 0;
        while i < n
            invariant
                n == peers@.len(),
                i <= n,
                forall|j: int| 0 <= j < i ==> (#[trigger] peers@[j]).0 != id,
            decreases n - i,
        {
            if peers[i].0 == id {
                return Err(Error::Fatal);
            }
            i = i + 1;
        }
        assert(!peers_contain(peers@, id));
        if n > max_connections {
            return Err(Error::ConnectionLimitReached);
        }

        let mut table = ConnTable::new(max_connections);
        let mut peer_tokens = IdMap::new();
        let mut effects: Vec<Effect> = Vec::new();
        effects.push(Effect::RegisterListener);

        let mut i: usize = 0;
        while i < n
            invariant
                n == peers@.len(),
                i <= n,
                n <= max_connections,
                forall|a: int, b: int|
                    0 <= a < b < peers@.len() ==> (#[trigger] peers@[a]).0 != (
                    #[trigger] peers@[b]).0,
                table@.len() == max_connections,
                forall|j: int|
                    0 <= j < i ==> table@[j] == Some(
                        initial_peer_conn(id, peers@[j], (j + 1) as usize),
                    ),
                forall|j: int| i <= j < max_connections ==> table@[j] is None,
                peer_tokens.wf(),
                forall|j: int|
                    0 <= j < i ==> peer_tokens@.contains_key((#[trigger] peers@[j]).0)
                        && peer_tokens@[peers@[j].0] == j + 1,
                forall|pid: u64|
                    #[trigger] peer_tokens@.contains_key(pid) ==> exists|j: int|
                        0 <= j < i && (#[trigger] peers@[j]).0 == pid,
                effects@.len() == 1 + i,
                effects@[0] == Effect::RegisterListener,
                forall|j: int|
                    0 <= j < i ==> #[trigger] effects@[j + 1] == Effect::Connect((j + 1) as usize),
            decreases n - i,
        {
            let pid = peers[i].0;
            let addr = crate::frame::copy_range(&peers[i].1, 0, peers[i].1.len());
            proof {
                assert(addr@ =~= peers@[i as int].1@);
            }
            let mut conn = Connection::peer(pid, addr);
            let p = preamble::encode(&preamble::Preamble::Server(id));
            proof {
                vstd::bytes::lemma_auto_spec_u32_to_from_le_bytes();
                vstd::bytes::lemma_auto_spec_u64_to_from_le_bytes();
            }
            let _ = conn.send_message(&p);
            proof {
                assert(conn@.outq =~= seq![preamble_frame(id)]);
                assert(conn@ == (ConnView {
                    token: 0,
                    ..initial_peer_conn(id, peers@[i as int], (i + 1) as usize)
                }));
            }
            let ghost tpre = table@;
            let t = match table.insert(conn) {
                Some(t) => t,
                None => {
                    proof {
                        assert(valid_token(table@, (i + 1) as usize));
                        assert(table@[i as int] is None);
                        assert(false);
                    }
                    return Err(Error::Fatal);
                },
            };
            proof {
                if t > i + 1 {
                    assert(table_has(tpre, (i + 1) as usize));
                } else if t < i + 1 {
                    assert(tpre[t - 1] is Some);
                    assert(table_has(tpre, t));
                }
                assert(t == i + 1);
                assert(table@[i as int] == Some(
                    initial_peer_conn(id, peers@[i as int], (i + 1) as usize),
                ));
            }
            let _ = peer_tokens.insert(pid, t);
            effects.push(Effect::Connect(t));
            i = i + 1;
        }

        let s = Server {
            id,
            table,
            peer_tokens,
            client_tokens: ClientMap::new(),
            timers: TimerRegistry::new(),
        };
        proof {
            assert forall|t: usize| table_has(s@.table, t) implies (#[trigger] table_at(
                s@.table,
                t,
            )).token == t && table_at(s@.table, t).wf() && 1 <= t <= peers@.len() by {
                assert(s@.table[t - 1] is Some);
                assert(t - 1 < n);
            }
        }
        Ok((s, effects))
    }

    /// This server's id.
    pub fn id(&self) -> (r: u64)
        ensures
            r == self@.id,
    {
        self.id
    }

    /// The number of connection slots.
    pub fn max_connections(&self) -> (r: usize)
        ensures
            r == self@.table.len(),
    {
        self.table.capacity()
    }

    /// The token of the connection serving this peer, if any.
    pub fn peer_token(&self, pid: u64) -> (r: Option<usize>)
        requires
            self.wf(),
        ensures
            r == if self@.peer_tokens.contains_key(pid) {
                Some(self@.peer_tokens[pid])
            } else {
                None::<usize>
            },
    {
        self.peer_tokens.get(pid)
    }

    /// The token of the connection serving this client, if any.
    pub fn client_token(&self, cid: u128) -> (r: Option<usize>)
        requires
            self.wf(),
        ensures
            r == if self@.client_tokens.contains_key(cid) {
                Some(self@.client_tokens[cid])
            } else {
                None::<usize>
            },
    {
        self.client_tokens.get(cid)
    }

    /// Whether a connection occupies token `t`.
    pub fn has_connection(&self, t: usize) -> (r: bool)
        ensures
            r == table_has(self@.table, t),
    {
        self.table.has(t)
    }

    /// The classification of the connection at token `t`.
    pub fn kind_of(&self, t: usize) -> (r: Option<ConnectionKind>)
        ensures
            r == if table_has(self@.table, t) {
                Some(table_at(self@.table, t).kind)
            } else {
                None::<ConnectionKind>
            },
    {
        match self.table.get(t) {
            Some(c) => Some(c.kind()),
            None => None,
        }
    }

    /// Whether the connection at token `t` currently has a live socket.
    pub fn is_open(&self, t: usize) -> (r: Option<bool>)
        ensures
            r == if table_has(self@.table, t) {
                Some(table_at(self@.table, t).open)
            } else {
                None::<bool>
            },
    {
        match self.table.get(t) {
            Some(c) => Some(c.is_open()),
            None => None,
        }
    }

    /// The remote address of the connection at token `t`; the shell opens
    /// outbound sockets (`Effect::Connect`) to it.
    pub fn connection_addr(&self, t: usize) -> (r: Option<Vec<u8>>)
        ensures
            match r {
                Some(a) => table_has(self@.table, t) && a@ == table_at(self@.table, t).addr,
                None => !table_has(self@.table, t),
            },
    {
        match self.table.get(t) {
            Some(c) => Some(c.addr()),
            None => None,
        }
    }


    /// Takes in a just-accepted inbound socket: a connection of unknown
    /// classification enters the table at the lowest free token, which the
    /// shell must register for readable readiness. When the table is full
    /// the accept fails with `ConnectionLimitReached` and the shell drops
    /// the socket; nothing else is disturbed.
    pub fn accept(&mut self) -> (r: Result<(usize, Vec<Effect>), Error>)
        requires
            old(self).wf(),
        ensures
            final(self).wf(),
            final(self)@.id == old(self)@.id,
            match r {
                Err(e) => {
                    &&& e == Error::ConnectionLimitReached
                    &&& final(self)@ == old(self)@
                    &&& forall|t: usize|
                        valid_token(old(self)@.table, t) ==> table_has(old(self)@.table, t)
                },
                Ok(p) => {
                    let t = p.0;
                    &&& valid_token(old(self)@.table, t)
                    &&& !table_has(old(self)@.table, t)
                    &&& forall|u: usize| 1 <= u < t ==> table_has(old(self)@.table, u)
                    &&& final(self)@ == (ServerView {
                        table: old(self)@.table.update(
                            t - 1,
                            Some(ConnView {
                                kind: ConnectionKind::Unknown,
                                token: t,
                                addr: Seq::<u8>::empty(),
                                open: true,
                                backoff_ms: RECONNECT_INITIAL_MS,
                                inbuf: Seq::<u8>::empty(),
                                outq: Seq::<Seq<u8>>::empty(),
                                sent: 0,
                            }),
                        ),
                        ..old(self)@
                    })
                    &&& p.1@ == seq![Effect::Register(t)]
                },
            },
    {
        let c = Connection::unknown();
        let t = match self.table.insert(c) {
            Some(t) => t,
            None => {
                return Err(Error::ConnectionLimitReached);
            },
        };
        let mut eff: Vec<Effect> = Vec::new();
        eff.push(Effect::Register(t));
        proof {
            assert(eff@ =~= seq![Effect::Register(t)]);
            let pre = old(self)@;
            let post = self@;
            assert(post.table =~= pre.table.update(
                t - 1,
                Some(ConnView {
                    kind: ConnectionKind::Unknown,
                    token: t,
                    addr: Seq::<u8>::empty(),
                    open: true,
                    backoff_ms: RECONNECT_INITIAL_MS,
                    inbuf: Seq::<u8>::empty(),
                    outq: Seq::<Seq<u8>>::empty(),
                    sent: 0,
                }),
            ));
            assert(post =~= (ServerView { table: post.table, ..pre }));
            assert forall|t2: usize| table_has(post.table, t2) implies (#[trigger] table_at(
                post.table,
                t2,
            )).token == t2 && table_at(post.table, t2).wf() by {
                if t2 != t {
                    assert(post.table[t2 - 1] == pre.table[t2 - 1]);
                    assert(table_has(pre.table, t2));
                    assert(table_at(post.table, t2) == table_at(pre.table, t2));
                } else {
                    assert(table_at(post.table, t).token == t);
                }
            }
            assert forall|pid: u64| #[trigger] post.peer_tokens.contains_key(pid) implies table_has(
                post.table,
                post.peer_tokens[pid],
            ) && table_at(post.table, post.peer_tokens[pid]).kind == ConnectionKind::Peer(pid) by {
                assert(pre.peer_tokens[pid] != t);
            }
            assert forall|cid: u128|
                #[trigger] post.client_tokens.contains_key(cid) implies table_has(
                post.table,
                post.client_tokens[cid],
            ) && table_at(post.table, post.client_tokens[cid]).kind == ConnectionKind::Client(
                cid,
            ) by {
                assert(pre.client_tokens[cid] != t);
            }
            assert forall|k: u64| #[trigger] post.timers.reconnect.contains_key(k) implies k
                <= usize::MAX && table_has(post.table, k as usize) && is_peer(
                table_at(post.table, k as usize).kind,
            ) by {
                assert(k as usize != t);
            }
            assert forall|t2: usize|
                table_has(post.table, t2) && is_client(
                    (#[trigger] table_at(post.table, t2)).kind,
                ) implies post.client_tokens.contains_key(
                table_at(post.table, t2).kind->Client_0,
            ) && post.client_tokens[table_at(post.table, t2).kind->Client_0] == t2 by {
                assert(t2 != t);
                assert(post.table[t2 - 1] == pre.table[t2 - 1]);
                assert(table_at(post.table, t2) == table_at(pre.table, t2));
            }
        }
        Ok((t, eff))
    }

    /// Buffers bytes the shell just read from the socket at token `t`; whole
    /// frames are then popped one at a time with [`Server::handle_frame`].
    pub fn feed(&mut self, t: usize, bytes: &Vec<u8>)
        requires
            old(self).wf(),
            table_has(old(self)@.table, t),
        ensures
            final(self).wf(),
            final(self)@ == (ServerView {
                table: old(self)@.table.update(
                    t - 1,
                    Some(ConnView {
                        inbuf: table_at(old(self)@.table, t).inbuf + bytes@,
                        ..table_at(old(self)@.table, t)
                    }),
                ),
                ..old(self)@
            }),
    {
        let mut c = match self.table.take(t) {
            Some(c) => c,
            None => {
                proof {
                    assert(false);
                }
                return ;
            },
        };
        c.feed(bytes);
        self.table.put(t, c);
        proof {
            let pre = old(self)@;
            let post = self@;
            assert(post.table =~= pre.table.update(
                t - 1,
                Some(ConnView { inbuf: table_at(pre.table, t).inbuf + bytes@, ..table_at(pre.table, t) }),
            ));
            assert(post =~= (ServerView { table: post.table, ..pre }));
            lemma_same_kinds_wf(pre, post);
        }
    }

    /// The bytes still to be written for token `t`'s head frame, or `None`
    /// when nothing waits there (or no connection does).
    pub fn pending_chunk(&self, t: usize) -> (r: Option<Vec<u8>>)
        requires
            self.wf(),
        ensures
            match r {
                None => !table_has(self@.table, t) || !table_at(self@.table, t).wants_write(),
                Some(c) => {
                    &&& table_has(self@.table, t)
                    &&& table_at(self@.table, t).wants_write()
                    &&& c@ == table_at(self@.table, t).head_rest()
                    &&& c@.len() > 0
                },
            },
    {
        match self.table.get(t) {
            Some(c) => c.pending_chunk(),
            None => None,
        }
    }

    /// Acknowledges `n` bytes of token `t`'s head frame as written; a frame
    /// that is done leaves the queue, and when the whole queue just drained
    /// the shell is told to drop writable interest.
    pub fn advance_write(&mut self, t: usize, n: usize) -> (eff: Vec<Effect>)
        requires
            old(self).wf(),
            table_has(old(self)@.table, t),
            table_at(old(self)@.table, t).wants_write(),
            n <= table_at(old(self)@.table, t).head_rest().len(),
        ensures
            final(self).wf(),
            ({
                let c0 = table_at(old(self)@.table, t);
                let c1 = if n < c0.head_rest().len() {
                    ConnView { sent: (c0.sent + n) as usize, ..c0 }
                } else {
                    ConnView { sent: 0, outq: c0.outq.drop_first(), ..c0 }
                };
                &&& final(self)@ == (ServerView {
                    table: old(self)@.table.update(t - 1, Some(c1)),
                    ..old(self)@
                })
                &&& eff@ == if c1.wants_write() {
                    Seq::<Effect>::empty()
                } else {
                    seq![Effect::SetWritable(t, false)]
                }
            }),
    {
        let mut c = match self.table.take(t) {
            Some(c) => c,
            None => {
                proof {
                    assert(false);
                }
                return Vec::new();
            },
        };
        let emptied = c.advance_write(n);
        self.table.put(t, c);
        let mut eff: Vec<Effect> = Vec::new();
        if emptied {
            eff.push(Effect::SetWritable(t, false));
        }
        proof {
            let pre = old(self)@;
            let post = self@;
            let c0 = table_at(pre.table, t);
            let c1 = if n < c0.head_rest().len() {
                ConnView { sent: (c0.sent + n) as usize, ..c0 }
            } else {
                ConnView { sent: 0, outq: c0.outq.drop_first(), ..c0 }
            };
            assert(post.table =~= pre.table.update(t - 1, Some(c1)));
            assert(post =~= (ServerView { table: post.table, ..pre }));
            if emptied {
                assert(eff@ =~= seq![Effect::SetWritable(t, false)]);
            } else {
                assert(eff@ =~= Seq::<Effect>::empty());
            }
            lemma_same_kinds_wf(pre, post);
        }
        eff
    }


    /// The reactor's response to an error or hangup at token `t`: a peer
    /// connection drops to its disconnected substate and a reconnect back-off
    /// timer is armed against its token; a client connection is removed and
    /// its index entry forgotten; an unknown connection is removed. A peer
    /// reset finding a reconnect timer already armed is an invariant
    /// violation, answered with `Fatal` and no change.
    pub fn reset_connection(&mut self, token: usize) -> (r: Result<Vec<Effect>, Error>)
        requires
            old(self).wf(),
            table_has(old(self)@.table, token),
            old(self)@.timers.next_handle < usize::MAX,
        ensures
            final(self).wf(),
            ({
                let c0 = table_at(old(self)@.table, token);
                let h = old(self)@.timers.next_handle;
                &&& (r is Err <==> (is_peer(c0.kind) && old(self)@.timers.reconnect.contains_key(
                    token as u64,
                )))
                &&& r matches Err(e) ==> e == Error::Fatal && final(self)@ == old(self)@
                &&& r matches Ok(eff) ==> {
                    &&& is_peer(c0.kind) ==> {
                        &&& final(self)@ == (ServerView {
                            table: old(self)@.table.update(token - 1, Some(reset_peer_view(c0))),
                            timers: TimerView {
                                reconnect: old(self)@.timers.reconnect.insert(token as u64, h),
                                next_handle: (h + 1) as usize,
                                ..old(self)@.timers
                            },
                            ..old(self)@
                        })
                        &&& eff@ == seq![
                            Effect::Deregister(token),
                            Effect::Arm(h, ServerTimeout::Reconnect(token), c0.backoff_ms),
                        ]
                    }
                    &&& c0.kind matches ConnectionKind::Client(cid) ==> {
                        &&& final(self)@ == (ServerView {
                            table: old(self)@.table.update(token - 1, None),
                            client_tokens: old(self)@.client_tokens.remove(cid),
                            ..old(self)@
                        })
                        &&& eff@ == seq![Effect::Close(token)]
                    }
                    &&& c0.kind is Unknown ==> {
                        &&& final(self)@ == (ServerView {
                            table: old(self)@.table.update(token - 1, None),
                            ..old(self)@
                        })
                        &&& eff@ == seq![Effect::Close(token)]
                    }
                }
            }),
    {
        let kind = match self.table.get(token) {
            Some(c) => c.kind(),
            None => {
                proof {
                    assert(false);
                }
                return Err(Error::Fatal);
            },
        };
        match kind {
            ConnectionKind::Peer(_) => {
                if self.timers.has_reconnect(token) {
                    return Err(Error::Fatal);
                }
                let mut c = match self.table.take(token) {
                    Some(c) => c,
                    None => {
                        proof {
                            assert(false);
                        }
                        return Err(Error::Fatal);
                    },
                };
                let d = c.reset_peer();
                self.table.put(token, c);
                let (h, _displaced) = self.timers.arm_reconnect(token);
                let mut eff: Vec<Effect> = Vec::new();
                eff.push(Effect::Deregister(token));
                eff.push(Effect::Arm(h, ServerTimeout::Reconnect(token), d));
                proof {
                    let pre = old(self)@;
                    let post = self@;
                    let c0 = table_at(pre.table, token);
                    assert(post.table =~= pre.table.update(token - 1, Some(reset_peer_view(c0))));
                    assert(post.timers == (TimerView {
                        reconnect: pre.timers.reconnect.insert(token as u64, pre.timers.next_handle),
                        next_handle: (pre.timers.next_handle + 1) as usize,
                        ..pre.timers
                    }));
                    assert(post =~= (ServerView { table: post.table, timers: post.timers, ..pre }));
                    assert(eff@ =~= seq![
                        Effect::Deregister(token),
                        Effect::Arm(
                            pre.timers.next_handle,
                            ServerTimeout::Reconnect(token),
                            c0.backoff_ms,
                        ),
                    ]);
                    assert forall|k: u64| #[trigger] post.timers.reconnect.contains_key(k) implies k
                        <= usize::MAX && table_has(post.table, k as usize) && is_peer(
                        table_at(post.table, k as usize).kind,
                    ) by {
                        if k != token as u64 {
                            assert(pre.timers.reconnect.contains_key(k));
                            assert(table_at(post.table, k as usize) == table_at(
                                pre.table,
                                k as usize,
                            ));
                        }
                    }
                    lemma_table_update_same_kind_wf(pre, post, token);
                }
                Ok(eff)
            },
            ConnectionKind::Client(cid) => {
                let _ = self.table.take(token);
                let _ = self.client_tokens.remove(cid);
                let mut eff: Vec<Effect> = Vec::new();
                eff.push(Effect::Close(token));
                proof {
                    let pre = old(self)@;
                    let post = self@;
                    assert(post =~= (ServerView {
                        table: pre.table.update(token - 1, None),
                        client_tokens: pre.client_tokens.remove(cid),
                        ..pre
                    }));
                    assert(eff@ =~= seq![Effect::Close(token)]);
                    lemma_remove_client_wf(pre, post, token, cid);
                }
                Ok(eff)
            },
            ConnectionKind::Unknown => {
                let _ = self.table.take(token);
                let mut eff: Vec<Effect> = Vec::new();
                eff.push(Effect::Close(token));
                proof {
                    let pre = old(self)@;
                    let post = self@;
                    assert(post =~= (ServerView { table: pre.table.update(token - 1, None), ..pre }));
                    assert(eff@ =~= seq![Effect::Close(token)]);
                    lemma_remove_unknown_wf(pre, post, token);
                }
                Ok(eff)
            },
        }
    }

    /// The reactor's response to a fired timer. A replica timeout leaves the
    /// registry and goes to the replica (`ApplyTimeout`); a reconnect timeout
    /// leaves the registry and brings its peer connection back up with the
    /// local preamble queued, the shell opening a fresh outbound socket
    /// (`Connect`). A firing the registry does not hold is an invariant
    /// violation, answered with `Fatal` and no change.
    pub fn timeout(&mut self, st: ServerTimeout) -> (r: Result<Vec<Effect>, Error>)
        requires
            old(self).wf(),
        ensures
            final(self).wf(),
            match st {
                ServerTimeout::Replica(rt) => {
                    &&& (r is Err <==> !old(self)@.timers.replica.contains_key(rt))
                    &&& r matches Err(e) ==> e == Error::Fatal && final(self)@ == old(self)@
                    &&& r matches Ok(eff) ==> {
                        &&& final(self)@ == (ServerView {
                            timers: TimerView {
                                replica: old(self)@.timers.replica.remove(rt),
                                ..old(self)@.timers
                            },
                            ..old(self)@
                        })
                        &&& eff@.len() == 1
                        &&& eff@[0] == Effect::ApplyTimeout(rt)
                    }
                },
                ServerTimeout::Reconnect(tok) => {
                    &&& (r is Err <==> !old(self)@.timers.reconnect.contains_key(tok as u64))
                    &&& r matches Err(e) ==> e == Error::Fatal && final(self)@ == old(self)@
                    &&& r matches Ok(eff) ==> {
                        &&& final(self)@ == (ServerView {
                            table: old(self)@.table.update(
                                tok - 1,
                                Some(
                                    reconnected_view(
                                        table_at(old(self)@.table, tok),
                                        old(self)@.id,
                                    ),
                                ),
                            ),
                            timers: TimerView {
                                reconnect: old(self)@.timers.reconnect.remove(tok as u64),
                                ..old(self)@.timers
                            },
                            ..old(self)@
                        })
                        &&& eff@ == seq![Effect::Connect(tok)]
                    }
                },
            },
    {
        match st {
            ServerTimeout::Replica(rt) => {
                if !self.timers.has_replica(rt) {
                    proof {
                        assert(self@.timers.replica =~= self@.timers.replica.remove(rt));
                    }
                    return Err(Error::Fatal);
                }
                let _ = self.timers.fire_replica(rt);
                let mut eff: Vec<Effect> = Vec::new();
                eff.push(Effect::ApplyTimeout(rt));
                proof {
                    let pre = old(self)@;
                    let post = self@;
                    assert(post =~= (ServerView {
                        timers: TimerView { replica: pre.timers.replica.remove(rt), ..pre.timers },
                        ..pre
                    }));
                }
                Ok(eff)
            },
            ServerTimeout::Reconnect(tok) => {
                if !self.timers.has_reconnect(tok) {
                    return Err(Error::Fatal);
                }
                let _ = self.timers.fire_reconnect(tok);
                let id = self.id;
                let mut c = match self.table.take(tok) {
                    Some(c) => c,
                    None => {
                        proof {
                            assert(false);
                        }
                        return Err(Error::Fatal);
                    },
                };
                let _addr = c.reconnect_peer(id);
                self.table.put(tok, c);
                let mut eff: Vec<Effect> = Vec::new();
                eff.push(Effect::Connect(tok));
                proof {
                    let pre = old(self)@;
                    let post = self@;
                    let c0 = table_at(pre.table, tok);
                    assert(post.table =~= pre.table.update(
                        tok - 1,
                        Some(reconnected_view(c0, pre.id)),
                    ));
                    assert(post =~= (ServerView {
                        table: post.table,
                        timers: TimerView {
                            reconnect: pre.timers.reconnect.remove(tok as u64),
                            ..pre.timers
                        },
                        ..pre
                    }));
                    assert(eff@ =~= seq![Effect::Connect(tok)]);
                    vstd::bytes::lemma_auto_spec_u32_to_from_le_bytes();
                    vstd::bytes::lemma_auto_spec_u64_to_from_le_bytes();
                    assert(reconnected_view(c0, pre.id).wf());
                    lemma_table_update_same_kind_wf(pre, post, tok);
                }
                Ok(eff)
            },
        }
    }


    /// Pops and dispatches the next complete frame at token `token`:
    /// `Ok(None)` when no complete frame has arrived. A frame on a peer or
    /// client connection leaves as an `ApplyPeer`/`ApplyClient` effect for
    /// the replica. On an unknown connection the frame must be the preamble:
    /// a server preamble promotes the connection to that peer, supersedes the
    /// peer's previous connection (removed, closed, its reconnect timer
    /// cancelled); a client preamble promotes it to that client, superseding
    /// any previous connection of the same client; a malformed preamble
    /// closes and removes the connection. A server preamble naming a peer
    /// outside the configured set is an invariant violation: `Fatal`, with
    /// only the frame consumed.
    pub fn handle_frame(&mut self, token: usize) -> (r: Result<Option<Vec<Effect>>, Error>)
        requires
            old(self).wf(),
            table_has(old(self)@.table, token),
        ensures
            final(self).wf(),
            ({
                let c0 = table_at(old(self)@.table, token);
                let p = first_payload(c0.inbuf);
                let c1 = ConnView { inbuf: rest_after_frame(c0.inbuf), ..c0 };
                let drained = (ServerView {
                    table: old(self)@.table.update(token - 1, Some(c1)),
                    ..old(self)@
                });
                if !has_complete_frame(c0.inbuf) {
                    &&& r == Ok::<Option<Vec<Effect>>, Error>(None)
                    &&& final(self)@ == old(self)@
                } else {
                    match c0.kind {
                        ConnectionKind::Peer(pid) => {
                            &&& r matches Ok(Some(eff))
                            &&& (r matches Ok(Some(eff)) ==> eff@.len() == 1 && eff@[0]
                                is ApplyPeer && eff@[0]->ApplyPeer_0 == pid && (
                            eff@[0]->ApplyPeer_1)@ == p)
                            &&& final(self)@ == drained
                        },
                        ConnectionKind::Client(cid) => {
                            &&& r matches Ok(Some(eff))
                            &&& (r matches Ok(Some(eff)) ==> eff@.len() == 1 && eff@[0]
                                is ApplyClient && eff@[0]->ApplyClient_0 == cid && (
                            eff@[0]->ApplyClient_1)@ == p)
                            &&& final(self)@ == drained
                        },
                        ConnectionKind::Unknown => {
                            match preamble::decode_spec(p) {
                                None => {
                                    &&& r matches Ok(Some(eff))
                                    &&& (r matches Ok(Some(eff)) ==> eff@ == seq![
                                        Effect::Close(token),
                                    ])
                                    &&& final(self)@ == (ServerView {
                                        table: old(self)@.table.update(token - 1, None),
                                        ..old(self)@
                                    })
                                },
                                Some(preamble::Preamble::Server(pid)) => {
                                    if !old(self)@.peer_tokens.contains_key(pid) {
                                        &&& r == Err::<Option<Vec<Effect>>, Error>(Error::Fatal)
                                        &&& final(self)@ == drained
                                    } else {
                                        let prev = old(self)@.peer_tokens[pid];
                                        let h = old(self)@.timers.reconnect;
                                        &&& prev != token
                                        &&& r matches Ok(Some(eff))
                                        &&& (r matches Ok(Some(eff)) ==> eff@ == if h.contains_key(
                                            prev as u64,
                                        ) {
                                            seq![
                                                Effect::Close(prev),
                                                Effect::Cancel(h[prev as u64]),
                                            ]
                                        } else {
                                            seq![Effect::Close(prev)]
                                        })
                                        &&& final(self)@ == (ServerView {
                                            table: old(self)@.table.update(
                                                token - 1,
                                                Some(
                                                    ConnView {
                                                        kind: ConnectionKind::Peer(pid),
                                                        ..c1
                                                    },
                                                ),
                                            ).update(prev - 1, None),
                                            peer_tokens: old(self)@.peer_tokens.insert(pid, token),
                                            timers: TimerView {
                                                reconnect: h.remove(prev as u64),
                                                ..old(self)@.timers
                                            },
                                            ..old(self)@
                                        })
                                    }
                                },
                                Some(preamble::Preamble::Client(cid)) => {
                                    let promoted = old(self)@.table.update(
                                        token - 1,
                                        Some(ConnView { kind: ConnectionKind::Client(cid), ..c1 }),
                                    );
                                    &&& r matches Ok(Some(eff))
                                    &&& if old(self)@.client_tokens.contains_key(cid) {
                                        let old_t = old(self)@.client_tokens[cid];
                                        &&& old_t != token
                                        &&& (r matches Ok(Some(eff)) ==> eff@ == seq![
                                            Effect::Close(old_t),
                                        ])
                                        &&& final(self)@ == (ServerView {
                                            table: promoted.update(old_t - 1, None),
                                            client_tokens: old(self)@.client_tokens.insert(
                                                cid,
                                                token,
                                            ),
                                            ..old(self)@
                                        })
                                    } else {
                                        &&& (r matches Ok(Some(eff)) ==> eff@
                                            == Seq::<Effect>::empty())
                                        &&& final(self)@ == (ServerView {
                                            table: promoted,
                                            client_tokens: old(self)@.client_tokens.insert(
                                                cid,
                                                token,
                                            ),
                                            ..old(self)@
                                        })
                                    }
                                },
                            }
                        },
                    }
                }
            }),
    {
        let mut c = match self.table.take(token) {
            Some(c) => c,
            None => {
                proof {
                    assert(false);
                }
                return Err(Error::Fatal);
            },
        };
        let kind = c.kind();
        let f = match c.next_frame() {
            None => {
                self.table.put(token, c);
                proof {
                    assert(self@.table =~= old(self)@.table);
                    assert(self@ =~= old(self)@);
                }
                return Ok(None);
            },
            Some(f) => f,
        };
        let ghost pre = old(self)@;
        let ghost c0 = table_at(pre.table, token);
        let ghost c1 = ConnView { inbuf: rest_after_frame(c0.inbuf), ..c0 };
        match kind {
            ConnectionKind::Peer(pid) => {
                self.table.put(token, c);
                let mut eff: Vec<Effect> = Vec::new();
                eff.push(Effect::ApplyPeer(pid, f));
                proof {
                    assert(self@.table =~= pre.table.update(token - 1, Some(c1)));
                    assert(self@ =~= (ServerView { table: self@.table, ..pre }));
                    lemma_table_update_same_kind_wf(pre, self@, token);
                }
                Ok(Some(eff))
            },
            ConnectionKind::Client(cid) => {
                self.table.put(token, c);
                let mut eff: Vec<Effect> = Vec::new();
                eff.push(Effect::ApplyClient(cid, f));
                proof {
                    assert(self@.table =~= pre.table.update(token - 1, Some(c1)));
                    assert(self@ =~= (ServerView { table: self@.table, ..pre }));
                    lemma_table_update_same_kind_wf(pre, self@, token);
                }
                Ok(Some(eff))
            },
            ConnectionKind::Unknown => {
                match preamble::decode(&f) {
                    None => {
                        let mut eff: Vec<Effect> = Vec::new();
                        eff.push(Effect::Close(token));
                        proof {
                            assert(self@.table =~= pre.table.update(token - 1, None));
                            assert(self@ =~= (ServerView { table: self@.table, ..pre }));
                            assert(eff@ =~= seq![Effect::Close(token)]);
                            lemma_remove_unknown_wf(pre, self@, token);
                        }
                        Ok(Some(eff))
                    },
                    Some(preamble::Preamble::Server(pid)) => {
                        let prev = match self.peer_tokens.get(pid) {
                            Some(prev) => prev,
                            None => {
                                self.table.put(token, c);
                                proof {
                                    assert(self@.table =~= pre.table.update(token - 1, Some(c1)));
                                    assert(self@ =~= (ServerView { table: self@.table, ..pre }));
                                    lemma_table_update_same_kind_wf(pre, self@, token);
                                }
                                return Err(Error::Fatal);
                            },
                        };
                        proof {
                            assert(table_at(pre.table, prev).kind == ConnectionKind::Peer(pid));
                            assert(prev != token);
                        }
                        c.set_kind(ConnectionKind::Peer(pid));
                        self.table.put(token, c);
                        let _ = self.peer_tokens.insert(pid, token);
                        let _removed = self.table.take(prev);
                        let mut eff: Vec<Effect> = Vec::new();
                        eff.push(Effect::Close(prev));
                        match self.timers.cancel_reconnect(prev) {
                            Some(h) => {
                                eff.push(Effect::Cancel(h));
                                proof {
                                    assert(eff@ =~= seq![
                                        Effect::Close(prev),
                                        Effect::Cancel(pre.timers.reconnect[prev as u64]),
                                    ]);
                                }
                            },
                            None => {
                                proof {
                                    assert(eff@ =~= seq![Effect::Close(prev)]);
                                }
                            },
                        }
                        proof {
                            assert(self@.table =~= pre.table.update(
                                token - 1,
                                Some(ConnView { kind: ConnectionKind::Peer(pid), ..c1 }),
                            ).update(prev - 1, None));
                            assert(self@.timers == (TimerView {
                                reconnect: pre.timers.reconnect.remove(prev as u64),
                                ..pre.timers
                            }));
                            assert(self@ =~= (ServerView {
                                table: self@.table,
                                peer_tokens: pre.peer_tokens.insert(pid, token),
                                timers: self@.timers,
                                ..pre
                            }));
                            lemma_promote_peer_wf(pre, self@, token, pid, prev);
                        }
                        Ok(Some(eff))
                    },
                    Some(preamble::Preamble::Client(cid)) => {
                        c.set_kind(ConnectionKind::Client(cid));
                        self.table.put(token, c);
                        let displaced = self.client_tokens.insert(cid, token);
                        let mut eff: Vec<Effect> = Vec::new();
                        match displaced {
                            Some(old_t) => {
                                proof {
                                    assert(table_at(pre.table, old_t).kind
                                        == ConnectionKind::Client(cid));
                                    assert(old_t != token);
                                }
                                let _ = self.table.take(old_t);
                                eff.push(Effect::Close(old_t));
                                proof {
                                    assert(eff@ =~= seq![Effect::Close(old_t)]);
                                    assert(self@.table =~= pre.table.update(
                                        token - 1,
                                        Some(ConnView { kind: ConnectionKind::Client(cid), ..c1 }),
                                    ).update(old_t - 1, None));
                                    assert(self@ =~= (ServerView {
                                        table: self@.table,
                                        client_tokens: pre.client_tokens.insert(cid, token),
                                        ..pre
                                    }));
                                    lemma_promote_client_wf(pre, self@, token, cid, Some(old_t));
                                }
                            },
                            None => {
                                proof {
                                    assert(eff@ =~= Seq::<Effect>::empty());
                                    assert(self@.table =~= pre.table.update(
                                        token - 1,
                                        Some(ConnView { kind: ConnectionKind::Client(cid), ..c1 }),
                                    ));
                                    assert(self@ =~= (ServerView {
                                        table: self@.table,
                                        client_tokens: pre.client_tokens.insert(cid, token),
                                        ..pre
                                    }));
                                    lemma_promote_client_wf(pre, self@, token, cid, None);
                                }
                            },
                        }
                        Ok(Some(eff))
                    },
                }
            },
        }
    }


    /// Executes one replica-emitted `Actions` bundle, in order: peer
    /// messages enqueued (a missing peer is an invariant violation — the
    /// peer set is fixed at startup — answered with `Fatal` before anything
    /// is done), client messages enqueued or silently dropped, then, when
    /// asked, every replica timeout cancelled, and finally each listed
    /// timeout armed under replace semantics. The effects come back in that
    /// order: interest changes from the sends, a cancellation per cleared
    /// timer, then the arms with their displaced handles' cancellations.
    #[verifier::rlimit(60)]
    pub fn execute_actions(&mut self, actions: &Actions) -> (r: Result<Vec<Effect>, Error>)
        requires
            old(self).wf(),
            forall|i: int|
                0 <= i < actions.peer_messages@.len() ==> (#[trigger] actions.peer_messages@[i]).1@.len()
                    <= max_payload_len(),
            forall|i: int|
                0 <= i < actions.client_messages@.len() ==> (
                #[trigger] actions.client_messages@[i]).1@.len() <= max_payload_len(),
            old(self)@.timers.next_handle + actions.timeouts@.len() <= usize::MAX,
        ensures
            final(self).wf(),
            ({
                let v0 = old(self)@;
                let pmsgs = actions.peer_messages@.map_values(|pm: (u64, Vec<u8>)| (pm.0, pm.1@));
                let cmsgs = actions.client_messages@.map_values(
                    |cm: (u128, Vec<u8>)| (cm.0, cm.1@),
                );
                &&& (r is Err <==> exists|i: int|
                    0 <= i < pmsgs.len() && !v0.peer_tokens.contains_key((#[trigger] pmsgs[i]).0))
                &&& r matches Err(e) ==> e == Error::Fatal && final(self)@ == v0
                &&& r matches Ok(eff) ==> {
                    let s1 = send_peer_msgs(v0, pmsgs);
                    let s2 = send_client_msgs(s1.0, cmsgs);
                    let v2 = s2.0;
                    let v3 = if actions.clear_timeouts {
                        cleared_timers(v2)
                    } else {
                        v2
                    };
                    let s4 = arm_timeouts(v3, actions.timeouts@);
                    let front = s1.1 + s2.1;
                    &&& final(self)@ == s4.0
                    &&& eff@.len() >= front.len() + s4.1.len()
                    &&& eff@.subrange(0, front.len() as int) == front
                    &&& eff@.subrange(eff@.len() - s4.1.len(), eff@.len() as int) == s4.1
                    &&& (!actions.clear_timeouts ==> eff@.len() == front.len() + s4.1.len())
                    &&& (actions.clear_timeouts ==> cancel_block_ok(
                        eff@.subrange(front.len() as int, eff@.len() - s4.1.len()),
                        v2.timers.replica,
                    ))
                }
            }),
            (actions.peer_messages@.len() == 0 && actions.client_messages@.len() == 0
                && actions.timeouts@.len() == 0 && !actions.clear_timeouts) ==> ({
                &&& final(self)@ == old(self)@
                &&& r is Ok
                &&& r matches Ok(eff) ==> eff@ == Seq::<Effect>::empty()
            }),
    {
        proof {
            vstd::bytes::lemma_auto_spec_u32_to_from_le_bytes();
        }
        let ghost v0 = old(self)@;
        let ghost pmsgs = actions.peer_messages@.map_values(|pm: (u64, Vec<u8>)| (pm.0, pm.1@));
        let ghost cmsgs = actions.client_messages@.map_values(|cm: (u128, Vec<u8>)| (cm.0, cm.1@));

        let np = actions.peer_messages.len();
        let mut i: usize = 0;
        while i < np
            invariant
                old(self).wf(),
                *self == *old(self),
                np == actions.peer_messages@.len(),
                i <= np,
                pmsgs == actions.peer_messages@.map_values(|pm: (u64, Vec<u8>)| (pm.0, pm.1@)),
                v0 == old(self)@,
                forall|j: int|
                    0 <= j < i ==> v0.peer_tokens.contains_key((#[trigger] pmsgs[j]).0),
            decreases np - i,
        {
            let pm = &actions.peer_messages[i];
            if !self.peer_tokens.contains(pm.0) {
                proof {
                    assert(!v0.peer_tokens.contains_key(pmsgs[i as int].0));
                }
                return Err(Error::Fatal);
            }
            i = i + 1;
        }
        assert(forall|j: int|
            0 <= j < pmsgs.len() ==> v0.peer_tokens.contains_key((#[trigger] pmsgs[j]).0));

        let mut eff: Vec<Effect> = Vec::new();
        let mut i: usize = 0;
        proof {
            assert(pmsgs.take(0) =~= Seq::<(u64, Seq<u8>)>::empty());
            assert(eff@ =~= send_peer_msgs(v0, pmsgs.take(0)).1);
        }
        while i < np
            invariant
                self.wf(),
                np == actions.peer_messages@.len(),
                i <= np,
                pmsgs == actions.peer_messages@.map_values(|pm: (u64, Vec<u8>)| (pm.0, pm.1@)),
                forall|j: int|
                    0 <= j < actions.peer_messages@.len() ==> (
                    #[trigger] actions.peer_messages@[j]).1@.len() <= max_payload_len(),
                forall|j: int|
                    0 <= j < pmsgs.len() ==> v0.peer_tokens.contains_key((#[trigger] pmsgs[j]).0),
                self@ == send_peer_msgs(v0, pmsgs.take(i as int)).0,
                eff@ == send_peer_msgs(v0, pmsgs.take(i as int)).1,
                self@.peer_tokens == v0.peer_tokens,
                self@.client_tokens == v0.client_tokens,
                self@.timers == v0.timers,
            decreases np - i,
        {
            let ghost vi = self@;
            let pm = &actions.peer_messages[i];
            proof {
                assert(pmsgs[i as int] == (pm.0, pm.1@));
            }
            let t = match self.peer_tokens.get(pm.0) {
                Some(t) => t,
                None => {
                    proof {
                        assert(false);
                    }
                    return Err(Error::Fatal);
                },
            };
            let mut c = match self.table.take(t) {
                Some(c) => c,
                None => {
                    proof {
                        assert(false);
                    }
                    return Err(Error::Fatal);
                },
            };
            let became = c.send_message(&pm.1);
            self.table.put(t, c);
            if became {
                eff.push(Effect::SetWritable(t, true));
            }
            proof {
                assert(self@.table =~= enqueue_on(vi, t, pm.1@).table);
                assert(self@ =~= enqueue_on(vi, t, pm.1@));
                assert(self@ == send_peer_step(vi, pm.0, pm.1@).0);
                assert(pmsgs.take(i + 1) =~= pmsgs.take(i as int).push(pmsgs[i as int]));
                lemma_send_peer_snoc(v0, pmsgs.take(i as int), pmsgs[i as int]);
                assert(eff@ =~= send_peer_msgs(v0, pmsgs.take(i + 1)).1);
                lemma_same_kinds_wf(vi, self@);
            }
            i = i + 1;
        }
        proof {
            assert(pmsgs.take(np as int) =~= pmsgs);
        }
        let ghost s1 = send_peer_msgs(v0, pmsgs);
        let ghost eff1 = eff@;

        let nc = actions.client_messages.len();
        let mut i: usize = 0;
        proof {
            assert(cmsgs.take(0) =~= Seq::<(u128, Seq<u8>)>::empty());
            assert(eff@ =~= eff1 + send_client_msgs(s1.0, cmsgs.take(0)).1);
        }
        while i < nc
            invariant
                self.wf(),
                nc == actions.client_messages@.len(),
                i <= nc,
                cmsgs == actions.client_messages@.map_values(|cm: (u128, Vec<u8>)| (cm.0, cm.1@)),
                forall|j: int|
                    0 <= j < actions.client_messages@.len() ==> (
                    #[trigger] actions.client_messages@[j]).1@.len() <= max_payload_len(),
                s1 == send_peer_msgs(v0, pmsgs),
                eff1 == s1.1,
                self@ == send_client_msgs(s1.0, cmsgs.take(i as int)).0,
                eff@ == eff1 + send_client_msgs(s1.0, cmsgs.take(i as int)).1,
                self@.timers == s1.0.timers,
            decreases nc - i,
        {
            let ghost vi = self@;
            let cm = &actions.client_messages[i];
            proof {
                assert(cmsgs[i as int] == (cm.0, cm.1@));
            }
            match self.client_tokens.get(cm.0) {
                Some(t) => {
                    let mut c = match self.table.take(t) {
                        Some(c) => c,
                        None => {
                            proof {
                                assert(false);
                            }
                            return Err(Error::Fatal);
                        },
                    };
                    let became = c.send_message(&cm.1);
                    self.table.put(t, c);
                    if became {
                        eff.push(Effect::SetWritable(t, true));
                    }
                    proof {
                        assert(self@.table =~= enqueue_on(vi, t, cm.1@).table);
                        assert(self@ =~= enqueue_on(vi, t, cm.1@));
                        assert(self@ == send_client_step(vi, cm.0, cm.1@).0);
                        lemma_same_kinds_wf(vi, self@);
                    }
                },
                None => {
                    proof {
                        assert(self@ == send_client_step(vi, cm.0, cm.1@).0);
                    }
                },
            }
            proof {
                assert(cmsgs.take(i + 1) =~= cmsgs.take(i as int).push(cmsgs[i as int]));
                lemma_send_client_snoc(s1.0, cmsgs.take(i as int), cmsgs[i as int]);
                assert(eff@ =~= eff1 + send_client_msgs(s1.0, cmsgs.take(i + 1)).1);
            }
            i = i + 1;
        }
        proof {
            assert(cmsgs.take(nc as int) =~= cmsgs);
        }
        let ghost v2 = self@;
        let ghost eff2 = eff@;

        if actions.clear_timeouts {
            proof {
                crate::timer::lemma_registry_handles_live(&self.timers);
            }
            let cancelled = self.timers.cancel_all_replica();
            let ncl = cancelled.len();
            let mut j: usize = 0;
            while j < ncl
                invariant
                    ncl == cancelled@.len(),
                    j <= ncl,
                    eff@.len() == eff2.len() + j,
                    eff@.subrange(0, eff2.len() as int) == eff2,
                    forall|k: int|
                        0 <= k < j ==> #[trigger] eff@[eff2.len() + k] == Effect::Cancel(
                            cancelled@[k].1,
                        ),
                decreases ncl - j,
            {
                let pair = &cancelled[j];
                eff.push(Effect::Cancel(pair.1));
                proof {
                    assert(eff@.subrange(0, eff2.len() as int) =~= eff2);
                }
                j = j + 1;
            }
            proof {
                let cb = eff@.subrange(eff2.len() as int, eff@.len() as int);
                lemma_cancel_block(eff@, eff2.len() as int, cancelled@, v2.timers.replica);
                assert(cancel_block_ok(cb, v2.timers.replica));
                assert(self@ =~= cleared_timers(v2));
            }
        }
        let ghost v3 = if actions.clear_timeouts {
            cleared_timers(v2)
        } else {
            v2
        };
        let ghost eff3 = eff@;
        proof {
            assert(self@ == v3);
            assert(v3.timers.next_handle == v0.timers.next_handle);
        }

        let nt = actions.timeouts.len();
        let mut j: usize = 0;
        proof {
            assert(actions.timeouts@.take(0) =~= Seq::<(u64, u64)>::empty());
            assert(eff@ =~= eff3 + arm_timeouts(v3, actions.timeouts@.take(0)).1);
        }
        while j < nt
            invariant
                self.wf(),
                nt == actions.timeouts@.len(),
                j <= nt,
                v3.timers.next_handle + nt <= usize::MAX,
                self@ == arm_timeouts(v3, actions.timeouts@.take(j as int)).0,
                eff@ == eff3 + arm_timeouts(v3, actions.timeouts@.take(j as int)).1,
                self@.timers.next_handle == v3.timers.next_handle + j,
            decreases nt - j,
        {
            let ghost vi = self@;
            let tp = &actions.timeouts[j];
            let (h, displaced) = self.timers.arm_replica(tp.0);
            eff.push(Effect::Arm(h, ServerTimeout::Replica(tp.0), tp.1));
            match displaced {
                Some(hd) => {
                    eff.push(Effect::Cancel(hd));
                },
                None => {},
            }
            proof {
                assert(actions.timeouts@[j as int] == (tp.0, tp.1));
                assert(self@ =~= arm_step(vi, tp.0, tp.1).0);
                assert(actions.timeouts@.take(j + 1) =~= actions.timeouts@.take(j as int).push(
                    actions.timeouts@[j as int],
                ));
                lemma_arm_snoc(v3, actions.timeouts@.take(j as int), actions.timeouts@[j as int]);
                assert(eff@ =~= eff3 + arm_timeouts(v3, actions.timeouts@.take(j + 1)).1);
                assert(self@.wf());
            }
            j = j + 1;
        }
        proof {
            assert(actions.timeouts@.take(nt as int) =~= actions.timeouts@);
            let s2 = send_client_msgs(s1.0, cmsgs);
            let s4 = arm_timeouts(v3, actions.timeouts@);
            let front = s1.1 + s2.1;
            assert(eff2 =~= front);
            assert(eff@.subrange(0, front.len() as int) =~= front);
            assert(eff@.subrange(eff3.len() as int, eff@.len() as int) =~= s4.1);
            assert(eff@.subrange(front.len() as int, eff3.len() as int) =~= eff3.subrange(
                front.len() as int,
                eff3.len() as int,
            ));
            if !actions.clear_timeouts {
                assert(eff3 == eff2);
            }
            if np == 0 && nc == 0 && nt == 0 && !actions.clear_timeouts {
                assert(send_peer_msgs(v0, pmsgs).0 == v0);
                assert(send_client_msgs(v0, cmsgs).0 == v0);
                assert(arm_timeouts(v0, actions.timeouts@).0 == v0);
                assert(eff@ =~= Seq::<Effect>::empty());
            }
        }
        Ok(eff)
    }

    /// Whether `n` more scheduler handles can still be allocated; the shell
    /// checks this before a reset or a batch of arms.
    pub fn handles_available(&self, n: usize) -> (r: bool)
        ensures
            r == (self@.timers.next_handle + n <= usize::MAX),
    {
        let next = self.timers.next_handle_value();
        n <= usize::MAX - next
    }

    /// Whether a reconnect timer is armed for token `t`.
    pub fn reconnect_armed(&self, t: usize) -> (r: bool)
        requires
            self.wf(),
        ensures
            r == self@.timers.reconnect.contains_key(t as u64),
    {
        self.timers.has_reconnect(t)
    }
}

/// When a step neither moves nor reclassifies any connection — the tokens
/// occupied, each connection's kind and token, and all index and timer maps
/// are unchanged — the reactor invariants carry over.
proof fn lemma_same_kinds_wf(pre: ServerView, post: ServerView)
    requires
        pre.wf(),
        post.table.len() == pre.table.len(),
        forall|t: usize| table_has(post.table, t) == table_has(pre.table, t),
        forall|t: usize|
            table_has(post.table, t) ==> (#[trigger] table_at(post.table, t)).kind == table_at(
                pre.table,
                t,
            ).kind && table_at(post.table, t).token == table_at(pre.table, t).token && table_at(
                post.table,
                t,
            ).wf(),
        post.peer_tokens == pre.peer_tokens,
        post.client_tokens == pre.client_tokens,
        forall|k: u64|
            #[trigger] post.timers.reconnect.contains_key(k) ==> pre.timers.reconnect.contains_key(
                k,
            ),
    ensures
        post.wf(),
{
}

/// A faulted peer connection, torn down to its disconnected substate.
pub open spec fn reset_peer_view(c: ConnView) -> ConnView {
    ConnView {
        open: false,
        backoff_ms: if 2 * c.backoff_ms <= RECONNECT_MAX_MS {
            (2 * c.backoff_ms) as u64
        } else {
            RECONNECT_MAX_MS
        },
        inbuf: Seq::<u8>::empty(),
        outq: Seq::<Seq<u8>>::empty(),
        sent: 0,
        ..c
    }
}

/// A peer connection brought back up: a fresh socket is being opened and the
/// local preamble is the whole outbound queue.
pub open spec fn reconnected_view(c: ConnView, id: u64) -> ConnView {
    ConnView {
        open: true,
        inbuf: Seq::<u8>::empty(),
        outq: seq![preamble_frame(id)],
        sent: 0,
        ..c
    }
}

/// Replacing the connection at one token with a well-formed connection of
/// the same kind and token preserves the reactor invariants, as long as the
/// maps kept their entries (reconnect timers may only shrink).
proof fn lemma_table_update_same_kind_wf(pre: ServerView, post: ServerView, t: usize)
    requires
        pre.wf(),
        table_has(pre.table, t),
        post.table == pre.table.update(t - 1, Some(table_at(post.table, t))),
        table_at(post.table, t).kind == table_at(pre.table, t).kind,
        table_at(post.table, t).token == table_at(pre.table, t).token,
        table_at(post.table, t).wf(),
        post.peer_tokens == pre.peer_tokens,
        post.client_tokens == pre.client_tokens,
        forall|k: u64|
            #[trigger] post.timers.reconnect.contains_key(k) ==> pre.timers.reconnect.contains_key(
                k,
            ) || (k == t as u64 && is_peer(table_at(pre.table, t).kind)),
    ensures
        post.wf(),
{
    assert(table_has(post.table, t));
    assert forall|t2: usize| table_has(post.table, t2) implies table_has(pre.table, t2)
        && (#[trigger] table_at(post.table, t2)).kind == table_at(pre.table, t2).kind && table_at(
        post.table,
        t2,
    ).token == table_at(pre.table, t2).token && table_at(post.table, t2).wf() by {
        if t2 != t {
            assert(post.table[t2 - 1] == pre.table[t2 - 1]);
            assert(table_at(post.table, t2) == table_at(pre.table, t2));
        }
    }
    assert forall|k: u64| #[trigger] post.timers.reconnect.contains_key(k) implies k <= usize::MAX
        && table_has(post.table, k as usize) && is_peer(table_at(post.table, k as usize).kind) by {
        if pre.timers.reconnect.contains_key(k) {
            assert(table_has(pre.table, k as usize));
            assert(is_peer(table_at(pre.table, k as usize).kind));
            assert(table_at(post.table, k as usize).kind == table_at(pre.table, k as usize).kind);
        } else {
            assert(k == t as u64);
            assert(k as usize == t);
            assert(table_at(post.table, t).kind == table_at(pre.table, t).kind);
        }
    }
}

/// Removing a client connection together with its index entry preserves the
/// reactor invariants.
proof fn lemma_remove_client_wf(pre: ServerView, post: ServerView, t: usize, cid: u128)
    requires
        pre.wf(),
        table_has(pre.table, t),
        table_at(pre.table, t).kind == ConnectionKind::Client(cid),
        post.table == pre.table.update(t - 1, None),
        post.peer_tokens == pre.peer_tokens,
        post.client_tokens == pre.client_tokens.remove(cid),
        post.timers == pre.timers,
    ensures
        post.wf(),
{
    assert forall|t2: usize| table_has(post.table, t2) implies (#[trigger] table_at(
        post.table,
        t2,
    )) == table_at(pre.table, t2) && table_has(pre.table, t2) by {
        assert(t2 != t);
        assert(post.table[t2 - 1] == pre.table[t2 - 1]);
    }
    assert forall|pid: u64| #[trigger] post.peer_tokens.contains_key(pid) implies table_has(
        post.table,
        post.peer_tokens[pid],
    ) && table_at(post.table, post.peer_tokens[pid]).kind == ConnectionKind::Peer(pid) by {
        assert(pre.peer_tokens[pid] != t);
    }
    assert forall|cid2: u128| #[trigger] post.client_tokens.contains_key(cid2) implies table_has(
        post.table,
        post.client_tokens[cid2],
    ) && table_at(post.table, post.client_tokens[cid2]).kind == ConnectionKind::Client(cid2) by {
        assert(pre.client_tokens.contains_key(cid2) && cid2 != cid);
        if pre.client_tokens[cid2] == t {
            assert(table_at(pre.table, t).kind == ConnectionKind::Client(cid2));
        }
    }
    assert forall|k: u64| #[trigger] post.timers.reconnect.contains_key(k) implies k <= usize::MAX
        && table_has(post.table, k as usize) && is_peer(table_at(post.table, k as usize).kind) by {
        assert(k as usize != t);
    }
}

/// Removing an unknown connection preserves the reactor invariants.
proof fn lemma_remove_unknown_wf(pre: ServerView, post: ServerView, t: usize)
    requires
        pre.wf(),
        table_has(pre.table, t),
        table_at(pre.table, t).kind is Unknown,
        post.table == pre.table.update(t - 1, None),
        post.peer_tokens == pre.peer_tokens,
        post.client_tokens == pre.client_tokens,
        post.timers == pre.timers,
    ensures
        post.wf(),
{
    assert forall|t2: usize| table_has(post.table, t2) implies (#[trigger] table_at(
        post.table,
        t2,
    )) == table_at(pre.table, t2) && table_has(pre.table, t2) by {
        assert(t2 != t);
        assert(post.table[t2 - 1] == pre.table[t2 - 1]);
    }
    assert forall|pid: u64| #[trigger] post.peer_tokens.contains_key(pid) implies table_has(
        post.table,
        post.peer_tokens[pid],
    ) && table_at(post.table, post.peer_tokens[pid]).kind == ConnectionKind::Peer(pid) by {
        assert(pre.peer_tokens[pid] != t);
    }
    assert forall|cid2: u128| #[trigger] post.client_tokens.contains_key(cid2) implies table_has(
        post.table,
        post.client_tokens[cid2],
    ) && table_at(post.table, post.client_tokens[cid2]).kind == ConnectionKind::Client(cid2) by {
        assert(pre.client_tokens[cid2] != t);
    }
    assert forall|k: u64| #[trigger] post.timers.reconnect.contains_key(k) implies k <= usize::MAX
        && table_has(post.table, k as usize) && is_peer(table_at(post.table, k as usize).kind) by {
        assert(k as usize != t);
    }
}

/// Promoting the unknown connection at `token` to `Peer(pid)` while removing
/// the peer's previous connection at `prev`, repointing the index entry and
/// cancelling `prev`'s reconnect timer preserves the reactor invariants.
proof fn lemma_promote_peer_wf(pre: ServerView, post: ServerView, token: usize, pid: u64, prev: usize)
    requires
        pre.wf(),
        table_has(pre.table, token),
        table_at(pre.table, token).kind is Unknown,
        pre.peer_tokens.contains_key(pid),
        pre.peer_tokens[pid] == prev,
        prev != token,
        post.table == pre.table.update(
            token - 1,
            Some(
                ConnView {
                    kind: ConnectionKind::Peer(pid),
                    inbuf: rest_after_frame(table_at(pre.table, token).inbuf),
                    ..table_at(pre.table, token)
                },
            ),
        ).update(prev - 1, None),
        post.peer_tokens == pre.peer_tokens.insert(pid, token),
        post.client_tokens == pre.client_tokens,
        post.timers.reconnect == pre.timers.reconnect.remove(prev as u64),
        post.id == pre.id,
    ensures
        post.wf(),
{
    assert(table_has(pre.table, prev));
    assert(table_at(pre.table, prev).kind == ConnectionKind::Peer(pid));
    assert forall|t2: usize|
        table_has(post.table, t2) implies (#[trigger] table_at(post.table, t2)).token == t2
        && table_at(post.table, t2).wf() && table_at(post.table, t2).kind == (if t2 == token {
        ConnectionKind::Peer(pid)
    } else {
        table_at(pre.table, t2).kind
    }) by {
        assert(t2 != prev);
        if t2 != token {
            assert(post.table[t2 - 1] == pre.table[t2 - 1]);
            assert(table_at(post.table, t2) == table_at(pre.table, t2));
            assert(table_has(pre.table, t2));
        }
    }
    assert forall|pid2: u64| #[trigger] post.peer_tokens.contains_key(pid2) implies table_has(
        post.table,
        post.peer_tokens[pid2],
    ) && table_at(post.table, post.peer_tokens[pid2]).kind == ConnectionKind::Peer(pid2) by {
        if pid2 == pid {
            assert(post.peer_tokens[pid2] == token);
        } else {
            assert(pre.peer_tokens.contains_key(pid2));
            assert(post.peer_tokens[pid2] == pre.peer_tokens[pid2]);
            let t2 = pre.peer_tokens[pid2];
            assert(table_at(pre.table, t2).kind == ConnectionKind::Peer(pid2));
            assert(t2 != prev);
            assert(t2 != token);
            assert(post.table[t2 - 1] == pre.table[t2 - 1]);
        }
    }
    assert forall|cid2: u128| #[trigger] post.client_tokens.contains_key(cid2) implies table_has(
        post.table,
        post.client_tokens[cid2],
    ) && table_at(post.table, post.client_tokens[cid2]).kind == ConnectionKind::Client(cid2) by {
        let t2 = pre.client_tokens[cid2];
        assert(table_at(pre.table, t2).kind == ConnectionKind::Client(cid2));
        assert(t2 != prev);
        assert(t2 != token);
        assert(post.table[t2 - 1] == pre.table[t2 - 1]);
    }
    assert forall|k: u64| #[trigger] post.timers.reconnect.contains_key(k) implies k <= usize::MAX
        && table_has(post.table, k as usize) && is_peer(table_at(post.table, k as usize).kind) by {
        assert(pre.timers.reconnect.contains_key(k));
        assert(k != prev as u64);
        assert(k as usize != prev);
        assert(is_peer(table_at(pre.table, k as usize).kind));
        if k as usize != token {
            assert(post.table[k as usize - 1] == pre.table[k as usize - 1]);
        }
    }
    assert forall|t2: usize|
        table_has(post.table, t2) && is_client(
            (#[trigger] table_at(post.table, t2)).kind,
        ) implies post.client_tokens.contains_key(table_at(post.table, t2).kind->Client_0)
        && post.client_tokens[table_at(post.table, t2).kind->Client_0] == t2 by {
        assert(t2 != prev);
        assert(t2 != token);
        assert(post.table[t2 - 1] == pre.table[t2 - 1]);
        assert(table_at(post.table, t2) == table_at(pre.table, t2));
        assert(table_has(pre.table, t2));
    }
}

/// Promoting the unknown connection at `token` to `Client(cid)`, recording it
/// in the client index and removing any superseded connection of the same
/// client, preserves the reactor invariants.
proof fn lemma_promote_client_wf(
    pre: ServerView,
    post: ServerView,
    token: usize,
    cid: u128,
    displaced: Option<usize>,
)
    requires
        pre.wf(),
        table_has(pre.table, token),
        table_at(pre.table, token).kind is Unknown,
        displaced == if pre.client_tokens.contains_key(cid) {
            Some(pre.client_tokens[cid])
        } else {
            None::<usize>
        },
        ({
            let promoted = pre.table.update(
                token - 1,
                Some(
                    ConnView {
                        kind: ConnectionKind::Client(cid),
                        inbuf: rest_after_frame(table_at(pre.table, token).inbuf),
                        ..table_at(pre.table, token)
                    },
                ),
            );
            post.table == match displaced {
                Some(old_t) => promoted.update(old_t - 1, None),
                None => promoted,
            }
        }),
        post.peer_tokens == pre.peer_tokens,
        post.client_tokens == pre.client_tokens.insert(cid, token),
        post.timers == pre.timers,
        post.id == pre.id,
    ensures
        post.wf(),
        displaced matches Some(old_t) ==> old_t != token,
{
    match displaced {
        Some(old_t) => {
            assert(table_at(pre.table, old_t).kind == ConnectionKind::Client(cid));
            assert(old_t != token);
        },
        None => {},
    }
    let ghost gone: usize = match displaced {
        Some(old_t) => old_t,
        None => token,
    };
    assert forall|t2: usize|
        table_has(post.table, t2) implies (#[trigger] table_at(post.table, t2)).token == t2
        && table_at(post.table, t2).wf() && table_at(post.table, t2).kind == (if t2 == token {
        ConnectionKind::Client(cid)
    } else {
        table_at(pre.table, t2).kind
    }) && (t2 != token ==> table_has(pre.table, t2) && table_at(post.table, t2) == table_at(
        pre.table,
        t2,
    )) by {
        if t2 != token {
            assert(t2 != gone || displaced is None);
            assert(post.table[t2 - 1] == pre.table[t2 - 1]);
        }
    }
    assert forall|pid2: u64| #[trigger] post.peer_tokens.contains_key(pid2) implies table_has(
        post.table,
        post.peer_tokens[pid2],
    ) && table_at(post.table, post.peer_tokens[pid2]).kind == ConnectionKind::Peer(pid2) by {
        let t2 = pre.peer_tokens[pid2];
        assert(table_at(pre.table, t2).kind == ConnectionKind::Peer(pid2));
        assert(t2 != token);
        match displaced {
            Some(old_t) => {
                assert(t2 != old_t);
            },
            None => {},
        }
        assert(post.table[t2 - 1] == pre.table[t2 - 1]);
    }
    assert forall|cid2: u128| #[trigger] post.client_tokens.contains_key(cid2) implies table_has(
        post.table,
        post.client_tokens[cid2],
    ) && table_at(post.table, post.client_tokens[cid2]).kind == ConnectionKind::Client(cid2) by {
        if cid2 == cid {
            assert(post.client_tokens[cid2] == token);
        } else {
            let t2 = pre.client_tokens[cid2];
            assert(table_at(pre.table, t2).kind == ConnectionKind::Client(cid2));
            assert(t2 != token);
            match displaced {
                Some(old_t) => {
                    assert(table_at(pre.table, old_t).kind == ConnectionKind::Client(cid));
                    assert(t2 != old_t);
                },
                None => {},
            }
            assert(post.table[t2 - 1] == pre.table[t2 - 1]);
        }
    }
    assert forall|k: u64| #[trigger] post.timers.reconnect.contains_key(k) implies k <= usize::MAX
        && table_has(post.table, k as usize) && is_peer(table_at(post.table, k as usize).kind) by {
        assert(is_peer(table_at(pre.table, k as usize).kind));
        assert(k as usize != token);
        match displaced {
            Some(old_t) => {
                assert(k as usize != old_t);
            },
            None => {},
        }
        assert(post.table[k as usize - 1] == pre.table[k as usize - 1]);
    }
    assert forall|t2: usize|
        table_has(post.table, t2) && is_client(
            (#[trigger] table_at(post.table, t2)).kind,
        ) implies post.client_tokens.contains_key(table_at(post.table, t2).kind->Client_0)
        && post.client_tokens[table_at(post.table, t2).kind->Client_0] == t2 by {
        if t2 == token {
            assert(table_at(post.table, t2).kind == ConnectionKind::Client(cid));
            assert(post.client_tokens[cid] == token);
        } else {
            assert(table_at(post.table, t2) == table_at(pre.table, t2));
            assert(table_has(pre.table, t2));
            let cid2 = table_at(pre.table, t2).kind->Client_0;
            assert(pre.client_tokens.contains_key(cid2) && pre.client_tokens[cid2] == t2);
            if cid2 == cid {
                assert(displaced == Some(t2));
                assert(!table_has(post.table, t2));
            }
        }
    }
}

/// One frame enqueued on the connection at token `t`.
pub open spec fn enqueue_on(v: ServerView, t: usize, m: Seq<u8>) -> ServerView
    recommends
        table_has(v.table, t),
{
    let c = table_at(v.table, t);
    ServerView {
        table: v.table.update(t - 1, Some(ConnView { outq: c.outq.push(frame_spec(m)), ..c })),
        ..v
    }
}

/// One peer message executed: the frame joins the peer connection's queue,
/// and a connection whose queue was empty now asks for writable readiness.
pub open spec fn send_peer_step(v: ServerView, pid: u64, m: Seq<u8>) -> (ServerView, Seq<Effect>)
    recommends
        v.peer_tokens.contains_key(pid),
{
    let t = v.peer_tokens[pid];
    (
        enqueue_on(v, t, m),
        if table_at(v.table, t).wants_write() {
            Seq::<Effect>::empty()
        } else {
            seq![Effect::SetWritable(t, true)]
        },
    )
}

/// Peer messages executed front to back.
pub open spec fn send_peer_msgs(v: ServerView, msgs: Seq<(u64, Seq<u8>)>) -> (
    ServerView,
    Seq<Effect>,
)
    decreases msgs.len(),
{
    if msgs.len() == 0 {
        (v, Seq::<Effect>::empty())
    } else {
        let st = send_peer_step(v, msgs[0].0, msgs[0].1);
        let rest = send_peer_msgs(st.0, msgs.drop_first());
        (rest.0, st.1 + rest.1)
    }
}

/// One client message executed: as a peer message where the client is still
/// connected; silently dropped where it is not.
pub open spec fn send_client_step(v: ServerView, cid: u128, m: Seq<u8>) -> (ServerView, Seq<Effect>) {
    if v.client_tokens.contains_key(cid) {
        let t = v.client_tokens[cid];
        (
            enqueue_on(v, t, m),
            if table_at(v.table, t).wants_write() {
                Seq::<Effect>::empty()
            } else {
                seq![Effect::SetWritable(t, true)]
            },
        )
    } else {
        (v, Seq::<Effect>::empty())
    }
}

/// Client messages executed front to back.
pub open spec fn send_client_msgs(v: ServerView, msgs: Seq<(u128, Seq<u8>)>) -> (
    ServerView,
    Seq<Effect>,
)
    decreases msgs.len(),
{
    if msgs.len() == 0 {
        (v, Seq::<Effect>::empty())
    } else {
        let st = send_client_step(v, msgs[0].0, msgs[0].1);
        let rest = send_client_msgs(st.0, msgs.drop_first());
        (rest.0, st.1 + rest.1)
    }
}

/// One replica timeout armed under replace semantics: a fresh handle is
/// scheduled, and the displaced handle, if any, is cancelled.
pub open spec fn arm_step(v: ServerView, t: u64, d: u64) -> (ServerView, Seq<Effect>) {
    let h = v.timers.next_handle;
    let v2 = ServerView {
        timers: TimerView {
            replica: v.timers.replica.insert(t, h),
            next_handle: (h + 1) as usize,
            ..v.timers
        },
        ..v
    };
    if v.timers.replica.contains_key(t) {
        (v2, seq![Effect::Arm(h, ServerTimeout::Replica(t), d), Effect::Cancel(v.timers.replica[t])])
    } else {
        (v2, seq![Effect::Arm(h, ServerTimeout::Replica(t), d)])
    }
}

/// Replica timeouts armed front to back.
pub open spec fn arm_timeouts(v: ServerView, ts: Seq<(u64, u64)>) -> (ServerView, Seq<Effect>)
    decreases ts.len(),
{
    if ts.len() == 0 {
        (v, Seq::<Effect>::empty())
    } else {
        let st = arm_step(v, ts[0].0, ts[0].1);
        let rest = arm_timeouts(st.0, ts.drop_first());
        (rest.0, st.1 + rest.1)
    }
}

/// The replica-timeout maps with every timer cleared.
pub open spec fn cleared_timers(v: ServerView) -> ServerView {
    ServerView {
        timers: TimerView { replica: Map::<u64, usize>::empty(), ..v.timers },
        ..v
    }
}

/// A cancellation of one of `m`'s handles.
pub open spec fn cancels_handle_of(m: Map<u64, usize>, e: Effect) -> bool {
    e is Cancel && exists|t: u64| #[trigger] m.contains_key(t) && m[t] == e->Cancel_0
}

/// Some effect of `cb` cancels the handle `h`.
pub open spec fn handle_cancelled_in(cb: Seq<Effect>, h: usize) -> bool {
    exists|i: int| 0 <= i < cb.len() && (#[trigger] cb[i])->Cancel_0 == h
}

/// A block of `Cancel` effects covering exactly the handles of `m`, each
/// once, in some order.
pub open spec fn cancel_block_ok(cb: Seq<Effect>, m: Map<u64, usize>) -> bool {
    &&& forall|i: int| 0 <= i < cb.len() ==> cancels_handle_of(m, #[trigger] cb[i])
    &&& forall|t: u64| #[trigger] m.contains_key(t) ==> handle_cancelled_in(cb, m[t])
    &&& forall|i: int, j: int|
        0 <= i < j < cb.len() ==> (#[trigger] cb[i])->Cancel_0 != (#[trigger] cb[j])->Cancel_0
}

proof fn lemma_send_peer_snoc(v: ServerView, s: Seq<(u64, Seq<u8>)>, x: (u64, Seq<u8>))
    ensures
        send_peer_msgs(v, s.push(x)).0 == send_peer_step(send_peer_msgs(v, s).0, x.0, x.1).0,
        send_peer_msgs(v, s.push(x)).1 == send_peer_msgs(v, s).1 + send_peer_step(
            send_peer_msgs(v, s).0,
            x.0,
            x.1,
        ).1,
    decreases s.len(),
{
    reveal_with_fuel(send_peer_msgs, 3);
    if s.len() == 0 {
        assert(s.push(x).drop_first() =~= Seq::<(u64, Seq<u8>)>::empty());
        assert(s.push(x)[0] == x);
        assert(send_peer_msgs(v, s).1 + send_peer_step(send_peer_msgs(v, s).0, x.0, x.1).1
            =~= send_peer_step(v, x.0, x.1).1 + Seq::<Effect>::empty());
        assert(send_peer_step(v, x.0, x.1).1 + Seq::<Effect>::empty() =~= send_peer_step(
            v,
            x.0,
            x.1,
        ).1);
    } else {
        let st = send_peer_step(v, s[0].0, s[0].1);
        assert(s.push(x)[0] == s[0]);
        assert(s.push(x).drop_first() =~= s.drop_first().push(x));
        lemma_send_peer_snoc(st.0, s.drop_first(), x);
        assert(send_peer_msgs(v, s.push(x)).1 =~= send_peer_msgs(v, s).1 + send_peer_step(
            send_peer_msgs(v, s).0,
            x.0,
            x.1,
        ).1);
    }
}

proof fn lemma_send_client_snoc(v: ServerView, s: Seq<(u128, Seq<u8>)>, x: (u128, Seq<u8>))
    ensures
        send_client_msgs(v, s.push(x)).0 == send_client_step(send_client_msgs(v, s).0, x.0, x.1).0,
        send_client_msgs(v, s.push(x)).1 == send_client_msgs(v, s).1 + send_client_step(
            send_client_msgs(v, s).0,
            x.0,
            x.1,
        ).1,
    decreases s.len(),
{
    reveal_with_fuel(send_client_msgs, 3);
    if s.len() == 0 {
        assert(s.push(x).drop_first() =~= Seq::<(u128, Seq<u8>)>::empty());
        assert(s.push(x)[0] == x);
        assert(send_client_msgs(v, s).1 + send_client_step(send_client_msgs(v, s).0, x.0, x.1).1
            =~= send_client_step(v, x.0, x.1).1 + Seq::<Effect>::empty());
        assert(send_client_step(v, x.0, x.1).1 + Seq::<Effect>::empty() =~= send_client_step(
            v,
            x.0,
            x.1,
        ).1);
    } else {
        let st = send_client_step(v, s[0].0, s[0].1);
        assert(s.push(x)[0] == s[0]);
        assert(s.push(x).drop_first() =~= s.drop_first().push(x));
        lemma_send_client_snoc(st.0, s.drop_first(), x);
        assert(send_client_msgs(v, s.push(x)).1 =~= send_client_msgs(v, s).1 + send_client_step(
            send_client_msgs(v, s).0,
            x.0,
            x.1,
        ).1);
    }
}

proof fn lemma_arm_snoc(v: ServerView, s: Seq<(u64, u64)>, x: (u64, u64))
    ensures
        arm_timeouts(v, s.push(x)).0 == arm_step(arm_timeouts(v, s).0, x.0, x.1).0,
        arm_timeouts(v, s.push(x)).1 == arm_timeouts(v, s).1 + arm_step(
            arm_timeouts(v, s).0,
            x.0,
            x.1,
        ).1,
    decreases s.len(),
{
    reveal_with_fuel(arm_timeouts, 3);
    if s.len() == 0 {
        assert(s.push(x).drop_first() =~= Seq::<(u64, u64)>::empty());
        assert(s.push(x)[0] == x);
        assert(arm_timeouts(v, s).1 + arm_step(arm_timeouts(v, s).0, x.0, x.1).1 =~= arm_step(
            v,
            x.0,
            x.1,
        ).1 + Seq::<Effect>::empty());
        assert(arm_step(v, x.0, x.1).1 + Seq::<Effect>::empty() =~= arm_step(v, x.0, x.1).1);
    } else {
        let st = arm_step(v, s[0].0, s[0].1);
        assert(s.push(x)[0] == s[0]);
        assert(s.push(x).drop_first() =~= s.drop_first().push(x));
        lemma_arm_snoc(st.0, s.drop_first(), x);
        assert(arm_timeouts(v, s.push(x)).1 =~= arm_timeouts(v, s).1 + arm_step(
            arm_timeouts(v, s).0,
            x.0,
            x.1,
        ).1);
    }
}

/// Every connection in the table records the token of the slot it occupies.
///
/// This holds of all reachable states: constructors establish `wf` and every
/// method preserves it.
pub proof fn lemma_table_token_consistency(s: &Server)
    requires
        s.wf(),
    ensures
        forall|t: usize|
            table_has(s@.table, t) ==> (#[trigger] table_at(s@.table, t)).token == t,
{
}

/// Every peer-index entry points at a connection classified as exactly that
/// peer.
pub proof fn lemma_peer_index_consistent(s: &Server)
    requires
        s.wf(),
    ensures
        forall|pid: u64|
            #[trigger] s@.peer_tokens.contains_key(pid) ==> table_has(
                s@.table,
                s@.peer_tokens[pid],
            ) && table_at(s@.table, s@.peer_tokens[pid]).kind == ConnectionKind::Peer(pid),
{
}

/// Every client-index entry points at a connection classified as exactly
/// that client.
pub proof fn lemma_client_index_consistent(s: &Server)
    requires
        s.wf(),
    ensures
        forall|cid: u128|
            #[trigger] s@.client_tokens.contains_key(cid) ==> table_has(
                s@.table,
                s@.client_tokens[cid],
            ) && table_at(s@.table, s@.client_tokens[cid]).kind == ConnectionKind::Client(cid),
{
}

/// No two peer-index entries share a token.
pub proof fn lemma_peer_index_injective(s: &Server, p1: u64, p2: u64)
    requires
        s.wf(),
        s@.peer_tokens.contains_key(p1),
        s@.peer_tokens.contains_key(p2),
        s@.peer_tokens[p1] == s@.peer_tokens[p2],
    ensures
        p1 == p2,
{
    assert(table_at(s@.table, s@.peer_tokens[p1]).kind == ConnectionKind::Peer(p1));
    assert(table_at(s@.table, s@.peer_tokens[p2]).kind == ConnectionKind::Peer(p2));
}

/// After a server preamble promoted the connection at `token` to `Peer(pid)`
/// — so the index entry for `pid` points at it — that entry is the only one
/// pointing at `token`, and the connection is classified as exactly that
/// peer. Together with `handle_frame`'s contract, which removes the peer's
/// previous connection from the table and its reconnect timer from the
/// registry in the same step, this is the promotion law.
pub proof fn lemma_preamble_promotion(s: &Server, pid: u64, token: usize)
    requires
        s.wf(),
        s@.peer_tokens.contains_key(pid),
        s@.peer_tokens[pid] == token,
    ensures
        table_has(s@.table, token),
        table_at(s@.table, token).kind == ConnectionKind::Peer(pid),
        forall|p2: u64|
            s@.peer_tokens.contains_key(p2) && #[trigger] s@.peer_tokens[p2] == token ==> p2
                == pid,
{
    assert forall|p2: u64|
        s@.peer_tokens.contains_key(p2) && #[trigger] s@.peer_tokens[p2] == token implies p2
        == pid by {
        lemma_peer_index_injective(s, p2, pid);
    }
}

/// The `Cancel` effects appended for a drained replica-timeout map cover
/// exactly its handles, each once.
proof fn lemma_cancel_block(
    eff: Seq<Effect>,
    pre_len: int,
    cancelled: Seq<(u64, usize)>,
    m: Map<u64, usize>,
)
    requires
        0 <= pre_len,
        eff.len() == pre_len + cancelled.len(),
        forall|k: int|
            0 <= k < cancelled.len() ==> #[trigger] eff[pre_len + k] == Effect::Cancel(
                cancelled[k].1,
            ),
        forall|k: int|
            0 <= k < cancelled.len() ==> m.contains_key((#[trigger] cancelled[k]).0)
                && m[cancelled[k].0] == cancelled[k].1,
        forall|t: u64|
            m.contains_key(t) ==> exists|k: int|
                0 <= k < cancelled.len() && (#[trigger] cancelled[k]).0 == t,
        forall|k1: int, k2: int|
            0 <= k1 < k2 < cancelled.len() ==> (#[trigger] cancelled[k1]).0 != (
            #[trigger] cancelled[k2]).0,
        crate::timer::injective(m),
    ensures
        cancel_block_ok(eff.subrange(pre_len, eff.len() as int), m),
{
    let cb = eff.subrange(pre_len, eff.len() as int);
    assert forall|k: int| 0 <= k < cb.len() implies cancels_handle_of(m, #[trigger] cb[k]) by {
        assert(cb[k] == eff[pre_len + k]);
        assert(cb[k] == Effect::Cancel(cancelled[k].1));
        assert(m.contains_key(cancelled[k].0) && m[cancelled[k].0] == cb[k]->Cancel_0);
    }
    assert forall|t2: u64| #[trigger] m.contains_key(t2) implies handle_cancelled_in(
        cb,
        m[t2],
    ) by {
        let k = choose|k: int| 0 <= k < cancelled.len() && (#[trigger] cancelled[k]).0 == t2;
        assert(cb[k] == eff[pre_len + k]);
        assert(cb[k] == Effect::Cancel(cancelled[k].1));
        assert(cb[k]->Cancel_0 == m[t2]);
    }
    assert forall|a: int, b: int| 0 <= a < b < cb.len() implies (#[trigger] cb[a])->Cancel_0 != (
    #[trigger] cb[b])->Cancel_0 by {
        assert(cb[a] == eff[pre_len + a]);
        assert(cb[b] == eff[pre_len + b]);
        assert(cb[a] == Effect::Cancel(cancelled[a].1));
        assert(cb[b] == Effect::Cancel(cancelled[b].1));
        assert(cancelled[a].0 != cancelled[b].0);
        assert(m[cancelled[a].0] == cancelled[a].1);
        assert(m[cancelled[b].0] == cancelled[b].1);
    }
}

} // verus!
