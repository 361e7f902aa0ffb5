//! End-to-end reactor scenarios, driven without sockets: the tests play the
//! I/O shell, feeding events in and checking state and effects.

use raft_reactor::Error;
use raft_reactor::connection::ConnectionKind;
use raft_reactor::frame::encode_frame;
use raft_reactor::preamble::{self, Preamble};
use raft_reactor::server::{Actions, Effect, Server};
use raft_reactor::timer::ServerTimeout;

fn addr(s: &str) -> Vec<u8> {
    s.as_bytes().to_vec()
}

fn preamble_frame(id: u64) -> Vec<u8> {
    encode_frame(&preamble::encode(&Preamble::Server(id)))
}

fn client_preamble_frame(cid: u128) -> Vec<u8> {
    encode_frame(&preamble::encode(&Preamble::Client(cid)))
}

/// Startup with one configured peer: the peer is indexed at token 1, its
/// connection sits disconnected with the local preamble queued, and the
/// effects ask for the listener plus one outbound connect.
#[test]
fn startup_with_peer() {
    let (s, eff) = Server::new(0, vec![(1, addr("127.0.0.1:9001"))], 128).unwrap();
    assert_eq!(eff, vec![Effect::RegisterListener, Effect::Connect(1)]);
    assert_eq!(s.peer_token(1), Some(1));
    assert_eq!(s.kind_of(1), Some(ConnectionKind::Peer(1)));
    assert_eq!(s.is_open(1), Some(false));
    assert_eq!(s.connection_addr(1).unwrap(), addr("127.0.0.1:9001"));
    assert_eq!(s.pending_chunk(1), Some(preamble_frame(0)));
}

/// After the shell reports the queued preamble written, nothing is pending
/// and writable interest is dropped: the connection has sent its preamble.
#[test]
fn startup_peer_sends_preamble() {
    let (mut s, _) = Server::new(0, vec![(1, addr("a"))], 128).unwrap();
    let chunk = s.pending_chunk(1).unwrap();
    let eff = s.advance_write(1, chunk.len());
    assert_eq!(eff, vec![Effect::SetWritable(1, false)]);
    assert_eq!(s.pending_chunk(1), None);
}

/// A partial write leaves the remainder pending; the queue survives until
/// every byte is out.
#[test]
fn partial_write_resumes() {
    let (mut s, _) = Server::new(0, vec![(1, addr("a"))], 128).unwrap();
    let whole = s.pending_chunk(1).unwrap();
    let eff = s.advance_write(1, 3);
    assert_eq!(eff, Vec::new());
    let rest = s.pending_chunk(1).unwrap();
    assert_eq!(rest, whole[3..].to_vec());
    let eff = s.advance_write(1, rest.len());
    assert_eq!(eff, vec![Effect::SetWritable(1, false)]);
}

/// Constructing with the local id among the peers is refused before the
/// reactor starts; the shell aborts on it.
#[test]
fn self_in_peers_aborts() {
    let r = Server::new(0, vec![(0, addr("b"))], 128);
    assert_eq!(r.err(), Some(Error::Fatal));
    let r = Server::new(3, vec![(1, addr("a")), (3, addr("b"))], 128);
    assert_eq!(r.err(), Some(Error::Fatal));
}

/// More peers than the table holds fails startup with the table-full error.
#[test]
fn too_many_peers_at_startup() {
    let r = Server::new(0, vec![(1, addr("a")), (2, addr("b"))], 1);
    assert_eq!(r.err(), Some(Error::ConnectionLimitReached));
}

/// An unreachable peer: the failed connect is reset, which arms a reconnect
/// back-off timer; its expiry attempts a fresh connect with the preamble
/// queued anew; the back-off doubles on the next reset.
#[test]
fn unreachable_peer_reconnects_with_backoff() {
    let (mut s, _) = Server::new(0, vec![(1, addr("a"))], 128).unwrap();
    let eff = s.reset_connection(1).unwrap();
    assert_eq!(eff.len(), 2);
    assert_eq!(eff[0], Effect::Deregister(1));
    let h1 = match eff[1] {
        Effect::Arm(h, ServerTimeout::Reconnect(1), 100) => h,
        ref other => panic!("unexpected effect {:?}", other),
    };
    assert!(s.reconnect_armed(1));
    assert_eq!(s.is_open(1), Some(false));
    assert_eq!(s.pending_chunk(1), None);

    let eff = s.timeout(ServerTimeout::Reconnect(1)).unwrap();
    assert_eq!(eff, vec![Effect::Connect(1)]);
    assert!(!s.reconnect_armed(1));
    assert_eq!(s.is_open(1), Some(true));
    assert_eq!(s.pending_chunk(1), Some(preamble_frame(0)));

    let eff = s.reset_connection(1).unwrap();
    match eff[1] {
        Effect::Arm(h, ServerTimeout::Reconnect(1), 200) => assert_ne!(h, h1),
        ref other => panic!("unexpected effect {:?}", other),
    }
}

/// A second reset while the reconnect timer is armed is an invariant
/// violation and fatal.
#[test]
fn double_reset_is_fatal() {
    let (mut s, _) = Server::new(0, vec![(1, addr("a"))], 128).unwrap();
    s.reset_connection(1).unwrap();
    assert_eq!(s.reset_connection(1).err(), Some(Error::Fatal));
}

/// A fired timer the registry does not hold is fatal.
#[test]
fn unknown_timer_firing_is_fatal() {
    let (mut s, _) = Server::new(0, vec![], 4).unwrap();
    assert_eq!(s.timeout(ServerTimeout::Replica(9)).err(), Some(Error::Fatal));
    assert_eq!(s.timeout(ServerTimeout::Reconnect(1)).err(), Some(Error::Fatal));
}

/// Accepting beyond the table's capacity fails with the table-full error and
/// does not disturb existing connections; an explicit removal frees a token
/// for reuse.
#[test]
fn connection_cap() {
    let (mut s, _) = Server::new(7, vec![], 2).unwrap();
    let (t1, eff1) = s.accept().unwrap();
    assert_eq!((t1, eff1), (1, vec![Effect::Register(1)]));
    let (t2, _) = s.accept().unwrap();
    assert_eq!(t2, 2);
    assert_eq!(s.accept().err(), Some(Error::ConnectionLimitReached));
    assert!(s.has_connection(1) && s.has_connection(2));
    assert_eq!(s.kind_of(1), Some(ConnectionKind::Unknown));

    let eff = s.reset_connection(2).unwrap();
    assert_eq!(eff, vec![Effect::Close(2)]);
    assert!(!s.has_connection(2));
    let (t, _) = s.accept().unwrap();
    assert_eq!(t, 2);
}

/// A server preamble on an unknown connection promotes it to that peer and
/// supersedes the peer's previous connection: the index moves, the old token
/// leaves the table, and its reconnect timer is cancelled.
#[test]
fn duplicate_peer_preamble_supersedes() {
    let (mut s, _) = Server::new(0, vec![(1, addr("a"))], 8).unwrap();
    let eff = s.reset_connection(1).unwrap();
    let h = match eff[1] {
        Effect::Arm(h, _, _) => h,
        ref other => panic!("unexpected effect {:?}", other),
    };
    let (b, _) = s.accept().unwrap();
    assert_eq!(b, 2);
    s.feed(b, &preamble_frame(1));
    let eff = s.handle_frame(b).unwrap().unwrap();
    assert_eq!(eff, vec![Effect::Close(1), Effect::Cancel(h)]);
    assert_eq!(s.peer_token(1), Some(b));
    assert!(!s.has_connection(1));
    assert!(!s.reconnect_armed(1));
    assert_eq!(s.kind_of(b), Some(ConnectionKind::Peer(1)));
    assert_eq!(s.handle_frame(b).unwrap(), None);
}

/// The same supersession without a pending reconnect timer cancels nothing.
#[test]
fn peer_preamble_supersedes_without_timer() {
    let (mut s, _) = Server::new(0, vec![(1, addr("a"))], 8).unwrap();
    let (b, _) = s.accept().unwrap();
    s.feed(b, &preamble_frame(1));
    let eff = s.handle_frame(b).unwrap().unwrap();
    assert_eq!(eff, vec![Effect::Close(1)]);
    assert_eq!(s.peer_token(1), Some(b));
}

/// A server preamble naming a peer outside the fixed set is fatal.
#[test]
fn unknown_peer_preamble_is_fatal() {
    let (mut s, _) = Server::new(0, vec![], 4).unwrap();
    let (t, _) = s.accept().unwrap();
    s.feed(t, &preamble_frame(9));
    assert_eq!(s.handle_frame(t).err(), Some(Error::Fatal));
}

/// A client preamble promotes the connection and records it in the client
/// index; a faulting client connection is then forgotten entirely and its
/// token freed.
#[test]
fn client_fault_forgets_client() {
    let cid: u128 = 0xabcd;
    let (mut s, _) = Server::new(0, vec![], 4).unwrap();
    let (t, _) = s.accept().unwrap();
    s.feed(t, &client_preamble_frame(cid));
    let eff = s.handle_frame(t).unwrap().unwrap();
    assert_eq!(eff, Vec::new());
    assert_eq!(s.client_token(cid), Some(t));
    assert_eq!(s.kind_of(t), Some(ConnectionKind::Client(cid)));

    let eff = s.reset_connection(t).unwrap();
    assert_eq!(eff, vec![Effect::Close(t)]);
    assert_eq!(s.client_token(cid), None);
    assert!(!s.has_connection(t));
    let (again, _) = s.accept().unwrap();
    assert_eq!(again, t);
}

/// A second connection with the same client identity supersedes the first.
#[test]
fn duplicate_client_preamble_supersedes() {
    let cid: u128 = 5;
    let (mut s, _) = Server::new(0, vec![], 4).unwrap();
    let (t1, _) = s.accept().unwrap();
    s.feed(t1, &client_preamble_frame(cid));
    assert_eq!(s.handle_frame(t1).unwrap().unwrap(), Vec::new());
    let (t2, _) = s.accept().unwrap();
    s.feed(t2, &client_preamble_frame(cid));
    let eff = s.handle_frame(t2).unwrap().unwrap();
    assert_eq!(eff, vec![Effect::Close(t1)]);
    assert_eq!(s.client_token(cid), Some(t2));
    assert!(!s.has_connection(t1));
}

/// A malformed preamble closes and removes the connection.
#[test]
fn malformed_preamble_closes_connection() {
    let (mut s, _) = Server::new(0, vec![], 4).unwrap();
    let (t, _) = s.accept().unwrap();
    s.feed(t, &encode_frame(&vec![0xFF, 1, 2]));
    let eff = s.handle_frame(t).unwrap().unwrap();
    assert_eq!(eff, vec![Effect::Close(t)]);
    assert!(!s.has_connection(t));
}

/// Frames on classified connections go to the replica, in arrival order,
/// carrying the connection's identity.
#[test]
fn frames_dispatch_by_classification() {
    let (mut s, _) = Server::new(0, vec![(1, addr("a"))], 8).unwrap();
    let mut bytes = encode_frame(&vec![10]);
    bytes.extend_from_slice(&encode_frame(&vec![20, 21]));
    s.feed(1, &bytes);
    let eff = s.handle_frame(1).unwrap().unwrap();
    assert_eq!(eff, vec![Effect::ApplyPeer(1, vec![10])]);
    let eff = s.handle_frame(1).unwrap().unwrap();
    assert_eq!(eff, vec![Effect::ApplyPeer(1, vec![20, 21])]);
    assert_eq!(s.handle_frame(1).unwrap(), None);

    let cid: u128 = 77;
    let (t, _) = s.accept().unwrap();
    s.feed(t, &client_preamble_frame(cid));
    s.handle_frame(t).unwrap();
    s.feed(t, &encode_frame(&vec![3]));
    let eff = s.handle_frame(t).unwrap().unwrap();
    assert_eq!(eff, vec![Effect::ApplyClient(cid, vec![3])]);
}

/// Executing an empty Actions is a no-op: no effects, and every observable
/// piece of state is untouched.
#[test]
fn empty_actions_is_noop() {
    let (mut s, _) = Server::new(0, vec![(1, addr("a"))], 8).unwrap();
    let before_chunk = s.pending_chunk(1);
    let eff = s.execute_actions(&Actions::new()).unwrap();
    assert_eq!(eff, Vec::new());
    assert_eq!(s.peer_token(1), Some(1));
    assert_eq!(s.pending_chunk(1), before_chunk);
    assert_eq!(s.kind_of(1), Some(ConnectionKind::Peer(1)));
}

/// Peer messages join the peer's queue in order; a queue that was empty asks
/// for writable interest. A message for an unconfigured peer is fatal.
#[test]
fn actions_send_peer_messages() {
    let (mut s, _) = Server::new(0, vec![(1, addr("a"))], 8).unwrap();
    let chunk = s.pending_chunk(1).unwrap();
    s.advance_write(1, chunk.len());

    let mut a = Actions::new();
    a.peer_messages.push((1, vec![42, 43]));
    a.peer_messages.push((1, vec![44]));
    let eff = s.execute_actions(&a).unwrap();
    assert_eq!(eff, vec![Effect::SetWritable(1, true)]);
    assert_eq!(s.pending_chunk(1), Some(encode_frame(&vec![42, 43])));

    let mut bad = Actions::new();
    bad.peer_messages.push((9, vec![1]));
    assert_eq!(s.execute_actions(&bad).err(), Some(Error::Fatal));
}

/// Client messages reach a connected client and are silently dropped for a
/// client that is gone.
#[test]
fn actions_send_client_messages() {
    let cid: u128 = 8;
    let (mut s, _) = Server::new(0, vec![], 4).unwrap();
    let (t, _) = s.accept().unwrap();
    s.feed(t, &client_preamble_frame(cid));
    s.handle_frame(t).unwrap();

    let mut a = Actions::new();
    a.client_messages.push((cid, vec![5]));
    a.client_messages.push((999, vec![6]));
    let eff = s.execute_actions(&a).unwrap();
    assert_eq!(eff, vec![Effect::SetWritable(t, true)]);
    assert_eq!(s.pending_chunk(t), Some(encode_frame(&vec![5])));
}

/// Arming a replica timeout twice replaces it: the second arm displaces and
/// cancels the first handle, and only the second firing is accepted.
#[test]
fn actions_timer_replace() {
    let (mut s, _) = Server::new(0, vec![], 4).unwrap();
    let mut a = Actions::new();
    a.timeouts.push((5, 150));
    let eff = s.execute_actions(&a).unwrap();
    assert_eq!(eff.len(), 1);
    let h1 = match eff[0] {
        Effect::Arm(h, ServerTimeout::Replica(5), 150) => h,
        ref other => panic!("unexpected effect {:?}", other),
    };
    let eff = s.execute_actions(&a).unwrap();
    assert_eq!(eff.len(), 2);
    match (&eff[0], &eff[1]) {
        (Effect::Arm(h2, ServerTimeout::Replica(5), 150), Effect::Cancel(hc)) => {
            assert_ne!(*h2, h1);
            assert_eq!(*hc, h1);
        },
        other => panic!("unexpected effects {:?}", other),
    }

    let eff = s.timeout(ServerTimeout::Replica(5)).unwrap();
    assert_eq!(eff, vec![Effect::ApplyTimeout(5)]);
    assert_eq!(s.timeout(ServerTimeout::Replica(5)).err(), Some(Error::Fatal));
}

/// `clear_timeouts` cancels every armed replica timeout before new ones are
/// armed, and leaves reconnect timers alone.
#[test]
fn actions_clear_timeouts() {
    let (mut s, _) = Server::new(0, vec![(1, addr("a"))], 8).unwrap();
    s.reset_connection(1).unwrap();

    let mut a = Actions::new();
    a.timeouts.push((1, 100));
    a.timeouts.push((2, 200));
    let eff = s.execute_actions(&a).unwrap();
    let mut armed: Vec<usize> = eff
        .iter()
        .map(|e| match e {
            Effect::Arm(h, _, _) => *h,
            other => panic!("unexpected effect {:?}", other),
        })
        .collect();
    armed.sort();

    let mut b = Actions::new();
    b.clear_timeouts = true;
    b.timeouts.push((3, 300));
    let eff = s.execute_actions(&b).unwrap();
    assert_eq!(eff.len(), 3);
    let mut cancelled: Vec<usize> = eff[..2]
        .iter()
        .map(|e| match e {
            Effect::Cancel(h) => *h,
            other => panic!("unexpected effect {:?}", other),
        })
        .collect();
    cancelled.sort();
    assert_eq!(cancelled, armed);
    assert!(matches!(eff[2], Effect::Arm(_, ServerTimeout::Replica(3), 300)));
    assert!(s.reconnect_armed(1));
    assert_eq!(s.timeout(ServerTimeout::Replica(1)).err(), Some(Error::Fatal));
    assert!(s.timeout(ServerTimeout::Replica(3)).is_ok());
}
