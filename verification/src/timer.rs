//! The timer registry: the reactor-owned mapping from logical timeout
//! identities to scheduler handles.
//!
//! A handle is allocated here, from a counter that never repeats, and handed
//! to the I/O shell to key its scheduler entry. Arming an identity that is
//! already armed displaces the old handle (replace semantics); the displaced
//! handle is returned so the shell can cancel it, and leaves the registry in
//! the same step — the registry never holds a handle that was fired,
//! cancelled or displaced.

use vstd::prelude::*;
use crate::idmap::IdMap;

verus! {

/// A logical timeout identity, as the scheduler hands it back.
#[derive(Clone, Copy, Debug, PartialEq, Eq, Hash, Structural)]
pub enum ServerTimeout {
    /// A timeout the replica asked for, named by its opaque identity.
    Replica(u64),
    /// The reconnect back-off of the peer connection at this token.
    Reconnect(usize),
}

/// The abstract state of the registry.
pub ghost struct TimerView {
    /// Armed replica timeouts: identity to scheduler handle.
    pub replica: Map<u64, usize>,
    /// Armed reconnect timeouts: connection token to scheduler handle.
    pub reconnect: Map<u64, usize>,
    /// The next handle to allocate; every armed handle is below it.
    pub next_handle: usize,
}

/// Every handle the map holds was allocated before `next`.
pub open spec fn handles_below(m: Map<u64, usize>, next: usize) -> bool {
    forall|t: u64| m.contains_key(t) ==> #[trigger] m[t] < next
}

/// No two identities share a handle.
pub open spec fn injective(m: Map<u64, usize>) -> bool {
    forall|t1: u64, t2: u64|
        m.contains_key(t1) && m.contains_key(t2) && #[trigger] m[t1] == #[trigger] m[t2] ==> t1
            == t2
}

/// The two maps share no handle.
pub open spec fn disjoint_handles(a: Map<u64, usize>, b: Map<u64, usize>) -> bool {
    forall|t1: u64, t2: u64|
        a.contains_key(t1) && b.contains_key(t2) ==> #[trigger] a[t1] != #[trigger] b[t2]
}

/// Maps logical timeout identities to scheduler handles; see the module doc.
pub struct TimerRegistry {
    replica: IdMap,
    reconnect: IdMap,
    next_handle: usize,
}

impl View for TimerRegistry {
    type V = TimerView;

    closed spec fn view(&self) -> TimerView {
        TimerView {
            replica: self.replica@,
            reconnect: self.reconnect@,
            next_handle: self.next_handle,
        }
    }
}

impl TimerRegistry {
    /// The representation invariant: distinct handles, all allocated below
    /// the counter.
    pub closed spec fn wf(&self) -> bool {
        &&& self.replica.wf()
        &&& self.reconnect.wf()
        &&& self.next_handle >= 1
        &&& handles_below(self.replica@, self.next_handle)
        &&& handles_below(self.reconnect@, self.next_handle)
        &&& injective(self.replica@)
        &&& injective(self.reconnect@)
        &&& disjoint_handles(self.replica@, self.reconnect@)
    }

    /// An empty registry.
    pub fn new() -> (r: TimerRegistry)
        ensures
            r.wf(),
            r@.replica == Map::<u64, usize>::empty(),
            r@.reconnect == Map::<u64, usize>::empty(),
            r@.next_handle == 1,
    {
        TimerRegistry { replica: IdMap::new(), reconnect: IdMap::new(), next_handle: 1 }
    }

    /// Arms the replica timeout `t` under replace semantics: the fresh handle
    /// is returned first, and the displaced one, which the scheduler must now
    /// cancel, second.
    pub fn arm_replica(&mut self, t: u64) -> (r: (usize, Option<usize>))
        requires
            old(self).wf(),
            old(self)@.next_handle < usize::MAX,
        ensures
            final(self).wf(),
            r.0 == old(self)@.next_handle,
            final(self)@.next_handle == old(self)@.next_handle + 1,
            final(self)@.replica == old(self)@.replica.insert(t, r.0),
            final(self)@.reconnect == old(self)@.reconnect,
            r.1 == if old(self)@.replica.contains_key(t) {
                Some(old(self)@.replica[t])
            } else {
                None::<usize>
            },
    {
        let h = self.next_handle;
        self.next_handle = self.next_handle + 1;
        let displaced = self.replica.insert(t, h);
        (h, displaced)
    }

    /// Arms the reconnect timeout for `token`, as [`Self::arm_replica`] does
    /// for a replica timeout.
    pub fn arm_reconnect(&mut self, token: usize) -> (r: (usize, Option<usize>))
        requires
            old(self).wf(),
            old(self)@.next_handle < usize::MAX,
        ensures
            final(self).wf(),
            r.0 == old(self)@.next_handle,
            final(self)@.next_handle == old(self)@.next_handle + 1,
            final(self)@.reconnect == old(self)@.reconnect.insert(token as u64, r.0),
            final(self)@.replica == old(self)@.replica,
            r.1 == if old(self)@.reconnect.contains_key(token as u64) {
                Some(old(self)@.reconnect[token as u64])
            } else {
                None::<usize>
            },
    {
        let h = self.next_handle;
        self.next_handle = self.next_handle + 1;
        let displaced = self.reconnect.insert(token as u64, h);
        (h, displaced)
    }

    /// The next handle the registry will allocate.
    pub fn next_handle_value(&self) -> (r: usize)
        ensures
            r == self@.next_handle,
    {
        self.next_handle
    }

    /// Whether the replica timeout `t` is armed.
    pub fn has_replica(&self, t: u64) -> (r: bool)
        requires
            self.wf(),
        ensures
            r == self@.replica.contains_key(t),
    {
        self.replica.contains(t)
    }

    /// Whether a reconnect timeout is armed for `token`.
    pub fn has_reconnect(&self, token: usize) -> (r: bool)
        requires
            self.wf(),
        ensures
            r == self@.reconnect.contains_key(token as u64),
    {
        self.reconnect.contains(token as u64)
    }

    /// Cancels and forgets the reconnect timeout for `token`, returning the
    /// handle the scheduler must cancel; idempotent when none is armed.
    pub fn cancel_reconnect(&mut self, token: usize) -> (r: Option<usize>)
        requires
            old(self).wf(),
        ensures
            final(self).wf(),
            final(self)@.reconnect == old(self)@.reconnect.remove(token as u64),
            final(self)@.replica == old(self)@.replica,
            final(self)@.next_handle == old(self)@.next_handle,
            r == if old(self)@.reconnect.contains_key(token as u64) {
                Some(old(self)@.reconnect[token as u64])
            } else {
                None::<usize>
            },
    {
        self.reconnect.remove(token as u64)
    }

    /// Takes the record of a replica timeout that just fired; `None` means
    /// the registry never armed it, which the reactor treats as fatal.
    pub fn fire_replica(&mut self, t: u64) -> (r: Option<usize>)
        requires
            old(self).wf(),
        ensures
            final(self).wf(),
            final(self)@.replica == old(self)@.replica.remove(t),
            final(self)@.reconnect == old(self)@.reconnect,
            final(self)@.next_handle == old(self)@.next_handle,
            r == if old(self)@.replica.contains_key(t) {
                Some(old(self)@.replica[t])
            } else {
                None::<usize>
            },
    {
        self.replica.remove(t)
    }

    /// Takes the record of a reconnect timeout that just fired; `None` means
    /// the registry never armed it, which the reactor treats as fatal.
    pub fn fire_reconnect(&mut self, token: usize) -> (r: Option<usize>)
        requires
            old(self).wf(),
        ensures
            final(self).wf(),
            final(self)@.reconnect == old(self)@.reconnect.remove(token as u64),
            final(self)@.replica == old(self)@.replica,
            final(self)@.next_handle == old(self)@.next_handle,
            r == if old(self)@.reconnect.contains_key(token as u64) {
                Some(old(self)@.reconnect[token as u64])
            } else {
                None::<usize>
            },
    {
        self.reconnect.remove(token as u64)
    }

    /// Cancels and forgets every replica timeout, handing back each identity
    /// with the handle the scheduler must cancel.
    pub fn cancel_all_replica(&mut self) -> (r: Vec<(u64, usize)>)
        requires
            old(self).wf(),
        ensures
            final(self).wf(),
            final(self)@.replica == Map::<u64, usize>::empty(),
            final(self)@.reconnect == old(self)@.reconnect,
            final(self)@.next_handle == old(self)@.next_handle,
            forall|i: int|
                0 <= i < r@.len() ==> old(self)@.replica.contains_key((#[trigger] r@[i]).0)
                    && old(self)@.replica[r@[i].0] == r@[i].1,
            forall|t: u64|
                old(self)@.replica.contains_key(t) ==> exists|i: int|
                    0 <= i < r@.len() && (#[trigger] r@[i]).0 == t,
            forall|i: int, j: int|
                0 <= i < j < r@.len() ==> (#[trigger] r@[i]).0 != (#[trigger] r@[j]).0,
    {
        self.replica.drain()
    }
}

/// Arming one logical timeout twice leaves exactly one armed timer — the
/// second one: whatever handle the first arming bound, the second arming
/// overwrites it, and no other identity is touched.
pub proof fn lemma_timer_replace(m: Map<u64, usize>, t: u64, h1: usize, h2: usize)
    ensures
        m.insert(t, h1).insert(t, h2) == m.insert(t, h2),
        m.insert(t, h2).contains_key(t),
        m.insert(t, h2)[t] == h2,
        forall|t2: u64| t2 != t ==> m.insert(t, h2).contains_key(t2) == m.contains_key(t2),
{
    assert(m.insert(t, h1).insert(t, h2) =~= m.insert(t, h2));
}

/// Every handle the registry holds is live: handles are pairwise distinct
/// across both families and below the allocation counter, and each operation
/// that fires, cancels or displaces a handle removes it from the registry in
/// the same step (their contracts say so), so a dead handle never lingers.
pub proof fn lemma_registry_handles_live(r: &TimerRegistry)
    requires
        r.wf(),
    ensures
        injective(r@.replica),
        injective(r@.reconnect),
        disjoint_handles(r@.replica, r@.reconnect),
        handles_below(r@.replica, r@.next_handle),
        handles_below(r@.reconnect, r@.next_handle),
{
}

} // verus!
