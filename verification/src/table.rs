//! The bounded connection table: a slab of connections keyed by tokens.
//!
//! Token `t` lives in slot `t - 1`; token 0 is reserved for the listening
//! socket and never appears here. Tokens are reused only after an explicit
//! removal, and insertion beyond the capacity fails.

use vstd::prelude::*;
use crate::connection::{Connection, ConnView};

verus! {

/// A bounded slab of connections; see the module doc.
pub struct ConnTable {
    slots: Vec<Option<Connection>>,
}

impl View for ConnTable {
    type V = Seq<Option<ConnView>>;

    closed spec fn view(&self) -> Seq<Option<ConnView>> {
        Seq::new(
            self.slots@.len(),
            |i: int|
                match self.slots@[i] {
                    Some(c) => Some(c@),
                    None => None,
                },
        )
    }
}

/// Whether `t` is a token this table could hold.
pub open spec fn valid_token(v: Seq<Option<ConnView>>, t: usize) -> bool {
    1 <= t <= v.len()
}

/// Whether a connection occupies token `t`.
pub open spec fn table_has(v: Seq<Option<ConnView>>, t: usize) -> bool {
    valid_token(v, t) && v[t - 1] is Some
}

/// The connection at token `t`.
pub open spec fn table_at(v: Seq<Option<ConnView>>, t: usize) -> ConnView
    recommends
        table_has(v, t),
{
    v[t - 1].unwrap()
}

impl ConnTable {
    /// An empty table with room for `cap` connections at tokens
    /// `1 ..= cap`.
    pub fn new(cap: usize) -> (r: ConnTable)
        ensures
            r@.len() == cap,
            forall|t: usize| !table_has(r@, t),
            forall|j: int| 0 <= j < cap ==> r@[j] is None,
    {
        let mut slots: Vec<Option<Connection>> = Vec::new();
        let mut i: usize = 0;
        while i < cap
            invariant
                i <= cap,
                slots@.len() == i,
                forall|j: int| 0 <= j < i ==> slots@[j] is None,
            decreases cap - i,
        {
            slots.push(None);
            i = i + 1;
        }
        ConnTable { slots }
    }

    /// The number of slots.
    pub fn capacity(&self) -> (r: usize)
        ensures
            r == self@.len(),
    {
        self.slots.len()
    }

    /// Whether a connection occupies token `t`.
    pub fn has(&self, t: usize) -> (r: bool)
        ensures
            r == table_has(self@, t),
    {
        1 <= t && t <= self.slots.len() && self.slots[t - 1].is_some()
    }

    /// A borrow of the connection at token `t`.
    pub fn get(&self, t: usize) -> (r: Option<&Connection>)
        ensures
            match r {
                Some(c) => table_has(self@, t) && c@ == table_at(self@, t),
                None => !table_has(self@, t),
            },
    {
        if 1 <= t && t <= self.slots.len() {
            self.slots[t - 1].as_ref()
        } else {
            None
        }
    }

    /// Inserts a connection at the lowest free token, records that token in
    /// the connection, and returns it; `None`, dropping the connection, when
    /// every slot is taken.
    pub fn insert(&mut self, c: Connection) -> (r: Option<usize>)
        requires
            c@.token == 0,
        ensures
            match r {
                None => {
                    &&& final(self)@ == old(self)@
                    &&& forall|t: usize| valid_token(old(self)@, t) ==> table_has(old(self)@, t)
                },
                Some(t) => {
                    &&& valid_token(old(self)@, t)
                    &&& !table_has(old(self)@, t)
                    &&& forall|u: usize| 1 <= u < t ==> table_has(old(self)@, u)
                    &&& final(self)@ == old(self)@.update(
                        t - 1,
                        Some(ConnView { token: t, ..c@ }),
                    )
                },
            },
    {
        let n = self.slots.len();
        let mut i: usize = 0;
        while i < n
            invariant
                n == self.slots@.len(),
                i <= n,
                self@ == old(self)@,
                c@.token == 0,
                forall|j: int| 0 <= j < i ==> self.slots@[j] is Some,
            decreases n - i,
        {
            if self.slots[i].is_none() {
                let t = i + 1;
                let mut c2 = c;
                c2.set_token(t);
                self.slots[i] = Some(c2);
                proof {
                    assert(self@ =~= old(self)@.update(
                        t - 1,
                        Some(ConnView { token: t, ..c@ }),
                    ));
                }
                return Some(t);
            }
            i = i + 1;
        }
        None
    }

    /// Takes the connection at token `t` out of the table, freeing the token.
    pub fn take(&mut self, t: usize) -> (r: Option<Connection>)
        ensures
            match r {
                Some(c) => {
                    &&& table_has(old(self)@, t)
                    &&& c@ == table_at(old(self)@, t)
                    &&& final(self)@ == old(self)@.update(t - 1, None)
                },
                None => {
                    &&& !table_has(old(self)@, t)
                    &&& final(self)@ == old(self)@
                },
            },
    {
        if !(1 <= t && t <= self.slots.len()) {
            return None;
        }
        self.slots.push(None);
        let c = self.slots.swap_remove(t - 1);
        proof {
            if c is Some {
                assert(self@ =~= old(self)@.update(t - 1, None));
            } else {
                assert(self@ =~= old(self)@);
            }
        }
        c
    }

    /// Puts a connection back at the free token `t` it was taken from.
    pub fn put(&mut self, t: usize, c: Connection)
        requires
            valid_token(old(self)@, t),
            !table_has(old(self)@, t),
            c@.token == t,
        ensures
            final(self)@ == old(self)@.update(t - 1, Some(c@)),
    {
        self.slots[t - 1] = Some(c);
        proof {
            assert(self@ =~= old(self)@.update(t - 1, Some(c@)));
        }
    }
}

} // verus!
