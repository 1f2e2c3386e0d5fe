//! The session table: live connections addressable by token.
//!
//! A dense slab with a free list: insertion assigns a free token, removal
//! frees it for reuse. No two simultaneously live connections ever share a
//! token — a token handed out by `insert` is not in the table's domain
//! before the call and stays live until `remove` frees it.

use vstd::prelude::*;
use crate::connection::{enqueue, ConnM, Connection, Token};

verus! {

pub struct SessionTable {
    slots: Vec<Option<Connection>>,
    free: Vec<Token>,
}

impl View for SessionTable {
    type V = Map<int, ConnM>;

    /// The table as a map from live token to connection state.
    closed spec fn view(&self) -> Map<int, ConnM> {
        Map::new(
            |t: int| 0 <= t < self.slots@.len() && self.slots@[t] is Some,
            |t: int| self.slots@[t].unwrap()@,
        )
    }
}

/// Every connection of the table with one more outbound buffer and write
/// interest raised: the shape of a broadcast.
pub open spec fn enqueue_all(cs: Map<int, ConnM>, b: Seq<u8>) -> Map<int, ConnM> {
    Map::new(|t: int| cs.dom().contains(t), |t: int| enqueue(cs[t], b))
}

impl SessionTable {
    /// The free list holds exactly the empty slots, without duplicates.
    pub closed spec fn wf(self) -> bool {
        &&& forall|k: int|
            0 <= k < self.free@.len() ==> (#[trigger] self.free@[k]) < self.slots@.len()
                && self.slots@[self.free@[k] as int] is None
        &&& forall|k1: int, k2: int|
            0 <= k1 < k2 < self.free@.len() ==> self.free@[k1] != self.free@[k2]
        &&& forall|t: int|
            0 <= t < self.slots@.len() && self.slots@[t] is None ==> exists|k: int|
                0 <= k < self.free@.len() && (#[trigger] self.free@[k]) == t
    }

    /// An empty table.
    pub fn new() -> (r: SessionTable)
        ensures
            r.wf(),
            r@ == Map::<int, ConnM>::empty(),
    {
        let r = SessionTable { slots: Vec::new(), free: Vec::new() };
        proof {
            assert(r@ =~= Map::<int, ConnM>::empty());
        }
        r
    }

    /// Whether this token names a live connection.
    pub fn contains(&self, t: Token) -> (r: bool)
        ensures
            r == self@.dom().contains(t as int),
    {
        t < self.slots.len() && self.slots[t].is_some()
    }

    /// Inserts a connection, assigning it a token that no live connection
    /// carries; the token field of the stored connection is set to it.
    pub fn insert(&mut self, conn: Connection) -> (t: Token)
        requires
            old(self).wf(),
        ensures
            final(self).wf(),
            !old(self)@.dom().contains(t as int),
            final(self)@.dom() == old(self)@.dom().insert(t as int),
            final(self)@[t as int] == (ConnM { token: t, ..conn@ }),
            forall|u: int|
                u != t && old(self)@.dom().contains(u) ==> final(self)@[u] == old(self)@[u],
            forall|u: int| old(self)@.dom().contains(u) ==> final(self)@.dom().contains(u),
    {
        let mut c = conn;
        match self.free.pop() {
            Some(t) => {
                c.token = t;
                proof {
                    let k = self.free@.len() as int;
                    assert(old(self).free@[k] == t);
                    assert(t < self.slots@.len());
                    assert(self.slots@[t as int] is None);
                }
                self.set_slot(t, Some(c));
                proof {
                    assert(self@.dom() =~= old(self)@.dom().insert(t as int));
                    assert forall|x: int|
                        0 <= x < self.slots@.len() && self.slots@[x] is None implies exists|k: int|
                        0 <= k < self.free@.len() && (#[trigger] self.free@[k]) == x by {
                        let k0 = choose|k0: int|
                            0 <= k0 < old(self).free@.len() && old(self).free@[k0] == x;
                        assert(k0 < old(self).free@.len() - 1);
                        assert(self.free@[k0] == x);
                    }
                }
                t
            },
            None => {
                let t = self.slots.len();
                c.token = t;
                self.slots.push(Some(c));
                proof {
                    assert(self@.dom() =~= old(self)@.dom().insert(t as int));
                    assert(self@ =~~= old(self)@.insert(t as int, ConnM { token: t, ..conn@ }));
                    assert forall|x: int|
                        0 <= x < self.slots@.len() && self.slots@[x] is None implies exists|k: int|
                        0 <= k < self.free@.len() && (#[trigger] self.free@[k]) == x by {
                        assert(x < t);
                        let k0 = choose|k0: int|
                            0 <= k0 < old(self).free@.len() && old(self).free@[k0] == x;
                        assert(self.free@[k0] == x);
                    }
                }
                t
            },
        }
    }

    /// Removes and returns the connection behind a token, freeing the token
    /// for reuse; `None` and no change when the token is not live.
    pub fn remove(&mut self, t: Token) -> (r: Option<Connection>)
        requires
            old(self).wf(),
        ensures
            final(self).wf(),
            match r {
                Some(c) => old(self)@.dom().contains(t as int) && c@ == old(self)@[t as int]
                    && final(self)@ == old(self)@.remove(t as int),
                None => !old(self)@.dom().contains(t as int) && final(self)@ == old(self)@,
            },
    {
        if t >= self.slots.len() {
            return None;
        }
        let c = self.take_slot(t);
        match c {
            Some(conn) => {
                proof {
                    assert forall|k: int|
                        0 <= k < self.free@.len() implies (#[trigger] self.free@[k]) != t by {
                        assert(old(self).slots@[self.free@[k] as int] is None);
                    }
                }
                self.free.push(t);
                proof {
                    assert(self@ =~~= old(self)@.remove(t as int));
                    assert forall|x: int|
                        0 <= x < self.slots@.len() && self.slots@[x] is None implies exists|k: int|
                        0 <= k < self.free@.len() && (#[trigger] self.free@[k]) == x by {
                        if x == t {
                            assert(self.free@[self.free@.len() - 1] == t);
                        } else {
                            let k0 = choose|k0: int|
                                0 <= k0 < old(self).free@.len() && old(self).free@[k0] == x;
                            assert(self.free@[k0] == x);
                        }
                    }
                }
                Some(conn)
            },
            None => {
                proof {
                    assert(self.slots@ =~= old(self).slots@);
                    assert(self@ =~~= old(self)@);
                }
                None
            },
        }
    }

    /// Reads the connection behind a live token.
    pub fn get(&self, t: Token) -> (r: &Connection)
        requires
            self@.dom().contains(t as int),
        ensures
            r@ == self@[t as int],
    {
        self.slots[t].as_ref().unwrap()
    }

    /// Replaces the connection behind a live token.
    pub fn put(&mut self, t: Token, c: Connection)
        requires
            old(self).wf(),
            old(self)@.dom().contains(t as int),
        ensures
            final(self).wf(),
            final(self)@ == old(self)@.insert(t as int, c@),
    {
        let prev = self.take_slot(t);
        proof {
            assert(prev is Some);
        }
        self.set_slot(t, Some(c));
        proof {
            assert(self@ =~~= old(self)@.insert(t as int, c@));
            assert forall|k: int|
                0 <= k < self.free@.len() implies (#[trigger] self.free@[k]) < self.slots@.len()
                && self.slots@[self.free@[k] as int] is None by {
                assert(old(self).slots@[self.free@[k] as int] is None);
            }
            assert forall|x: int|
                0 <= x < self.slots@.len() && self.slots@[x] is None implies exists|k: int|
                0 <= k < self.free@.len() && (#[trigger] self.free@[k]) == x by {
                let k0 = choose|k0: int|
                    0 <= k0 < old(self).free@.len() && old(self).free@[k0] == x;
                assert(self.free@[k0] == x);
            }
        }
    }

    /// Appends one buffer to a live connection's send queue.
    pub fn enqueue_to(&mut self, t: Token, bytes: &[u8])
        requires
            old(self).wf(),
            old(self)@.dom().contains(t as int),
        ensures
            final(self).wf(),
            final(self)@ == old(self)@.insert(t as int, enqueue(old(self)@[t as int], bytes@)),
    {
        let mut c = self.take_slot(t).unwrap();
        c.send_message(bytes);
        self.set_slot(t, Some(c));
        proof {
            assert(self@ =~~= old(self)@.insert(
                t as int,
                enqueue(old(self)@[t as int], bytes@),
            ));
            assert forall|k: int|
                0 <= k < self.free@.len() implies (#[trigger] self.free@[k]) < self.slots@.len()
                && self.slots@[self.free@[k] as int] is None by {
                assert(old(self).slots@[self.free@[k] as int] is None);
            }
            assert forall|x: int|
                0 <= x < self.slots@.len() && self.slots@[x] is None implies exists|k: int|
                0 <= k < self.free@.len() && (#[trigger] self.free@[k]) == x by {
                let k0 = choose|k0: int|
                    0 <= k0 < old(self).free@.len() && old(self).free@[k0] == x;
                assert(self.free@[k0] == x);
            }
        }
    }

    /// Appends one buffer to every live connection's send queue: the
    /// broadcast primitive. Iteration never changes which tokens are live.
    pub fn broadcast(&mut self, bytes: &[u8])
        requires
            old(self).wf(),
        ensures
            final(self).wf(),
            final(self)@ == enqueue_all(old(self)@, bytes@),
    {
        let n = self.slots.len();
        let mut i: usize = 0;
        while i < n
            invariant
                i <= n,
                self.wf(),
                n == self.slots@.len(),
                self.slots@.len() == old(self).slots@.len(),
                forall|x: int|
                    0 <= x < self.slots@.len() ==> ((#[trigger] self.slots@[x]) is Some <==> old(
                        self,
                    ).slots@[x] is Some),
                forall|x: int| i <= x < self.slots@.len() ==> self.slots@[x] == old(self).slots@[x],
                forall|x: int|
                    0 <= x < i && self.slots@[x] is Some ==> (#[trigger] self.slots@[x]).unwrap()@
                        == enqueue(old(self).slots@[x].unwrap()@, bytes@),
            decreases n - i,
        {
            let is_live = self.slots[i].is_some();
            if is_live {
                let ghost pre = self@;
                let mut c = self.take_slot(i);
                let mut conn = c.unwrap();
                conn.send_message(bytes);
                self.set_slot(i, Some(conn));
                proof {
                    assert forall|k: int|
                        0 <= k < self.free@.len() implies (#[trigger] self.free@[k])
                        < self.slots@.len() && self.slots@[self.free@[k] as int] is None by {}
                    assert forall|x: int|
                        0 <= x < self.slots@.len() && self.slots@[x] is None implies exists|k: int|
                        0 <= k < self.free@.len() && (#[trigger] self.free@[k]) == x by {}
                }
            }
            i = i + 1;
        }
        proof {
            assert(self@ =~~= enqueue_all(old(self)@, bytes@));
        }
    }


    /// Replaces a live connection's inbound reassembly buffer.
    pub fn set_buffer(&mut self, t: Token, buf: Vec<u8>)
        requires
            old(self).wf(),
            old(self)@.dom().contains(t as int),
        ensures
            final(self).wf(),
            final(self)@ == old(self)@.insert(t as int, (ConnM { buffer: buf@, ..old(self)@[t as int] })),
    {
        let mut c = self.take_slot(t).unwrap();
        c.buffer = buf;
        self.set_slot(t, Some(c));
        proof {
            assert(self@ =~~= old(self)@.insert(t as int, (ConnM { buffer: buf@, ..old(self)@[t as int] })));
            assert forall|k: int|
                0 <= k < self.free@.len() implies (#[trigger] self.free@[k]) < self.slots@.len()
                && self.slots@[self.free@[k] as int] is None by {
                assert(old(self).slots@[self.free@[k] as int] is None);
            }
            assert forall|x: int|
                0 <= x < self.slots@.len() && self.slots@[x] is None implies exists|k: int|
                0 <= k < self.free@.len() && (#[trigger] self.free@[k]) == x by {
                let k0 = choose|k0: int|
                    0 <= k0 < old(self).free@.len() && old(self).free@[k0] == x;
                assert(self.free@[k0] == x);
            }
        }
    }

    /// Renames a live connection's user.
    pub fn set_name(&mut self, t: Token, name: &[u8])
        requires
            old(self).wf(),
            old(self)@.dom().contains(t as int),
        ensures
            final(self).wf(),
            final(self)@ == old(self)@.insert(t as int, (ConnM {
                user: crate::user::UserM {
                    name: name@,
                    current_zone: old(self)@[t as int].user.current_zone,
                },
                ..old(self)@[t as int]
            })),
    {
        let mut c = self.take_slot(t).unwrap();
        c.user.set_name(name);
        self.set_slot(t, Some(c));
        proof {
            assert(self@ =~~= old(self)@.insert(t as int, (ConnM {
                user: crate::user::UserM {
                    name: name@,
                    current_zone: old(self)@[t as int].user.current_zone,
                },
                ..old(self)@[t as int]
            })));
            assert forall|k: int|
                0 <= k < self.free@.len() implies (#[trigger] self.free@[k]) < self.slots@.len()
                && self.slots@[self.free@[k] as int] is None by {
                assert(old(self).slots@[self.free@[k] as int] is None);
            }
            assert forall|x: int|
                0 <= x < self.slots@.len() && self.slots@[x] is None implies exists|k: int|
                0 <= k < self.free@.len() && (#[trigger] self.free@[k]) == x by {
                let k0 = choose|k0: int|
                    0 <= k0 < old(self).free@.len() && old(self).free@[k0] == x;
                assert(self.free@[k0] == x);
            }
        }
    }

    /// Associates a live connection with a world entity.
    pub fn set_entity(&mut self, t: Token, id: crate::entity::EntityID)
        requires
            old(self).wf(),
            old(self)@.dom().contains(t as int),
        ensures
            final(self).wf(),
            final(self)@ == old(self)@.insert(t as int, (ConnM { entity: id, ..old(self)@[t as int] })),
    {
        let mut c = self.take_slot(t).unwrap();
        c.entity = id;
        self.set_slot(t, Some(c));
        proof {
            assert(self@ =~~= old(self)@.insert(t as int, (ConnM { entity: id, ..old(self)@[t as int] })));
            assert forall|k: int|
                0 <= k < self.free@.len() implies (#[trigger] self.free@[k]) < self.slots@.len()
                && self.slots@[self.free@[k] as int] is None by {
                assert(old(self).slots@[self.free@[k] as int] is None);
            }
            assert forall|x: int|
                0 <= x < self.slots@.len() && self.slots@[x] is None implies exists|k: int|
                0 <= k < self.free@.len() && (#[trigger] self.free@[k]) == x by {
                let k0 = choose|k0: int|
                    0 <= k0 < old(self).free@.len() && old(self).free@[k0] == x;
                assert(self.free@[k0] == x);
            }
        }
    }

    /// Marks a live connection's handshake state.
    pub fn set_handshake(&mut self, t: Token, done: bool)
        requires
            old(self).wf(),
            old(self)@.dom().contains(t as int),
        ensures
            final(self).wf(),
            final(self)@ == old(self)@.insert(t as int, (ConnM { handshake_done: done, ..old(self)@[t as int] })),
    {
        let mut c = self.take_slot(t).unwrap();
        c.handshake_done = done;
        self.set_slot(t, Some(c));
        proof {
            assert(self@ =~~= old(self)@.insert(t as int, (ConnM { handshake_done: done, ..old(self)@[t as int] })));
            assert forall|k: int|
                0 <= k < self.free@.len() implies (#[trigger] self.free@[k]) < self.slots@.len()
                && self.slots@[self.free@[k] as int] is None by {
                assert(old(self).slots@[self.free@[k] as int] is None);
            }
            assert forall|x: int|
                0 <= x < self.slots@.len() && self.slots@[x] is None implies exists|k: int|
                0 <= k < self.free@.len() && (#[trigger] self.free@[k]) == x by {
                let k0 = choose|k0: int|
                    0 <= k0 < old(self).free@.len() && old(self).free@[k0] == x;
                assert(self.free@[k0] == x);
            }
        }
    }

    /// Removes and returns the slot's content, leaving it empty; the free
    /// list is untouched, so this is only a step inside other operations.
    fn take_slot(&mut self, t: Token) -> (r: Option<Connection>)
        requires
            t < old(self).slots@.len(),
        ensures
            final(self).slots@ == old(self).slots@.update(t as int, None),
            final(self).free@ == old(self).free@,
            r == old(self).slots@[t as int],
    {
        let c = self.slots.remove(t);
        self.slots.insert(t, None);
        proof {
            assert(self.slots@ =~= old(self).slots@.update(t as int, None));
        }
        c
    }

    /// Writes a slot directly; the free list is untouched.
    fn set_slot(&mut self, t: Token, c: Option<Connection>)
        requires
            t < old(self).slots@.len(),
        ensures
            final(self).slots@ == old(self).slots@.update(t as int, c),
            final(self).free@ == old(self).free@,
    {
        self.slots.remove(t);
        self.slots.insert(t, c);
        proof {
            assert(self.slots@ =~= old(self).slots@.update(t as int, c));
        }
    }
}

} // verus!
