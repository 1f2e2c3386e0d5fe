//! One peer connection's server-side state: session identity, handshake
//! status, the inbound reassembly buffer, the outbound send queue, and the
//! readiness interest flags the reactor registers with its poller.
//!
//! The socket itself lives with the embedding application; this state is
//! everything the protocol logic reads and writes.

use vstd::prelude::*;
use crate::bytes::copy_range;
use crate::entity::EntityID;
use crate::record::views_of;
use crate::user::{User, UserM};

verus! {

/// Stable identifier of a live connection slot.
pub type Token = usize;

/// Server-side state of one peer connection.
#[derive(Clone, PartialEq, Eq, Debug)]
pub struct Connection {
    pub user: User,
    pub handshake_done: bool,
    pub token: Token,
    /// Unconsumed bytes carried between read events.
    pub buffer: Vec<u8>,
    /// The world entity associated with this connection, or zero.
    pub entity: EntityID,
    /// Outbound byte buffers, oldest first.
    pub send_queue: Vec<Vec<u8>>,
    pub want_read: bool,
    pub want_write: bool,
}

/// Mathematical shape of a connection.
pub struct ConnM {
    pub user: UserM,
    pub handshake_done: bool,
    pub token: Token,
    pub buffer: Seq<u8>,
    pub entity: EntityID,
    pub send_queue: Seq<Seq<u8>>,
    pub want_read: bool,
    pub want_write: bool,
}

impl View for Connection {
    type V = ConnM;

    open spec fn view(&self) -> ConnM {
        ConnM {
            user: self.user@,
            handshake_done: self.handshake_done,
            token: self.token,
            buffer: self.buffer@,
            entity: self.entity,
            send_queue: views_of(self.send_queue@),
            want_read: self.want_read,
            want_write: self.want_write,
        }
    }
}

/// The name a connection carries before its login: `Anon`.
pub open spec fn anon_name() -> Seq<u8> {
    seq![0x41u8, 0x6e, 0x6f, 0x6e]
}

/// The state of a freshly accepted connection.
pub open spec fn initial_conn(token: Token) -> ConnM {
    ConnM {
        user: UserM { name: anon_name(), current_zone: 0 },
        handshake_done: false,
        token,
        buffer: Seq::empty(),
        entity: 0,
        send_queue: Seq::empty(),
        want_read: true,
        want_write: false,
    }
}

/// A connection with one more outbound buffer and write interest raised.
pub open spec fn enqueue(c: ConnM, b: Seq<u8>) -> ConnM {
    ConnM { send_queue: c.send_queue.push(b), want_write: true, ..c }
}

impl Connection {
    /// A freshly accepted connection: anonymous, not handshaken, with
    /// empty buffers, registered for reading.
    pub fn new(token: Token) -> (c: Connection)
        ensures
            c@ == initial_conn(token),
    {
        let mut name: Vec<u8> = Vec::new();
        name.push(0x41);
        name.push(0x6e);
        name.push(0x6f);
        name.push(0x6e);
        let c = Connection {
            user: User { name, current_zone: 0 },
            handshake_done: false,
            token,
            buffer: Vec::new(),
            entity: 0,
            send_queue: Vec::new(),
            want_read: true,
            want_write: false,
        };
        proof {
            assert(c@.user.name =~= anon_name());
            assert(c@.buffer =~= Seq::<u8>::empty());
            assert(c@.send_queue =~= Seq::<Seq<u8>>::empty());
        }
        c
    }

    /// Appends an outbound buffer and raises write interest.
    pub fn send_message(&mut self, message: &[u8])
        ensures
            final(self)@ == enqueue(old(self)@, message@),
    {
        let buf = copy_range(message, 0, message.len());
        proof {
            assert(buf@ =~= message@);
        }
        self.send_queue.push(buf);
        self.want_write = true;
        proof {
            assert(self@.send_queue =~= old(self)@.send_queue.push(message@));
        }
    }

    /// The buffer at the head of the send queue, if one is waiting.
    pub fn head(&self) -> (r: Option<&Vec<u8>>)
        ensures
            match r {
                Some(v) => self@.send_queue.len() > 0 && v@ == self@.send_queue[0],
                None => self@.send_queue.len() == 0,
            },
    {
        if self.send_queue.len() == 0 {
            None
        } else {
            proof {
                assert(views_of(self.send_queue@)[0] == self.send_queue@[0]@);
            }
            Some(&self.send_queue[0])
        }
    }

    /// Records that the first `n` bytes of the head buffer went out: pops
    /// the head when fully written, keeps the remainder otherwise, and
    /// clears write interest once the queue empties.
    pub fn flush_progress(&mut self, n: usize)
        requires
            old(self)@.send_queue.len() > 0,
            n <= old(self)@.send_queue[0].len(),
        ensures
            ({
                let q0 = old(self)@.send_queue;
                let q1 = if n == q0[0].len() {
                    q0.skip(1)
                } else {
                    q0.update(0, q0[0].skip(n as int))
                };
                final(self)@ == (ConnM { send_queue: q1, want_write: q1.len() > 0, ..old(self)@ })
            }),
    {
        proof {
            assert(views_of(self.send_queue@)[0] == self.send_queue@[0]@);
        }
        if n == self.send_queue[0].len() {
            self.send_queue.remove(0);
            proof {
                assert(self@.send_queue =~= old(self)@.send_queue.skip(1)) by {
                    assert forall|j: int|
                        0 <= j < views_of(self.send_queue@).len() implies #[trigger] views_of(
                        self.send_queue@,
                    )[j] == old(self)@.send_queue.skip(1)[j] by {
                        assert(self.send_queue@[j] == old(self).send_queue@[j + 1]);
                    }
                }
            }
        } else {
            let rest = copy_range(self.send_queue[0].as_slice(), n, self.send_queue[0].len());
            proof {
                assert(rest@ =~= self.send_queue@[0]@.skip(n as int));
            }
            self.send_queue.set(0, rest);
            proof {
                assert(self@.send_queue =~= old(self)@.send_queue.update(
                    0,
                    old(self)@.send_queue[0].skip(n as int),
                )) by {
                    assert forall|j: int|
                        0 <= j < views_of(self.send_queue@).len() implies #[trigger] views_of(
                        self.send_queue@,
                    )[j] == old(self)@.send_queue.update(
                        0,
                        old(self)@.send_queue[0].skip(n as int),
                    )[j] by {
                        if j != 0 {
                            assert(self.send_queue@[j] == old(self).send_queue@[j]);
                        }
                    }
                }
            }
        }
        self.want_write = self.send_queue.len() > 0;
    }
}

} // verus!
