//! The framed wire protocol: newline-plus-NUL delimited payloads over a
//! byte stream, with bounded buffering and a blocking-mode flag.
//!
//! The channel here is the byte-level model: the event loop outside the
//! library moves bytes between these buffers and the socket, while the
//! library decides how bytes become frames and when back-pressure applies.
//! Payloads never contain a NUL byte (the wire carries JSON text), so the
//! two-byte terminator is unambiguous.

use vstd::prelude::*;

verus! {

/// A frame terminator starts at `i` in `b`.
pub open spec fn term_at(b: Seq<u8>, i: int) -> bool {
    0 <= i && i + 1 < b.len() && b[i] == 10u8 && b[i + 1] == 0u8
}

/// Buffered, framed transport over one stream socket.
pub struct Channel {
    pub recv: Vec<u8>,
    pub send: Vec<u8>,
    pub max_buffer_size: usize,
    pub blocking: bool,
}

impl Channel {
    pub fn new(max_buffer_size: usize) -> (r: Channel)
        ensures
            r.recv@.len() == 0,
            r.send@.len() == 0,
            r.max_buffer_size == max_buffer_size,
            !r.blocking,
    {
        Channel { recv: Vec::new(), send: Vec::new(), max_buffer_size, blocking: false }
    }

    /// Switches between blocking and readiness-driven transfers; used only
    /// around worker bootstrap and the upgrade handshake.
    pub fn set_blocking(&mut self, blocking: bool)
        ensures
            *final(self) == (Channel { blocking, ..*old(self) }),
    {
        self.blocking = blocking;
    }

    /// Frames one payload onto the send buffer: payload, newline, NUL.
    /// Refuses (returning `false` and changing nothing) when the framed
    /// message would push the buffer past its bound; the caller must then
    /// wait for write readiness and try again.
    pub fn write_message(&mut self, payload: &Vec<u8>) -> (r: bool)
        requires
            old(self).send@.len() + payload@.len() + 2 < usize::MAX,
        ensures
            *final(self) == (Channel { send: final(self).send, ..*old(self) }),
            r == (old(self).send@.len() + payload@.len() + 2 <= old(self).max_buffer_size),
            r ==> final(self).send@ == old(self).send@ + payload@ + seq![10u8, 0u8],
            !r ==> final(self).send == old(self).send,
    {
        if payload.len() + 2 <= self.max_buffer_size
            && self.send.len() <= self.max_buffer_size - (payload.len() + 2) {
            let ghost presend = self.send@;
            let mut k: usize = 0;
            while k < payload.len()
                invariant
                    k <= payload@.len(),
                    self.send@ == presend + payload@.take(k as int),
                    *self == (Channel { send: self.send, ..*old(self) }),
                decreases payload@.len() - k,
            {
                self.send.push(payload[k]);
                proof {
                    assert(self.send@ =~= presend + payload@.take(k as int + 1));
                }
                k += 1;
            }
            self.send.push(10);
            self.send.push(0);
            proof {
                assert(payload@.take(payload@.len() as int) =~= payload@);
                assert(self.send@ =~= presend + payload@ + seq![10u8, 0u8]);
            }
            true
        } else {
            false
        }
    }

    /// Hands the event loop the bytes awaiting transmission, leaving the
    /// send buffer empty.
    pub fn drain_send(&mut self) -> (r: Vec<u8>)
        ensures
            *final(self) == (Channel { send: final(self).send, ..*old(self) }),
            final(self).send@.len() == 0,
            r@ == old(self).send@,
    {
        let mut out: Vec<u8> = Vec::new();
        core::mem::swap(&mut out, &mut self.send);
        out
    }

    /// Appends bytes read from the socket to the receive buffer.
    pub fn receive(&mut self, bytes: &Vec<u8>)
        requires
            old(self).recv@.len() + bytes@.len() < usize::MAX,
        ensures
            *final(self) == (Channel { recv: final(self).recv, ..*old(self) }),
            final(self).recv@ == old(self).recv@ + bytes@,
    {
        let ghost pre = self.recv@;
        let mut k: usize = 0;
        while k < bytes.len()
            invariant
                k <= bytes@.len(),
                self.recv@ == pre + bytes@.take(k as int),
                *self == (Channel { recv: self.recv, ..*old(self) }),
            decreases bytes@.len() - k,
        {
            self.recv.push(bytes[k]);
            proof {
                assert(self.recv@ =~= pre + bytes@.take(k as int + 1));
            }
            k += 1;
        }
        proof {
            assert(bytes@.take(bytes@.len() as int) =~= bytes@);
        }
    }

    /// Takes one complete frame off the receive buffer: the payload before
    /// the earliest terminator, which is consumed with it. Returns nothing
    /// (and changes nothing) while no complete frame has arrived.
    pub fn read_message(&mut self) -> (r: Option<Vec<u8>>)
        ensures
            *final(self) == (Channel { recv: final(self).recv, ..*old(self) }),
            match r {
                Some(p) => {
                    &&& term_at(old(self).recv@, p@.len() as int)
                    &&& forall|j: int| 0 <= j < p@.len() ==> !term_at(old(self).recv@, j)
                    &&& p@ == old(self).recv@.take(p@.len() as int)
                    &&& final(self).recv@ == old(self).recv@.skip(p@.len() as int + 2)
                },
                None => {
                    &&& final(self).recv == old(self).recv
                    &&& forall|j: int| !term_at(old(self).recv@, j)
                },
            },
    {
        let mut i: usize = 0;
        while i < self.recv.len()
            invariant
                *self == *old(self),
                i <= self.recv@.len(),
                forall|j: int| 0 <= j < i ==> !term_at(self.recv@, j),
            decreases self.recv@.len() - i,
        {
            if i + 1 < self.recv.len() && self.recv[i] == 10 && self.recv[i + 1] == 0 {
                let mut payload: Vec<u8> = Vec::new();
                let mut k: usize = 0;
                while k < i
                    invariant
                        k <= i,
                        i + 1 < self.recv@.len(),
                        *self == *old(self),
                        payload@ == self.recv@.take(k as int),
                    decreases i - k,
                {
                    payload.push(self.recv[k]);
                    proof {
                        assert(payload@ =~= self.recv@.take(k as int + 1));
                    }
                    k += 1;
                }
                let mut rest: Vec<u8> = Vec::new();
                let mut m: usize = i + 2;
                while m < self.recv.len()
                    invariant
                        i + 2 <= m <= self.recv@.len(),
                        *self == *old(self),
                        rest@ == self.recv@.subrange(i as int + 2, m as int),
                    decreases self.recv@.len() - m,
                {
                    rest.push(self.recv[m]);
                    proof {
                        assert(rest@ =~= self.recv@.subrange(i as int + 2, m as int + 1));
                    }
                    m += 1;
                }
                proof {
                    assert(rest@ =~= self.recv@.skip(i as int + 2));
                    assert(payload@.len() == i as int);
                    assert(term_at(self.recv@, i as int));
                }
                self.recv = rest;
                return Some(payload);
            }
            i += 1;
        }
        proof {
            assert forall|j: int| !term_at(self.recv@, j) by {
                if 0 <= j && j + 1 < self.recv@.len() {
                    assert(!term_at(self.recv@, j));
                }
            }
        }
        None
    }
}

} // verus!
