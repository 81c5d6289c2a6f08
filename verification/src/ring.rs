//! A ring buffer between the decoder and the audio device.
use vstd::prelude::*;

verus! {

/// Samples waiting to be played, the oldest first, in a buffer of fixed size.
pub struct Ring<T> {
    buf: Vec<T>,
    /// Where the oldest sample is.
    at: usize,
    /// How many samples are waiting.
    filled: usize,
}

impl<T> Ring<T> {
    /// The position and count lie in the buffer.
    pub closed spec fn wf(&self) -> bool {
        &&& self.at <= self.buf@.len()
        &&& self.buf@.len() > 0 ==> self.at < self.buf@.len()
        &&& self.filled <= self.buf@.len()
    }

    /// How many samples fit.
    pub closed spec fn capacity(&self) -> nat {
        self.buf@.len()
    }

    /// The index `i` places behind the oldest sample.
    spec fn slot(&self, i: int) -> int {
        if self.at + i < self.buf@.len() {
            self.at + i
        } else {
            self.at + i - self.buf@.len()
        }
    }
}

impl<T> View for Ring<T> {
    type V = Seq<T>;

    closed spec fn view(&self) -> Seq<T> {
        Seq::new(self.filled as nat, |i: int| self.buf@[self.slot(i)])
    }
}

impl<T: Copy> Ring<T> {
    /// An empty buffer for `capacity` samples.
    pub fn new(capacity: usize, fill: T) -> (r: Ring<T>)
        ensures
            r.wf(),
            r.capacity() == capacity,
            r@.len() == 0,
    {
        let mut buf: Vec<T> = Vec::new();
        while buf.len() < capacity
            invariant
                buf@.len() <= capacity,
            decreases capacity - buf@.len(),
        {
            buf.push(fill);
        }
        Ring { buf, at: 0, filled: 0 }
    }

    pub fn len(&self) -> (r: usize)
        requires
            self.wf(),
        ensures
            r == self@.len(),
            r <= self.capacity(),
    {
        self.filled
    }

    pub fn free(&self) -> (r: usize)
        requires
            self.wf(),
        ensures
            r == self.capacity() - self@.len(),
    {
        self.buf.len() - self.filled
    }

    /// Add as many whole `align`-sized frames as fit. Returns samples added.
    pub fn push(&mut self, data: &[T], align: usize) -> (r: usize)
        requires
            old(self).wf(),
            align > 0,
        ensures
            final(self).wf(),
            final(self).capacity() == old(self).capacity(),
            ({
                let free = old(self).capacity() - old(self)@.len();
                let n = if data@.len() < free {
                    data@.len() as int
                } else {
                    free
                };
                r == n / align as int * align
            }),
            r <= data@.len(),
            final(self)@ == old(self)@ + data@.take(r as int),
    {
        let free: usize = self.free();
        let len: usize = if data.len() < free {
            data.len()
        } else {
            free
        };
        assert(0 <= len / align * align <= len) by (nonlinear_arith)
            requires
                align > 0,
                len >= 0,
        ;
        let n: usize = len / align * align;
        let cap: usize = self.buf.len();
        let ghost before = self@;
        let mut i: usize = 0;
        assert(before + data@.take(0) =~= self@);
        while i < n
            invariant
                self.wf(),
                cap == self.buf@.len(),
                self.at == old(self).at,
                self.capacity() == old(self).capacity(),
                i <= n <= data@.len(),
                before.len() + n <= cap,
                self.filled == before.len() + i,
                self@ == before + data@.take(i as int),
            decreases n - i,
        {
            let ghost now = self@;
            let room: usize = cap - self.at;
            let slot: usize = if self.filled < room {
                self.at + self.filled
            } else {
                self.filled - room
            };
            let ghost was = *self;
            self.buf.set(slot, data[i]);
            self.filled = self.filled + 1;
            assert(self@ =~= now.push(data@[i as int])) by {
                assert forall|k: int| 0 <= k < now.len() implies self@[k] == now[k] by {
                    assert(was.slot(k) != slot);
                }
            }
            assert(now.push(data@[i as int]) =~= before + data@.take(i + 1));
            i += 1;
        }
        n
    }

    /// Take samples into `out`, the oldest first. Returns samples taken.
    pub fn pop(&mut self, out: &mut Vec<T>) -> (r: usize)
        requires
            old(self).wf(),
        ensures
            final(self).wf(),
            final(self).capacity() == old(self).capacity(),
            r == if old(out)@.len() < old(self)@.len() {
                old(out)@.len()
            } else {
                old(self)@.len()
            },
            final(out)@ == old(self)@.take(r as int) + old(out)@.skip(r as int),
            final(self)@ == old(self)@.skip(r as int),
    {
        let n: usize = if out.len() < self.filled {
            out.len()
        } else {
            self.filled
        };
        let cap: usize = self.buf.len();
        let ghost before = self@;
        let ghost dest = out@;
        let mut i: usize = 0;
        assert(before.take(0) + dest.skip(0) =~= out@);
        assert(before.skip(0) =~= self@);
        while i < n
            invariant
                self.wf(),
                self.capacity() == old(self).capacity(),
                cap == self.buf@.len(),
                dest == old(out)@,
                before == old(self)@,
                i <= n <= before.len(),
                n <= dest.len(),
                self@ == before.skip(i as int),
                out@ == before.take(i as int) + dest.skip(i as int),
            decreases n - i,
        {
            let ghost now = self@;
            let ghost was = *self;
            assert(now.len() == self.filled);
            assert(now.len() == before.len() - i);
            let x = self.buf[self.at];
            assert(x == now[0]) by {
                assert(was.slot(0) == was.at);
            }
            out.set(i, x);
            assert(out@ =~= before.take(i + 1) + dest.skip(i + 1));
            self.at = if self.at + 1 < cap {
                self.at + 1
            } else {
                0
            };
            self.filled = self.filled - 1;
            assert(self@ =~= now.skip(1)) by {
                assert forall|k: int| 0 <= k < now.len() - 1 implies self.slot(k) == was.slot(k + 1) by {}
            }
            assert(now.skip(1) =~= before.skip(i + 1));
            i += 1;
        }
        n
    }

    /// Drop everything currently buffered.
    pub fn clear(&mut self)
        requires
            old(self).wf(),
        ensures
            final(self).wf(),
            final(self).capacity() == old(self).capacity(),
            final(self)@.len() == 0,
    {
        self.filled = 0;
    }
}

/// What was put in comes out, in the same order: taking from the buffer after adding to it
/// gives first what was there before and then what was added.
pub proof fn law_first_in_first_out<T>(before: Seq<T>, added: Seq<T>, n: int)
    requires
        0 <= n <= before.len() + added.len(),
    ensures
        (before + added).take(n) + (before + added).skip(n) == before + added,
        n >= before.len() ==> (before + added).take(n) == before + added.take(n - before.len()),
        n <= before.len() ==> (before + added).skip(n) == before.skip(n) + added,
{
    assert((before + added).take(n) + (before + added).skip(n) =~= before + added);
    if n >= before.len() {
        assert((before + added).take(n) =~= before + added.take(n - before.len()));
    }
    if n <= before.len() {
        assert((before + added).skip(n) =~= before.skip(n) + added);
    }
}

} // verus!
