use vstd::prelude::*;
use vstd::pervasive::VecAdditionalExecFns;

verus! {

/// Clips `[start, end)` against `slice`: indices past the end of the slice are
/// pulled back to it, and an empty or inverted range yields an empty slice.
pub fn slice_window(slice: &[u8], start: usize, end: usize) -> (r: &[u8])
    ensures
        r@ == window_of(slice@, start as int, end as int),
{
    let len = slice.len();
    let s = if start < len { start } else { len };
    let e = if end < len { end } else { len };
    let e = if e < s { s } else { e };
    vstd::slice::slice_subrange(slice, s, e)
}

/// The subsequence of `s` selected by `slice_window`: `[start, end)` clipped
/// to `s`'s bounds, empty when inverted.
pub open spec fn window_of(s: Seq<u8>, start: int, end: int) -> Seq<u8> {
    let lo = if start < 0 { 0 } else if start > s.len() { s.len() as int } else { start };
    let hi = if end > s.len() { s.len() as int } else { end };
    let hi = if hi < lo { lo } else { hi };
    s.subrange(lo, hi)
}

/// What one pushed byte does to the ring's contents: append while below
/// capacity, otherwise drop the oldest byte first.  A ring of capacity zero
/// retains nothing.
pub open spec fn ring_push(s: Seq<u8>, cap: nat, b: u8) -> Seq<u8> {
    if s.len() < cap {
        s.push(b)
    } else if cap == 0 {
        Seq::empty()
    } else {
        s.skip(1).push(b)
    }
}

/// A fixed-capacity byte ring holding the most recent bytes pushed into it.
///
/// The bytes live in `buf`, oldest first starting at index `start` and
/// wrapping around; until the ring is full, `start` stays zero and `buf`
/// simply grows.  The logical contents are exposed as two contiguous pieces,
/// `head_spec` (from `start` to the end of `buf`) and `tail_spec` (the wrapped
/// part before `start`), whose concatenation is the view.
pub struct Ring {
    buf: Vec<u8>,
    start: usize,
    cap: usize,
}

impl View for Ring {
    type V = Seq<u8>;

    open spec fn view(&self) -> Seq<u8> {
        self.head_spec() + self.tail_spec()
    }
}

impl Ring {
    /// The older contiguous piece of the contents: `buf[start..]`.
    pub closed spec fn head_spec(self) -> Seq<u8> {
        self.buf@.subrange(self.start as int, self.buf@.len() as int)
    }

    /// The newer, wrapped-around piece of the contents: `buf[..start]`.
    pub closed spec fn tail_spec(self) -> Seq<u8> {
        self.buf@.subrange(0, self.start as int)
    }

    /// The most bytes the ring ever retains.
    pub closed spec fn capacity(self) -> nat {
        self.cap as nat
    }

    pub closed spec fn wf(self) -> bool {
        &&& self.buf@.len() <= self.cap
        &&& self.start == 0 || (self.buf@.len() == self.cap && self.start < self.cap)
    }

    pub fn new(capacity: usize) -> (r: Ring)
        ensures
            r.wf(),
            r@ == Seq::<u8>::empty(),
            r.capacity() == capacity,
    {
        let r = Ring { buf: Vec::new(), start: 0, cap: capacity };
        proof {
            assert(r@ =~= Seq::<u8>::empty());
        }
        r
    }

    pub fn len(&self) -> (r: usize)
        requires
            self.wf(),
        ensures
            r == self@.len(),
    {
        self.buf.len()
    }

    /// The byte at logical offset `i`, oldest byte first.
    pub fn get(&self, i: usize) -> (r: u8)
        requires
            self.wf(),
            i < self@.len(),
        ensures
            r == self@[i as int],
    {
        let l = self.buf.len();
        let j = if i < l - self.start {
            self.start + i
        } else {
            i - (l - self.start)
        };
        self.buf[j]
    }

    /// The contents as two borrowed slices, oldest-to-newest: the
    /// concatenation of `head` then `tail` is the logical buffer.
    pub fn as_slices(&self) -> (r: (&[u8], &[u8]))
        requires
            self.wf(),
        ensures
            r.0@ == self.head_spec(),
            r.1@ == self.tail_spec(),
    {
        let head = vstd::slice::slice_subrange(self.buf.as_slice(), self.start, self.buf.len());
        let tail = vstd::slice::slice_subrange(self.buf.as_slice(), 0, self.start);
        (head, tail)
    }

    /// Appends `b`, dropping the oldest byte first when the ring is already at
    /// capacity.
    pub fn push_byte(&mut self, b: u8)
        requires
            old(self).wf(),
        ensures
            final(self).wf(),
            final(self).capacity() == old(self).capacity(),
            final(self)@ == ring_push(old(self)@, old(self).capacity(), b),
    {
        if self.cap == 0 {
            proof {
                assert(self@ =~= Seq::<u8>::empty());
            }
            return;
        }
        if self.buf.len() < self.cap {
            self.buf.push(b);
            proof {
                assert(self@ =~= old(self)@.push(b));
            }
        } else {
            let ghost prev = *self;
            self.buf.set(self.start, b);
            self.start = if self.start + 1 == self.cap { 0 } else { self.start + 1 };
            proof {
                let l = prev.buf@.len() as int;
                assert forall|i: int| 0 <= i < l implies self@[i] == prev@.skip(1).push(b)[i] by {
                    if i < l - 1 {
                        assert(prev@.skip(1).push(b)[i] == prev@[i + 1]);
                    }
                }
                assert(self@.len() == l);
                assert(self@ =~= prev@.skip(1).push(b));
            }
        }
    }
}

} // verus!
