//! Byte-stream style access on top of the buffer primitives.
//!
//! These methods compose the core operations into the read/write/buffered
//! discipline a stream adapter needs: `write` appends, `read` copies from
//! the front and drops what was copied, `fill_buf` exposes the first
//! contiguous run, and `consume` drops a front prefix.

use vstd::prelude::*;

use crate::model::last_n;
use crate::model::min_int;
use crate::ring::CircularBuffer;

verus! {

impl<const N: usize, T> CircularBuffer<N, T> {
    /// Appends all of `src` at the back, evicting the oldest elements when
    /// the capacity is exceeded, and reports how many elements were taken
    /// in.  Writing never fails.
    pub fn write(&mut self, src: &[T]) -> (r: usize)
        where
            T: Copy,
        requires
            old(self).wf(),
        ensures
            final(self).wf(),
            r == src@.len(),
            final(self)@ == last_n(old(self)@ + src@, N as int),
    {
        self.extend_from_slice(src);
        src.len()
    }

    /// Makes every previous write observable to readers.  The buffer is its
    /// own sink, so this changes nothing and cannot fail.
    pub fn flush(&mut self)
        requires
            old(self).wf(),
        ensures
            final(self).wf(),
            final(self).model() == old(self).model(),
    {
    }

    /// Copies the front of the buffer over the front of `dst`, removes the
    /// copied elements, and returns how many were copied: the smaller of
    /// `len()` and `dst.len()`.  Elements of `dst` beyond that count keep
    /// their old values.
    pub fn read(&mut self, dst: &mut Vec<T>) -> (r: usize)
        where
            T: Copy,
        requires
            old(self).wf(),
        ensures
            final(self).wf(),
            r == min_int(old(self)@.len() as int, old(dst)@.len() as int),
            final(dst)@.len() == old(dst)@.len(),
            final(dst)@ == old(self)@.take(r as int) + old(dst)@.skip(r as int),
            final(self)@ == old(self)@.skip(r as int),
    {
        let k = if self.len() < dst.len() {
            self.len()
        } else {
            dst.len()
        };
        let ghost buf0: Seq<T> = self@;
        let ghost dst0: Seq<T> = old(dst)@;
        let mut i: usize = 0;
        while i < k
            invariant
                self.wf(),
                0 <= i <= k,
                k <= buf0.len(),
                k <= dst0.len(),
                self@ == buf0.skip(i as int),
                dst@.len() == dst0.len(),
                forall|j: int| 0 <= j < i ==> dst@[j] == buf0[j],
                forall|j: int| i <= j < dst0.len() ==> dst@[j] == dst0[j],
            decreases k - i,
        {
            match self.pop_front() {
                Ok(x) => {
                    dst[i] = x;
                    proof {
                        assert(buf0.skip(i as int)[0] == buf0[i as int]);
                        assert(self@ =~= buf0.skip(i as int + 1));
                    }
                    i = i + 1;
                },
                Err(_) => {
                    proof {
                        assert(false);
                    }
                },
            }
        }
        proof {
            assert(dst@ =~= buf0.take(k as int) + dst0.skip(k as int));
        }
        k
    }

    /// A view of the longest contiguous front run of the buffer: the first
    /// slice of `as_slices`.  It is empty only when the buffer is empty;
    /// readers consume it and call `consume` with how much they took.
    pub fn fill_buf(&self) -> (r: &[T])
        requires
            self.wf(),
        ensures
            r@ == self@.take(r@.len() as int),
            r@.len() <= self@.len(),
            self@.len() > 0 ==> r@.len() > 0,
            self@.len() > 0 ==> r@.len() == self.model().front_run(),
    {
        let (front, back) = self.as_slices();
        if !front.is_empty() {
            front
        } else {
            back
        }
    }

    /// Drops the first `amt` elements, or all of them when `amt` exceeds
    /// `len()`.
    pub fn consume(&mut self, amt: usize)
        requires
            old(self).wf(),
        ensures
            final(self).wf(),
            final(self)@ == old(self)@.skip(min_int(amt as int, old(self)@.len() as int)),
    {
        let k = if amt <= self.len() {
            amt
        } else {
            self.len()
        };
        let target = self.len() - k;
        self.truncate_front(target);
        proof {
            assert(old(self)@.skip(0) =~= old(self)@);
            assert(k as int == min_int(amt as int, old(self)@.len() as int));
            if k > 0 {
                assert(target < old(self)@.len());
                assert(self@ == old(self)@.skip(old(self)@.len() - target));
            } else {
                assert(self@ == old(self)@);
            }
        }
    }
}

} // verus!
