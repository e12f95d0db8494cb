//! The fixed-capacity circular buffer and its operations.

use vstd::prelude::*;
use vstd::slice::slice_subrange;

use crate::model::first_n;
use crate::model::last_n;
use crate::model::min_int;
use crate::model::push_all_back_model;
use crate::model::push_all_back_view;
use crate::model::push_all_front_model;
use crate::model::push_back_view;
use crate::model::push_front_view;
use crate::model::wrap_index;
use crate::model::RingModel;

verus! {

/// Returned by a pop on an empty buffer.
#[derive(Clone, Copy, Debug, PartialEq, Eq, Structural)]
pub struct EmptyError;

/// Returned by an element access with an out-of-range logical index.
#[derive(Clone, Copy, Debug, PartialEq, Eq, Structural)]
pub struct IndexError;

/// Returned by `drain` when the requested range is invalid.
#[derive(Clone, Copy, Debug, PartialEq, Eq, Structural)]
pub struct RangeError;

/// A double-ended queue of at most `N` elements backed by one contiguous
/// allocation.
///
/// The logical element at position `i` lives at physical index
/// `(start + i) mod storage.len()`; the occupied range may wrap around the
/// physical end of storage.  Storage grows one slot at a time up to `N`
/// slots and is never reallocated once all `N` slots exist.  Pushing into a
/// full buffer evicts the element at the opposite end.
pub struct CircularBuffer<const N: usize, T> {
    storage: Vec<T>,
    start: usize,
    length: usize,
}

impl<const N: usize, T> View for CircularBuffer<N, T> {
    type V = Seq<T>;

    open spec fn view(&self) -> Seq<T> {
        self.model().to_view()
    }
}

impl<const N: usize, T> CircularBuffer<N, T> {
    /// The abstract state of the buffer.
    pub closed spec fn model(self) -> RingModel<T> {
        RingModel { slots: self.storage@, start: self.start as int, length: self.length as int }
    }

    /// Internal invariant: the abstract state is well-formed for capacity `N`.
    pub open spec fn wf(self) -> bool {
        self.model().wf(N as int)
    }

    /// Creates an empty buffer.
    pub fn new() -> (r: Self)
        ensures
            r.wf(),
            r@ == Seq::<T>::empty(),
            r.model() == RingModel::<T>::empty(),
    {
        let r = CircularBuffer { storage: Vec::new(), start: 0, length: 0 };
        proof {
            assert(r.model() =~= RingModel::<T>::empty());
            assert(r@ =~= Seq::<T>::empty());
        }
        r
    }

    /// The number of elements currently stored.
    pub fn len(&self) -> (r: usize)
        ensures
            r == self@.len(),
    {
        self.length
    }

    /// The fixed capacity `N`.
    pub fn capacity(&self) -> (r: usize)
        ensures
            r == N,
    {
        N
    }

    /// Whether the buffer holds no elements.
    pub fn is_empty(&self) -> (r: bool)
        ensures
            r == (self@.len() == 0),
    {
        self.length == 0
    }

    /// Whether the buffer holds `N` elements.
    pub fn is_full(&self) -> (r: bool)
        ensures
            r == (self@.len() == N),
    {
        self.length == N
    }

    /// Appends `item` at the back.  When the buffer is full the front
    /// element is evicted; this never fails and never exceeds the capacity.
    pub fn push_back(&mut self, item: T)
        requires
            old(self).wf(),
        ensures
            final(self).wf(),
            final(self).model() == old(self).model().push_back(item, N as int),
            final(self)@ == push_back_view(old(self)@, item, N as int),
            old(self)@.len() < N ==> final(self)@ == old(self)@.push(item),
            old(self)@.len() == N && N > 0 ==> final(self)@ == old(self)@.skip(1).push(item),
    {
        proof {
            crate::model::lemma_push_back_view(old(self).model(), item, N as int);
        }
        if N == 0 {
            return ;
        }
        let m = self.storage.len();
        if self.length == N {
            self.storage[self.start] = item;
            self.start = if self.start + 1 == m {
                0
            } else {
                self.start + 1
            };
        } else if self.length < m {
            let q = if self.start < m - self.length {
                self.start + self.length
            } else {
                self.start - (m - self.length)
            };
            self.storage[q] = item;
            self.length = self.length + 1;
        } else {
            if self.start == 0 {
                self.storage.push(item);
            } else {
                self.storage.insert(self.start, item);
                self.start = self.start + 1;
            }
            self.length = self.length + 1;
        }
        proof {
            assert(self.model() =~= old(self).model().push_back(item, N as int));
        }
    }

    /// Prepends `item` at the front.  When the buffer is full the back
    /// element is evicted; this never fails and never exceeds the capacity.
    pub fn push_front(&mut self, item: T)
        requires
            old(self).wf(),
        ensures
            final(self).wf(),
            final(self).model() == old(self).model().push_front(item, N as int),
            final(self)@ == push_front_view(old(self)@, item, N as int),
            old(self)@.len() < N ==> final(self)@ == seq![item] + old(self)@,
            old(self)@.len() == N && N > 0 ==> final(self)@ == seq![item] + old(self)@.take(
                N as int - 1,
            ),
    {
        proof {
            crate::model::lemma_push_front_view(old(self).model(), item, N as int);
        }
        if N == 0 {
            return ;
        }
        if self.length == N {
            self.length = self.length - 1;
        }
        let m = self.storage.len();
        if self.length < m {
            let q = if self.start == 0 {
                m - 1
            } else {
                self.start - 1
            };
            self.storage[q] = item;
            self.start = q;
            self.length = self.length + 1;
        } else {
            self.storage.insert(self.start, item);
            self.length = self.length + 1;
        }
        proof {
            assert(self.model() =~= old(self).model().push_front(item, N as int));
        }
    }

    /// Removes and returns the front element, or fails on an empty buffer,
    /// leaving the state unchanged.
    pub fn pop_front(&mut self) -> (r: Result<T, EmptyError>)
        where
            T: Copy,
        requires
            old(self).wf(),
        ensures
            final(self).wf(),
            old(self)@.len() == 0 ==> r == Err::<T, EmptyError>(EmptyError)
                && final(self).model() == old(self).model(),
            old(self)@.len() > 0 ==> r == Ok::<T, EmptyError>(old(self)@[0])
                && final(self).model() == old(self).model().pop_front()
                && final(self)@ == old(self)@.skip(1),
    {
        if self.length == 0 {
            return Err(EmptyError);
        }
        proof {
            crate::model::lemma_pop_front_view(old(self).model(), N as int);
        }
        let m = self.storage.len();
        let x = self.storage[self.start];
        self.start = if self.start + 1 == m {
            0
        } else {
            self.start + 1
        };
        self.length = self.length - 1;
        proof {
            assert(self.model() =~= old(self).model().pop_front());
        }
        Ok(x)
    }

    /// Removes and returns the back element, or fails on an empty buffer,
    /// leaving the state unchanged.
    pub fn pop_back(&mut self) -> (r: Result<T, EmptyError>)
        where
            T: Copy,
        requires
            old(self).wf(),
        ensures
            final(self).wf(),
            old(self)@.len() == 0 ==> r == Err::<T, EmptyError>(EmptyError)
                && final(self).model() == old(self).model(),
            old(self)@.len() > 0 ==> r == Ok::<T, EmptyError>(old(self)@.last())
                && final(self).model() == old(self).model().pop_back()
                && final(self)@ == old(self)@.take(old(self)@.len() - 1),
    {
        if self.length == 0 {
            return Err(EmptyError);
        }
        proof {
            crate::model::lemma_pop_back_view(old(self).model(), N as int);
        }
        let m = self.storage.len();
        let l1 = self.length - 1;
        let q = if self.start < m - l1 {
            self.start + l1
        } else {
            self.start - (m - l1)
        };
        let x = self.storage[q];
        self.length = l1;
        proof {
            assert(self.model() =~= old(self).model().pop_back());
            assert(q as int == wrap_index(old(self).model().start + l1, m as int));
        }
        Ok(x)
    }

    /// The physical slot index of the logical position `i`.
    fn phys_index(&self, i: usize) -> (q: usize)
        requires
            self.wf(),
            i < self.model().length,
        ensures
            q < self.model().slots.len(),
            q as int == wrap_index(self.model().start + i, self.model().slots.len() as int),
    {
        let m = self.storage.len();
        if self.start < m - i {
            self.start + i
        } else {
            self.start - (m - i)
        }
    }

    /// Reads the element at logical position `i`.
    fn read_at(&self, i: usize) -> (r: T)
        where
            T: Copy,
        requires
            self.wf(),
            i < self@.len(),
        ensures
            r == self@[i as int],
    {
        let q = self.phys_index(i);
        self.storage[q]
    }

    /// A reference to the element at logical position `i`, or an error when
    /// `i` is out of range.
    pub fn get(&self, i: usize) -> (r: Result<&T, IndexError>)
        requires
            self.wf(),
        ensures
            i < self@.len() ==> (r matches Ok(v) && *v == self@[i as int]),
            i >= self@.len() ==> (r matches Err(e) && e == IndexError),
    {
        if i >= self.length {
            return Err(IndexError);
        }
        let q = self.phys_index(i);
        Ok(vstd::std_specs::vec::vec_index(&self.storage, q))
    }

    /// Replaces the element at logical position `i`, or fails with the state
    /// unchanged when `i` is out of range.
    pub fn set(&mut self, i: usize, item: T) -> (r: Result<(), IndexError>)
        requires
            old(self).wf(),
        ensures
            final(self).wf(),
            i >= old(self)@.len() ==> (r matches Err(e) && e == IndexError)
                && final(self).model() == old(self).model(),
            i < old(self)@.len() ==> r == Ok::<(), IndexError>(())
                && final(self)@ == old(self)@.update(i as int, item)
                && final(self).model().start == old(self).model().start
                && final(self).model().length == old(self).model().length
                && final(self).model().slots.len() == old(self).model().slots.len(),
    {
        if i >= self.length {
            return Err(IndexError);
        }
        let q = self.phys_index(i);
        self.storage[q] = item;
        proof {
            let mm = old(self).model().slots.len() as int;
            let st = old(self).model().start;
            assert forall|j: int| 0 <= j < self@.len() implies self@[j] == old(self)@.update(
                i as int,
                item,
            )[j] by {
                if j != i {
                    assert(wrap_index(st + j, mm) != wrap_index(st + i, mm));
                }
            }
            assert(self@ =~= old(self)@.update(i as int, item));
        }
        Ok(())
    }

    /// A mutable reference to the element at logical position `i`, or an
    /// error when `i` is out of range.  The buffer afterwards holds whatever
    /// value the caller leaves in the reference.
    pub fn get_mut(&mut self, i: usize) -> (r: Result<&mut T, IndexError>)
        requires
            old(self).wf(),
        ensures
            i >= old(self)@.len() ==> (r matches Err(e) && e == IndexError)
                && final(self).model() == old(self).model(),
            i < old(self)@.len() ==> (r matches Ok(p) && *p == old(self)@[i as int]
                && final(self).wf()
                && final(self)@ == old(self)@.update(i as int, *final(p))
                && final(self).model().start == old(self).model().start
                && final(self).model().length == old(self).model().length
                && final(self).model().slots.len() == old(self).model().slots.len()),
    {
        if i >= self.length {
            return Err(IndexError);
        }
        let q = self.phys_index(i);
        proof {
            let m0 = old(self).model();
            assert forall|v: T|
                (RingModel { slots: m0.slots.update(q as int, v), ..m0 }).wf(N as int)
                    && (RingModel { slots: m0.slots.update(q as int, v), ..m0 }).to_view()
                    == m0.to_view().update(i as int, v) by {
                crate::model::lemma_update_view(m0, i as int, v, N as int);
            }
        }
        Ok(&mut self.storage[q])
    }

    /// Drops elements from the back until at most `new_len` remain; does
    /// nothing when `new_len >= len()`.
    pub fn truncate_back(&mut self, new_len: usize)
        requires
            old(self).wf(),
        ensures
            final(self).wf(),
            new_len >= old(self)@.len() ==> final(self).model() == old(self).model(),
            new_len < old(self)@.len() ==> final(self)@ == old(self)@.take(new_len as int)
                && final(self).model() == (RingModel {
                    length: new_len as int,
                    ..old(self).model()
                }),
    {
        if new_len < self.length {
            self.length = new_len;
            proof {
                assert(self@ =~= old(self)@.take(new_len as int));
            }
        }
    }

    /// Drops elements from the front until at most `new_len` remain; does
    /// nothing when `new_len >= len()`.
    pub fn truncate_front(&mut self, new_len: usize)
        requires
            old(self).wf(),
        ensures
            final(self).wf(),
            new_len >= old(self)@.len() ==> final(self).model() == old(self).model(),
            new_len < old(self)@.len() ==> final(self)@ == old(self)@.skip(
                old(self)@.len() - new_len,
            ),
    {
        if new_len >= self.length {
            return ;
        }
        let k = self.length - new_len;
        let m = self.storage.len();
        let q = if self.start < m - k {
            self.start + k
        } else {
            self.start - (m - k)
        };
        self.start = q;
        self.length = new_len;
        proof {
            let mm = old(self).model().slots.len() as int;
            let st = old(self).model().start;
            assert forall|i: int| 0 <= i < new_len implies self@[i] == old(self)@.skip(
                old(self)@.len() - new_len,
            )[i] by {
                assert(wrap_index(q as int + i, mm) == wrap_index(st + k + i, mm));
                assert(old(self)@[k + i] == old(self).model().slots[wrap_index(st + k + i, mm)]);
            }
            assert(self@ =~= old(self)@.skip(old(self)@.len() - new_len));
        }
    }

    /// Removes every element and releases the storage.
    pub fn clear(&mut self)
        ensures
            final(self).wf(),
            final(self)@ == Seq::<T>::empty(),
            final(self).model() == RingModel::<T>::empty(),
    {
        self.storage.clear();
        self.start = 0;
        self.length = 0;
        proof {
            assert(self.model() =~= RingModel::<T>::empty());
            assert(self@ =~= Seq::<T>::empty());
        }
    }

    /// Appends every element of `items` at the back, in order, exactly as
    /// repeated `push_back` calls would: when the total exceeds the
    /// capacity, only the last `N` elements of the concatenation remain.
    pub fn extend_from_slice(&mut self, items: &[T])
        where
            T: Copy,
        requires
            old(self).wf(),
        ensures
            final(self).wf(),
            final(self).model() == push_all_back_model(old(self).model(), items@, N as int),
            final(self)@ == push_all_back_view(old(self)@, items@, N as int),
            final(self)@ == last_n(old(self)@ + items@, N as int),
            final(self)@.len() == min_int(old(self)@.len() as int + items@.len() as int, N as int),
    {
        let ghost orig: Seq<T> = self@;
        let ghost m0 = self.model();
        let n = items.len();
        let mut i: usize = 0;
        while i < n
            invariant
                self.wf(),
                0 <= i <= n,
                n == items@.len(),
                self@ == push_all_back_view(orig, items@.take(i as int), N as int),
                self.model() == push_all_back_model(m0, items@.take(i as int), N as int),
            decreases n - i,
        {
            let x = *vstd::slice::slice_index_get(items, i);
            proof {
                assert(items@.take(i as int).push(items@[i as int]) =~= items@.take(i as int + 1));
                crate::model::lemma_push_all_back_snoc(
                    orig,
                    items@.take(i as int),
                    items@[i as int],
                    N as int,
                );
                crate::model::lemma_push_all_back_model_snoc(
                    m0,
                    items@.take(i as int),
                    items@[i as int],
                    N as int,
                );
            }
            self.push_back(x);
            i = i + 1;
        }
        proof {
            assert(items@.take(n as int) =~= items@);
            crate::model::lemma_push_all_back_is_last_n(orig, items@, N as int);
        }
    }

    /// Prepends every element of `items` at the front, keeping their order,
    /// exactly as repeated `push_front` calls over `items` reversed: when
    /// the total exceeds the capacity, only the first `N` elements of the
    /// concatenation remain.
    pub fn extend_from_slice_front(&mut self, items: &[T])
        where
            T: Copy,
        requires
            old(self).wf(),
        ensures
            final(self).wf(),
            final(self).model() == push_all_front_model(old(self).model(), items@, N as int),
            final(self)@ == first_n(items@ + old(self)@, N as int),
            final(self)@.len() == min_int(old(self)@.len() as int + items@.len() as int, N as int),
    {
        let ghost orig: Seq<T> = self@;
        let ghost m0 = self.model();
        proof {
            assert(items@.skip(items@.len() as int) + orig =~= orig);
            assert(items@.skip(items@.len() as int) =~= Seq::<T>::empty());
        }
        let mut i: usize = items.len();
        while i > 0
            invariant
                self.wf(),
                0 <= i <= items@.len(),
                self@ == first_n(items@.skip(i as int) + orig, N as int),
                self.model() == push_all_front_model(m0, items@.skip(i as int), N as int),
            decreases i,
        {
            i = i - 1;
            let x = *vstd::slice::slice_index_get(items, i);
            proof {
                crate::model::lemma_push_front_first_n(
                    items@.skip(i as int + 1) + orig,
                    items@[i as int],
                    N as int,
                );
                assert(seq![items@[i as int]] + (items@.skip(i as int + 1) + orig) =~= items@.skip(
                    i as int,
                ) + orig);
                assert(items@.skip(i as int)[0] == items@[i as int]);
                assert(items@.skip(i as int).skip(1) =~= items@.skip(i as int + 1));
            }
            self.push_front(x);
        }
        proof {
            assert(items@.skip(0) + orig =~= items@ + orig);
            assert(items@.skip(0) =~= items@);
        }
    }

    /// Removes the logical sub-range `[lo, hi)` and returns the removed
    /// elements in order; the remaining elements close the gap.  Fails with
    /// the state unchanged when `lo > hi` or `hi > len()`.
    pub fn drain(&mut self, lo: usize, hi: usize) -> (r: Result<Vec<T>, RangeError>)
        where
            T: Copy,
        requires
            old(self).wf(),
        ensures
            final(self).wf(),
            !(lo <= hi && hi <= old(self)@.len()) ==> (r matches Err(e) && e == RangeError)
                && final(self).model() == old(self).model(),
            lo <= hi <= old(self)@.len() ==> (r matches Ok(v) && v@ == old(self)@.subrange(
                lo as int,
                hi as int,
            )) && final(self)@ == old(self)@.subrange(0, lo as int) + old(self)@.skip(hi as int)
                && final(self)@.len() == old(self)@.len() - (hi - lo),
    {
        if lo > hi || hi > self.length {
            return Err(RangeError);
        }
        let ghost m0 = self.model();
        let ghost v0: Seq<T> = self@;
        let mut removed: Vec<T> = Vec::new();
        let mut j: usize = lo;
        while j < hi
            invariant
                self.wf(),
                self.model() == m0,
                lo <= j <= hi,
                hi <= self@.len(),
                removed@ == self@.subrange(lo as int, j as int),
            decreases hi - j,
        {
            let x = self.read_at(j);
            removed.push(x);
            proof {
                assert(removed@ =~= self@.subrange(lo as int, j as int + 1));
            }
            j = j + 1;
        }
        let k = hi - lo;
        let cnt = self.length - hi;
        let mut t: usize = 0;
        while t < cnt
            invariant
                self.wf(),
                self.model().start == m0.start,
                self.model().length == m0.length,
                self.model().slots.len() == m0.slots.len(),
                0 <= t <= cnt,
                cnt == m0.length - hi,
                lo <= hi <= m0.length,
                k == hi - lo,
                v0 == m0.to_view(),
                forall|i: int| 0 <= i < lo ==> self@[i] == v0[i],
                forall|i: int| lo <= i < lo + t ==> self@[i] == v0[i + k],
                forall|i: int| lo + t <= i < self@.len() ==> self@[i] == v0[i],
            decreases cnt - t,
        {
            let x = self.read_at(hi + t);
            let q = self.phys_index(lo + t);
            let ghost before: Seq<T> = self@;
            self.storage[q] = x;
            proof {
                let mm = m0.slots.len() as int;
                let st = m0.start;
                assert forall|p: int|
                    0 <= p < self@.len() && p != lo + t implies self@[p] == before[p] by {
                    assert(wrap_index(st + p, mm) != wrap_index(st + lo + t, mm));
                }
                assert(x == v0[hi + t]);
                assert(self@[lo + t] == v0[lo + t + k]);
                assert forall|i: int| lo <= i < lo + t + 1 implies self@[i] == v0[i + k] by {
                    if i < lo + t {
                        assert(self@[i] == before[i]);
                        assert(before[i] == v0[i + k]);
                    }
                }
            }
            t = t + 1;
        }
        let ghost vpre: Seq<T> = self@;
        self.length = self.length - k;
        proof {
            assert forall|i: int| 0 <= i < self@.len() implies self@[i] == (v0.subrange(0, lo as int)
                + v0.skip(hi as int))[i] by {
                assert(self@[i] == vpre[i]);
            }
            assert(self@ =~= v0.subrange(0, lo as int) + v0.skip(hi as int));
        }
        Ok(removed)
    }

    /// The occupied range as at most two contiguous slices: concatenating
    /// the first and the second yields the full logical contents in order.
    /// The second slice is non-empty exactly when the occupied range crosses
    /// the physical end of storage.
    pub fn as_slices(&self) -> (r: (&[T], &[T]))
        requires
            self.wf(),
        ensures
            r.0@ + r.1@ == self@,
            r.0@ == self@.take(r.0@.len() as int),
            r.1@ == self@.skip(r.0@.len() as int),
            r.0@.len() == self.model().front_run(),
            r.1@.len() == self@.len() - self.model().front_run(),
            r.1@.len() > 0 <==> self.model().is_wrapped(),
            self@.len() > 0 ==> r.0@.len() > 0,
    {
        let m = self.storage.len();
        if self.length == 0 {
            let s = slice_subrange(self.storage.as_slice(), 0, 0);
            proof {
                assert(s@ + s@ =~= self@);
                assert(s@ =~= self@.take(0));
                assert(s@ =~= self@.skip(0));
            }
            (s, s)
        } else if self.length <= m - self.start {
            let front = slice_subrange(self.storage.as_slice(), self.start, self.start + self.length);
            let back = slice_subrange(self.storage.as_slice(), 0, 0);
            proof {
                let st = self.model().start;
                assert forall|i: int| 0 <= i < self.length implies front@[i] == self@[i] by {
                    assert(wrap_index(st + i, m as int) == st + i);
                }
                assert(front@ + back@ =~= self@);
                assert(front@ =~= self@.take(front@.len() as int));
                assert(back@ =~= self@.skip(front@.len() as int));
            }
            (front, back)
        } else {
            let front = slice_subrange(self.storage.as_slice(), self.start, m);
            let back = slice_subrange(self.storage.as_slice(), 0, self.length - (m - self.start));
            proof {
                let st = self.model().start;
                let f = m - st;
                assert forall|i: int| 0 <= i < f implies front@[i] == self@[i] by {
                    assert(wrap_index(st + i, m as int) == st + i);
                }
                assert forall|j: int| 0 <= j < self.length - f implies back@[j] == self@[f + j] by {
                    assert(wrap_index(st + f + j, m as int) == j);
                }
                assert(front@ + back@ =~= self@);
                assert(front@ =~= self@.take(front@.len() as int));
                assert(back@ =~= self@.skip(front@.len() as int));
            }
            (front, back)
        }
    }

    /// The occupied range as at most two contiguous mutable slices, front
    /// part first, in logical order.  The buffer afterwards holds whatever
    /// values the caller leaves in the two slices, in the same positions.
    pub fn as_slices_mut(&mut self) -> (r: (&mut [T], &mut [T]))
        requires
            old(self).wf(),
        ensures
            r.0@ + r.1@ == old(self)@,
            r.0@ == old(self)@.take(r.0@.len() as int),
            r.1@ == old(self)@.skip(r.0@.len() as int),
            r.0@.len() == old(self).model().front_run(),
            final(r.0)@.len() == r.0@.len() && final(r.1)@.len() == r.1@.len() ==> ({
                &&& final(self).wf()
                &&& final(self).model().start == old(self).model().start
                &&& final(self).model().length == old(self).model().length
                &&& final(self).model().slots.len() == old(self).model().slots.len()
                &&& final(self)@ =~= final(r.0)@ + final(r.1)@
            }),
    {
        let m = self.storage.len();
        let flen = if self.length == 0 {
            0
        } else if self.length <= m - self.start {
            self.length
        } else {
            m - self.start
        };
        let blen = self.length - flen;
        let start = self.start;
        let length = self.length;
        let s = self.storage.as_mut_slice();
        if blen > 0 {
            let (a, b) = s.split_at_mut(start);
            let (c, _d) = a.split_at_mut(blen);
            (b, c)
        } else {
            let (_a, b) = s.split_at_mut(start);
            let (c, d) = b.split_at_mut(length);
            let (e, _f) = d.split_at_mut(0);
            (c, e)
        }
    }
}

} // verus!
