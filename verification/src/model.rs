//! Mathematical model of the ring buffer.
//!
//! A buffer state is abstracted as a [`RingModel`]: a sequence of physical
//! slots, a start offset and a length.  The executable operations promise in
//! their contracts that they implement the transition functions defined here,
//! so laws about sequences of operations can be stated and proved purely at
//! the specification level.

use vstd::prelude::*;

verus! {

/// Brings `a` back into `[0, m)`, assuming `0 <= a < 2 * m`.
pub open spec fn wrap_index(a: int, m: int) -> int {
    if a < m {
        a
    } else {
        a - m
    }
}

/// The last `n` elements of `s`, or all of `s` when it is shorter than `n`.
pub open spec fn last_n<T>(s: Seq<T>, n: int) -> Seq<T> {
    if s.len() <= n {
        s
    } else {
        s.subrange(s.len() - n, s.len() as int)
    }
}

/// The first `n` elements of `s`, or all of `s` when it is shorter than `n`.
pub open spec fn first_n<T>(s: Seq<T>, n: int) -> Seq<T> {
    if s.len() <= n {
        s
    } else {
        s.subrange(0, n)
    }
}

/// The smaller of two integers.
pub open spec fn min_int(a: int, b: int) -> int {
    if a < b {
        a
    } else {
        b
    }
}

/// Abstract state of a ring buffer: physical slots, logical start, length.
///
/// The logical element at position `i` lives in slot
/// `wrap_index(start + i, slots.len())`.  Slots outside the occupied range
/// hold stale values that are never observed.
#[verifier::ext_equal]
pub ghost struct RingModel<T> {
    pub slots: Seq<T>,
    pub start: int,
    pub length: int,
}

impl<T> RingModel<T> {
    /// The state of a freshly created buffer: no slots, empty.
    pub open spec fn empty() -> Self {
        RingModel { slots: Seq::empty(), start: 0, length: 0 }
    }

    /// Well-formedness with respect to a capacity `cap`: the slot count never
    /// exceeds `cap`, the length never exceeds the slot count, and the start
    /// offset is a valid slot index.
    pub open spec fn wf(self, cap: int) -> bool {
        &&& 0 <= self.length <= self.slots.len() <= cap
        &&& 0 <= self.start
        &&& (self.slots.len() == 0 ==> self.start == 0)
        &&& (self.slots.len() > 0 ==> self.start < self.slots.len())
    }

    /// The logical contents, front to back.
    pub open spec fn to_view(self) -> Seq<T> {
        Seq::new(
            self.length as nat,
            |i: int| self.slots[wrap_index(self.start + i, self.slots.len() as int)],
        )
    }

    /// Whether the occupied range crosses the physical end of storage.
    pub open spec fn is_wrapped(self) -> bool {
        self.length > 0 && self.start + self.length > self.slots.len()
    }

    /// Length of the first contiguous physical run of the occupied range.
    pub open spec fn front_run(self) -> int {
        if self.length == 0 {
            0
        } else if self.start + self.length <= self.slots.len() {
            self.length
        } else {
            self.slots.len() - self.start
        }
    }

    /// Transition of `push_back`: append at the back, evicting the front
    /// element when the buffer is full.  Storage grows one slot at a time
    /// until all `cap` slots exist.
    pub open spec fn push_back(self, x: T, cap: int) -> Self {
        if cap == 0 {
            self
        } else if self.length == cap {
            RingModel {
                slots: self.slots.update(self.start, x),
                start: wrap_index(self.start + 1, cap),
                length: cap,
            }
        } else if self.length < self.slots.len() {
            RingModel {
                slots: self.slots.update(
                    wrap_index(self.start + self.length, self.slots.len() as int),
                    x,
                ),
                start: self.start,
                length: self.length + 1,
            }
        } else if self.start == 0 {
            RingModel { slots: self.slots.push(x), start: 0, length: self.length + 1 }
        } else {
            RingModel {
                slots: self.slots.insert(self.start, x),
                start: self.start + 1,
                length: self.length + 1,
            }
        }
    }

    /// Transition of `push_front`: prepend at the front, evicting the back
    /// element when the buffer is full.
    pub open spec fn push_front(self, x: T, cap: int) -> Self {
        if cap == 0 {
            self
        } else {
            let l = if self.length == cap {
                self.length - 1
            } else {
                self.length
            };
            if l < self.slots.len() {
                let q = if self.start == 0 {
                    self.slots.len() - 1
                } else {
                    self.start - 1
                };
                RingModel { slots: self.slots.update(q, x), start: q, length: l + 1 }
            } else {
                RingModel { slots: self.slots.insert(self.start, x), start: self.start, length: l + 1 }
            }
        }
    }

    /// Transition of a successful `pop_front`: the front slot becomes stale.
    pub open spec fn pop_front(self) -> Self {
        RingModel {
            slots: self.slots,
            start: wrap_index(self.start + 1, self.slots.len() as int),
            length: self.length - 1,
        }
    }

    /// Transition of a successful `pop_back`: the back slot becomes stale.
    pub open spec fn pop_back(self) -> Self {
        RingModel { slots: self.slots, start: self.start, length: self.length - 1 }
    }
}

/// Effect of `push_back` on the logical contents alone.
pub open spec fn push_back_view<T>(v: Seq<T>, x: T, cap: int) -> Seq<T> {
    if cap == 0 {
        v
    } else if v.len() < cap {
        v.push(x)
    } else {
        v.skip(1).push(x)
    }
}

/// Effect of `push_front` on the logical contents alone.
pub open spec fn push_front_view<T>(v: Seq<T>, x: T, cap: int) -> Seq<T> {
    if cap == 0 {
        v
    } else if v.len() < cap {
        seq![x] + v
    } else {
        seq![x] + v.take(cap - 1)
    }
}

/// Contents after pushing every element of `items` at the back, in order.
pub open spec fn push_all_back_view<T>(v: Seq<T>, items: Seq<T>, cap: int) -> Seq<T>
    decreases items.len(),
{
    if items.len() <= 0 {
        v
    } else {
        push_all_back_view(push_back_view(v, items[0], cap), items.skip(1), cap)
    }
}

/// Model state after pushing every element of `items` at the back, in order.
pub open spec fn push_all_back_model<T>(m: RingModel<T>, items: Seq<T>, cap: int) -> RingModel<T>
    decreases items.len(),
{
    if items.len() <= 0 {
        m
    } else {
        push_all_back_model(m.push_back(items[0], cap), items.skip(1), cap)
    }
}

/// `push_back` preserves well-formedness and acts on the logical contents as
/// `push_back_view`.
pub proof fn lemma_push_back_view<T>(m: RingModel<T>, x: T, cap: int)
    requires
        m.wf(cap),
    ensures
        m.push_back(x, cap).wf(cap),
        m.push_back(x, cap).to_view() == push_back_view(m.to_view(), x, cap),
{
    let m2 = m.push_back(x, cap);
    if cap == 0 {
        assert(m2.to_view() =~= push_back_view(m.to_view(), x, cap));
    } else if m.length == cap {
        assert forall|i: int| 0 <= i < cap implies m2.to_view()[i] == push_back_view(
            m.to_view(),
            x,
            cap,
        )[i] by {
            if i < cap - 1 {
                assert(wrap_index(m2.start + i, cap) == wrap_index(m.start + 1 + i, cap));
                assert(wrap_index(m.start + 1 + i, cap) != m.start);
                assert(m.to_view()[i + 1] == m.slots[wrap_index(m.start + i + 1, cap)]);
            } else {
                assert(wrap_index(m2.start + i, cap) == m.start);
            }
        }
        assert(m2.to_view() =~= push_back_view(m.to_view(), x, cap));
    } else if m.length < m.slots.len() {
        let mm = m.slots.len() as int;
        assert forall|i: int| 0 <= i < m.length + 1 implies m2.to_view()[i] == push_back_view(
            m.to_view(),
            x,
            cap,
        )[i] by {
            if i < m.length {
                assert(wrap_index(m.start + i, mm) != wrap_index(m.start + m.length, mm));
            } else {
                assert(wrap_index(m2.start + i, mm) == wrap_index(m.start + m.length, mm));
            }
        }
        assert(m2.to_view() =~= push_back_view(m.to_view(), x, cap));
    } else if m.start == 0 {
        assert forall|i: int| 0 <= i < m.length + 1 implies m2.to_view()[i] == push_back_view(
            m.to_view(),
            x,
            cap,
        )[i] by {
            assert(wrap_index(0 + i, m.slots.len() as int + 1) == i);
        }
        assert(m2.to_view() =~= push_back_view(m.to_view(), x, cap));
    } else {
        let mm = m.slots.len() as int;
        assert forall|i: int| 0 <= i < m.length + 1 implies m2.to_view()[i] == push_back_view(
            m.to_view(),
            x,
            cap,
        )[i] by {
            if i < mm - m.start {
                assert(wrap_index(m.start + 1 + i, mm + 1) == m.start + 1 + i);
                assert(m2.slots[m.start + 1 + i] == m.slots[m.start + i]);
            } else if i < m.length {
                assert(wrap_index(m.start + 1 + i, mm + 1) == m.start + i - mm);
                assert(m2.slots[m.start + i - mm] == m.slots[m.start + i - mm]);
                assert(wrap_index(m.start + i, mm) == m.start + i - mm);
            } else {
                assert(wrap_index(m.start + 1 + i, mm + 1) == m.start);
                assert(m2.slots[m.start] == x);
            }
        }
        assert(m2.to_view() =~= push_back_view(m.to_view(), x, cap));
    }
}

/// Replacing the slot of logical position `i` updates exactly position `i`
/// of the logical contents.
pub proof fn lemma_update_view<T>(m: RingModel<T>, i: int, v: T, cap: int)
    requires
        m.wf(cap),
        0 <= i < m.length,
    ensures
        ({
            let m2 = RingModel {
                slots: m.slots.update(wrap_index(m.start + i, m.slots.len() as int), v),
                ..m
            };
            &&& m2.wf(cap)
            &&& m2.to_view() == m.to_view().update(i, v)
        }),
{
    let mm = m.slots.len() as int;
    let m2 = RingModel { slots: m.slots.update(wrap_index(m.start + i, mm), v), ..m };
    assert forall|j: int| 0 <= j < m.length implies m2.to_view()[j] == m.to_view().update(i, v)[j] by {
        if j != i {
            assert(wrap_index(m.start + j, mm) != wrap_index(m.start + i, mm));
        }
    }
    assert(m2.to_view() =~= m.to_view().update(i, v));
}

/// Model state after pushing every element of `items` at the front, last
/// element first, so that their order within the buffer is kept.
pub open spec fn push_all_front_model<T>(m: RingModel<T>, items: Seq<T>, cap: int) -> RingModel<T>
    decreases items.len(),
{
    if items.len() <= 0 {
        m
    } else {
        push_all_front_model(m, items.skip(1), cap).push_front(items[0], cap)
    }
}

/// Pushing `s` and then one more element `x` at the back is pushing `s.push(x)`,
/// at the model level.
pub proof fn lemma_push_all_back_model_snoc<T>(m: RingModel<T>, s: Seq<T>, x: T, cap: int)
    ensures
        push_all_back_model(m, s.push(x), cap) == push_all_back_model(m, s, cap).push_back(x, cap),
    decreases s.len(),
{
    if s.len() == 0 {
        assert(s.push(x)[0] == x);
        assert(s.push(x).skip(1) =~= Seq::<T>::empty());
        assert(push_all_back_model(m, s.push(x), cap) == push_all_back_model(
            m.push_back(x, cap),
            Seq::<T>::empty(),
            cap,
        ));
        assert(push_all_back_model(m.push_back(x, cap), Seq::<T>::empty(), cap) == m.push_back(
            x,
            cap,
        ));
        assert(push_all_back_model(m, s, cap) == m);
    } else {
        let m1 = m.push_back(s[0], cap);
        assert(s.push(x)[0] == s[0]);
        assert(s.push(x).skip(1) =~= s.skip(1).push(x));
        lemma_push_all_back_model_snoc(m1, s.skip(1), x, cap);
        assert(push_all_back_model(m, s.push(x), cap) == push_all_back_model(
            m1,
            s.skip(1).push(x),
            cap,
        ));
        assert(push_all_back_model(m, s, cap) == push_all_back_model(m1, s.skip(1), cap));
    }
}

/// Pushing `s` and then one more element `x` at the back is pushing `s.push(x)`.
pub proof fn lemma_push_all_back_snoc<T>(v: Seq<T>, s: Seq<T>, x: T, cap: int)
    ensures
        push_all_back_view(v, s.push(x), cap) == push_back_view(
            push_all_back_view(v, s, cap),
            x,
            cap,
        ),
    decreases s.len(),
{
    if s.len() == 0 {
        assert(s.push(x)[0] == x);
        assert(s.push(x).skip(1) =~= Seq::<T>::empty());
        assert(push_all_back_view(v, s.push(x), cap) == push_all_back_view(
            push_back_view(v, x, cap),
            Seq::<T>::empty(),
            cap,
        ));
        assert(push_all_back_view(push_back_view(v, x, cap), Seq::<T>::empty(), cap)
            == push_back_view(v, x, cap));
        assert(push_all_back_view(v, s, cap) == v);
    } else {
        let v1 = push_back_view(v, s[0], cap);
        assert(s.push(x)[0] == s[0]);
        assert(s.push(x).skip(1) =~= s.skip(1).push(x));
        lemma_push_all_back_snoc(v1, s.skip(1), x, cap);
        assert(push_all_back_view(v, s.push(x), cap) == push_all_back_view(
            v1,
            s.skip(1).push(x),
            cap,
        ));
        assert(push_all_back_view(v, s, cap) == push_all_back_view(v1, s.skip(1), cap));
    }
}

/// Pushing the elements of `items` one by one at the back keeps exactly the
/// last `cap` elements of the concatenation: bulk append and repeated single
/// pushes agree element for element.
pub proof fn lemma_push_all_back_is_last_n<T>(v: Seq<T>, s: Seq<T>, cap: int)
    requires
        0 <= cap,
        v.len() <= cap,
    ensures
        push_all_back_view(v, s, cap) == last_n(v + s, cap),
        push_all_back_view(v, s, cap).len() == min_int((v + s).len() as int, cap),
    decreases s.len(),
{
    if s.len() == 0 {
        assert(v + s =~= v);
    } else {
        let v1 = push_back_view(v, s[0], cap);
        lemma_push_all_back_is_last_n(v1, s.skip(1), cap);
        if cap == 0 {
            assert(v1 + s.skip(1) =~= v + s.skip(1));
            assert(last_n(v + s.skip(1), 0) =~= last_n(v + s, 0));
        } else if v.len() < cap {
            assert(v1 + s.skip(1) =~= v + s);
        } else {
            assert(v1 =~= v.skip(1).push(s[0]));
            assert(v1 + s.skip(1) =~= (v + s).skip(1));
            assert(last_n((v + s).skip(1), cap) =~= last_n(v + s, cap));
        }
    }
}

/// Prepending one element at the front commutes with keeping the first
/// `cap` elements.
pub proof fn lemma_push_front_first_n<T>(w: Seq<T>, x: T, cap: int)
    requires
        0 <= cap,
    ensures
        push_front_view(first_n(w, cap), x, cap) == first_n(seq![x] + w, cap),
{
    if cap == 0 {
        assert(push_front_view(first_n(w, cap), x, cap) =~= first_n(seq![x] + w, cap));
    } else if w.len() < cap {
        assert(push_front_view(first_n(w, cap), x, cap) =~= first_n(seq![x] + w, cap));
    } else {
        assert(first_n(w, cap).len() == cap);
        assert(push_front_view(first_n(w, cap), x, cap) =~= seq![x] + w.take(cap - 1));
        assert(first_n(seq![x] + w, cap) =~= seq![x] + w.take(cap - 1));
    }
}

/// `push_front` preserves well-formedness and acts on the logical contents
/// as `push_front_view`.
pub proof fn lemma_push_front_view<T>(m: RingModel<T>, x: T, cap: int)
    requires
        m.wf(cap),
    ensures
        m.push_front(x, cap).wf(cap),
        m.push_front(x, cap).to_view() == push_front_view(m.to_view(), x, cap),
{
    let m2 = m.push_front(x, cap);
    if cap == 0 {
        assert(m2.to_view() =~= push_front_view(m.to_view(), x, cap));
    } else {
        let mm = m.slots.len() as int;
        let l = if m.length == cap {
            m.length - 1
        } else {
            m.length as int
        };
        if l < mm {
            let q = if m.start == 0 {
                mm - 1
            } else {
                m.start - 1
            };
            assert forall|i: int| 0 <= i < l + 1 implies m2.to_view()[i] == push_front_view(
                m.to_view(),
                x,
                cap,
            )[i] by {
                if i == 0 {
                    assert(wrap_index(q + 0, mm) == q);
                } else {
                    assert(wrap_index(q + i, mm) == wrap_index(m.start + i - 1, mm));
                    assert(wrap_index(q + i, mm) != q);
                    assert(m.to_view()[i - 1] == m.slots[wrap_index(m.start + i - 1, mm)]);
                }
            }
            assert(m2.to_view() =~= push_front_view(m.to_view(), x, cap));
        } else {
            assert forall|i: int| 0 <= i < l + 1 implies m2.to_view()[i] == push_front_view(
                m.to_view(),
                x,
                cap,
            )[i] by {
                if i == 0 {
                    assert(wrap_index(m.start + 0, mm + 1) == m.start);
                } else if m.start + i <= mm {
                    assert(wrap_index(m.start + i, mm + 1) == m.start + i);
                    assert(m2.slots[m.start + i] == m.slots[m.start + i - 1]);
                    assert(m.to_view()[i - 1] == m.slots[wrap_index(m.start + i - 1, mm)]);
                } else {
                    assert(wrap_index(m.start + i, mm + 1) == m.start + i - mm - 1);
                    assert(m2.slots[m.start + i - mm - 1] == m.slots[m.start + i - mm - 1]);
                    assert(m.to_view()[i - 1] == m.slots[wrap_index(m.start + i - 1, mm)]);
                }
            }
            assert(m2.to_view() =~= push_front_view(m.to_view(), x, cap));
        }
    }
}

/// `pop_front` preserves well-formedness and drops the first element of the
/// logical contents.
pub proof fn lemma_pop_front_view<T>(m: RingModel<T>, cap: int)
    requires
        m.wf(cap),
        m.length > 0,
    ensures
        m.pop_front().wf(cap),
        m.pop_front().to_view() == m.to_view().skip(1),
{
    let m2 = m.pop_front();
    let mm = m.slots.len() as int;
    assert forall|i: int| 0 <= i < m.length - 1 implies m2.to_view()[i] == m.to_view().skip(1)[i] by {
        assert(wrap_index(wrap_index(m.start + 1, mm) + i, mm) == wrap_index(m.start + 1 + i, mm));
        assert(m.to_view()[i + 1] == m.slots[wrap_index(m.start + 1 + i, mm)]);
    }
    assert(m2.to_view() =~= m.to_view().skip(1));
}

/// `pop_back` preserves well-formedness and drops the last element of the
/// logical contents.
pub proof fn lemma_pop_back_view<T>(m: RingModel<T>, cap: int)
    requires
        m.wf(cap),
        m.length > 0,
    ensures
        m.pop_back().wf(cap),
        m.pop_back().to_view() == m.to_view().take(m.length - 1),
{
    assert(m.pop_back().to_view() =~= m.to_view().take(m.length - 1));
}

} // verus!
