//! General laws of the buffer, stated and proved over the abstract model.
//!
//! The executable operations promise in their contracts that they implement
//! the transition functions of [`crate::model`]; the lemmas here chain those
//! transitions, so each law holds of any sequence of calls on a live buffer.

use vstd::prelude::*;

use crate::model::last_n;
use crate::model::lemma_push_all_back_is_last_n;
use crate::model::lemma_push_back_view;
use crate::model::lemma_push_front_view;
use crate::model::min_int;
use crate::model::push_all_back_model;
use crate::model::push_all_front_model;
use crate::model::push_all_back_view;
use crate::model::RingModel;

verus! {

/// One mutating step of a buffer: a single push, or a bulk append, at
/// either end.
pub ghost enum RingOp<T> {
    PushBack(T),
    PushFront(T),
    ExtendBack(Seq<T>),
    ExtendFront(Seq<T>),
}

/// The model state after one operation.
pub open spec fn apply_op<T>(m: RingModel<T>, op: RingOp<T>, cap: int) -> RingModel<T> {
    match op {
        RingOp::PushBack(x) => m.push_back(x, cap),
        RingOp::PushFront(x) => m.push_front(x, cap),
        RingOp::ExtendBack(items) => push_all_back_model(m, items, cap),
        RingOp::ExtendFront(items) => push_all_front_model(m, items, cap),
    }
}

/// The model state after a sequence of operations, applied in order.
pub open spec fn apply_ops<T>(m: RingModel<T>, ops: Seq<RingOp<T>>, cap: int) -> RingModel<T>
    decreases ops.len(),
{
    if ops.len() <= 0 {
        m
    } else {
        apply_ops(apply_op(m, ops[0], cap), ops.skip(1), cap)
    }
}

/// A bulk append at the back preserves well-formedness.
pub proof fn lemma_push_all_back_model_wf<T>(m: RingModel<T>, items: Seq<T>, cap: int)
    requires
        m.wf(cap),
    ensures
        push_all_back_model(m, items, cap).wf(cap),
    decreases items.len(),
{
    if items.len() > 0 {
        lemma_push_back_view(m, items[0], cap);
        lemma_push_all_back_model_wf(m.push_back(items[0], cap), items.skip(1), cap);
    }
}

/// A bulk prepend at the front preserves well-formedness.
pub proof fn lemma_push_all_front_model_wf<T>(m: RingModel<T>, items: Seq<T>, cap: int)
    requires
        m.wf(cap),
    ensures
        push_all_front_model(m, items, cap).wf(cap),
    decreases items.len(),
{
    if items.len() > 0 {
        lemma_push_all_front_model_wf(m, items.skip(1), cap);
        lemma_push_front_view(push_all_front_model(m, items.skip(1), cap), items[0], cap);
    }
}

/// Capacity invariant: however a well-formed buffer is grown, by single
/// pushes or bulk appends at either end, its length never exceeds the
/// capacity.
pub proof fn lemma_capacity_invariant<T>(m: RingModel<T>, ops: Seq<RingOp<T>>, cap: int)
    requires
        m.wf(cap),
    ensures
        apply_ops(m, ops, cap).wf(cap),
        apply_ops(m, ops, cap).to_view().len() <= cap,
    decreases ops.len(),
{
    if ops.len() > 0 {
        match ops[0] {
            RingOp::PushBack(x) => lemma_push_back_view(m, x, cap),
            RingOp::PushFront(x) => lemma_push_front_view(m, x, cap),
            RingOp::ExtendBack(items) => lemma_push_all_back_model_wf(m, items, cap),
            RingOp::ExtendFront(items) => lemma_push_all_front_model_wf(m, items, cap),
        }
        lemma_capacity_invariant(apply_op(m, ops[0], cap), ops.skip(1), cap);
    }
}

/// Bulk append equals repeated single pushes: pushing the elements of
/// `items` one by one at the back of a buffer holding `v` leaves exactly
/// the last `cap` elements of `v + items`, which is what
/// `extend_from_slice` promises in one step.
pub proof fn lemma_extend_matches_pushes<T>(v: Seq<T>, items: Seq<T>, cap: int)
    requires
        0 <= cap,
        v.len() <= cap,
    ensures
        push_all_back_view(v, items, cap) == last_n(v + items, cap),
{
    lemma_push_all_back_is_last_n(v, items, cap);
}

/// On an empty buffer, a bulk append of at most `cap` elements yields
/// exactly those elements, as the same single pushes would.
pub proof fn lemma_extend_on_empty_matches_pushes<T>(items: Seq<T>, cap: int)
    requires
        0 <= cap,
        items.len() <= cap,
    ensures
        push_all_back_view(Seq::<T>::empty(), items, cap) == items,
{
    lemma_push_all_back_is_last_n(Seq::<T>::empty(), items, cap);
    assert(Seq::<T>::empty() + items =~= items);
}

/// Pushing `rest` one by one at the back of a buffer whose slots hold
/// exactly `p` in natural order, with room for all of it, appends the
/// elements in natural order with the start offset still at zero.
proof fn lemma_fill_natural<T>(p: Seq<T>, rest: Seq<T>, cap: int)
    requires
        p.len() + rest.len() <= cap,
    ensures
        push_all_back_model(
            RingModel { slots: p, start: 0, length: p.len() as int },
            rest,
            cap,
        ) == (RingModel { slots: p + rest, start: 0, length: p.len() as int + rest.len() as int }),
    decreases rest.len(),
{
    let m = RingModel { slots: p, start: 0, length: p.len() as int };
    if rest.len() == 0 {
        assert(p + rest =~= p);
        assert(push_all_back_model(m, rest, cap) =~= (RingModel {
            slots: p + rest,
            start: 0,
            length: p.len() as int + rest.len() as int,
        }));
    } else {
        let p1 = p.push(rest[0]);
        assert(m.push_back(rest[0], cap) =~= (RingModel {
            slots: p1,
            start: 0,
            length: p1.len() as int,
        }));
        lemma_fill_natural(p1, rest.skip(1), cap);
        assert(p1 + rest.skip(1) =~= p + rest);
        assert(push_all_back_model(m, rest, cap) == push_all_back_model(
            m.push_back(rest[0], cap),
            rest.skip(1),
            cap,
        ));
    }
}

/// Wraparound correctness: fill an empty buffer with `cap` elements, pop
/// one from the front, push one more at the back.  The logical order is
/// preserved, and the occupied range now crosses the physical end of
/// storage, so `as_slices` returns two non-empty slices.
pub proof fn lemma_wraparound<T>(xs: Seq<T>, y: T, cap: int)
    requires
        2 <= cap,
        xs.len() == cap,
    ensures
        ({
            let full = push_all_back_model(RingModel::<T>::empty(), xs, cap);
            let m3 = full.pop_front().push_back(y, cap);
            &&& full.to_view() == xs
            &&& full.pop_front().to_view() == xs.skip(1)
            &&& m3.to_view() == xs.skip(1).push(y)
            &&& m3.is_wrapped()
            &&& m3.front_run() == cap - 1
            &&& m3.to_view().len() - m3.front_run() == 1
        }),
{
    lemma_fill_natural(Seq::<T>::empty(), xs, cap);
    assert(Seq::<T>::empty() + xs =~= xs);
    let full = push_all_back_model(RingModel::<T>::empty(), xs, cap);
    assert(full =~= (RingModel { slots: xs, start: 0, length: cap }));
    assert(full.to_view() =~= xs);
    let m2 = full.pop_front();
    assert(m2.to_view() =~= xs.skip(1));
    let m3 = m2.push_back(y, cap);
    assert(m3.slots =~= xs.update(0, y));
    assert forall|i: int| 0 <= i < cap implies m3.to_view()[i] == xs.skip(1).push(y)[i] by {
        if i < cap - 1 {
            assert(m3.to_view()[i] == m3.slots[1 + i]);
        } else {
            assert(m3.to_view()[i] == m3.slots[0]);
        }
    }
    assert(m3.to_view() =~= xs.skip(1).push(y));
}

/// Round trip through the stream interface: writing a sequence of at most
/// the capacity into an empty buffer buffers exactly that sequence, and a
/// read into a large enough destination returns all of it, reproduces it at
/// the front of the destination, and leaves the buffer empty.
pub proof fn lemma_write_read_round_trip<T>(s: Seq<T>, dst: Seq<T>, cap: int)
    requires
        0 <= cap,
        s.len() <= cap,
        s.len() <= dst.len(),
    ensures
        ({
            let buffered = last_n(Seq::<T>::empty() + s, cap);
            let k = min_int(buffered.len() as int, dst.len() as int);
            &&& buffered == s
            &&& k == s.len()
            &&& (buffered.take(k) + dst.skip(k)).take(k) == s
            &&& buffered.skip(k) == Seq::<T>::empty()
        }),
{
    assert(Seq::<T>::empty() + s =~= s);
    assert(s.take(s.len() as int) =~= s);
    assert((s.take(s.len() as int) + dst.skip(s.len() as int)).take(s.len() as int) =~= s);
    assert(s.skip(s.len() as int) =~= Seq::<T>::empty());
}

} // verus!
