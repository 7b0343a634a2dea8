//! Why no more slots are made than are needed at once.
//!
//! A new slot is made only where the pool of its type is empty.  Every slot
//! of that type is then held by an active range, and every active range is
//! live at the position where the new range begins.  So there are at least as
//! many pairs of that type live at that position as there are slots of that
//! type, the new one counted.

use crate::ir::FunctionBody;
use crate::ir::Type;
use crate::liveness::lemma_position_of_unique;
use crate::liveness::position_of;
use crate::liveness::ValueSpan;
use crate::sharing::active;
use crate::sharing::lemma_active_after_end;
use crate::sharing::lemma_active_after_start;
use crate::sharing::made;
use crate::sharing::settled;
use crate::sharing::slot_of;
use crate::sweep::end_event;
use crate::sweep::ends_first;
use crate::sweep::in_step;
use crate::sweep::lemma_start_in_ends;
use crate::sweep::span_type;
use crate::sweep::start_event;
use crate::sweep::sweepable;
use crate::sweep::Assignment;
use vstd::prelude::*;
use vstd::relations::injective_on;
use vstd::set_lib::lemma_int_range;
use vstd::set_lib::lemma_len_subset;
use vstd::set_lib::lemma_map_size;
use vstd::set_lib::set_int_range;

verus! {

/// The slots of type `ty` among the new slots with the types `new_locals`,
/// each by its place in `new_locals`.
pub open spec fn typed_slots(new_locals: Seq<Type>, ty: Type) -> Set<int> {
    Set::new(|q: int| 0 <= q < new_locals.len() && new_locals[q] == ty)
}

/// The ranges of `spans` that are live at position `p` and belong to a pair
/// of type `ty`, each by its place in `spans`.
pub open spec fn live_set(f: FunctionBody, spans: Seq<ValueSpan>, ty: Type, p: int) -> Set<int> {
    Set::new(|j: int| 0 <= j < spans.len() && span_type(f, spans[j]) == ty && spans[j].live_at(p))
}

/// Whether at some position at least as many pairs of type `ty` are live as
/// there are new slots of type `ty`.
pub open spec fn within_peak(
    f: FunctionBody,
    spans: Seq<ValueSpan>,
    new_locals: Seq<Type>,
    ty: Type,
) -> bool {
    exists|p: int| typed_slots(new_locals, ty).len() <= #[trigger] live_set(f, spans, ty, p).len()
}

/// Whether new slot `q` lies in the pool of its type.
pub open spec fn is_free(f: FunctionBody, a: Assignment, q: int) -> bool {
    exists|x: int|
        0 <= x < a.free[a.new_locals[q]].len() && #[trigger] a.free[a.new_locals[q]][x]
            == f.locals@.len() + q
}

/// Whether new slot `q` is held by an active range.
pub open spec fn is_held(
    f: FunctionBody,
    starts: Seq<ValueSpan>,
    ends: Seq<ValueSpan>,
    s: int,
    e: int,
    a: Assignment,
    q: int,
) -> bool {
    exists|j: int| #[trigger]
        active(starts, ends, s, e, j) && slot_of(a, starts, j) == f.locals@.len() + q
}

/// What holds of the number of slots at every step of the sweep.
pub open spec fn peaked(
    f: FunctionBody,
    starts: Seq<ValueSpan>,
    ends: Seq<ValueSpan>,
    s: int,
    e: int,
    a: Assignment,
) -> bool {
    &&& forall|q: int|
        #![trigger is_free(f, a, q)]
        0 <= q < a.new_locals.len() ==> is_free(f, a, q) || is_held(f, starts, ends, s, e, a, q)
    &&& forall|ty: Type| #[trigger] within_peak(f, starts, a.new_locals, ty)
}

/// Both sets are finite.
pub proof fn lemma_sets_finite(f: FunctionBody, spans: Seq<ValueSpan>, new_locals: Seq<Type>, ty: Type, p: int)
    ensures
        typed_slots(new_locals, ty).finite(),
        typed_slots(new_locals, ty).len() <= new_locals.len(),
        live_set(f, spans, ty, p).finite(),
        live_set(f, spans, ty, p).len() <= spans.len(),
{
    lemma_int_range(0, new_locals.len() as int);
    lemma_len_subset(typed_slots(new_locals, ty), set_int_range(0, new_locals.len() as int));
    lemma_int_range(0, spans.len() as int);
    lemma_len_subset(live_set(f, spans, ty, p), set_int_range(0, spans.len() as int));
}

/// An end event keeps the count.
pub proof fn lemma_peaked_end(
    f: FunctionBody,
    starts: Seq<ValueSpan>,
    ends: Seq<ValueSpan>,
    s: int,
    e: int,
    a: Assignment,
)
    requires
        sweepable(starts, ends),
        in_step(starts, ends, s, e, a),
        settled(f, starts, ends, s, e, a),
        peaked(f, starts, ends, s, e, a),
        ends_first(starts, ends, s, e),
    ensures
        peaked(f, starts, ends, s, e + 1, end_event(f, a, ends[e])),
{
    let b = end_event(f, a, ends[e]);
    let base = f.locals@.len();
    let j0 = position_of(starts, ends[e].key());
    let ty0 = span_type(f, ends[e]);
    lemma_active_after_end(starts, ends, s, e, a);
    assert(made(f, a, slot_of(a, starts, j0), ty0));
    assert forall|q: int|
        #![trigger is_free(f, b, q)]
        0 <= q < b.new_locals.len() implies is_free(f, b, q) || is_held(
        f,
        starts,
        ends,
        s,
        e + 1,
        b,
        q,
    ) by {
        assert(is_free(f, a, q) || is_held(f, starts, ends, s, e, a, q));
        if is_free(f, a, q) {
            let x = choose|x: int|
                0 <= x < a.free[a.new_locals[q]].len() && #[trigger] a.free[a.new_locals[q]][x]
                    == base + q;
            assert(b.free[b.new_locals[q]][x] == base + q);
        } else {
            let j = choose|j: int| #[trigger]
                active(starts, ends, s, e, j) && slot_of(a, starts, j) == base + q;
            if j == j0 {
                assert(b.free[ty0][a.free[ty0].len() as int] == base + q);
            } else {
                assert(active(starts, ends, s, e + 1, j));
                assert(slot_of(b, starts, j) == base + q);
            }
        }
    }
    assert forall|ty: Type| #[trigger] within_peak(f, starts, b.new_locals, ty) by {
        assert(within_peak(f, starts, a.new_locals, ty));
    }
}

/// Where a new slot is made, as many pairs of its type are live as there are
/// then slots of its type.
pub proof fn lemma_new_slot_within_peak(
    f: FunctionBody,
    starts: Seq<ValueSpan>,
    ends: Seq<ValueSpan>,
    s: int,
    e: int,
    a: Assignment,
)
    requires
        sweepable(starts, ends),
        in_step(starts, ends, s, e, a),
        settled(f, starts, ends, s, e, a),
        peaked(f, starts, ends, s, e, a),
        s < starts.len(),
        !ends_first(starts, ends, s, e),
        a.free[span_type(f, starts[s])].len() == 0,
    ensures
        typed_slots(a.new_locals.push(span_type(f, starts[s])), span_type(f, starts[s])).len()
            <= live_set(f, starts, span_type(f, starts[s]), starts[s].start as int).len(),
{
    let ty0 = span_type(f, starts[s]);
    let base = f.locals@.len();
    let nl = a.new_locals;
    let n = nl.len() as int;
    let p = starts[s].start as int;
    let slots = typed_slots(nl.push(ty0), ty0);
    let live = live_set(f, starts, ty0, p);
    let holder = |q: int|
        if 0 <= q < n && nl[q] == ty0 {
            choose|j: int| #[trigger]
                active(starts, ends, s, e, j) && slot_of(a, starts, j) == base + q
        } else {
            s
        };
    lemma_sets_finite(f, starts, nl.push(ty0), ty0, p);
    assert(starts[s].well_formed());
    assert forall|q: int| slots.contains(q) && q < n implies active(starts, ends, s, e, holder(q))
        && slot_of(a, starts, holder(q)) == base + q && live.contains(holder(q)) by {
        assert(nl.push(ty0)[q] == nl[q]);
        assert(is_free(f, a, q) || is_held(f, starts, ends, s, e, a, q));
        assert(!is_free(f, a, q));
        let j = holder(q);
        assert(active(starts, ends, s, e, j) && slot_of(a, starts, j) == base + q);
        assert(made(f, a, slot_of(a, starts, j), span_type(f, starts[j])));
        lemma_start_in_ends(starts, ends, j);
        let i = position_of(ends, starts[j].key());
        assert(ends[e].end <= ends[i].end);
        assert(starts[j].start <= starts[s].start);
    }
    assert forall|q: int| slots.contains(q) implies live.contains(holder(q)) by {
        if q == n {
            assert(holder(q) == s);
        }
    }
    assert(injective_on(holder, slots)) by {
        assert forall|q1: int, q2: int|
            slots.contains(q1) && slots.contains(q2) && holder(q1) == holder(q2) implies q1
            == q2 by {
            if q1 < n && q2 < n {
                assert(slot_of(a, starts, holder(q1)) == base + q1);
                assert(slot_of(a, starts, holder(q2)) == base + q2);
            } else if q1 < n {
                assert(active(starts, ends, s, e, holder(q1)));
            } else if q2 < n {
                assert(active(starts, ends, s, e, holder(q2)));
            }
        }
    }
    let image = slots.map(holder);
    lemma_map_size(slots, image, holder);
    assert(image.subset_of(live)) by {
        assert forall|j: int| image.contains(j) implies live.contains(j) by {
            let q = choose|q: int| slots.contains(q) && j == holder(q);
            assert(live.contains(holder(q)));
        }
    }
    lemma_len_subset(image, live);
}

/// A start event keeps the count.
pub proof fn lemma_peaked_start(
    f: FunctionBody,
    starts: Seq<ValueSpan>,
    ends: Seq<ValueSpan>,
    s: int,
    e: int,
    a: Assignment,
)
    requires
        sweepable(starts, ends),
        in_step(starts, ends, s, e, a),
        settled(f, starts, ends, s, e, a),
        peaked(f, starts, ends, s, e, a),
        s < starts.len(),
        !ends_first(starts, ends, s, e),
        start_event(f, a, starts[s]) is Some,
    ensures
        peaked(f, starts, ends, s + 1, e, start_event(f, a, starts[s])->0),
{
    let b = start_event(f, a, starts[s])->0;
    let ty0 = span_type(f, starts[s]);
    let base = f.locals@.len();
    let n = a.new_locals.len() as int;
    let reuse = a.free[ty0].len() > 0;
    let x0 = slot_of(b, starts, s);
    lemma_active_after_start(starts, ends, s, e, a);
    lemma_position_of_unique(starts, s);
    assert forall|j: int| 0 <= j < s implies #[trigger] slot_of(b, starts, j) == slot_of(
        a,
        starts,
        j,
    ) by {
        assert(starts[j].key() != starts[s].key());
    }
    if reuse {
        assert(x0 == a.free[ty0][a.free[ty0].len() - 1]);
        assert(made(f, a, a.free[ty0][a.free[ty0].len() - 1], ty0));
    }
    assert forall|q: int|
        #![trigger is_free(f, b, q)]
        0 <= q < b.new_locals.len() implies is_free(f, b, q) || is_held(
        f,
        starts,
        ends,
        s + 1,
        e,
        b,
        q,
    ) by {
        if base + q == x0 {
            assert(active(starts, ends, s + 1, e, s));
        } else {
            assert(q < n);
            assert(b.new_locals[q] == a.new_locals[q]);
            assert(is_free(f, a, q) || is_held(f, starts, ends, s, e, a, q));
            if is_free(f, a, q) {
                let x = choose|x: int|
                    0 <= x < a.free[a.new_locals[q]].len() && #[trigger] a.free[a.new_locals[q]][x]
                        == base + q;
                assert(b.free[b.new_locals[q]][x] == base + q);
            } else {
                let j = choose|j: int| #[trigger]
                    active(starts, ends, s, e, j) && slot_of(a, starts, j) == base + q;
                assert(active(starts, ends, s + 1, e, j));
                assert(slot_of(b, starts, j) == base + q);
            }
        }
    }
    assert forall|ty: Type| #[trigger] within_peak(f, starts, b.new_locals, ty) by {
        assert(within_peak(f, starts, a.new_locals, ty));
        if !reuse {
            if ty == ty0 {
                lemma_new_slot_within_peak(f, starts, ends, s, e, a);
                assert(typed_slots(b.new_locals, ty).len() <= live_set(
                    f,
                    starts,
                    ty,
                    starts[s].start as int,
                ).len());
            } else {
                assert(typed_slots(b.new_locals, ty) =~= typed_slots(a.new_locals, ty));
            }
        }
    }
}

} // verus!
