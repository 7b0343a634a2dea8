//! Why no slot is shared.
//!
//! A range is active while it has begun and not ended.  At every step of the
//! sweep each slot is either in the pool of its type, once, or held by one
//! active range whose pair has the slot's type: [`settled`].  A range that
//! overlaps one beginning now is still active, so the slot handed out, which
//! comes from a pool or is new, is not its slot.

use crate::ir::FunctionBody;
use crate::ir::LocalId;
use crate::ir::Type;
use crate::liveness::lemma_position_of;
use crate::liveness::lemma_position_of_unique;
use crate::liveness::position_of;
use crate::liveness::ValueSpan;
use crate::sweep::end_event;
use crate::sweep::ends_first;
use crate::sweep::in_step;
use crate::sweep::lemma_end_in_starts;
use crate::sweep::lemma_ended_has_slot;
use crate::sweep::lemma_start_in_ends;
use crate::sweep::span_type;
use crate::sweep::start_event;
use crate::sweep::sweepable;
use crate::sweep::Assignment;
use vstd::prelude::*;

verus! {

/// The slot of the pair of `starts[j]`.
pub open spec fn slot_of(a: Assignment, starts: Seq<ValueSpan>, j: int) -> LocalId {
    a.slots[starts[j].key()]
}

/// Whether `starts[j]` has begun and not ended, with the cursors at `s` and
/// `e`.
pub open spec fn active(starts: Seq<ValueSpan>, ends: Seq<ValueSpan>, s: int, e: int, j: int) -> bool {
    0 <= j < s && position_of(ends, starts[j].key()) >= e
}

/// Whether `x` is the number of a slot made by the sweep, with type `ty`.
pub open spec fn made(f: FunctionBody, a: Assignment, x: LocalId, ty: Type) -> bool {
    f.locals@.len() <= x < f.locals@.len() + a.new_locals.len() && a.new_locals[x
        - f.locals@.len()] == ty
}

/// What holds of the slots at every step of the sweep.
pub open spec fn settled(
    f: FunctionBody,
    starts: Seq<ValueSpan>,
    ends: Seq<ValueSpan>,
    s: int,
    e: int,
    a: Assignment,
) -> bool {
    &&& forall|j: int|
        0 <= j < s ==> made(f, a, #[trigger] slot_of(a, starts, j), span_type(f, starts[j]))
    &&& forall|ty: Type, x: int|
        0 <= x < a.free[ty].len() ==> made(f, a, #[trigger] a.free[ty][x], ty)
    &&& forall|ty: Type, x: int, y: int|
        0 <= x < y < a.free[ty].len() ==> #[trigger] a.free[ty][x] != #[trigger] a.free[ty][y]
    &&& forall|j: int, ty: Type, x: int|
        #[trigger] active(starts, ends, s, e, j) && 0 <= x < a.free[ty].len()
            ==> #[trigger] a.free[ty][x] != slot_of(a, starts, j)
    &&& forall|j: int, k: int|
        #[trigger] active(starts, ends, s, e, j) && #[trigger] active(starts, ends, s, e, k) && j
            != k ==> slot_of(a, starts, j) != slot_of(a, starts, k)
    &&& forall|j: int, k: int|
        0 <= j < k < s && (#[trigger] starts[j]).overlaps(#[trigger] starts[k]) ==> slot_of(
            a,
            starts,
            j,
        ) != slot_of(a, starts, k)
}

/// Which ranges are active after the end of `ends[e]`: those that were, but
/// for the one that ended.
pub proof fn lemma_active_after_end(
    starts: Seq<ValueSpan>,
    ends: Seq<ValueSpan>,
    s: int,
    e: int,
    a: Assignment,
)
    requires
        sweepable(starts, ends),
        in_step(starts, ends, s, e, a),
        ends_first(starts, ends, s, e),
    ensures
        active(starts, ends, s, e, position_of(starts, ends[e].key())),
        starts[position_of(starts, ends[e].key())] == ends[e],
        forall|j: int| #[trigger]
            active(starts, ends, s, e + 1, j) <==> (active(starts, ends, s, e, j) && j
                != position_of(starts, ends[e].key())),
{
    lemma_end_in_starts(starts, ends, e);
    lemma_ended_has_slot(starts, ends, s, e, a);
    lemma_position_of_unique(ends, e);
    let j0 = position_of(starts, ends[e].key());
    assert forall|j: int| #[trigger]
        active(starts, ends, s, e + 1, j) <==> (active(starts, ends, s, e, j) && j != j0) by {
        if 0 <= j < s && j != j0 {
            lemma_position_of(ends, starts[j].key());
            if position_of(ends, starts[j].key()) == e {
                assert(starts[j].key() == starts[j0].key());
            }
        }
    }
}

/// A range that begins is active, and the others are as active as before.
pub proof fn lemma_active_after_start(
    starts: Seq<ValueSpan>,
    ends: Seq<ValueSpan>,
    s: int,
    e: int,
    a: Assignment,
)
    requires
        sweepable(starts, ends),
        in_step(starts, ends, s, e, a),
        s < starts.len(),
    ensures
        active(starts, ends, s + 1, e, s),
        forall|j: int|
            j != s ==> (#[trigger] active(starts, ends, s + 1, e, j) <==> active(
                starts,
                ends,
                s,
                e,
                j,
            )),
{
    lemma_start_in_ends(starts, ends, s);
    let i = position_of(ends, starts[s].key());
    if i < e {
        assert(ends[i].end <= starts[s].start);
        assert(starts[s].well_formed());
    }
}

/// A range that has begun and overlaps the one that begins next is active.
pub proof fn lemma_overlapping_is_active(
    starts: Seq<ValueSpan>,
    ends: Seq<ValueSpan>,
    s: int,
    e: int,
    a: Assignment,
    j: int,
)
    requires
        sweepable(starts, ends),
        in_step(starts, ends, s, e, a),
        0 <= j < s < starts.len(),
        starts[j].overlaps(starts[s]),
    ensures
        active(starts, ends, s, e, j),
{
    lemma_start_in_ends(starts, ends, j);
    let i = position_of(ends, starts[j].key());
    if i < e {
        assert(ends[i].end <= starts[s].start);
    }
}

/// An end event keeps the slots settled.
pub proof fn lemma_settled_end(
    f: FunctionBody,
    starts: Seq<ValueSpan>,
    ends: Seq<ValueSpan>,
    s: int,
    e: int,
    a: Assignment,
)
    requires
        sweepable(starts, ends),
        in_step(starts, ends, s, e, a),
        settled(f, starts, ends, s, e, a),
        ends_first(starts, ends, s, e),
    ensures
        settled(f, starts, ends, s, e + 1, end_event(f, a, ends[e])),
{
    let b = end_event(f, a, ends[e]);
    let j0 = position_of(starts, ends[e].key());
    let ty0 = span_type(f, ends[e]);
    let x0 = a.slots[ends[e].key()];
    lemma_active_after_end(starts, ends, s, e, a);
    assert(x0 == slot_of(a, starts, j0));
    assert(made(f, a, slot_of(a, starts, j0), ty0));
    assert forall|j: int| 0 <= j < s implies made(
        f,
        b,
        #[trigger] slot_of(b, starts, j),
        span_type(f, starts[j]),
    ) by {
        assert(made(f, a, slot_of(a, starts, j), span_type(f, starts[j])));
    }
    assert forall|ty: Type, x: int| 0 <= x < b.free[ty].len() implies made(
        f,
        b,
        #[trigger] b.free[ty][x],
        ty,
    ) by {
        if ty == ty0 && x == a.free[ty].len() {
        } else {
            assert(b.free[ty][x] == a.free[ty][x]);
            assert(made(f, a, a.free[ty][x], ty));
        }
    }
    assert forall|ty: Type, x: int, y: int| 0 <= x < y < b.free[ty].len() implies #[trigger] b.free[ty][x]
        != #[trigger] b.free[ty][y] by {
        if ty == ty0 && y == a.free[ty].len() {
            assert(active(starts, ends, s, e, j0));
            assert(a.free[ty][x] != slot_of(a, starts, j0));
        } else {
            assert(a.free[ty][x] != a.free[ty][y]);
        }
    }
    assert forall|j: int, ty: Type, x: int| #[trigger]
        active(starts, ends, s, e + 1, j) && 0 <= x < b.free[ty].len() implies #[trigger] b.free[ty][x]
        != slot_of(b, starts, j) by {
        assert(active(starts, ends, s, e, j) && j != j0);
        if ty == ty0 && x == a.free[ty].len() {
            assert(active(starts, ends, s, e, j0));
            assert(slot_of(a, starts, j) != slot_of(a, starts, j0));
        } else {
            assert(a.free[ty][x] != slot_of(a, starts, j));
        }
    }
    assert forall|j: int, k: int| #[trigger]
        active(starts, ends, s, e + 1, j) && #[trigger] active(starts, ends, s, e + 1, k) && j
            != k implies slot_of(b, starts, j) != slot_of(b, starts, k) by {
        assert(active(starts, ends, s, e, j) && active(starts, ends, s, e, k));
    }
    assert forall|j: int, k: int|
        0 <= j < k < s && (#[trigger] starts[j]).overlaps(
            #[trigger] starts[k],
        ) implies slot_of(b, starts, j) != slot_of(b, starts, k) by {
        assert(slot_of(a, starts, j) != slot_of(a, starts, k));
    }
}

/// A start event keeps the slots settled.
pub proof fn lemma_settled_start(
    f: FunctionBody,
    starts: Seq<ValueSpan>,
    ends: Seq<ValueSpan>,
    s: int,
    e: int,
    a: Assignment,
)
    requires
        sweepable(starts, ends),
        in_step(starts, ends, s, e, a),
        settled(f, starts, ends, s, e, a),
        s < starts.len(),
        start_event(f, a, starts[s]) is Some,
    ensures
        settled(f, starts, ends, s + 1, e, start_event(f, a, starts[s])->0),
{
    let b = start_event(f, a, starts[s])->0;
    let ty0 = span_type(f, starts[s]);
    let base = f.locals@.len();
    let x0 = slot_of(b, starts, s);
    let reuse = a.free[ty0].len() > 0;
    lemma_active_after_start(starts, ends, s, e, a);
    lemma_position_of_unique(starts, s);
    // The slots of the ranges that began before stay as they are.
    assert forall|j: int| 0 <= j < s implies #[trigger] slot_of(b, starts, j) == slot_of(
        a,
        starts,
        j,
    ) by {
        assert(starts[j].key() != starts[s].key());
    }
    // The slot handed out is of the right type and held by no active range.
    if reuse {
        assert(x0 == a.free[ty0][a.free[ty0].len() - 1]);
        assert(made(f, a, a.free[ty0][a.free[ty0].len() - 1], ty0));
    }
    assert(made(f, b, x0, ty0));
    assert forall|j: int| active(starts, ends, s, e, j) implies slot_of(a, starts, j) != x0 by {
        if reuse {
            assert(a.free[ty0][a.free[ty0].len() - 1] != slot_of(a, starts, j));
        } else {
            assert(made(f, a, slot_of(a, starts, j), span_type(f, starts[j])));
        }
    }
    assert forall|j: int| 0 <= j < s + 1 implies made(
        f,
        b,
        #[trigger] slot_of(b, starts, j),
        span_type(f, starts[j]),
    ) by {
        if j < s {
            assert(made(f, a, slot_of(a, starts, j), span_type(f, starts[j])));
        }
    }
    assert forall|ty: Type, x: int| 0 <= x < b.free[ty].len() implies made(
        f,
        b,
        #[trigger] b.free[ty][x],
        ty,
    ) by {
        assert(b.free[ty][x] == a.free[ty][x]);
        assert(made(f, a, a.free[ty][x], ty));
    }
    assert forall|ty: Type, x: int, y: int| 0 <= x < y < b.free[ty].len() implies #[trigger] b.free[ty][x]
        != #[trigger] b.free[ty][y] by {
        assert(b.free[ty][x] == a.free[ty][x]);
        assert(b.free[ty][y] == a.free[ty][y]);
        assert(a.free[ty][x] != a.free[ty][y]);
    }
    assert forall|j: int, ty: Type, x: int| #[trigger]
        active(starts, ends, s + 1, e, j) && 0 <= x < b.free[ty].len() implies #[trigger] b.free[ty][x]
        != slot_of(b, starts, j) by {
        assert(b.free[ty][x] == a.free[ty][x]);
        assert(made(f, a, a.free[ty][x], ty));
        if j == s {
            if reuse {
                if ty == ty0 {
                    assert(a.free[ty][x] != a.free[ty][a.free[ty].len() - 1]);
                }
            }
        } else {
            assert(active(starts, ends, s, e, j));
            assert(a.free[ty][x] != slot_of(a, starts, j));
        }
    }
    assert forall|j: int, k: int| #[trigger]
        active(starts, ends, s + 1, e, j) && #[trigger] active(starts, ends, s + 1, e, k) && j
            != k implies slot_of(b, starts, j) != slot_of(b, starts, k) by {
        if j != s && k != s {
            assert(active(starts, ends, s, e, j) && active(starts, ends, s, e, k));
            assert(slot_of(a, starts, j) != slot_of(a, starts, k));
        } else if j == s {
            assert(active(starts, ends, s, e, k));
        } else {
            assert(active(starts, ends, s, e, j));
        }
    }
    assert forall|j: int, k: int|
        0 <= j < k < s + 1 && (#[trigger] starts[j]).overlaps(
            #[trigger] starts[k],
        ) implies slot_of(b, starts, j) != slot_of(b, starts, k) by {
        if k < s {
            assert(slot_of(a, starts, j) != slot_of(a, starts, k));
        } else {
            lemma_overlapping_is_active(starts, ends, s, e, a, j);
        }
    }
}

} // verus!
