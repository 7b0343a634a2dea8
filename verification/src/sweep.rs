//! Handing out the slots.
//!
//! The sweep holds two cursors, one into the ranges in the order in which
//! they begin and one into the same ranges in the order in which they end,
//! and takes whichever event comes first.  Where a range ends, its slot goes
//! onto the pool of its type.  Where a range begins, it takes the slot freed
//! last from the pool of its type, or, with that pool empty, a new slot
//! numbered behind all others.  An end at the very position of a beginning
//! comes first, so that the slot can change hands there.

use crate::ir::FunctionBody;
use crate::ir::LocalId;
use crate::ir::Type;
use crate::ir::Value;
use crate::liveness::all_well_formed;
use crate::liveness::ascending_starts;
use crate::liveness::distinct_keys;
use crate::liveness::lemma_position_of;
use crate::liveness::lemma_position_of_unique;
use crate::liveness::position_of;
use crate::liveness::ValueSpan;
use crate::order::ascending_ends;
use crate::order::drawn_from;
use vstd::prelude::*;

verus! {

/// What the sweep has decided so far.
#[verifier::ext_equal]
pub struct Assignment {
    /// For every type, the slots of that type that no live pair holds, in the
    /// order in which they were freed.
    pub free: Map<Type, Seq<LocalId>>,
    /// The slot of every pair whose range has begun.
    pub slots: Map<(Value, usize), LocalId>,
    /// The types of the slots made so far, in the order of their numbers.
    pub new_locals: Seq<Type>,
}

/// Nothing decided: no slot made, none free, none held.
pub open spec fn no_assignment() -> Assignment {
    Assignment {
        free: Map::total(|ty: Type| Seq::<LocalId>::empty()),
        slots: Map::empty(),
        new_locals: Seq::empty(),
    }
}

/// The type of the pair that `sp` belongs to.
pub open spec fn span_type(f: FunctionBody, sp: ValueSpan) -> Type {
    f.type_of(sp.value, sp.multi_value_index)
}

/// The assignment after the range `sp` has ended: its slot is free again.
pub open spec fn end_event(f: FunctionBody, a: Assignment, sp: ValueSpan) -> Assignment {
    let ty = span_type(f, sp);
    Assignment { free: a.free.insert(ty, a.free[ty].push(a.slots[sp.key()])), ..a }
}

/// The assignment after the range `sp` has begun, or `None` where a new slot
/// is needed and its number would not fit.
pub open spec fn start_event(f: FunctionBody, a: Assignment, sp: ValueSpan) -> Option<Assignment> {
    let ty = span_type(f, sp);
    if a.free[ty].len() > 0 {
        Some(
            Assignment {
                free: a.free.insert(ty, a.free[ty].drop_last()),
                slots: a.slots.insert(sp.key(), a.free[ty].last()),
                new_locals: a.new_locals,
            },
        )
    } else if f.locals@.len() + a.new_locals.len() > u32::MAX {
        None
    } else {
        Some(
            Assignment {
                free: a.free,
                slots: a.slots.insert(sp.key(), (f.locals@.len() + a.new_locals.len()) as u32),
                new_locals: a.new_locals.push(ty),
            },
        )
    }
}

/// Whether the next event is the end of `ends[e]` rather than the beginning
/// of `starts[s]`.
pub open spec fn ends_first(starts: Seq<ValueSpan>, ends: Seq<ValueSpan>, s: int, e: int) -> bool {
    e < ends.len() && (s >= starts.len() || ends[e].end <= starts[s].start)
}

/// The number of events left.
pub open spec fn events_left(starts: Seq<ValueSpan>, ends: Seq<ValueSpan>, s: int, e: int) -> nat {
    (if s < starts.len() {
        starts.len() - s
    } else {
        0
    } + if e < ends.len() {
        ends.len() - e
    } else {
        0
    }) as nat
}

/// The assignment at the end of the sweep that stands at the cursors `s` and
/// `e` with `a` decided.
pub open spec fn sweep(
    f: FunctionBody,
    starts: Seq<ValueSpan>,
    ends: Seq<ValueSpan>,
    s: int,
    e: int,
    a: Assignment,
) -> Option<Assignment>
    decreases events_left(starts, ends, s, e),
{
    if s >= starts.len() && e >= ends.len() {
        Some(a)
    } else if ends_first(starts, ends, s, e) {
        sweep(f, starts, ends, s, e + 1, end_event(f, a, ends[e]))
    } else {
        match start_event(f, a, starts[s]) {
            None => None,
            Some(b) => sweep(f, starts, ends, s + 1, e, b),
        }
    }
}

/// What the sweep asks of its two orders: they hold the same ranges, one
/// range for each pair, none empty, and each is sorted its own way.
pub open spec fn sweepable(starts: Seq<ValueSpan>, ends: Seq<ValueSpan>) -> bool {
    &&& distinct_keys(starts)
    &&& all_well_formed(starts)
    &&& ascending_starts(starts)
    &&& distinct_keys(ends)
    &&& ascending_ends(ends)
    &&& drawn_from(ends, starts)
    &&& drawn_from(starts, ends)
}

/// What holds of the cursors at every step: exactly the pairs whose range
/// has begun have a slot, and every range that has ended did so no later than
/// any range still to begin begins.
pub open spec fn in_step(
    starts: Seq<ValueSpan>,
    ends: Seq<ValueSpan>,
    s: int,
    e: int,
    a: Assignment,
) -> bool {
    &&& 0 <= s <= starts.len()
    &&& 0 <= e <= ends.len()
    &&& forall|key: (Value, usize)| #[trigger]
        a.slots.contains_key(key) <==> 0 <= position_of(starts, key) < s
    &&& forall|i: int, j: int|
        0 <= i < e && s <= j < starts.len() ==> (#[trigger] ends[i]).end <= (
        #[trigger] starts[j]).start
}

/// The range `ends[i]` is a range of `starts`, found there under its key.
pub proof fn lemma_end_in_starts(starts: Seq<ValueSpan>, ends: Seq<ValueSpan>, i: int)
    requires
        sweepable(starts, ends),
        0 <= i < ends.len(),
    ensures
        0 <= position_of(starts, ends[i].key()) < starts.len(),
        starts[position_of(starts, ends[i].key())] == ends[i],
{
    assert(starts.contains(ends[i]));
    let j = choose|j: int| 0 <= j < starts.len() && starts[j] == ends[i];
    lemma_position_of_unique(starts, j);
}

/// The range `starts[j]` is a range of `ends`, found there under its key.
pub proof fn lemma_start_in_ends(starts: Seq<ValueSpan>, ends: Seq<ValueSpan>, j: int)
    requires
        sweepable(starts, ends),
        0 <= j < starts.len(),
    ensures
        0 <= position_of(ends, starts[j].key()) < ends.len(),
        ends[position_of(ends, starts[j].key())] == starts[j],
{
    assert(ends.contains(starts[j]));
    let i = choose|i: int| 0 <= i < ends.len() && ends[i] == starts[j];
    lemma_position_of_unique(ends, i);
}

/// A range that ends next has begun: its pair has a slot.
pub proof fn lemma_ended_has_slot(
    starts: Seq<ValueSpan>,
    ends: Seq<ValueSpan>,
    s: int,
    e: int,
    a: Assignment,
)
    requires
        sweepable(starts, ends),
        in_step(starts, ends, s, e, a),
        ends_first(starts, ends, s, e),
    ensures
        a.slots.contains_key(ends[e].key()),
        0 <= position_of(starts, ends[e].key()) < s,
{
    lemma_end_in_starts(starts, ends, e);
    let j = position_of(starts, ends[e].key());
    if j >= s {
        assert(starts[s].start <= starts[j].start);
        assert(starts[j].well_formed());
    }
}

/// An end event keeps the cursors in step.
pub proof fn lemma_step_end(
    f: FunctionBody,
    starts: Seq<ValueSpan>,
    ends: Seq<ValueSpan>,
    s: int,
    e: int,
    a: Assignment,
)
    requires
        sweepable(starts, ends),
        in_step(starts, ends, s, e, a),
        ends_first(starts, ends, s, e),
    ensures
        in_step(starts, ends, s, e + 1, end_event(f, a, ends[e])),
{
    let b = end_event(f, a, ends[e]);
    assert forall|i: int, j: int| 0 <= i < e + 1 && s <= j < starts.len() implies (
    #[trigger] ends[i]).end <= (#[trigger] starts[j]).start by {
        if i == e {
            assert(starts[s].start <= starts[j].start);
        }
    }
    assert forall|key: (Value, usize)| #[trigger]
        b.slots.contains_key(key) <==> 0 <= position_of(starts, key) < s by {
        assert(a.slots.contains_key(key) <==> 0 <= position_of(starts, key) < s);
    }
}

/// A start event keeps the cursors in step.
pub proof fn lemma_step_start(
    f: FunctionBody,
    starts: Seq<ValueSpan>,
    ends: Seq<ValueSpan>,
    s: int,
    e: int,
    a: Assignment,
)
    requires
        sweepable(starts, ends),
        in_step(starts, ends, s, e, a),
        s < starts.len(),
        start_event(f, a, starts[s]) is Some,
    ensures
        in_step(starts, ends, s + 1, e, start_event(f, a, starts[s])->0),
{
    let b = start_event(f, a, starts[s])->0;
    lemma_position_of_unique(starts, s);
    assert forall|key: (Value, usize)| #[trigger]
        b.slots.contains_key(key) <==> 0 <= position_of(starts, key) < s + 1 by {
        assert(a.slots.contains_key(key) <==> 0 <= position_of(starts, key) < s);
        lemma_position_of(starts, key);
    }
}

} // verus!
