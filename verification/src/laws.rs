//! What holds of every allocation.
//!
//! Each function here states one property of [`allocation`] for all function
//! bodies and all operator streams, and proves it.

use crate::eliminate::deleted_positions;
use crate::error::AllocError;
use crate::extent::ends_at_last;
use crate::extent::lemma_spans_reach;
use crate::extent::seen;
use crate::extent::touches;
use crate::ir::FunctionBody;
use crate::ir::SerializedOperator;
use crate::ir::Type;
use crate::ir::Value;
use crate::liveness::ascending_starts;
use crate::liveness::distinct_keys;
use crate::liveness::first_write;
use crate::liveness::lemma_position_of;
use crate::liveness::lemma_position_of_unique;
use crate::liveness::live_ranges;
use crate::liveness::position_of;
use crate::liveness::read_unwritten;
use crate::liveness::reads_follow_writes;
use crate::liveness::reads_pair;
use crate::liveness::written_before;
use crate::liveness::ValueSpan;
use crate::locations::allocation;
use crate::locations::computed;
use crate::locations::first_untyped;
use crate::locations::Locations;
use crate::locations::LocationsView;
use crate::order::by_end;
use crate::order::lemma_by_end;
use crate::peak::lemma_peaked_end;
use crate::peak::lemma_peaked_start;
use crate::peak::live_set;
use crate::peak::peaked;
use crate::peak::typed_slots;
use crate::peak::within_peak;
use crate::sharing::lemma_settled_end;
use crate::sharing::lemma_settled_start;
use crate::sharing::made;
use crate::sharing::settled;
use crate::sharing::slot_of;
use crate::sweep::end_event;
use crate::sweep::ends_first;
use crate::sweep::events_left;
use crate::sweep::in_step;
use crate::sweep::lemma_step_end;
use crate::sweep::lemma_step_start;
use crate::sweep::no_assignment;
use crate::sweep::span_type;
use crate::sweep::start_event;
use crate::sweep::sweep;
use crate::sweep::sweepable;
use crate::sweep::Assignment;
use crate::tracking::begins_at;
use crate::tracking::follows;
use crate::tracking::lemma_spans_ok_iff;
use crate::tracking::lemma_spans_tracked;
use crate::tracking::names_bad_read;
use crate::tracking::reads_follow_writes_upto;
use crate::tracking::written_by;
use vstd::prelude::*;

verus! {

/// All that is kept true during the sweep.
pub open spec fn sound(
    f: FunctionBody,
    starts: Seq<ValueSpan>,
    ends: Seq<ValueSpan>,
    s: int,
    e: int,
    a: Assignment,
) -> bool {
    &&& in_step(starts, ends, s, e, a)
    &&& settled(f, starts, ends, s, e, a)
    &&& peaked(f, starts, ends, s, e, a)
}

/// It is true before the first event.
proof fn lemma_sound_at_first(f: FunctionBody, starts: Seq<ValueSpan>, ends: Seq<ValueSpan>)
    ensures
        sound(f, starts, ends, 0, 0, no_assignment()),
{
    let a = no_assignment();
    assert forall|key: (Value, usize)| #[trigger]
        a.slots.contains_key(key) <==> 0 <= position_of(starts, key) < 0 by {}
    assert forall|ty: Type| #[trigger] within_peak(f, starts, a.new_locals, ty) by {
        assert(typed_slots(a.new_locals, ty) =~= Set::<int>::empty());
        assert(typed_slots(a.new_locals, ty).len() <= live_set(f, starts, ty, 0).len());
    }
}

/// It is true after the last event.
proof fn lemma_sound_at_last(
    f: FunctionBody,
    starts: Seq<ValueSpan>,
    ends: Seq<ValueSpan>,
    s: int,
    e: int,
    a: Assignment,
)
    requires
        sweepable(starts, ends),
        sound(f, starts, ends, s, e, a),
        sweep(f, starts, ends, s, e, a) is Some,
    ensures
        sound(
            f,
            starts,
            ends,
            starts.len() as int,
            ends.len() as int,
            sweep(f, starts, ends, s, e, a)->0,
        ),
    decreases events_left(starts, ends, s, e),
{
    if s >= starts.len() && e >= ends.len() {
    } else if ends_first(starts, ends, s, e) {
        lemma_step_end(f, starts, ends, s, e, a);
        lemma_settled_end(f, starts, ends, s, e, a);
        lemma_peaked_end(f, starts, ends, s, e, a);
        lemma_sound_at_last(f, starts, ends, s, e + 1, end_event(f, a, ends[e]));
    } else {
        let b = start_event(f, a, starts[s])->0;
        lemma_step_start(f, starts, ends, s, e, a);
        lemma_settled_start(f, starts, ends, s, e, a);
        lemma_peaked_start(f, starts, ends, s, e, a);
        lemma_sound_at_last(f, starts, ends, s + 1, e, b);
    }
}

/// The sweep never runs out of slot numbers where there is one for every
/// range.
proof fn lemma_sweep_fits(
    f: FunctionBody,
    starts: Seq<ValueSpan>,
    ends: Seq<ValueSpan>,
    s: int,
    e: int,
    a: Assignment,
)
    requires
        0 <= s <= starts.len(),
        a.new_locals.len() <= s,
        f.locals@.len() + starts.len() <= u32::MAX + 1,
    ensures
        sweep(f, starts, ends, s, e, a) is Some,
    decreases events_left(starts, ends, s, e),
{
    if s >= starts.len() && e >= ends.len() {
    } else if ends_first(starts, ends, s, e) {
        lemma_sweep_fits(f, starts, ends, s, e + 1, end_event(f, a, ends[e]));
    } else {
        lemma_sweep_fits(f, starts, ends, s + 1, e, start_event(f, a, starts[s])->0);
    }
}

/// The live ranges and their order by end are fit for the sweep.
pub proof fn lemma_ranges_sweepable(ops: Seq<SerializedOperator>)
    requires
        ops.len() <= usize::MAX,
        live_ranges(ops) is Ok,
    ensures
        sweepable(live_ranges(ops)->Ok_0, by_end(live_ranges(ops)->Ok_0)),
        follows(ops, live_ranges(ops)->Ok_0, ops.len() as int, 0),
{
    let spans = live_ranges(ops)->Ok_0;
    lemma_spans_tracked(ops, ops.len());
    lemma_by_end(spans);
}

/// Where there is a result, it is the end of a sweep during which all stayed
/// true.
proof fn lemma_allocation_sound(f: FunctionBody, ops: Seq<SerializedOperator>)
    requires
        ops.len() <= usize::MAX,
        allocation(f, ops) is Ok,
    ensures
        live_ranges(ops) is Ok,
        sweep(
            f,
            live_ranges(ops)->Ok_0,
            by_end(live_ranges(ops)->Ok_0),
            0,
            0,
            no_assignment(),
        ) is Some,
        ({
            let spans = live_ranges(ops)->Ok_0;
            let a = sweep(f, spans, by_end(spans), 0, 0, no_assignment())->0;
            &&& allocation(f, ops)->Ok_0.slots == a.slots
            &&& allocation(f, ops)->Ok_0.new_locals == a.new_locals
            &&& sweepable(spans, by_end(spans))
            &&& follows(ops, spans, ops.len() as int, 0)
            &&& sound(f, spans, by_end(spans), spans.len() as int, by_end(spans).len() as int, a)
        }),
{
    let spans = live_ranges(ops)->Ok_0;
    lemma_ranges_sweepable(ops);
    lemma_sound_at_first(f, spans, by_end(spans));
    lemma_sound_at_last(f, spans, by_end(spans), 0, 0, no_assignment());
}

/// What `first_untyped` finds: nothing only where every range belongs to a
/// pair with a type, and otherwise the pair of a range without one.
proof fn lemma_first_untyped(f: FunctionBody, spans: Seq<ValueSpan>, n: nat)
    requires
        n <= spans.len(),
    ensures
        first_untyped(f, spans, n) is None <==> forall|j: int|
            0 <= j < n ==> f.has_type((#[trigger] spans[j]).value, spans[j].multi_value_index),
        first_untyped(f, spans, n) matches Some(k) ==> exists|j: int|
            0 <= j < n && (#[trigger] spans[j]).key() == k && !f.has_type(k.0, k.1),
    decreases n,
{
    if n > 0 {
        lemma_first_untyped(f, spans, (n - 1) as nat);
        match first_untyped(f, spans, (n - 1) as nat) {
            Some(k) => {
                let j = choose|j: int|
                    0 <= j < n - 1 && (#[trigger] spans[j]).key() == k && !f.has_type(k.0, k.1);
                assert(!f.has_type(spans[j].value, spans[j].multi_value_index));
            },
            None => {
                if !f.has_type(spans[n - 1].value, spans[n - 1].multi_value_index) {
                    assert(spans[n - 1].key() == spans[n - 1].key());
                }
            },
        }
    }
}

/// Every live range holds at least one position and begins at the first
/// kept write of its pair; no pair has two ranges; and the ranges come in the
/// order in which they begin.
pub proof fn ranges_begin_at_first_write(ops: Seq<SerializedOperator>, j: int)
    requires
        ops.len() <= usize::MAX,
        live_ranges(ops) is Ok,
        0 <= j < live_ranges(ops)->Ok_0.len(),
    ensures
        live_ranges(ops)->Ok_0[j].start < live_ranges(ops)->Ok_0[j].end,
        first_write(ops, live_ranges(ops)->Ok_0[j].key(), live_ranges(ops)->Ok_0[j].start as int),
        distinct_keys(live_ranges(ops)->Ok_0),
        ascending_starts(live_ranges(ops)->Ok_0),
{
    let spans = live_ranges(ops)->Ok_0;
    lemma_spans_tracked(ops, ops.len());
    assert(begins_at(ops, spans[j], ops.len() as int, 0));
    assert(spans[j].start < spans[j].end);
}

/// Every live range ends one past the last kept operator that reads or
/// writes its pair.
pub proof fn ranges_end_behind_last_touch(ops: Seq<SerializedOperator>, j: int)
    requires
        ops.len() <= usize::MAX,
        live_ranges(ops) is Ok,
        0 <= j < live_ranges(ops)->Ok_0.len(),
    ensures
        touches(ops, live_ranges(ops)->Ok_0[j].end - 1, live_ranges(ops)->Ok_0[j].key()),
        forall|q: int|
            q >= live_ranges(ops)->Ok_0[j].end ==> !#[trigger] touches(
                ops,
                q,
                live_ranges(ops)->Ok_0[j].key(),
            ),
        live_ranges(ops)->Ok_0[j].end <= ops.len(),
{
    let spans = live_ranges(ops)->Ok_0;
    lemma_spans_reach(ops, ops.len());
    assert(ends_at_last(ops, spans[j], ops.len() as int, 0, 0));
    assert forall|q: int| q >= spans[j].end implies !#[trigger] touches(
        ops,
        q,
        spans[j].key(),
    ) by {
        assert(!seen(ops, spans[j].key(), q, ops.len() as int, 0, 0));
    }
}

/// A pair has a live range exactly where a kept operator writes it.
pub proof fn written_pairs_have_ranges(ops: Seq<SerializedOperator>, key: (Value, usize))
    requires
        ops.len() <= usize::MAX,
        live_ranges(ops) is Ok,
    ensures
        position_of(live_ranges(ops)->Ok_0, key) >= 0 <==> written_before(
            ops,
            key,
            ops.len() as int,
        ),
{
    let spans = live_ranges(ops)->Ok_0;
    lemma_spans_tracked(ops, ops.len());
    assert(position_of(spans, key) >= 0 <==> written_by(ops, key, ops.len() as int, 0));
}

/// A pair has a slot exactly where a kept operator writes it.
pub proof fn written_pairs_have_slots(
    f: FunctionBody,
    ops: Seq<SerializedOperator>,
    key: (Value, usize),
)
    requires
        ops.len() <= usize::MAX,
        allocation(f, ops) is Ok,
    ensures
        allocation(f, ops)->Ok_0.slots.contains_key(key) <==> written_before(
            ops,
            key,
            ops.len() as int,
        ),
{
    let spans = live_ranges(ops)->Ok_0;
    let a = sweep(f, spans, by_end(spans), 0, 0, no_assignment())->0;
    lemma_allocation_sound(f, ops);
    written_pairs_have_ranges(ops, key);
    lemma_position_of(spans, key);
    assert(a.slots.contains_key(key) <==> 0 <= position_of(spans, key) < spans.len());
}

/// Two pairs whose live ranges share a position have different slots.
pub proof fn overlapping_ranges_have_slots_apart(
    f: FunctionBody,
    ops: Seq<SerializedOperator>,
    j: int,
    k: int,
)
    requires
        ops.len() <= usize::MAX,
        allocation(f, ops) is Ok,
        0 <= j < live_ranges(ops)->Ok_0.len(),
        0 <= k < live_ranges(ops)->Ok_0.len(),
        j != k,
        live_ranges(ops)->Ok_0[j].overlaps(live_ranges(ops)->Ok_0[k]),
    ensures
        allocation(f, ops)->Ok_0.slots[live_ranges(ops)->Ok_0[j].key()] != allocation(
            f,
            ops,
        )->Ok_0.slots[live_ranges(ops)->Ok_0[k].key()],
{
    let spans = live_ranges(ops)->Ok_0;
    let a = sweep(f, spans, by_end(spans), 0, 0, no_assignment())->0;
    lemma_allocation_sound(f, ops);
    if j < k {
        assert(spans[j].overlaps(spans[k]));
        assert(slot_of(a, spans, j) != slot_of(a, spans, k));
    } else {
        assert(spans[k].overlaps(spans[j]));
        assert(slot_of(a, spans, k) != slot_of(a, spans, j));
    }
}

/// The slot of a pair is one of the new slots, numbered behind those that
/// the function has, and is declared with the type of the pair.
pub proof fn slots_have_the_type_of_their_pair(
    f: FunctionBody,
    ops: Seq<SerializedOperator>,
    j: int,
)
    requires
        ops.len() <= usize::MAX,
        allocation(f, ops) is Ok,
        0 <= j < live_ranges(ops)->Ok_0.len(),
    ensures
        ({
            let sp = live_ranges(ops)->Ok_0[j];
            let slot = allocation(f, ops)->Ok_0.slots[sp.key()];
            let new_locals = allocation(f, ops)->Ok_0.new_locals;
            &&& f.has_type(sp.value, sp.multi_value_index)
            &&& f.locals@.len() <= slot < f.locals@.len() + new_locals.len()
            &&& new_locals[slot - f.locals@.len()] == f.type_of(sp.value, sp.multi_value_index)
        }),
{
    let spans = live_ranges(ops)->Ok_0;
    let a = sweep(f, spans, by_end(spans), 0, 0, no_assignment())->0;
    lemma_allocation_sound(f, ops);
    lemma_first_untyped(f, spans, spans.len());
    assert(f.has_type(spans[j].value, spans[j].multi_value_index));
    assert(made(f, a, slot_of(a, spans, j), span_type(f, spans[j])));
}

/// For every type there is a position at which at least as many pairs of
/// that type are live as new slots of that type are declared: the slots made
/// never outnumber the pairs that need one at once.
pub proof fn slots_stay_within_peak(f: FunctionBody, ops: Seq<SerializedOperator>, ty: Type)
    requires
        ops.len() <= usize::MAX,
        allocation(f, ops) is Ok,
    ensures
        exists|p: int|
            typed_slots(allocation(f, ops)->Ok_0.new_locals, ty).len() <= #[trigger] live_set(
                f,
                live_ranges(ops)->Ok_0,
                ty,
                p,
            ).len(),
{
    let spans = live_ranges(ops)->Ok_0;
    let a = sweep(f, spans, by_end(spans), 0, 0, no_assignment())->0;
    lemma_allocation_sound(f, ops);
    assert(within_peak(f, spans, a.new_locals, ty));
}

/// Allocating twice for one function and one stream gives the same slots,
/// the same dropped positions and the same new slots, or twice the same
/// error.
pub proof fn same_input_same_result(
    f: FunctionBody,
    ops: Seq<SerializedOperator>,
    first: Result<Locations, AllocError>,
    second: Result<Locations, AllocError>,
)
    requires
        computed(f, ops, first),
        computed(f, ops, second),
    ensures
        match (first, second) {
            (Ok(a), Ok(b)) => a@ == b@,
            (Err(a), Err(b)) => a == b,
            _ => false,
        },
{
}

/// Where the live ranges cannot be built, the error names a pair that a
/// kept operator reads with no kept write before it.
pub proof fn unbuilt_ranges_name_a_bad_read(ops: Seq<SerializedOperator>)
    requires
        ops.len() <= usize::MAX,
        live_ranges(ops) is Err,
    ensures
        live_ranges(ops)->Err_0 matches AllocError::ReadBeforeWrite { value, index }
            && read_unwritten(ops, (value, index)),
{
    let e = live_ranges(ops)->Err_0;
    lemma_spans_ok_iff(ops, ops.len());
    assert(names_bad_read(ops, ops.len() as int, e));
    let (p, key) = choose|p: int, key: (Value, usize)|
        p < ops.len() && #[trigger] reads_pair(ops, p, key) && !written_before(ops, key, p) && e
            == (AllocError::ReadBeforeWrite { value: key.0, index: key.1 });
    assert(key == (key.0, key.1));
    assert(reads_pair(ops, p, (key.0, key.1)) && !written_before(ops, (key.0, key.1), p));
    assert(read_unwritten(ops, (key.0, key.1)));
}

/// A read before any write is what allocation reports exactly where some
/// kept operator reads a pair that no kept operator before it writes, and the
/// pair reported is such a pair.
pub proof fn read_before_write_is_reported(f: FunctionBody, ops: Seq<SerializedOperator>)
    requires
        ops.len() <= usize::MAX,
    ensures
        allocation(f, ops) matches Err(AllocError::ReadBeforeWrite { .. }) <==> !reads_follow_writes(
            ops,
        ),
        allocation(f, ops) matches Err(AllocError::ReadBeforeWrite { value, index })
            ==> read_unwritten(ops, (value, index)),
{
    lemma_spans_ok_iff(ops, ops.len());
    assert(reads_follow_writes(ops) <==> reads_follow_writes_upto(ops, ops.len() as int));
    if live_ranges(ops) is Err {
        unbuilt_ranges_name_a_bad_read(ops);
    }
}

/// A value without type is what allocation reports exactly where every read
/// follows a write and some pair that a kept operator writes has no type, and
/// the pair reported is such a pair.
pub proof fn untyped_value_is_reported(f: FunctionBody, ops: Seq<SerializedOperator>)
    requires
        ops.len() <= usize::MAX,
    ensures
        allocation(f, ops) matches Err(AllocError::UntypedValue { .. }) <==> (reads_follow_writes(
            ops,
        ) && exists|key: (Value, usize)| #[trigger]
            written_before(ops, key, ops.len() as int) && !f.has_type(key.0, key.1)),
        allocation(f, ops) matches Err(AllocError::UntypedValue { value, index }) ==> written_before(
            ops,
            (value, index),
            ops.len() as int,
        ) && !f.has_type(value, index),
{
    read_before_write_is_reported(f, ops);
    lemma_spans_ok_iff(ops, ops.len());
    if let Ok(spans) = live_ranges(ops) {
        lemma_first_untyped(f, spans, spans.len());
        match first_untyped(f, spans, spans.len()) {
            Some(k) => {
                let j = choose|j: int|
                    0 <= j < spans.len() && (#[trigger] spans[j]).key() == k && !f.has_type(
                        k.0,
                        k.1,
                    );
                lemma_spans_tracked(ops, ops.len());
                lemma_position_of_unique(spans, j);
                written_pairs_have_ranges(ops, k);
                assert(written_before(ops, k, ops.len() as int) && !f.has_type(k.0, k.1));
            },
            None => {
                assert forall|key: (Value, usize)| #[trigger]
                    written_before(ops, key, ops.len() as int) implies f.has_type(
                    key.0,
                    key.1,
                ) by {
                    written_pairs_have_ranges(ops, key);
                    lemma_position_of(spans, key);
                    let j = position_of(spans, key);
                    assert(f.has_type(spans[j].value, spans[j].multi_value_index));
                }
            },
        }
    }
}

/// Allocation goes through where every read follows a write, every pair
/// written has a type, and there is a slot number for every live range.
pub proof fn success_is_owed(f: FunctionBody, ops: Seq<SerializedOperator>)
    requires
        ops.len() <= usize::MAX,
        reads_follow_writes(ops),
        forall|key: (Value, usize)| #[trigger]
            written_before(ops, key, ops.len() as int) ==> f.has_type(key.0, key.1),
        live_ranges(ops) is Ok ==> f.locals@.len() + live_ranges(ops)->Ok_0.len() <= u32::MAX + 1,
    ensures
        allocation(f, ops) is Ok,
{
    read_before_write_is_reported(f, ops);
    untyped_value_is_reported(f, ops);
    lemma_spans_ok_iff(ops, ops.len());
    assert(reads_follow_writes(ops) <==> reads_follow_writes_upto(ops, ops.len() as int));
    let spans = live_ranges(ops)->Ok_0;
    lemma_sweep_fits(f, spans, by_end(spans), 0, 0, no_assignment());
}

/// Whether the range `sp` lies where the stream `ops` puts it: from the
/// first kept write of its pair to one past the last kept operator that
/// reads or writes the pair.
pub open spec fn well_placed(ops: Seq<SerializedOperator>, sp: ValueSpan) -> bool {
    &&& sp.start < sp.end <= ops.len()
    &&& first_write(ops, sp.key(), sp.start as int)
    &&& touches(ops, sp.end - 1, sp.key())
    &&& forall|q: int| q >= sp.end ==> !#[trigger] touches(ops, q, sp.key())
}

/// Whether `spans` are the live ranges that the stream `ops` calls for: one
/// for every pair that a kept operator writes and for no other, each where
/// it should lie, in the order in which they begin.
pub open spec fn well_ranged(ops: Seq<SerializedOperator>, spans: Seq<ValueSpan>) -> bool {
    &&& distinct_keys(spans)
    &&& ascending_starts(spans)
    &&& forall|j: int| 0 <= j < spans.len() ==> well_placed(ops, #[trigger] spans[j])
    &&& forall|key: (Value, usize)| #[trigger]
        position_of(spans, key) >= 0 <==> written_before(ops, key, ops.len() as int)
}

/// The live ranges of a stream are the ranges that the stream calls for.
pub proof fn live_ranges_are_well_ranged(ops: Seq<SerializedOperator>)
    requires
        ops.len() <= usize::MAX,
        live_ranges(ops) is Ok,
    ensures
        well_ranged(ops, live_ranges(ops)->Ok_0),
{
    let spans = live_ranges(ops)->Ok_0;
    assert forall|j: int| 0 <= j < spans.len() implies well_placed(ops, #[trigger] spans[j]) by {
        ranges_begin_at_first_write(ops, j);
        ranges_end_behind_last_touch(ops, j);
    }
    assert forall|key: (Value, usize)| #[trigger]
        position_of(spans, key) >= 0 <==> written_before(ops, key, ops.len() as int) by {
        written_pairs_have_ranges(ops, key);
    }
    lemma_spans_tracked(ops, ops.len());
}

/// Whether `l` is a sound allocation for the function `f` with the stream
/// `ops`: it drops the positions that cancel out; it gives a slot to every
/// pair that a kept operator writes and to no other; every slot is a new one
/// of the type of its pair; no two pairs that are live at once share a slot;
/// and of no type are there more slots than pairs live at once.
pub open spec fn well_allocated(
    f: FunctionBody,
    ops: Seq<SerializedOperator>,
    l: LocationsView,
) -> bool {
    &&& live_ranges(ops) is Ok
    &&& l.deleted == deleted_positions(ops)
    &&& forall|key: (Value, usize)| #[trigger]
        l.slots.contains_key(key) <==> written_before(ops, key, ops.len() as int)
    &&& forall|j: int|
        0 <= j < live_ranges(ops)->Ok_0.len() ==> well_typed(
            f,
            l,
            #[trigger] live_ranges(ops)->Ok_0[j],
        )
    &&& forall|j: int, k: int|
        0 <= j < k < live_ranges(ops)->Ok_0.len() && (#[trigger] live_ranges(ops)->Ok_0[j]).overlaps(
            #[trigger] live_ranges(ops)->Ok_0[k],
        ) ==> l.slots[live_ranges(ops)->Ok_0[j].key()] != l.slots[live_ranges(ops)->Ok_0[k].key()]
    &&& forall|ty: Type| #[trigger] within_peak(f, live_ranges(ops)->Ok_0, l.new_locals, ty)
}

/// Whether the slot that `l` gives to the pair of `sp` is a new slot,
/// numbered behind those that `f` has, and declared with the type of the pair.
pub open spec fn well_typed(f: FunctionBody, l: LocationsView, sp: ValueSpan) -> bool {
    &&& f.has_type(sp.value, sp.multi_value_index)
    &&& f.locals@.len() <= l.slots[sp.key()] < f.locals@.len() + l.new_locals.len()
    &&& l.new_locals[l.slots[sp.key()] - f.locals@.len()] == f.type_of(
        sp.value,
        sp.multi_value_index,
    )
}

/// Every allocation is sound.
pub proof fn allocations_are_well_allocated(f: FunctionBody, ops: Seq<SerializedOperator>)
    requires
        ops.len() <= usize::MAX,
        allocation(f, ops) is Ok,
    ensures
        well_allocated(f, ops, allocation(f, ops)->Ok_0),
{
    let l = allocation(f, ops)->Ok_0;
    let spans = live_ranges(ops)->Ok_0;
    assert forall|key: (Value, usize)| #[trigger]
        l.slots.contains_key(key) <==> written_before(ops, key, ops.len() as int) by {
        written_pairs_have_slots(f, ops, key);
    }
    assert forall|j: int| 0 <= j < spans.len() implies well_typed(f, l, #[trigger] spans[j]) by {
        slots_have_the_type_of_their_pair(f, ops, j);
    }
    assert forall|j: int, k: int|
        0 <= j < k < spans.len() && (#[trigger] spans[j]).overlaps(
            #[trigger] spans[k],
        ) implies l.slots[spans[j].key()] != l.slots[spans[k].key()] by {
        overlapping_ranges_have_slots_apart(f, ops, j, k);
    }
    assert forall|ty: Type| #[trigger] within_peak(f, spans, l.new_locals, ty) by {
        slots_stay_within_peak(f, ops, ty);
    }
}

/// Whether `e` is a true complaint about the function `f` with the stream
/// `ops`.
pub open spec fn rightly_refused(
    f: FunctionBody,
    ops: Seq<SerializedOperator>,
    e: AllocError,
) -> bool {
    match e {
        AllocError::ReadBeforeWrite { value, index } => read_unwritten(ops, (value, index)),
        AllocError::UntypedValue { value, index } => {
            &&& reads_follow_writes(ops)
            &&& written_before(ops, (value, index), ops.len() as int)
            &&& !f.has_type(value, index)
        },
        AllocError::TooManyLocals => {
            &&& reads_follow_writes(ops)
            &&& forall|key: (Value, usize)| #[trigger]
                written_before(ops, key, ops.len() as int) ==> f.has_type(key.0, key.1)
            &&& live_ranges(ops) is Ok
            &&& f.locals@.len() + live_ranges(ops)->Ok_0.len() > u32::MAX + 1
        },
    }
}

/// Every error is a true complaint.
pub proof fn refusals_are_right(f: FunctionBody, ops: Seq<SerializedOperator>)
    requires
        ops.len() <= usize::MAX,
        allocation(f, ops) is Err,
    ensures
        rightly_refused(f, ops, allocation(f, ops)->Err_0),
{
    read_before_write_is_reported(f, ops);
    untyped_value_is_reported(f, ops);
    match allocation(f, ops)->Err_0 {
        AllocError::TooManyLocals => {
            lemma_spans_ok_iff(ops, ops.len());
            assert(reads_follow_writes(ops) <==> reads_follow_writes_upto(ops, ops.len() as int));
            if f.locals@.len() + live_ranges(ops)->Ok_0.len() <= u32::MAX + 1 {
                success_is_owed(f, ops);
            }
        },
        _ => {},
    }
}

} // verus!
