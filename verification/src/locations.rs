//! Location assignment (pseudo-regalloc) for SSA values onto locals.

use crate::eliminate::deleted_positions;
use crate::eliminate::eliminate;
use crate::eliminate::is_deleted;
use crate::eliminate::lemma_scan_ordered;
use crate::error::AllocError;
use crate::fxmap::key_code;
use crate::fxmap::lemma_key_code_injective;
use crate::fxmap::map_get;
use crate::fxmap::map_insert;
use crate::fxmap::map_remove;
use crate::fxmap::pack_key;
use crate::ir::FunctionBody;
use crate::ir::LocalId;
use crate::ir::SerializedBody;
use crate::ir::SerializedOperator;
use crate::ir::Type;
use crate::ir::Value;
use crate::laws::allocations_are_well_allocated;
use crate::laws::live_ranges_are_well_ranged;
use crate::laws::refusals_are_right;
use crate::laws::rightly_refused;
use crate::laws::unbuilt_ranges_name_a_bad_read;
use crate::laws::well_allocated;
use crate::laws::well_ranged;
use crate::liveness::apply_op;
use crate::liveness::lemma_position_of;
use crate::liveness::live_ranges;
use crate::liveness::position_of;
use crate::liveness::read_pair;
use crate::liveness::read_pairs;
use crate::liveness::read_unwritten;
use crate::liveness::spans_upto;
use crate::liveness::write_pair;
use crate::liveness::write_pairs;
use crate::liveness::ValueSpan;
use crate::order::by_end;
use crate::order::lemma_by_end;
use crate::order::sort_by_end;
use crate::sweep::end_event;
use crate::sweep::ends_first;
use crate::sweep::events_left;
use crate::sweep::in_step;
use crate::sweep::lemma_end_in_starts;
use crate::sweep::lemma_ended_has_slot;
use crate::sweep::lemma_step_end;
use crate::sweep::lemma_step_start;
use crate::sweep::no_assignment;
use crate::sweep::start_event;
use crate::sweep::sweep;
use crate::sweep::sweepable;
use crate::sweep::Assignment;
use crate::tracking::follows;
use crate::tracking::lemma_spans_tracked;
use fxhash::FxHashMap;
use vstd::prelude::*;
use vstd::std_specs::hash::group_hash_axioms;

verus! {

/// The result of allocation for one function body.
#[derive(Debug)]
pub struct Locations {
    /// The slot of every pair that is written, under the pair's key
    /// ([`key_code`]).
    pub locations: FxHashMap<u128, LocalId>,
    /// The stream positions that are not to be emitted, in ascending order.
    pub delete: Vec<usize>,
    /// The types of the slots to declare behind those the function has.
    pub new_locals: Vec<Type>,
}

/// What a [`Locations`] says.
#[verifier::ext_equal]
pub struct LocationsView {
    /// The slot of every pair that is written.
    pub slots: Map<(Value, usize), LocalId>,
    /// The stream positions that are not to be emitted.
    pub deleted: Seq<usize>,
    /// The types of the slots to declare.
    pub new_locals: Seq<Type>,
}

/// A map by key read as a map by pair.
pub open spec fn slot_map(m: Map<u128, LocalId>) -> Map<(Value, usize), LocalId> {
    Map::new(
        |k: (Value, usize)| m.contains_key(key_code(k.0, k.1)),
        |k: (Value, usize)| m[key_code(k.0, k.1)],
    )
}

impl View for Locations {
    type V = LocationsView;

    open spec fn view(&self) -> LocationsView {
        LocationsView {
            slots: slot_map(self.locations@),
            deleted: self.delete@,
            new_locals: self.new_locals@,
        }
    }
}

/// The first of the first `n` ranges of `spans` whose pair has no type.
pub open spec fn first_untyped(f: FunctionBody, spans: Seq<ValueSpan>, n: nat) -> Option<
    (Value, usize),
>
    decreases n,
{
    if n == 0 {
        None
    } else {
        match first_untyped(f, spans, (n - 1) as nat) {
            Some(k) => Some(k),
            None => if f.has_type(spans[n - 1].value, spans[n - 1].multi_value_index) {
                None
            } else {
                Some(spans[n - 1].key())
            },
        }
    }
}

/// What allocation gives for the function `f` with the stream `ops`.
///
/// The positions to drop are found first and take no further part.  The live
/// ranges of what is kept are built next; a read of a pair that nothing has
/// written ends allocation there.  Every range must belong to a pair with a
/// type.  The sweep then hands out the slots, numbering new ones from the
/// number of slots that `f` has already.
pub open spec fn allocation(f: FunctionBody, ops: Seq<SerializedOperator>) -> Result<
    LocationsView,
    AllocError,
> {
    match live_ranges(ops) {
        Err(e) => Err(e),
        Ok(spans) => match first_untyped(f, spans, spans.len()) {
            Some(k) => Err(AllocError::UntypedValue { value: k.0, index: k.1 }),
            None => match sweep(f, spans, by_end(spans), 0, 0, no_assignment()) {
                None => Err(AllocError::TooManyLocals),
                Some(a) => Ok(
                    LocationsView {
                        slots: a.slots,
                        deleted: deleted_positions(ops),
                        new_locals: a.new_locals,
                    },
                ),
            },
        },
    }
}

/// Whether `r` is what allocation gives for the function `f` with the stream
/// `ops`: the result where there is one, and else the error.
pub open spec fn computed(
    f: FunctionBody,
    ops: Seq<SerializedOperator>,
    r: Result<Locations, AllocError>,
) -> bool {
    match r {
        Ok(l) => allocation(f, ops) == Ok::<LocationsView, AllocError>(l@),
        Err(e) => allocation(f, ops) == Err::<LocationsView, AllocError>(e),
    }
}

impl Locations {
    /// The slot of component `index` of `value`, if the pair has one.
    pub fn get(&self, value: Value, index: usize) -> (r: Option<LocalId>)
        ensures
            r == (if self@.slots.contains_key((value, index)) {
                Some(self@.slots[(value, index)])
            } else {
                None::<LocalId>
            }),
    {
        broadcast use group_hash_axioms;

        map_get(&self.locations, pack_key(value, index))
    }

    /// Allocates slots for the body `body` of the function `f`, or says what
    /// is wrong with them.
    pub fn try_compute(f: &FunctionBody, body: &SerializedBody) -> (r: Result<
        Locations,
        AllocError,
    >)
        ensures
            computed(*f, body.operators@, r),
            match r {
                Ok(l) => well_allocated(*f, body.operators@, l@),
                Err(e) => rightly_refused(*f, body.operators@, e),
            },
    {
        assert(body.operators.len() == body.operators@.len());
        let mut allocator = Allocator::new(f);
        match allocator.compute_spans_and_deleted_ops(body.operators.as_slice()) {
            Ok(()) => {
                proof {
                    allocations_are_well_allocated(*f, body.operators@);
                }
                Ok(allocator.locations)
            },
            Err(e) => {
                proof {
                    refusals_are_right(*f, body.operators@);
                }
                Err(e)
            },
        }
    }

    /// Allocates slots for the body `body` of the function `f`.
    pub fn compute(f: &FunctionBody, body: &SerializedBody) -> (r: Locations)
        requires
            allocation(*f, body.operators@) is Ok,
        ensures
            allocation(*f, body.operators@) == Ok::<LocationsView, AllocError>(r@),
            well_allocated(*f, body.operators@, r@),
    {
        match Locations::try_compute(f, body) {
            Ok(l) => l,
            Err(_) => vstd::pervasive::unreached(),
        }
    }
}

/// The live ranges of `operators`, in the order in which they begin, or the
/// first pair that is read before anything has written it.
pub fn compute_spans(operators: &[SerializedOperator]) -> (r: Result<Vec<ValueSpan>, AllocError>)
    ensures
        match r {
            Ok(spans) => live_ranges(operators@) == Ok::<Seq<ValueSpan>, AllocError>(spans@)
                && well_ranged(operators@, spans@),
            Err(e) => live_ranges(operators@) == Err::<Seq<ValueSpan>, AllocError>(e)
                && (e matches AllocError::ReadBeforeWrite { value, index } && read_unwritten(
                operators@,
                (value, index),
            )),
        },
{
    assert(operators.len() == operators@.len());
    let f = FunctionBody { locals: Vec::new(), types: Vec::new() };
    let mut allocator = Allocator::new(&f);
    allocator.locations.delete = eliminate(operators);
    match allocator.collect_spans(operators) {
        Ok(()) => {
            proof {
                live_ranges_are_well_ranged(operators@);
            }
            Ok(allocator.starts)
        },
        Err(e) => {
            proof {
                unbuilt_ranges_name_a_bad_read(operators@);
            }
            Err(e)
        },
    }
}

/// The pool of free slots of type `ty` in a map by type tag.
pub open spec fn pool_at(m: Map<u8, Vec<LocalId>>, ty: Type) -> Seq<LocalId> {
    if m.contains_key(ty.tag()) {
        m[ty.tag()]@
    } else {
        Seq::empty()
    }
}

/// Whether `index` maps the key of every range of `spans` to the place of
/// that range, and nothing else.
pub open spec fn indexes(index: Map<u128, usize>, spans: Seq<ValueSpan>) -> bool {
    &&& forall|j: int|
        0 <= j < spans.len() ==> index.contains_key(
            #[trigger] key_code(spans[j].value, spans[j].multi_value_index),
        ) && index[key_code(spans[j].value, spans[j].multi_value_index)] == j
    &&& forall|c: u128| #[trigger]
        index.contains_key(c) ==> index[c] < spans.len() && key_code(
            spans[index[c] as int].value,
            spans[index[c] as int].multi_value_index,
        ) == c
}

/// With such an index, looking a pair up in the index finds its range.
pub proof fn lemma_indexes(index: Map<u128, usize>, spans: Seq<ValueSpan>, v: Value, i: usize)
    requires
        indexes(index, spans),
    ensures
        position_of(spans, (v, i)) == (if index.contains_key(key_code(v, i)) {
            index[key_code(v, i)] as int
        } else {
            -1
        }),
{
    lemma_position_of(spans, (v, i));
    let j = position_of(spans, (v, i));
    if j >= 0 {
        assert(index.contains_key(key_code(spans[j].value, spans[j].multi_value_index)));
    } else if index.contains_key(key_code(v, i)) {
        let q = index[key_code(v, i)] as int;
        lemma_key_code_injective(spans[q].value, spans[q].multi_value_index, v, i);
        assert(spans[q].key() == (v, i));
    }
}

/// A read of component `i` of `v` at `location`.
fn read_one(
    index: &FxHashMap<u128, usize>,
    starts: &mut Vec<ValueSpan>,
    v: Value,
    i: usize,
    location: usize,
) -> (r: Result<(), AllocError>)
    requires
        indexes(index@, old(starts)@),
        location < usize::MAX,
    ensures
        match r {
            Ok(()) => read_pair(old(starts)@, (v, i), location) == Some(final(starts)@) && indexes(
                index@,
                final(starts)@,
            ),
            Err(e) => read_pair(old(starts)@, (v, i), location) is None && e
                == (AllocError::ReadBeforeWrite { value: v, index: i }),
        },
{
    broadcast use group_hash_axioms;

    proof {
        lemma_indexes(index@, starts@, v, i);
    }
    match map_get(index, pack_key(v, i)) {
        Some(j) => {
            let sp = starts[j];
            starts.set(j, ValueSpan { end: location + 1, ..sp });
            assert(indexes(index@, starts@)) by {
                assert forall|q: int| 0 <= q < starts@.len() implies starts@[q].key() == old(
                    starts,
                )@[q].key() by {}
            }
            Ok(())
        },
        None => Err(AllocError::ReadBeforeWrite { value: v, index: i }),
    }
}

/// A write of component `i` of `v` at `location`.
fn write_one(
    index: &mut FxHashMap<u128, usize>,
    starts: &mut Vec<ValueSpan>,
    v: Value,
    i: usize,
    location: usize,
)
    requires
        indexes(old(index)@, old(starts)@),
        location < usize::MAX,
    ensures
        final(starts)@ == write_pair(old(starts)@, (v, i), location),
        indexes(final(index)@, final(starts)@),
{
    broadcast use group_hash_axioms;

    proof {
        lemma_indexes(index@, starts@, v, i);
        lemma_position_of(starts@, (v, i));
    }
    match map_get(index, pack_key(v, i)) {
        Some(j) => {
            let sp = starts[j];
            starts.set(j, ValueSpan { end: location + 1, ..sp });
            assert(indexes(index@, starts@)) by {
                assert forall|q: int| 0 <= q < starts@.len() implies starts@[q].key() == old(
                    starts,
                )@[q].key() by {}
            }
        },
        None => {
            let j = starts.len();
            starts.push(
                ValueSpan { value: v, multi_value_index: i, start: location, end: location + 1 },
            );
            map_insert(index, pack_key(v, i), j);
            assert(indexes(index@, starts@)) by {
                assert forall|q: int| 0 <= q < starts@.len() implies index@.contains_key(
                    #[trigger] key_code(starts@[q].value, starts@[q].multi_value_index),
                ) && index@[key_code(starts@[q].value, starts@[q].multi_value_index)] == q by {
                    if q < j {
                        lemma_key_code_injective(
                            starts@[q].value,
                            starts@[q].multi_value_index,
                            v,
                            i,
                        );
                        assert(old(starts)@[q].key() != (v, i));
                        assert(old(index)@.contains_key(
                            key_code(old(starts)@[q].value, old(starts)@[q].multi_value_index),
                        ));
                    }
                }
                assert forall|c: u128| #[trigger] index@.contains_key(c) implies index@[c]
                    < starts@.len() && key_code(
                    starts@[index@[c] as int].value,
                    starts@[index@[c] as int].multi_value_index,
                ) == c by {
                    if c != key_code(v, i) {
                        assert(old(index)@.contains_key(c));
                    }
                }
            }
        },
    }
}

/// The working state of one allocation.
pub struct Allocator<'a> {
    locations: Locations,
    f: &'a FunctionBody,
    /// For the key of every pair written so far, the place of its range in
    /// `starts`.
    spans: FxHashMap<u128, usize>,
    /// The ranges in the order in which they begin.
    starts: Vec<ValueSpan>,
    /// The ranges in the order in which they end.
    ends: Vec<ValueSpan>,
    /// For the tag of every type, the free slots of that type.
    freelist: FxHashMap<u8, Vec<LocalId>>,
}

impl<'a> Allocator<'a> {
    /// What the sweep has decided so far.
    pub closed spec fn assignment(&self) -> Assignment {
        Assignment {
            free: Map::total(|ty: Type| pool_at(self.freelist@, ty)),
            slots: slot_map(self.locations.locations@),
            new_locals: self.locations.new_locals@,
        }
    }

    /// Whether nothing but the function is known yet.
    pub closed spec fn fresh(&self) -> bool {
        &&& self.locations.locations@ == Map::<u128, LocalId>::empty()
        &&& self.locations.delete@.len() == 0
        &&& self.locations.new_locals@.len() == 0
        &&& self.spans@ == Map::<u128, usize>::empty()
        &&& self.starts@.len() == 0
        &&& self.ends@.len() == 0
        &&& self.freelist@ == Map::<u8, Vec<LocalId>>::empty()
    }

    /// Whether all but the ranges and their index is as in `other`.
    pub closed spec fn same_but_spans(&self, other: &Allocator) -> bool {
        &&& self.f == other.f
        &&& self.locations == other.locations
        &&& self.ends == other.ends
        &&& self.freelist == other.freelist
    }

    /// Whether all but the assignment is as in `other`.
    pub closed spec fn same_but_assignment(&self, other: &Allocator) -> bool {
        &&& self.f == other.f
        &&& self.locations.delete == other.locations.delete
        &&& self.spans == other.spans
        &&& self.starts == other.starts
        &&& self.ends == other.ends
    }

    fn new(f: &'a FunctionBody) -> (r: Allocator<'a>)
        ensures
            r.fresh(),
            r.f == f,
    {
        Allocator {
            locations: Locations {
                locations: FxHashMap::default(),
                delete: Vec::new(),
                new_locals: Vec::new(),
            },
            f,
            freelist: FxHashMap::default(),
            spans: FxHashMap::default(),
            starts: Vec::new(),
            ends: Vec::new(),
        }
    }

    /// Takes in the operator `op` at position `location`: its reads reach
    /// the ranges of their pairs over `location`, its writes do the same or
    /// open a range there.
    fn handle_op(&mut self, location: usize, op: &SerializedOperator) -> (r: Result<
        (),
        AllocError,
    >)
        requires
            indexes(old(self).spans@, old(self).starts@),
            location < usize::MAX,
        ensures
            final(self).same_but_spans(old(self)),
            match r {
                Ok(()) => apply_op(old(self).starts@, *op, location) == Ok::<
                    Seq<ValueSpan>,
                    AllocError,
                >(final(self).starts@) && indexes(final(self).spans@, final(self).starts@),
                Err(e) => apply_op(old(self).starts@, *op, location) == Err::<
                    Seq<ValueSpan>,
                    AllocError,
                >(e),
            },
    {
        match op {
            SerializedOperator::Write(v, i) => {
                proof {
                    reveal_with_fuel(write_pairs, 2);
                }
                write_one(&mut self.spans, &mut self.starts, *v, *i, location);
                Ok(())
            },
            SerializedOperator::Read(v, i) => {
                proof {
                    reveal_with_fuel(read_pairs, 2);
                }
                read_one(&self.spans, &mut self.starts, *v, *i, location)
            },
            SerializedOperator::Other { reads, writes } => {
                let mut k: usize = 0;
                while k < reads.len()
                    invariant
                        k <= reads.len(),
                        location < usize::MAX,
                        self.same_but_spans(old(self)),
                        self.spans == old(self).spans,
                        op.reads() == reads@,
                        indexes(self.spans@, self.starts@),
                        read_pairs(old(self).starts@, reads@, location, k as nat) == Ok::<
                            Seq<ValueSpan>,
                            AllocError,
                        >(self.starts@),
                    decreases reads.len() - k,
                {
                    let pair = reads[k];
                    match read_one(&self.spans, &mut self.starts, pair.0, pair.1, location) {
                        Ok(()) => {},
                        Err(e) => {
                            proof {
                                lemma_reads_err_sticks(
                                    old(self).starts@,
                                    reads@,
                                    location,
                                    (k + 1) as nat,
                                    reads@.len(),
                                );
                            }
                            return Err(e);
                        },
                    }
                    k += 1;
                }
                let ghost mid = self.starts@;
                let mut k: usize = 0;
                while k < writes.len()
                    invariant
                        k <= writes.len(),
                        location < usize::MAX,
                        self.same_but_spans(old(self)),
                        indexes(self.spans@, self.starts@),
                        self.starts@ == write_pairs(mid, writes@, location, k as nat),
                    decreases writes.len() - k,
                {
                    let pair = writes[k];
                    write_one(&mut self.spans, &mut self.starts, pair.0, pair.1, location);
                    k += 1;
                }
                Ok(())
            },
        }
    }

    /// Builds the live ranges of `operators`, leaving out the positions that
    /// are dropped.
    fn collect_spans(&mut self, operators: &[SerializedOperator]) -> (r: Result<(), AllocError>)
        requires
            old(self).starts@.len() == 0,
            old(self).spans@ == Map::<u128, usize>::empty(),
            old(self).locations.delete@ == deleted_positions(operators@),
        ensures
            final(self).same_but_spans(old(self)),
            match r {
                Ok(()) => live_ranges(operators@) == Ok::<Seq<ValueSpan>, AllocError>(
                    final(self).starts@,
                ) && indexes(final(self).spans@, final(self).starts@),
                Err(e) => live_ranges(operators@) == Err::<Seq<ValueSpan>, AllocError>(e),
            },
    {
        let ghost ops = operators@;
        assert(operators.len() == operators@.len());
        proof {
            lemma_scan_ordered(ops, ops.len());
            assert(self.starts@ =~= Seq::empty());
        }
        let mut next_delete: usize = 0;
        let mut index: usize = 0;
        while index < operators.len()
            invariant
                ops == operators@,
                index <= operators.len(),
                next_delete <= self.locations.delete.len(),
                self.same_but_spans(old(self)),
                self.locations.delete@ == deleted_positions(ops),
                forall|a: int, b: int|
                    0 <= a < b < self.locations.delete@.len() ==> self.locations.delete@[a]
                        < self.locations.delete@[b],
                forall|a: int| 0 <= a < next_delete ==> self.locations.delete@[a] < index,
                forall|a: int|
                    next_delete <= a < self.locations.delete@.len() ==> self.locations.delete@[a]
                        >= index,
                indexes(self.spans@, self.starts@),
                spans_upto(ops, index as nat) == Ok::<Seq<ValueSpan>, AllocError>(self.starts@),
            decreases operators.len() - index,
        {
            if next_delete < self.locations.delete.len() && self.locations.delete[next_delete]
                == index {
                assert(is_deleted(ops, index as int));
                next_delete += 1;
            } else {
                assert(!is_deleted(ops, index as int)) by {
                    if is_deleted(ops, index as int) {
                        let k = choose|k: int|
                            0 <= k < deleted_positions(ops).len() && deleted_positions(ops)[k]
                                == index as int;
                        if k > next_delete {
                            assert(self.locations.delete@[next_delete as int]
                                < self.locations.delete@[k]);
                        }
                    }
                }
                match self.handle_op(index, &operators[index]) {
                    Ok(()) => {},
                    Err(e) => {
                        proof {
                            lemma_spans_err_sticks(ops, (index + 1) as nat, ops.len());
                        }
                        return Err(e);
                    },
                }
            }
            index += 1;
        }
        Ok(())
    }

    /// Looks for a range whose pair has no type.
    fn check_types(&self) -> (r: Result<(), AllocError>)
        ensures
            match r {
                Ok(()) => first_untyped(*self.f, self.starts@, self.starts@.len()) is None,
                Err(e) => match first_untyped(*self.f, self.starts@, self.starts@.len()) {
                    Some(k) => e == (AllocError::UntypedValue { value: k.0, index: k.1 }),
                    None => false,
                },
            },
    {
        let mut j: usize = 0;
        while j < self.starts.len()
            invariant
                j <= self.starts.len(),
                first_untyped(*self.f, self.starts@, j as nat) is None,
            decreases self.starts.len() - j,
        {
            let sp = self.starts[j];
            match self.f.lookup_type(sp.value, sp.multi_value_index) {
                Some(_) => {},
                None => {
                    proof {
                        lemma_untyped_sticks(
                            *self.f,
                            self.starts@,
                            (j + 1) as nat,
                            self.starts@.len(),
                        );
                    }
                    return Err(
                        AllocError::UntypedValue { value: sp.value, index: sp.multi_value_index },
                    );
                },
            }
            j += 1;
        }
        Ok(())
    }

    /// The range `span` has ended: its slot goes back to the pool of its
    /// type.
    fn handle_end(&mut self, span: &ValueSpan)
        requires
            old(self).assignment().slots.contains_key(span.key()),
            old(self).f.has_type(span.value, span.multi_value_index),
        ensures
            final(self).same_but_assignment(old(self)),
            final(self).assignment() == end_event(*old(self).f, old(self).assignment(), *span),
    {
        broadcast use group_hash_axioms;

        let local = map_get(
            &self.locations.locations,
            pack_key(span.value, span.multi_value_index),
        ).unwrap();
        let ty = self.f.types[span.value.index()][span.multi_value_index];
        let code = ty.code();
        let mut pool = match map_remove(&mut self.freelist, code) {
            Some(p) => p,
            None => Vec::new(),
        };
        pool.push(local);
        map_insert(&mut self.freelist, code, pool);
        proof {
            let before = old(self).assignment();
            let after = end_event(*old(self).f, before, *span);
            assert forall|t: Type| #[trigger] self.assignment().free[t] == after.free[t] by {
                Type::lemma_tag_injective(t, ty);
            }
            assert(self.assignment() =~= after);
        }
    }

    /// The range `span` begins: its pair takes the slot freed last among
    /// those of its type, or a new slot where none is free.
    fn handle_start(&mut self, span: &ValueSpan) -> (r: Result<(), AllocError>)
        requires
            old(self).f.has_type(span.value, span.multi_value_index),
        ensures
            final(self).same_but_assignment(old(self)),
            match r {
                Ok(()) => start_event(*old(self).f, old(self).assignment(), *span) == Some(
                    final(self).assignment(),
                ),
                Err(e) => e == AllocError::TooManyLocals && start_event(
                    *old(self).f,
                    old(self).assignment(),
                    *span,
                ) is None,
            },
    {
        broadcast use group_hash_axioms;

        let ghost before = old(self).assignment();
        let ty = self.f.types[span.value.index()][span.multi_value_index];
        let code = ty.code();
        let key = pack_key(span.value, span.multi_value_index);
        proof {
            assert forall|k: (Value, usize)|
                key_code(k.0, k.1) == key <==> k == span.key() by {
                lemma_key_code_injective(k.0, k.1, span.value, span.multi_value_index);
            }
        }
        match map_remove(&mut self.freelist, code) {
            Some(mut pool) => {
                if pool.len() > 0 {
                    let local = pool.pop().unwrap();
                    map_insert(&mut self.freelist, code, pool);
                    map_insert(&mut self.locations.locations, key, local);
                    proof {
                        let after = start_event(*old(self).f, before, *span)->0;
                        assert forall|t: Type| #[trigger]
                            self.assignment().free[t] == after.free[t] by {
                            Type::lemma_tag_injective(t, ty);
                        }
                        assert(self.assignment().slots =~= after.slots);
                        assert(self.assignment() =~= after);
                    }
                    return Ok(());
                }
            },
            None => {},
        }
        let base = self.f.locals.len();
        let made = self.locations.new_locals.len();
        if base > u32::MAX as usize || made > u32::MAX as usize - base {
            return Err(AllocError::TooManyLocals);
        }
        let new_local = (base + made) as u32;
        self.locations.new_locals.push(ty);
        map_insert(&mut self.locations.locations, key, new_local);
        proof {
            let after = start_event(*old(self).f, before, *span)->0;
            assert forall|t: Type| #[trigger] self.assignment().free[t] == after.free[t] by {
                Type::lemma_tag_injective(t, ty);
            }
            assert(self.assignment().slots =~= after.slots);
            assert(self.assignment() =~= after);
        }
        Ok(())
    }

    /// Walks the two orders of the ranges and gives every pair its slot.
    fn assign_slots(&mut self) -> (r: Result<(), AllocError>)
        requires
            sweepable(old(self).starts@, old(self).ends@),
            old(self).assignment() == no_assignment(),
            first_untyped(*old(self).f, old(self).starts@, old(self).starts@.len()) is None,
        ensures
            final(self).same_but_assignment(old(self)),
            match r {
                Ok(()) => sweep(
                    *old(self).f,
                    old(self).starts@,
                    old(self).ends@,
                    0,
                    0,
                    no_assignment(),
                ) == Some(final(self).assignment()),
                Err(e) => e == AllocError::TooManyLocals && sweep(
                    *old(self).f,
                    old(self).starts@,
                    old(self).ends@,
                    0,
                    0,
                    no_assignment(),
                ) is None,
            },
    {
        let ghost f = *self.f;
        let ghost starts = self.starts@;
        let ghost ends = self.ends@;
        proof {
            assert forall|j: int| 0 <= j < starts.len() implies f.has_type(
                (#[trigger] starts[j]).value,
                starts[j].multi_value_index,
            ) by {
                lemma_all_typed(f, starts, starts.len(), j);
            }
        }
        let mut start_idx: usize = 0;
        let mut end_idx: usize = 0;
        while start_idx < self.starts.len() || end_idx < self.ends.len()
            invariant
                self.same_but_assignment(old(self)),
                f == *self.f,
                starts == self.starts@,
                ends == self.ends@,
                sweepable(starts, ends),
                forall|j: int|
                    0 <= j < starts.len() ==> f.has_type(
                        (#[trigger] starts[j]).value,
                        starts[j].multi_value_index,
                    ),
                in_step(starts, ends, start_idx as int, end_idx as int, self.assignment()),
                sweep(f, starts, ends, start_idx as int, end_idx as int, self.assignment())
                    == sweep(f, starts, ends, 0, 0, no_assignment()),
            decreases events_left(starts, ends, start_idx as int, end_idx as int),
        {
            let ghost a = self.assignment();
            let end_next = if start_idx < self.starts.len() && end_idx < self.ends.len() {
                self.ends[end_idx].end <= self.starts[start_idx].start
            } else {
                start_idx >= self.starts.len()
            };
            assert(end_next == ends_first(starts, ends, start_idx as int, end_idx as int));
            if end_next {
                let span = self.ends[end_idx];
                proof {
                    lemma_ended_has_slot(starts, ends, start_idx as int, end_idx as int, a);
                    lemma_end_in_starts(starts, ends, end_idx as int);
                    lemma_step_end(f, starts, ends, start_idx as int, end_idx as int, a);
                }
                end_idx += 1;
                self.handle_end(&span);
            } else {
                let span = self.starts[start_idx];
                start_idx += 1;
                match self.handle_start(&span) {
                    Ok(()) => {
                        proof {
                            lemma_step_start(f, starts, ends, start_idx - 1, end_idx as int, a);
                        }
                    },
                    Err(e) => {
                        return Err(e);
                    },
                }
            }
        }
        Ok(())
    }

    /// Runs the whole allocation over `operators`.
    fn compute_spans_and_deleted_ops(&mut self, operators: &[SerializedOperator]) -> (r: Result<
        (),
        AllocError,
    >)
        requires
            old(self).fresh(),
        ensures
            match r {
                Ok(()) => allocation(*old(self).f, operators@) == Ok::<LocationsView, AllocError>(
                    final(self).locations@,
                ),
                Err(e) => allocation(*old(self).f, operators@) == Err::<LocationsView, AllocError>(
                    e,
                ),
            },
    {
        assert(operators.len() == operators@.len());

        // Drop the runs of writes and reads that move nothing.
        self.locations.delete = eliminate(operators);

        // For each operator that is kept, take in its reads and writes.
        match self.collect_spans(operators) {
            Ok(()) => {},
            Err(e) => {
                return Err(e);
            },
        }
        match self.check_types() {
            Ok(()) => {},
            Err(e) => {
                return Err(e);
            },
        }

        // The ranges are in order of their starts; put them in order of
        // their ends as well.
        proof {
            lemma_spans_tracked(operators@, operators@.len());
        }
        self.ends = sort_by_end(&self.starts);
        proof {
            let ops = operators@;
            let spans = self.starts@;
            assert(follows(ops, spans, ops.len() as int, 0));
            lemma_by_end(spans);
            assert(self.assignment() =~= no_assignment());
        }

        // Finally, assign slots to the pairs.
        self.assign_slots()
    }
}

/// Once a read has failed, the reads behind it change nothing.
proof fn lemma_reads_err_sticks(
    spans: Seq<ValueSpan>,
    reads: Seq<(Value, usize)>,
    pos: usize,
    m: nat,
    n: nat,
)
    requires
        m <= n,
        read_pairs(spans, reads, pos, m) is Err,
    ensures
        read_pairs(spans, reads, pos, n) == read_pairs(spans, reads, pos, m),
    decreases n,
{
    if m < n {
        lemma_reads_err_sticks(spans, reads, pos, m, (n - 1) as nat);
    }
}

/// Once a read has failed, the operators behind it change nothing.
proof fn lemma_spans_err_sticks(ops: Seq<SerializedOperator>, m: nat, n: nat)
    requires
        m <= n,
        spans_upto(ops, m) is Err,
    ensures
        spans_upto(ops, n) == spans_upto(ops, m),
    decreases n,
{
    if m < n {
        lemma_spans_err_sticks(ops, m, (n - 1) as nat);
    }
}

/// The first pair without a type stays the first.
proof fn lemma_untyped_sticks(f: FunctionBody, spans: Seq<ValueSpan>, m: nat, n: nat)
    requires
        m <= n,
        first_untyped(f, spans, m) is Some,
    ensures
        first_untyped(f, spans, n) == first_untyped(f, spans, m),
    decreases n,
{
    if m < n {
        lemma_untyped_sticks(f, spans, m, (n - 1) as nat);
    }
}

/// Where no pair is without a type, every pair has one.
pub proof fn lemma_all_typed(f: FunctionBody, spans: Seq<ValueSpan>, n: nat, j: int)
    requires
        first_untyped(f, spans, n) is None,
        0 <= j < n,
    ensures
        f.has_type(spans[j].value, spans[j].multi_value_index),
    decreases n,
{
    if j < n - 1 {
        lemma_all_typed(f, spans, (n - 1) as nat, j);
    }
}

} // verus!
