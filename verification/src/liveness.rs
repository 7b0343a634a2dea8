//! Live ranges.
//!
//! Walking the kept operators in order, every pair gets one range: it begins
//! at the first write of the pair and ends one past the last operator that
//! reads or writes it.  The ranges are kept in the order in which they begin.

use crate::eliminate::is_deleted;
use crate::error::AllocError;
use crate::ir::SerializedOperator;
use crate::ir::Value;
use vstd::prelude::*;

verus! {

/// The live range of one component of one value: the stream positions
/// `start`, .., `end - 1`.
#[derive(Clone, Copy, Debug, PartialEq, Eq)]
pub struct ValueSpan {
    pub value: Value,
    pub multi_value_index: usize,
    /// First position at which the pair is live.
    pub start: usize,
    /// First position at which the pair is no longer live.
    pub end: usize,
}

impl ValueSpan {
    /// The pair this range belongs to.
    pub open spec fn key(&self) -> (Value, usize) {
        (self.value, self.multi_value_index)
    }

    /// A range holds at least one position.
    pub open spec fn well_formed(&self) -> bool {
        self.start < self.end
    }

    /// Whether the pair is live at position `p`.
    pub open spec fn live_at(&self, p: int) -> bool {
        self.start <= p < self.end
    }

    /// Whether two ranges share a position.
    pub open spec fn overlaps(&self, other: ValueSpan) -> bool {
        self.start < other.end && other.start < self.end
    }

    /// The number of positions in the range.
    pub fn len(&self) -> (r: usize)
        requires
            self.well_formed(),
        ensures
            r == self.end - self.start,
            r >= 1,
    {
        self.end - self.start
    }
}

impl Default for ValueSpan {
    fn default() -> (sp: ValueSpan)
        ensures
            sp == (ValueSpan { value: Value(0), multi_value_index: 0, start: 0, end: 0 }),
    {
        ValueSpan { value: Value(0), multi_value_index: 0, start: 0, end: 0 }
    }
}

/// The index in `spans` of the range of `key`, or -1 where it has none.
pub open spec fn position_of(spans: Seq<ValueSpan>, key: (Value, usize)) -> int
    decreases spans.len(),
{
    if spans.len() == 0 {
        -1
    } else if spans.last().key() == key {
        spans.len() - 1
    } else {
        position_of(spans.drop_last(), key)
    }
}

/// `spans` with range `j` reaching over position `pos`.
pub open spec fn extend(spans: Seq<ValueSpan>, j: int, pos: usize) -> Seq<ValueSpan> {
    spans.update(j, ValueSpan { end: (pos + 1) as usize, ..spans[j] })
}

/// The range that a first write at `pos` opens.
pub open spec fn opened(key: (Value, usize), pos: usize) -> ValueSpan {
    ValueSpan { value: key.0, multi_value_index: key.1, start: pos, end: (pos + 1) as usize }
}

/// The ranges after a read of `key` at `pos`, or `None` where `key` has no
/// range yet.
pub open spec fn read_pair(spans: Seq<ValueSpan>, key: (Value, usize), pos: usize) -> Option<
    Seq<ValueSpan>,
> {
    let j = position_of(spans, key);
    if j < 0 {
        None
    } else {
        Some(extend(spans, j, pos))
    }
}

/// The ranges after a write of `key` at `pos`.
pub open spec fn write_pair(spans: Seq<ValueSpan>, key: (Value, usize), pos: usize) -> Seq<
    ValueSpan,
> {
    let j = position_of(spans, key);
    if j < 0 {
        spans.push(opened(key, pos))
    } else {
        extend(spans, j, pos)
    }
}

/// The ranges after the first `n` of the reads `reads`, all at `pos`.
pub open spec fn read_pairs(
    spans: Seq<ValueSpan>,
    reads: Seq<(Value, usize)>,
    pos: usize,
    n: nat,
) -> Result<Seq<ValueSpan>, AllocError>
    decreases n,
{
    if n == 0 {
        Ok(spans)
    } else {
        match read_pairs(spans, reads, pos, (n - 1) as nat) {
            Err(e) => Err(e),
            Ok(s) => match read_pair(s, reads[n - 1], pos) {
                None => Err(
                    AllocError::ReadBeforeWrite { value: reads[n - 1].0, index: reads[n - 1].1 },
                ),
                Some(t) => Ok(t),
            },
        }
    }
}

/// The ranges after the first `n` of the writes `writes`, all at `pos`.
pub open spec fn write_pairs(
    spans: Seq<ValueSpan>,
    writes: Seq<(Value, usize)>,
    pos: usize,
    n: nat,
) -> Seq<ValueSpan>
    decreases n,
{
    if n == 0 {
        spans
    } else {
        write_pair(write_pairs(spans, writes, pos, (n - 1) as nat), writes[n - 1], pos)
    }
}

/// The ranges after operator `op` at `pos`: its reads first, then its writes.
pub open spec fn apply_op(spans: Seq<ValueSpan>, op: SerializedOperator, pos: usize) -> Result<
    Seq<ValueSpan>,
    AllocError,
> {
    match read_pairs(spans, op.reads(), pos, op.reads().len()) {
        Err(e) => Err(e),
        Ok(s) => Ok(write_pairs(s, op.writes(), pos, op.writes().len())),
    }
}

/// The ranges after the first `n` operators of `ops`, dropped ones left out.
/// The first read of a pair that nothing has written stops the walk.
pub open spec fn spans_upto(ops: Seq<SerializedOperator>, n: nat) -> Result<
    Seq<ValueSpan>,
    AllocError,
>
    decreases n,
{
    if n == 0 {
        Ok(Seq::empty())
    } else {
        match spans_upto(ops, (n - 1) as nat) {
            Err(e) => Err(e),
            Ok(s) => if is_deleted(ops, n - 1) {
                Ok(s)
            } else {
                apply_op(s, ops[n - 1], (n - 1) as usize)
            },
        }
    }
}

/// The live ranges of `ops`, in the order in which they begin.
pub open spec fn live_ranges(ops: Seq<SerializedOperator>) -> Result<Seq<ValueSpan>, AllocError> {
    spans_upto(ops, ops.len())
}

/// No pair has two ranges.
pub open spec fn distinct_keys(spans: Seq<ValueSpan>) -> bool {
    forall|a: int, b: int| 0 <= a < b < spans.len() ==> spans[a].key() != spans[b].key()
}

/// The ranges begin in ascending order.
pub open spec fn ascending_starts(spans: Seq<ValueSpan>) -> bool {
    forall|a: int, b: int| 0 <= a <= b < spans.len() ==> spans[a].start <= spans[b].start
}

/// Every range holds at least one position.
pub open spec fn all_well_formed(spans: Seq<ValueSpan>) -> bool {
    forall|j: int| 0 <= j < spans.len() ==> (#[trigger] spans[j]).well_formed()
}

/// Whether the operator at `p` is kept and writes `key`.
pub open spec fn writes_pair(ops: Seq<SerializedOperator>, p: int, key: (Value, usize)) -> bool {
    0 <= p < ops.len() && !is_deleted(ops, p) && ops[p].writes().contains(key)
}

/// Whether the operator at `p` is kept and reads `key`.
pub open spec fn reads_pair(ops: Seq<SerializedOperator>, p: int, key: (Value, usize)) -> bool {
    0 <= p < ops.len() && !is_deleted(ops, p) && ops[p].reads().contains(key)
}

/// Whether a kept operator before position `n` writes `key`.
pub open spec fn written_before(ops: Seq<SerializedOperator>, key: (Value, usize), n: int) -> bool {
    exists|p: int| 0 <= p < n && #[trigger] writes_pair(ops, p, key)
}

/// Whether `p` is the first position at which a kept operator writes `key`.
pub open spec fn first_write(ops: Seq<SerializedOperator>, key: (Value, usize), p: int) -> bool {
    writes_pair(ops, p, key) && !written_before(ops, key, p)
}

/// Whether some kept operator reads `key` with no kept write of it before.
pub open spec fn read_unwritten(ops: Seq<SerializedOperator>, key: (Value, usize)) -> bool {
    exists|p: int| #[trigger] reads_pair(ops, p, key) && !written_before(ops, key, p)
}

/// Whether every read of a kept operator has a kept write of the same pair
/// somewhere before it.
pub open spec fn reads_follow_writes(ops: Seq<SerializedOperator>) -> bool {
    forall|p: int, key: (Value, usize)| #[trigger]
        reads_pair(ops, p, key) ==> written_before(ops, key, p)
}

/// What `position_of` finds: nothing only where no range has the key, and
/// otherwise a range with the key.
pub proof fn lemma_position_of(spans: Seq<ValueSpan>, key: (Value, usize))
    ensures
        -1 <= position_of(spans, key) < spans.len(),
        position_of(spans, key) >= 0 ==> spans[position_of(spans, key)].key() == key,
        position_of(spans, key) < 0 ==> forall|j: int|
            0 <= j < spans.len() ==> (#[trigger] spans[j]).key() != key,
    decreases spans.len(),
{
    if spans.len() > 0 && spans.last().key() != key {
        lemma_position_of(spans.drop_last(), key);
        if position_of(spans, key) < 0 {
            assert forall|j: int| 0 <= j < spans.len() implies (#[trigger] spans[j]).key()
                != key by {
                if j < spans.len() - 1 {
                    assert(spans.drop_last()[j] == spans[j]);
                }
            }
        }
    }
}

/// Where no pair has two ranges, `position_of` finds the one range of a key.
pub proof fn lemma_position_of_unique(spans: Seq<ValueSpan>, j: int)
    requires
        distinct_keys(spans),
        0 <= j < spans.len(),
    ensures
        position_of(spans, spans[j].key()) == j,
{
    lemma_position_of(spans, spans[j].key());
}

/// `position_of` looks at the keys only.
pub proof fn lemma_position_of_keys(s: Seq<ValueSpan>, t: Seq<ValueSpan>, key: (Value, usize))
    requires
        s.len() == t.len(),
        forall|j: int| 0 <= j < s.len() ==> (#[trigger] s[j]).key() == t[j].key(),
    ensures
        position_of(s, key) == position_of(t, key),
    decreases s.len(),
{
    if s.len() > 0 {
        assert(s.last().key() == t.last().key());
        assert forall|j: int| 0 <= j < s.drop_last().len() implies (#[trigger] s.drop_last()[
            j
        ]).key() == t.drop_last()[j].key() by {
            assert(s[j].key() == t[j].key());
        }
        lemma_position_of_keys(s.drop_last(), t.drop_last(), key);
    }
}

/// `position_of` after one more range.
pub proof fn lemma_position_of_push(spans: Seq<ValueSpan>, sp: ValueSpan, key: (Value, usize))
    ensures
        position_of(spans.push(sp), key) == (if sp.key() == key {
            spans.len() as int
        } else {
            position_of(spans, key)
        }),
{
    assert(spans.push(sp).drop_last() =~= spans);
}

} // verus!
