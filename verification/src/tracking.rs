//! Why the live ranges are what they should be.
//!
//! The walk that builds the ranges keeps a statement true of the ranges it
//! holds when it stands inside the writes of the operator at `pos`, with `w`
//! of them done: [`follows`].  From it follows all that the rest of the crate
//! relies on.

use crate::eliminate::is_deleted;
use crate::error::AllocError;
use crate::ir::SerializedOperator;
use crate::ir::Value;
use crate::liveness::ascending_starts;
use crate::liveness::distinct_keys;
use crate::liveness::extend;
use crate::liveness::lemma_position_of;
use crate::liveness::lemma_position_of_keys;
use crate::liveness::lemma_position_of_push;
use crate::liveness::opened;
use crate::liveness::position_of;
use crate::liveness::read_pairs;
use crate::liveness::reads_pair;
use crate::liveness::spans_upto;
use crate::liveness::write_pair;
use crate::liveness::write_pairs;
use crate::liveness::writes_pair;
use crate::liveness::written_before;
use crate::liveness::ValueSpan;
use vstd::prelude::*;

verus! {

/// Whether `key` is written by a kept operator before `pos`, or by one of the
/// first `w` writes of the kept operator at `pos`.
pub open spec fn written_by(ops: Seq<SerializedOperator>, key: (Value, usize), pos: int, w: int) -> bool {
    written_before(ops, key, pos) || (0 <= pos < ops.len() && !is_deleted(ops, pos) && exists|
        k: int,
    |
        0 <= k < w && k < ops[pos].writes().len() && #[trigger] ops[pos].writes()[k] == key)
}

/// Whether `sp` begins at the first write of its pair, as far as the walk has
/// come.
pub open spec fn begins_at(ops: Seq<SerializedOperator>, sp: ValueSpan, pos: int, w: int) -> bool {
    &&& sp.start <= pos
    &&& sp.start < ops.len()
    &&& !is_deleted(ops, sp.start as int)
    &&& !written_before(ops, sp.key(), sp.start as int)
    &&& if sp.start < pos {
        ops[sp.start as int].writes().contains(sp.key())
    } else {
        exists|k: int|
            0 <= k < w && k < ops[pos].writes().len() && #[trigger] ops[pos].writes()[k]
                == sp.key()
    }
}

/// What holds of the ranges `spans` built from the operators before `pos`,
/// the reads at `pos` and its first `w` writes.
pub open spec fn follows(ops: Seq<SerializedOperator>, spans: Seq<ValueSpan>, pos: int, w: int) -> bool {
    &&& distinct_keys(spans)
    &&& ascending_starts(spans)
    &&& forall|j: int|
        0 <= j < spans.len() ==> (#[trigger] spans[j]).start < spans[j].end && spans[j].end <= pos
            + 1
    &&& forall|j: int| 0 <= j < spans.len() ==> begins_at(ops, #[trigger] spans[j], pos, w)
    &&& forall|key: (Value, usize)| #[trigger]
        position_of(spans, key) >= 0 <==> written_by(ops, key, pos, w)
}

/// Reaching a range over `pos` keeps the statement.
proof fn lemma_track_extend(
    ops: Seq<SerializedOperator>,
    spans: Seq<ValueSpan>,
    pos: usize,
    w: int,
    j: int,
)
    requires
        follows(ops, spans, pos as int, w),
        0 <= j < spans.len(),
        pos < usize::MAX,
    ensures
        follows(ops, extend(spans, j, pos), pos as int, w),
{
    let t = extend(spans, j, pos);
    assert forall|a: int| 0 <= a < spans.len() implies (#[trigger] spans[a]).key() == t[a].key()
        && spans[a].start == t[a].start by {}
    assert forall|key: (Value, usize)| #[trigger]
        position_of(t, key) >= 0 <==> written_by(ops, key, pos as int, w) by {
        lemma_position_of_keys(spans, t, key);
    }
    assert forall|a: int| 0 <= a < t.len() implies begins_at(ops, #[trigger] t[a], pos as int, w) by {
        assert(begins_at(ops, spans[a], pos as int, w));
    }
    assert forall|a: int| 0 <= a < t.len() implies (#[trigger] t[a]).start < t[a].end && t[a].end
        <= pos + 1 by {
        assert(begins_at(ops, spans[a], pos as int, w));
        assert(spans[a].start < spans[a].end);
    }
    assert(distinct_keys(t)) by {
        assert forall|a: int, b: int| 0 <= a < b < t.len() implies t[a].key() != t[b].key() by {
            assert(spans[a].key() != spans[b].key());
        }
    }
    assert(ascending_starts(t)) by {
        assert forall|a: int, b: int| 0 <= a <= b < t.len() implies t[a].start <= t[b].start by {
            assert(spans[a].start <= spans[b].start);
        }
    }
}

/// The reads of one operator keep the statement.
pub proof fn lemma_track_reads(
    ops: Seq<SerializedOperator>,
    spans: Seq<ValueSpan>,
    reads: Seq<(Value, usize)>,
    pos: usize,
    n: nat,
)
    requires
        follows(ops, spans, pos as int, 0),
        pos < usize::MAX,
        read_pairs(spans, reads, pos, n) is Ok,
    ensures
        follows(ops, read_pairs(spans, reads, pos, n)->Ok_0, pos as int, 0),
    decreases n,
{
    if n > 0 {
        lemma_track_reads(ops, spans, reads, pos, (n - 1) as nat);
        let s = read_pairs(spans, reads, pos, (n - 1) as nat)->Ok_0;
        let j = position_of(s, reads[n - 1]);
        lemma_position_of(s, reads[n - 1]);
        lemma_track_extend(ops, s, pos, 0, j);
    }
}

/// One more write of the operator at `pos` keeps the statement.
proof fn lemma_track_write(ops: Seq<SerializedOperator>, spans: Seq<ValueSpan>, pos: usize, w: int)
    requires
        follows(ops, spans, pos as int, w),
        pos < ops.len() <= usize::MAX,
        !is_deleted(ops, pos as int),
        0 <= w < ops[pos as int].writes().len(),
    ensures
        follows(ops, write_pair(spans, ops[pos as int].writes()[w], pos), pos as int, w + 1),
{
    let key = ops[pos as int].writes()[w];
    let j = position_of(spans, key);
    lemma_position_of(spans, key);
    assert(written_by(ops, key, pos as int, w + 1));
    assert forall|k2: (Value, usize)|
        written_by(ops, k2, pos as int, w + 1) <==> (k2 == key || written_by(
            ops,
            k2,
            pos as int,
            w,
        )) by {
        if written_by(ops, k2, pos as int, w + 1) && !written_before(ops, k2, pos as int) {
            let k = choose|k: int|
                0 <= k < w + 1 && k < ops[pos as int].writes().len() && #[trigger] ops[pos as int].writes()[k]
                    == k2;
            if k < w {
                assert(written_by(ops, k2, pos as int, w));
            }
        }
    }
    if j >= 0 {
        lemma_track_extend(ops, spans, pos, w, j);
        let t = extend(spans, j, pos);
        assert forall|a: int| 0 <= a < t.len() implies begins_at(
            ops,
            #[trigger] t[a],
            pos as int,
            w + 1,
        ) by {
            assert(begins_at(ops, t[a], pos as int, w));
        }
        assert forall|k2: (Value, usize)| #[trigger]
            position_of(t, k2) >= 0 <==> written_by(ops, k2, pos as int, w + 1) by {
            assert(position_of(t, k2) >= 0 <==> written_by(ops, k2, pos as int, w));
            assert(position_of(spans, key) >= 0 <==> written_by(ops, key, pos as int, w));
            lemma_position_of_keys(spans, t, key);
        }
    } else {
        let sp = opened(key, pos);
        let t = spans.push(sp);
        assert(position_of(spans, key) >= 0 <==> written_by(ops, key, pos as int, w));
        assert(!written_before(ops, key, pos as int));
        assert(begins_at(ops, sp, pos as int, w + 1));
        assert forall|a: int| 0 <= a < t.len() implies begins_at(
            ops,
            #[trigger] t[a],
            pos as int,
            w + 1,
        ) by {
            if a < spans.len() {
                assert(begins_at(ops, spans[a], pos as int, w));
            }
        }
        assert forall|a: int| 0 <= a < t.len() implies (#[trigger] t[a]).start < t[a].end
            && t[a].end <= pos + 1 by {
            if a < spans.len() {
                assert(spans[a].start < spans[a].end);
            }
        }
        assert(distinct_keys(t)) by {
            assert forall|a: int, b: int| 0 <= a < b < t.len() implies t[a].key() != t[b].key() by {
                if b < spans.len() {
                    assert(spans[a].key() != spans[b].key());
                } else {
                    assert(spans[a].key() != key);
                }
            }
        }
        assert(ascending_starts(t)) by {
            assert forall|a: int, b: int| 0 <= a <= b < t.len() implies t[a].start
                <= t[b].start by {
                if b < spans.len() {
                    assert(spans[a].start <= spans[b].start);
                } else if a < spans.len() {
                    assert(begins_at(ops, spans[a], pos as int, w));
                }
            }
        }
        assert forall|k2: (Value, usize)| #[trigger]
            position_of(t, k2) >= 0 <==> written_by(ops, k2, pos as int, w + 1) by {
            lemma_position_of_push(spans, sp, k2);
            lemma_position_of(spans, k2);
            assert(position_of(spans, k2) >= 0 <==> written_by(ops, k2, pos as int, w));
        }
    }
}

/// The first `n` writes of the operator at `pos` keep the statement.
pub proof fn lemma_track_writes(ops: Seq<SerializedOperator>, spans: Seq<ValueSpan>, pos: usize, n: nat)
    requires
        follows(ops, spans, pos as int, 0),
        pos < ops.len() <= usize::MAX,
        !is_deleted(ops, pos as int),
        n <= ops[pos as int].writes().len(),
    ensures
        follows(ops, write_pairs(spans, ops[pos as int].writes(), pos, n), pos as int, n as int),
    decreases n,
{
    if n > 0 {
        lemma_track_writes(ops, spans, pos, (n - 1) as nat);
        lemma_track_write(
            ops,
            write_pairs(spans, ops[pos as int].writes(), pos, (n - 1) as nat),
            pos,
            n - 1,
        );
    }
}

/// Past the operator at `pos` the statement holds for the next position.
proof fn lemma_track_next(ops: Seq<SerializedOperator>, spans: Seq<ValueSpan>, pos: int, w: int)
    requires
        0 <= pos < ops.len(),
        follows(ops, spans, pos, w),
        is_deleted(ops, pos) || w == ops[pos].writes().len(),
    ensures
        follows(ops, spans, pos + 1, 0),
{
    assert forall|key: (Value, usize)|
        written_by(ops, key, pos, w) <==> written_by(ops, key, pos + 1, 0) by {
        if written_by(ops, key, pos, w) {
            if !written_before(ops, key, pos) {
                assert(writes_pair(ops, pos, key));
            } else {
                let p = choose|p: int| 0 <= p < pos && #[trigger] writes_pair(ops, p, key);
                assert(writes_pair(ops, p, key));
            }
            assert(written_before(ops, key, pos + 1));
        }
        if written_by(ops, key, pos + 1, 0) {
            let p = choose|p: int| 0 <= p < pos + 1 && #[trigger] writes_pair(ops, p, key);
            if p < pos {
                assert(written_before(ops, key, pos));
            } else {
                let k = choose|k: int|
                    0 <= k < ops[pos].writes().len() && ops[pos].writes()[k] == key;
                assert(ops[pos].writes()[k] == key);
            }
        }
    }
    assert forall|j: int| 0 <= j < spans.len() implies begins_at(
        ops,
        #[trigger] spans[j],
        pos + 1,
        0,
    ) by {
        assert(begins_at(ops, spans[j], pos, w));
        if spans[j].start == pos {
            let k = choose|k: int|
                0 <= k < w && k < ops[pos].writes().len() && #[trigger] ops[pos].writes()[k]
                    == spans[j].key();
            assert(ops[pos].writes()[k] == spans[j].key());
        }
    }
    assert forall|key: (Value, usize)| #[trigger]
        position_of(spans, key) >= 0 <==> written_by(ops, key, pos + 1, 0) by {
        assert(position_of(spans, key) >= 0 <==> written_by(ops, key, pos, w));
    }
}

/// The statement holds of the ranges built from any prefix of the stream.
pub proof fn lemma_spans_tracked(ops: Seq<SerializedOperator>, n: nat)
    requires
        n <= ops.len() <= usize::MAX,
        spans_upto(ops, n) is Ok,
    ensures
        follows(ops, spans_upto(ops, n)->Ok_0, n as int, 0),
    decreases n,
{
    if n == 0 {
        let e = Seq::<ValueSpan>::empty();
        assert forall|key: (Value, usize)| #[trigger]
            position_of(e, key) >= 0 <==> written_by(ops, key, 0, 0) by {}
    } else {
        let pos = (n - 1) as usize;
        lemma_spans_tracked(ops, (n - 1) as nat);
        let s = spans_upto(ops, (n - 1) as nat)->Ok_0;
        if is_deleted(ops, n - 1) {
            lemma_track_next(ops, s, n - 1, 0);
        } else {
            let op = ops[n - 1];
            lemma_track_reads(ops, s, op.reads(), pos, op.reads().len());
            let r = read_pairs(s, op.reads(), pos, op.reads().len())->Ok_0;
            lemma_track_writes(ops, r, pos, op.writes().len());
            lemma_track_next(
                ops,
                write_pairs(r, op.writes(), pos, op.writes().len()),
                n - 1,
                op.writes().len() as int,
            );
        }
    }
}

/// Whether every read of a kept operator before position `n` has a kept
/// write of the same pair somewhere before it.
pub open spec fn reads_follow_writes_upto(ops: Seq<SerializedOperator>, n: int) -> bool {
    forall|p: int, key: (Value, usize)|
        p < n && #[trigger] reads_pair(ops, p, key) ==> written_before(ops, key, p)
}

/// Whether `e` names a pair that a kept operator before position `n` reads
/// with no kept write before it.
pub open spec fn names_bad_read(ops: Seq<SerializedOperator>, n: int, e: AllocError) -> bool {
    exists|p: int, key: (Value, usize)|
        p < n && #[trigger] reads_pair(ops, p, key) && !written_before(ops, key, p) && e == (
        AllocError::ReadBeforeWrite { value: key.0, index: key.1 })
}

/// The reads of one operator go through exactly where each pair read has
/// been written before, and the error names the first that has not.
proof fn lemma_reads_ok_iff(
    ops: Seq<SerializedOperator>,
    spans: Seq<ValueSpan>,
    reads: Seq<(Value, usize)>,
    pos: usize,
    m: nat,
)
    requires
        follows(ops, spans, pos as int, 0),
        pos < usize::MAX,
        m <= reads.len(),
    ensures
        read_pairs(spans, reads, pos, m) is Ok <==> forall|k: int|
            0 <= k < m ==> written_before(ops, #[trigger] reads[k], pos as int),
        read_pairs(spans, reads, pos, m) matches Err(e) ==> exists|k: int|
            0 <= k < m && !written_before(ops, #[trigger] reads[k], pos as int) && e == (
            AllocError::ReadBeforeWrite { value: reads[k].0, index: reads[k].1 }),
    decreases m,
{
    if m > 0 {
        lemma_reads_ok_iff(ops, spans, reads, pos, (m - 1) as nat);
        if read_pairs(spans, reads, pos, (m - 1) as nat) is Ok {
            lemma_track_reads(ops, spans, reads, pos, (m - 1) as nat);
            let s = read_pairs(spans, reads, pos, (m - 1) as nat)->Ok_0;
            assert(position_of(s, reads[m - 1]) >= 0 <==> written_by(
                ops,
                reads[m - 1],
                pos as int,
                0,
            ));
            if position_of(s, reads[m - 1]) < 0 {
                assert(!written_before(ops, reads[m - 1], pos as int));
            }
        } else {
            let e = read_pairs(spans, reads, pos, (m - 1) as nat)->Err_0;
            let k = choose|k: int|
                0 <= k < m - 1 && !written_before(ops, #[trigger] reads[k], pos as int) && e == (
                AllocError::ReadBeforeWrite { value: reads[k].0, index: reads[k].1 });
            assert(!written_before(ops, reads[k], pos as int));
        }
    }
}

/// The walk goes through exactly where every read follows a write, and the
/// error names a read that does not.
pub proof fn lemma_spans_ok_iff(ops: Seq<SerializedOperator>, n: nat)
    requires
        n <= ops.len() <= usize::MAX,
    ensures
        spans_upto(ops, n) is Ok <==> reads_follow_writes_upto(ops, n as int),
        spans_upto(ops, n) matches Err(e) ==> names_bad_read(ops, n as int, e),
    decreases n,
{
    if n > 0 {
        let pos = (n - 1) as usize;
        lemma_spans_ok_iff(ops, (n - 1) as nat);
        match spans_upto(ops, (n - 1) as nat) {
            Err(e) => {
                let (p, key) = choose|p: int, key: (Value, usize)|
                    p < n - 1 && #[trigger] reads_pair(ops, p, key) && !written_before(ops, key, p)
                        && e == (AllocError::ReadBeforeWrite { value: key.0, index: key.1 });
                assert(reads_pair(ops, p, key) && !written_before(ops, key, p));
            },
            Ok(s) => {
                lemma_spans_tracked(ops, (n - 1) as nat);
                if is_deleted(ops, n - 1) {
                    assert forall|p: int, key: (Value, usize)|
                        p < n && #[trigger] reads_pair(ops, p, key) implies written_before(
                        ops,
                        key,
                        p,
                    ) by {
                        assert(p < n - 1);
                    }
                } else {
                    let reads = ops[n - 1].reads();
                    lemma_reads_ok_iff(ops, s, reads, pos, reads.len());
                    if read_pairs(s, reads, pos, reads.len()) is Ok {
                        assert forall|p: int, key: (Value, usize)|
                            p < n && #[trigger] reads_pair(ops, p, key) implies written_before(
                            ops,
                            key,
                            p,
                        ) by {
                            if p == n - 1 {
                                let k = choose|k: int| 0 <= k < reads.len() && reads[k] == key;
                                assert(written_before(ops, reads[k], pos as int));
                            }
                        }
                    } else {
                        let e = read_pairs(s, reads, pos, reads.len())->Err_0;
                        let k = choose|k: int|
                            0 <= k < reads.len() && !written_before(
                                ops,
                                #[trigger] reads[k],
                                pos as int,
                            ) && e == (AllocError::ReadBeforeWrite {
                                value: reads[k].0,
                                index: reads[k].1,
                            });
                        assert(reads_pair(ops, n - 1, reads[k]));
                    }
                }
            },
        }
    }
}

} // verus!
