//! Why every live range ends where it should.
//!
//! An operator touches a pair where it reads or writes it.  The walk that
//! builds the ranges keeps every range ending one past the last touch of its
//! pair that the walk has seen: [`reaches`].

use crate::eliminate::is_deleted;
use crate::ir::SerializedOperator;
use crate::ir::Value;
use crate::liveness::lemma_position_of;
use crate::liveness::position_of;
use crate::liveness::read_pairs;
use crate::liveness::reads_pair;
use crate::liveness::spans_upto;
use crate::liveness::write_pairs;
use crate::liveness::writes_pair;
use crate::liveness::ValueSpan;
use crate::tracking::follows;
use crate::tracking::lemma_spans_tracked;
use crate::tracking::lemma_track_reads;
use crate::tracking::lemma_track_writes;
use vstd::prelude::*;

verus! {

/// Whether the operator at `p` is kept and reads or writes `key`.
pub open spec fn touches(ops: Seq<SerializedOperator>, p: int, key: (Value, usize)) -> bool {
    reads_pair(ops, p, key) || writes_pair(ops, p, key)
}

/// Whether `key` is among the first `n` pairs of `s`.
pub open spec fn among(s: Seq<(Value, usize)>, n: int, key: (Value, usize)) -> bool {
    exists|k: int| 0 <= k < n && k < s.len() && #[trigger] s[k] == key
}

/// Whether the walk, standing at `pos` with `r` reads and `w` writes of that
/// operator done, has seen a touch of `key` at position `q`.
pub open spec fn seen(
    ops: Seq<SerializedOperator>,
    key: (Value, usize),
    q: int,
    pos: int,
    r: int,
    w: int,
) -> bool {
    ||| q < pos && touches(ops, q, key)
    ||| q == pos && 0 <= pos < ops.len() && !is_deleted(ops, pos) && (among(
        ops[pos].reads(),
        r,
        key,
    ) || among(ops[pos].writes(), w, key))
}

/// Whether `sp` ends one past the last touch of its pair that the walk has
/// seen.
pub open spec fn ends_at_last(
    ops: Seq<SerializedOperator>,
    sp: ValueSpan,
    pos: int,
    r: int,
    w: int,
) -> bool {
    &&& seen(ops, sp.key(), sp.end - 1, pos, r, w)
    &&& forall|q: int| q >= sp.end ==> !#[trigger] seen(ops, sp.key(), q, pos, r, w)
}

/// Whether every range ends one past the last touch of its pair that the
/// walk has seen.
pub open spec fn reaches(
    ops: Seq<SerializedOperator>,
    spans: Seq<ValueSpan>,
    pos: int,
    r: int,
    w: int,
) -> bool {
    forall|j: int| 0 <= j < spans.len() ==> ends_at_last(ops, #[trigger] spans[j], pos, r, w)
}

/// One more pair of `s` taken in.
proof fn lemma_among_next(s: Seq<(Value, usize)>, n: int, key: (Value, usize))
    requires
        0 <= n < s.len(),
    ensures
        among(s, n + 1, key) <==> (among(s, n, key) || s[n] == key),
{
    if among(s, n + 1, key) {
        let k = choose|k: int| 0 <= k < n + 1 && k < s.len() && #[trigger] s[k] == key;
        if k < n {
            assert(among(s, n, key));
        }
    }
    if among(s, n, key) {
        let k = choose|k: int| 0 <= k < n && k < s.len() && #[trigger] s[k] == key;
        assert(s[k] == key);
    }
    if s[n] == key {
        assert(among(s, n + 1, key));
    }
}

/// A touch of `key0` at `pos`, after which the ranges of `key0` end at
/// `pos + 1` and all others end where they did, keeps the ends right.
proof fn lemma_reach_step(
    ops: Seq<SerializedOperator>,
    spans: Seq<ValueSpan>,
    t: Seq<ValueSpan>,
    pos: usize,
    r: int,
    w: int,
    r2: int,
    w2: int,
    key0: (Value, usize),
)
    requires
        reaches(ops, spans, pos as int, r, w),
        pos < ops.len() <= usize::MAX,
        !is_deleted(ops, pos as int),
        (r2 == r + 1 && w2 == w && 0 <= r < ops[pos as int].reads().len() && ops[pos as int].reads()[r]
            == key0) || (r2 == r && w2 == w + 1 && 0 <= w < ops[pos as int].writes().len()
            && ops[pos as int].writes()[w] == key0),
        spans.len() <= t.len(),
        forall|j: int|
            0 <= j < spans.len() ==> (#[trigger] t[j]).key() == spans[j].key() && t[j].end == (
            if spans[j].key() == key0 {
                pos + 1
            } else {
                spans[j].end as int
            }),
        forall|j: int|
            spans.len() <= j < t.len() ==> (#[trigger] t[j]).key() == key0 && t[j].end == pos + 1,
    ensures
        reaches(ops, t, pos as int, r2, w2),
{
    let reads = ops[pos as int].reads();
    let writes = ops[pos as int].writes();
    if r2 == r + 1 {
        lemma_among_next(reads, r, key0);
    } else {
        lemma_among_next(writes, w, key0);
    }
    assert(seen(ops, key0, pos as int, pos as int, r2, w2));
    assert forall|j: int| 0 <= j < t.len() implies ends_at_last(
        ops,
        #[trigger] t[j],
        pos as int,
        r2,
        w2,
    ) by {
        let key = t[j].key();
        if key != key0 {
            assert(ends_at_last(ops, spans[j], pos as int, r, w));
            assert forall|q: int|
                seen(ops, key, q, pos as int, r2, w2) <==> seen(ops, key, q, pos as int, r, w) by {
                if r2 == r + 1 {
                    lemma_among_next(reads, r, key);
                } else {
                    lemma_among_next(writes, w, key);
                }
            }
            assert forall|q: int| q >= t[j].end implies !#[trigger] seen(
                ops,
                key,
                q,
                pos as int,
                r2,
                w2,
            ) by {
                assert(!seen(ops, spans[j].key(), q, pos as int, r, w));
            }
        }
    }
}

/// The first `m` reads of the kept operator at `pos` keep the ends right.
proof fn lemma_reach_reads(ops: Seq<SerializedOperator>, spans: Seq<ValueSpan>, pos: usize, m: nat)
    requires
        follows(ops, spans, pos as int, 0),
        reaches(ops, spans, pos as int, 0, 0),
        pos < ops.len() <= usize::MAX,
        !is_deleted(ops, pos as int),
        m <= ops[pos as int].reads().len(),
        read_pairs(spans, ops[pos as int].reads(), pos, m) is Ok,
    ensures
        reaches(ops, read_pairs(spans, ops[pos as int].reads(), pos, m)->Ok_0, pos as int, m as int, 0),
    decreases m,
{
    if m > 0 {
        let reads = ops[pos as int].reads();
        lemma_reach_reads(ops, spans, pos, (m - 1) as nat);
        lemma_track_reads(ops, spans, reads, pos, (m - 1) as nat);
        let s = read_pairs(spans, reads, pos, (m - 1) as nat)->Ok_0;
        let t = read_pairs(spans, reads, pos, m)->Ok_0;
        let key0 = reads[m - 1];
        let j0 = position_of(s, key0);
        lemma_position_of(s, key0);
        assert forall|j: int| 0 <= j < s.len() implies (#[trigger] t[j]).key() == s[j].key()
            && t[j].end == (if s[j].key() == key0 {
            pos + 1
        } else {
            s[j].end as int
        }) by {
            if j != j0 {
                if j < j0 {
                    assert(s[j].key() != s[j0].key());
                } else {
                    assert(s[j0].key() != s[j].key());
                }
            }
        }
        lemma_reach_step(ops, s, t, pos, m - 1, 0, m as int, 0, key0);
    }
}

/// The first `n` writes of the kept operator at `pos` keep the ends right.
proof fn lemma_reach_writes(ops: Seq<SerializedOperator>, spans: Seq<ValueSpan>, pos: usize, n: nat)
    requires
        follows(ops, spans, pos as int, 0),
        reaches(ops, spans, pos as int, ops[pos as int].reads().len() as int, 0),
        pos < ops.len() <= usize::MAX,
        !is_deleted(ops, pos as int),
        n <= ops[pos as int].writes().len(),
    ensures
        reaches(
            ops,
            write_pairs(spans, ops[pos as int].writes(), pos, n),
            pos as int,
            ops[pos as int].reads().len() as int,
            n as int,
        ),
    decreases n,
{
    if n > 0 {
        let writes = ops[pos as int].writes();
        let r = ops[pos as int].reads().len() as int;
        lemma_reach_writes(ops, spans, pos, (n - 1) as nat);
        lemma_track_writes(ops, spans, pos, (n - 1) as nat);
        let s = write_pairs(spans, writes, pos, (n - 1) as nat);
        let t = write_pairs(spans, writes, pos, n);
        let key0 = writes[n - 1];
        let j0 = position_of(s, key0);
        lemma_position_of(s, key0);
        assert forall|j: int| 0 <= j < s.len() implies (#[trigger] t[j]).key() == s[j].key()
            && t[j].end == (if s[j].key() == key0 {
            pos + 1
        } else {
            s[j].end as int
        }) by {
            if j0 >= 0 && j != j0 {
                if j < j0 {
                    assert(s[j].key() != s[j0].key());
                } else {
                    assert(s[j0].key() != s[j].key());
                }
            }
        }
        lemma_reach_step(ops, s, t, pos, r, n - 1, r, n as int, key0);
    }
}

/// Past the operator at `pos` the ends are right for the next position.
proof fn lemma_reach_next(
    ops: Seq<SerializedOperator>,
    spans: Seq<ValueSpan>,
    pos: int,
    r: int,
    w: int,
)
    requires
        0 <= pos < ops.len(),
        reaches(ops, spans, pos, r, w),
        is_deleted(ops, pos) || (r == ops[pos].reads().len() && w == ops[pos].writes().len()),
    ensures
        reaches(ops, spans, pos + 1, 0, 0),
{
    assert forall|key: (Value, usize), q: int|
        seen(ops, key, q, pos + 1, 0, 0) <==> seen(ops, key, q, pos, r, w) by {
        if q == pos && !is_deleted(ops, pos) {
            let reads = ops[pos].reads();
            let writes = ops[pos].writes();
            if reads.contains(key) {
                let k = choose|k: int| 0 <= k < reads.len() && reads[k] == key;
                assert(reads[k] == key);
            }
            if writes.contains(key) {
                let k = choose|k: int| 0 <= k < writes.len() && writes[k] == key;
                assert(writes[k] == key);
            }
            if among(reads, r, key) {
                let k = choose|k: int| 0 <= k < r && k < reads.len() && #[trigger] reads[k] == key;
                assert(reads.contains(reads[k]));
            }
            if among(writes, w, key) {
                let k = choose|k: int|
                    0 <= k < w && k < writes.len() && #[trigger] writes[k] == key;
                assert(writes.contains(writes[k]));
            }
        }
    }
    assert forall|j: int| 0 <= j < spans.len() implies ends_at_last(
        ops,
        #[trigger] spans[j],
        pos + 1,
        0,
        0,
    ) by {
        assert(ends_at_last(ops, spans[j], pos, r, w));
        assert forall|q: int| q >= spans[j].end implies !#[trigger] seen(
            ops,
            spans[j].key(),
            q,
            pos + 1,
            0,
            0,
        ) by {
            assert(!seen(ops, spans[j].key(), q, pos, r, w));
        }
    }
}

/// The ends are right for the ranges built from any prefix of the stream.
pub proof fn lemma_spans_reach(ops: Seq<SerializedOperator>, n: nat)
    requires
        n <= ops.len() <= usize::MAX,
        spans_upto(ops, n) is Ok,
    ensures
        reaches(ops, spans_upto(ops, n)->Ok_0, n as int, 0, 0),
    decreases n,
{
    if n > 0 {
        let pos = (n - 1) as usize;
        lemma_spans_reach(ops, (n - 1) as nat);
        lemma_spans_tracked(ops, (n - 1) as nat);
        let s = spans_upto(ops, (n - 1) as nat)->Ok_0;
        if is_deleted(ops, n - 1) {
            lemma_reach_next(ops, s, n - 1, 0, 0);
        } else {
            let op = ops[n - 1];
            lemma_reach_reads(ops, s, pos, op.reads().len());
            lemma_track_reads(ops, s, op.reads(), pos, op.reads().len());
            let r = read_pairs(s, op.reads(), pos, op.reads().len())->Ok_0;
            lemma_reach_writes(ops, r, pos, op.writes().len());
            lemma_reach_next(
                ops,
                write_pairs(r, op.writes(), pos, op.writes().len()),
                n - 1,
                op.reads().len() as int,
                op.writes().len() as int,
            );
        }
    }
}

} // verus!
