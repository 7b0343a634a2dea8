//! The ranges in order of their ends.
//!
//! The sweep walks the ranges twice at once: in the order in which they begin
//! and in the order in which they end.  The first order is the one they are
//! built in.  The second is made here: every range goes into the bucket of
//! its end, and the buckets are emptied from the smallest end to the
//! largest.  Ranges with one end stay in the order in which they began, and
//! the work is linear in the number of ranges and the largest end.

use crate::liveness::all_well_formed;
use crate::liveness::distinct_keys;
use crate::liveness::ValueSpan;
use vstd::prelude::*;
use vstd::seq_lib::lemma_multiset_commutative;
use vstd::seq_lib::to_multiset_build;

verus! {

/// The ranges of `spans` that end at `end`, in their order.
pub open spec fn ending_at(spans: Seq<ValueSpan>, end: int) -> Seq<ValueSpan>
    decreases spans.len(),
{
    if spans.len() == 0 {
        Seq::empty()
    } else if spans.last().end == end {
        ending_at(spans.drop_last(), end).push(spans.last())
    } else {
        ending_at(spans.drop_last(), end)
    }
}

/// The ranges of `spans` that end at 1, then those that end at 2, and so on
/// up to those that end at `limit`.
pub open spec fn by_end_upto(spans: Seq<ValueSpan>, limit: nat) -> Seq<ValueSpan>
    decreases limit,
{
    if limit == 0 {
        Seq::empty()
    } else {
        by_end_upto(spans, (limit - 1) as nat) + ending_at(spans, limit as int)
    }
}

/// The largest end among `spans`, or 0 where there is no range.
pub open spec fn max_end(spans: Seq<ValueSpan>) -> usize
    decreases spans.len(),
{
    if spans.len() == 0 {
        0
    } else if spans.last().end > max_end(spans.drop_last()) {
        spans.last().end
    } else {
        max_end(spans.drop_last())
    }
}

/// `spans` in order of their ends; ranges with one end keep their order.
pub open spec fn by_end(spans: Seq<ValueSpan>) -> Seq<ValueSpan> {
    by_end_upto(spans, max_end(spans) as nat)
}

/// The ranges end in ascending order.
pub open spec fn ascending_ends(s: Seq<ValueSpan>) -> bool {
    forall|a: int, b: int| 0 <= a <= b < s.len() ==> s[a].end <= s[b].end
}

/// Every range of `s` is one of `t`.
pub open spec fn drawn_from(s: Seq<ValueSpan>, t: Seq<ValueSpan>) -> bool {
    forall|i: int| 0 <= i < s.len() ==> t.contains(#[trigger] s[i])
}

/// No range ends behind `max_end`.
pub proof fn lemma_max_end(spans: Seq<ValueSpan>)
    ensures
        forall|j: int| 0 <= j < spans.len() ==> (#[trigger] spans[j]).end <= max_end(spans),
    decreases spans.len(),
{
    if spans.len() > 0 {
        lemma_max_end(spans.drop_last());
        assert forall|j: int| 0 <= j < spans.len() implies (#[trigger] spans[j]).end <= max_end(
            spans,
        ) by {
            if j < spans.len() - 1 {
                assert(spans.drop_last()[j] == spans[j]);
            }
        }
    }
}

/// `ending_at` holds the ranges with that end, all of them and each once.
pub proof fn lemma_ending_at(spans: Seq<ValueSpan>, end: int)
    ensures
        forall|x: int|
            0 <= x < ending_at(spans, end).len() ==> (#[trigger] ending_at(spans, end)[x]).end
                == end,
        drawn_from(ending_at(spans, end), spans),
        forall|j: int|
            0 <= j < spans.len() && spans[j].end == end ==> ending_at(spans, end).contains(
                #[trigger] spans[j],
            ),
        distinct_keys(spans) ==> distinct_keys(ending_at(spans, end)),
    decreases spans.len(),
{
    if spans.len() > 0 {
        let d = spans.drop_last();
        let last = spans.last();
        let sub = ending_at(d, end);
        let all = ending_at(spans, end);
        lemma_ending_at(d, end);
        assert forall|x: int| 0 <= x < sub.len() implies spans.contains(#[trigger] sub[x]) by {
            assert(d.contains(sub[x]));
            let c = choose|c: int| 0 <= c < d.len() && d[c] == sub[x];
            assert(spans[c] == sub[x]);
        }
        assert forall|x: int| 0 <= x < all.len() implies spans.contains(#[trigger] all[x]) by {
            if x < sub.len() {
                assert(all[x] == sub[x]);
            } else {
                assert(spans[spans.len() - 1] == all[x]);
            }
        }
        assert forall|j: int| 0 <= j < spans.len() && spans[j].end == end implies all.contains(
            #[trigger] spans[j],
        ) by {
            if j < d.len() {
                assert(d[j] == spans[j]);
                assert(sub.contains(d[j]));
                let x = choose|x: int| 0 <= x < sub.len() && sub[x] == d[j];
                assert(all[x] == spans[j]);
            } else {
                assert(all[sub.len() as int] == spans[j]);
            }
        }
        if distinct_keys(spans) {
            assert(distinct_keys(d)) by {
                assert forall|a: int, b: int| 0 <= a < b < d.len() implies d[a].key()
                    != d[b].key() by {
                    assert(spans[a].key() != spans[b].key());
                }
            }
            assert forall|a: int, b: int| 0 <= a < b < all.len() implies all[a].key()
                != all[b].key() by {
                if b < sub.len() {
                    assert(sub[a].key() != sub[b].key());
                } else {
                    assert(d.contains(sub[a]));
                    let c = choose|c: int| 0 <= c < d.len() && d[c] == sub[a];
                    assert(spans[c].key() != spans[spans.len() - 1].key());
                }
            }
        }
    }
}

/// `by_end_upto` holds the ranges that end at 1 to `limit`, all of them and
/// each once, in ascending order of their ends.
pub proof fn lemma_by_end_upto(spans: Seq<ValueSpan>, limit: nat)
    ensures
        forall|x: int|
            0 <= x < by_end_upto(spans, limit).len() ==> 1 <= (#[trigger] by_end_upto(
                spans,
                limit,
            )[x]).end <= limit,
        ascending_ends(by_end_upto(spans, limit)),
        drawn_from(by_end_upto(spans, limit), spans),
        forall|j: int|
            0 <= j < spans.len() && 1 <= spans[j].end <= limit ==> by_end_upto(
                spans,
                limit,
            ).contains(#[trigger] spans[j]),
        distinct_keys(spans) ==> distinct_keys(by_end_upto(spans, limit)),
    decreases limit,
{
    if limit > 0 {
        let head = by_end_upto(spans, (limit - 1) as nat);
        let block = ending_at(spans, limit as int);
        let all = by_end_upto(spans, limit);
        lemma_by_end_upto(spans, (limit - 1) as nat);
        lemma_ending_at(spans, limit as int);
        assert forall|x: int| 0 <= x < all.len() implies #[trigger] all[x] == (if x < head.len() {
            head[x]
        } else {
            block[x - head.len()]
        }) by {}
        assert forall|x: int| 0 <= x < all.len() implies 1 <= (#[trigger] all[x]).end <= limit by {
            if x < head.len() {
                assert(1 <= head[x].end <= limit - 1);
            } else {
                assert(block[x - head.len()].end == limit);
            }
        }
        assert forall|a: int, b: int| 0 <= a <= b < all.len() implies all[a].end <= all[b].end by {
            if b < head.len() {
                assert(head[a].end <= head[b].end);
            } else if a < head.len() {
                assert(1 <= head[a].end <= limit - 1);
                assert(block[b - head.len()].end == limit);
            } else {
                assert(block[a - head.len()].end == limit);
                assert(block[b - head.len()].end == limit);
            }
        }
        assert forall|x: int| 0 <= x < all.len() implies spans.contains(#[trigger] all[x]) by {
            if x < head.len() {
                assert(spans.contains(head[x]));
            } else {
                assert(spans.contains(block[x - head.len()]));
            }
        }
        assert forall|j: int| 0 <= j < spans.len() && 1 <= spans[j].end <= limit implies all.contains(
            #[trigger] spans[j],
        ) by {
            if spans[j].end == limit {
                assert(block.contains(spans[j]));
                let x = choose|x: int| 0 <= x < block.len() && block[x] == spans[j];
                assert(all[head.len() + x] == spans[j]);
            } else {
                assert(head.contains(spans[j]));
                let x = choose|x: int| 0 <= x < head.len() && head[x] == spans[j];
                assert(all[x] == spans[j]);
            }
        }
        if distinct_keys(spans) {
            assert forall|a: int, b: int| 0 <= a < b < all.len() implies all[a].key()
                != all[b].key() by {
                if b < head.len() {
                    assert(head[a].key() != head[b].key());
                } else if a >= head.len() {
                    assert(block[a - head.len()].key() != block[b - head.len()].key());
                } else {
                    assert(1 <= head[a].end <= limit - 1);
                    assert(block[b - head.len()].end == limit);
                    assert(spans.contains(head[a]));
                    assert(spans.contains(block[b - head.len()]));
                    let ja = choose|j: int| 0 <= j < spans.len() && spans[j] == head[a];
                    let jb = choose|j: int| 0 <= j < spans.len() && spans[j] == block[b
                        - head.len()];
                    if ja < jb {
                        assert(spans[ja].key() != spans[jb].key());
                    } else if jb < ja {
                        assert(spans[jb].key() != spans[ja].key());
                    }
                }
            }
        }
    }
}

/// The order by end holds the very ranges it was made from, and they end in
/// ascending order.  Where no pair has two ranges, it holds each range once.
pub proof fn lemma_by_end(spans: Seq<ValueSpan>)
    requires
        all_well_formed(spans),
    ensures
        ascending_ends(by_end(spans)),
        drawn_from(by_end(spans), spans),
        drawn_from(spans, by_end(spans)),
        distinct_keys(spans) ==> distinct_keys(by_end(spans)),
{
    lemma_max_end(spans);
    lemma_by_end_upto(spans, max_end(spans) as nat);
    assert forall|j: int| 0 <= j < spans.len() implies by_end(spans).contains(
        #[trigger] spans[j],
    ) by {
        assert(spans[j].well_formed());
    }
}

/// Where no range ends at `end`, `ending_at` is empty.
proof fn lemma_ending_at_none(spans: Seq<ValueSpan>, end: int)
    requires
        forall|j: int| 0 <= j < spans.len() ==> (#[trigger] spans[j]).end != end,
    ensures
        ending_at(spans, end).len() == 0,
    decreases spans.len(),
{
    if spans.len() > 0 {
        let d = spans.drop_last();
        assert(spans[spans.len() - 1].end != end);
        assert forall|j: int| 0 <= j < d.len() implies (#[trigger] d[j]).end != end by {
            assert(spans[j].end != end);
        }
        lemma_ending_at_none(d, end);
    }
}

/// Behind the largest end nothing is added.
proof fn lemma_by_end_upto_beyond(spans: Seq<ValueSpan>, limit: nat)
    requires
        limit >= max_end(spans),
    ensures
        by_end_upto(spans, limit) == by_end_upto(spans, max_end(spans) as nat),
    decreases limit,
{
    if limit > max_end(spans) {
        lemma_by_end_upto_beyond(spans, (limit - 1) as nat);
        lemma_max_end(spans);
        lemma_ending_at_none(spans, limit as int);
        assert(by_end_upto(spans, limit) =~= by_end_upto(spans, (limit - 1) as nat));
    }
}

/// One more range adds itself to the order, once, where its end is within
/// the limit.
proof fn lemma_by_end_upto_push(spans: Seq<ValueSpan>, sp: ValueSpan, limit: nat)
    ensures
        by_end_upto(spans.push(sp), limit).to_multiset() == (if 1 <= sp.end <= limit {
            by_end_upto(spans, limit).to_multiset().insert(sp)
        } else {
            by_end_upto(spans, limit).to_multiset()
        }),
    decreases limit,
{
    if limit > 0 {
        lemma_by_end_upto_push(spans, sp, (limit - 1) as nat);
        let head = by_end_upto(spans, (limit - 1) as nat);
        let block = ending_at(spans, limit as int);
        let head2 = by_end_upto(spans.push(sp), (limit - 1) as nat);
        let block2 = ending_at(spans.push(sp), limit as int);
        assert(spans.push(sp).drop_last() =~= spans);
        lemma_multiset_commutative(head, block);
        lemma_multiset_commutative(head2, block2);
        to_multiset_build(block, sp);
        assert(by_end_upto(spans.push(sp), limit).to_multiset() =~= (if 1 <= sp.end <= limit {
            by_end_upto(spans, limit).to_multiset().insert(sp)
        } else {
            by_end_upto(spans, limit).to_multiset()
        }));
    } else {
        assert(by_end_upto(spans.push(sp), limit) =~= by_end_upto(spans, limit));
    }
}

/// The order by end holds every range as often as `spans` does.
pub proof fn lemma_by_end_permutes(spans: Seq<ValueSpan>)
    requires
        all_well_formed(spans),
    ensures
        by_end(spans).to_multiset() == spans.to_multiset(),
    decreases spans.len(),
{
    if spans.len() == 0 {
        assert(by_end(spans) =~= spans);
    } else {
        let d = spans.drop_last();
        let sp = spans.last();
        assert forall|j: int| 0 <= j < d.len() implies (#[trigger] d[j]).well_formed() by {
            assert(spans[j].well_formed());
        }
        lemma_by_end_permutes(d);
        assert(spans =~= d.push(sp));
        assert(spans[spans.len() - 1].well_formed());
        lemma_by_end_upto_beyond(d, max_end(spans) as nat);
        lemma_by_end_upto_push(d, sp, max_end(spans) as nat);
        to_multiset_build(d, sp);
    }
}

/// The ranges of `spans` in order of their ends.
pub fn sort_by_end(spans: &Vec<ValueSpan>) -> (ends: Vec<ValueSpan>)
    requires
        all_well_formed(spans@),
    ensures
        ends@ == by_end(spans@),
        ascending_ends(ends@),
        ends@.to_multiset() == spans@.to_multiset(),
{
    // The largest end says how many buckets there are.
    let mut limit: usize = 0;
    let mut i: usize = 0;
    while i < spans.len()
        invariant
            i <= spans.len(),
            limit == max_end(spans@.take(i as int)),
        decreases spans.len() - i,
    {
        assert(spans@.take(i + 1).drop_last() =~= spans@.take(i as int));
        if spans[i].end > limit {
            limit = spans[i].end;
        }
        i += 1;
    }
    assert(spans@.take(spans.len() as int) =~= spans@);

    // Bucket `q` takes the ranges that end at `q + 1`.
    let mut buckets: Vec<Vec<ValueSpan>> = Vec::new();
    let mut q: usize = 0;
    while q < limit
        invariant
            q <= limit,
            buckets.len() == q,
            forall|k: int| 0 <= k < q ==> (#[trigger] buckets@[k])@ == ending_at(
                spans@.take(0),
                k + 1,
            ),
        decreases limit - q,
    {
        buckets.push(Vec::new());
        q += 1;
    }
    proof {
        lemma_max_end(spans@);
    }
    let mut i: usize = 0;
    while i < spans.len()
        invariant
            i <= spans.len(),
            buckets.len() == limit,
            all_well_formed(spans@),
            forall|j: int| 0 <= j < spans.len() ==> (#[trigger] spans@[j]).end <= limit,
            forall|k: int| 0 <= k < limit ==> (#[trigger] buckets@[k])@ == ending_at(
                spans@.take(i as int),
                k + 1,
            ),
        decreases spans.len() - i,
    {
        let sp = spans[i];
        assert(sp.well_formed());
        assert(spans@.take(i + 1).drop_last() =~= spans@.take(i as int));
        buckets[sp.end - 1].push(sp);
        i += 1;
    }
    assert(spans@.take(spans.len() as int) =~= spans@);

    // Empty the buckets in order.
    let mut ends: Vec<ValueSpan> = Vec::new();
    let mut q: usize = 0;
    while q < limit
        invariant
            q <= limit,
            buckets.len() == limit,
            forall|k: int| 0 <= k < limit ==> (#[trigger] buckets@[k])@ == ending_at(
                spans@,
                k + 1,
            ),
            ends@ == by_end_upto(spans@, q as nat),
        decreases limit - q,
    {
        let ghost head = ends@;
        let mut x: usize = 0;
        while x < buckets[q as usize].len()
            invariant
                q < limit,
                buckets.len() == limit,
                x <= buckets@[q as int]@.len(),
                ends@ == head + buckets@[q as int]@.take(x as int),
            decreases buckets@[q as int]@.len() - x,
        {
            let sp = buckets[q][x];
            ends.push(sp);
            assert(buckets@[q as int]@.take(x + 1) =~= buckets@[q as int]@.take(x as int).push(sp));
            x += 1;
        }
        assert(buckets@[q as int]@.take(x as int) =~= buckets@[q as int]@);
        q += 1;
    }
    proof {
        lemma_by_end(spans@);
        lemma_by_end_permutes(spans@);
    }
    ends
}

} // verus!
