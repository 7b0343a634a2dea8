//! Removal of write/read runs that cancel out.
//!
//! A run starts at a write and keeps a stack of the pairs written so far.  A
//! read of the pair on top of the stack takes it off again; when the stack is
//! empty the whole run, from its first write to that last read, has moved
//! nothing and every position of it is dropped.  Anything else ends the run
//! with nothing dropped, and the scan goes on behind it.

use crate::ir::SerializedOperator;
use crate::ir::Value;
use vstd::prelude::*;

verus! {

/// What the scan knows after a prefix of the stream.
pub struct Scan {
    /// Where the open run began, if one is open.
    pub start: Option<usize>,
    /// The pairs written in the open run and not yet read back, oldest first.
    pub run: Seq<(Value, usize)>,
    /// The positions dropped so far, in ascending order.
    pub deleted: Seq<usize>,
}

/// The positions `first`, `first + 1`, .., `last`.
pub open spec fn positions(first: usize, last: usize) -> Seq<usize> {
    Seq::new((last - first + 1) as nat, |k: int| (first + k) as usize)
}

/// The scan before it has seen anything.
pub open spec fn scan_init() -> Scan {
    Scan { start: None, run: Seq::empty(), deleted: Seq::empty() }
}

/// The scan after `op` at position `pos`.
pub open spec fn scan_step(st: Scan, op: SerializedOperator, pos: usize) -> Scan {
    match op {
        SerializedOperator::Write(v, i) => Scan {
            start: if st.start is None {
                Some(pos)
            } else {
                st.start
            },
            run: st.run.push((v, i)),
            deleted: st.deleted,
        },
        SerializedOperator::Read(v, i) => {
            if st.start is Some && st.run.len() > 0 && st.run.last() == (v, i) {
                if st.run.len() == 1 {
                    Scan {
                        start: None,
                        run: Seq::empty(),
                        deleted: st.deleted + positions(st.start->0, pos),
                    }
                } else {
                    Scan { start: st.start, run: st.run.drop_last(), deleted: st.deleted }
                }
            } else {
                Scan { start: None, run: Seq::empty(), deleted: st.deleted }
            }
        },
        SerializedOperator::Other { .. } => Scan {
            start: None,
            run: Seq::empty(),
            deleted: st.deleted,
        },
    }
}

/// The scan after the first `n` operators of `ops`.
pub open spec fn scan(ops: Seq<SerializedOperator>, n: nat) -> Scan
    decreases n,
{
    if n == 0 {
        scan_init()
    } else {
        scan_step(scan(ops, (n - 1) as nat), ops[n - 1], (n - 1) as usize)
    }
}

/// The positions of `ops` that take no part in allocation and are not emitted.
pub open spec fn deleted_positions(ops: Seq<SerializedOperator>) -> Seq<usize> {
    scan(ops, ops.len()).deleted
}

/// Whether `p` is one of the positions `deleted`.
pub open spec fn holds(deleted: Seq<usize>, p: int) -> bool {
    exists|k: int| 0 <= k < deleted.len() && deleted[k] == p
}

/// Whether the operator at position `p` of `ops` is dropped.
pub open spec fn is_deleted(ops: Seq<SerializedOperator>, p: int) -> bool {
    holds(deleted_positions(ops), p)
}

/// The dropped positions come in strictly ascending order, lie inside the
/// prefix scanned, and lie before the open run.  A run is open exactly when
/// its stack is not empty.
pub proof fn lemma_scan_ordered(ops: Seq<SerializedOperator>, n: nat)
    requires
        n <= ops.len() <= usize::MAX,
    ensures
        forall|a: int, b: int|
            0 <= a < b < scan(ops, n).deleted.len() ==> scan(ops, n).deleted[a] < scan(
                ops,
                n,
            ).deleted[b],
        forall|a: int| 0 <= a < scan(ops, n).deleted.len() ==> scan(ops, n).deleted[a] < n,
        scan(ops, n).start is Some <==> scan(ops, n).run.len() > 0,
        scan(ops, n).start is Some ==> scan(ops, n).start->0 < n,
        scan(ops, n).start is Some ==> forall|a: int|
            0 <= a < scan(ops, n).deleted.len() ==> scan(ops, n).deleted[a] < scan(
                ops,
                n,
            ).start->0,
    decreases n,
{
    if n > 0 {
        lemma_scan_ordered(ops, (n - 1) as nat);
    }
}

/// The stack of pairs written and not read back after the operators
/// `first`, .., `n - 1` of `ops`, begun with nothing on it, or `None` where one
/// of them is neither a write nor a read of the pair then on top.
pub open spec fn replay(ops: Seq<SerializedOperator>, first: int, n: int) -> Option<
    Seq<(Value, usize)>,
>
    decreases n - first,
{
    if n <= first {
        Some(Seq::empty())
    } else {
        match replay(ops, first, n - 1) {
            None => None,
            Some(st) => match ops[n - 1] {
                SerializedOperator::Write(v, i) => Some(st.push((v, i))),
                SerializedOperator::Read(v, i) => if st.len() > 0 && st.last() == (v, i) {
                    Some(st.drop_last())
                } else {
                    None
                },
                SerializedOperator::Other { .. } => None,
            },
        }
    }
}

/// Whether the operators `first`, .., `last` of `ops` cancel out: they are
/// writes and reads only, every read takes back the pair written last and
/// not yet read, and nothing is left in the end.
pub open spec fn cancels(ops: Seq<SerializedOperator>, first: int, last: int) -> bool {
    &&& 0 <= first <= last < ops.len()
    &&& replay(ops, first, last + 1) matches Some(st) && st.len() == 0
}

/// Whether `p` lies in a stretch of positions before `n` that cancels out
/// and is all in `deleted`.
pub open spec fn in_cancelled_run(
    ops: Seq<SerializedOperator>,
    deleted: Seq<usize>,
    p: int,
    n: int,
) -> bool {
    exists|first: int, last: int|
        first <= p <= last < n && #[trigger] cancels(ops, first, last) && forall|q: int|
            first <= q <= last ==> #[trigger] holds(deleted, q)
}

/// The stack of the scan is the stack of the open run replayed, and every
/// position dropped so far lies in a stretch that cancels out and is dropped
/// as a whole.
pub proof fn lemma_scan_replays(ops: Seq<SerializedOperator>, n: nat)
    requires
        n <= ops.len() <= usize::MAX,
    ensures
        scan(ops, n).start matches Some(s) ==> (replay(ops, s as int, n as int) matches Some(st)
            && st == scan(ops, n).run),
        forall|k: int|
            0 <= k < scan(ops, n).deleted.len() ==> in_cancelled_run(
                ops,
                scan(ops, n).deleted,
                #[trigger] scan(ops, n).deleted[k] as int,
                n as int,
            ),
    decreases n,
{
    if n > 0 {
        let pos = (n - 1) as usize;
        let before = scan(ops, (n - 1) as nat);
        let after = scan(ops, n);
        lemma_scan_replays(ops, (n - 1) as nat);
        lemma_scan_ordered(ops, (n - 1) as nat);
        lemma_scan_ordered(ops, n);
        if let Some(s) = after.start {
            if before.start is None {
                assert(before.run =~= Seq::empty());
                assert(replay(ops, s as int, s as int) == Some(Seq::<(Value, usize)>::empty()));
            }
            assert(replay(ops, s as int, n as int)->0 =~= after.run);
        }
        let closed = before.start is Some && after.start is None && after.deleted.len()
            > before.deleted.len();
        if closed {
            let s = before.start->0;
            assert(after.deleted == before.deleted + positions(s, pos));
            assert(before.run.len() == 1);
            assert(replay(ops, s as int, n as int)->0 =~= Seq::<(Value, usize)>::empty());
            assert(cancels(ops, s as int, pos as int));
            assert forall|q: int| s <= q <= pos implies #[trigger] holds(after.deleted, q) by {
                assert(after.deleted[before.deleted.len() + (q - s)] == q);
            }
        } else {
            assert(after.deleted == before.deleted);
        }
        assert forall|k: int| 0 <= k < after.deleted.len() implies in_cancelled_run(
            ops,
            after.deleted,
            #[trigger] after.deleted[k] as int,
            n as int,
        ) by {
            if k < before.deleted.len() {
                let p = before.deleted[k] as int;
                assert(after.deleted[k] == before.deleted[k]);
                assert(in_cancelled_run(ops, before.deleted, p, n - 1));
                let (first, last) = choose|first: int, last: int|
                    first <= p <= last < n - 1 && #[trigger] cancels(ops, first, last) && forall|
                        q: int,
                    |
                        first <= q <= last ==> #[trigger] holds(before.deleted, q);
                assert forall|q: int| first <= q <= last implies #[trigger] holds(
                    after.deleted,
                    q,
                ) by {
                    assert(holds(before.deleted, q));
                    let j = choose|j: int| 0 <= j < before.deleted.len() && before.deleted[j] == q;
                    assert(after.deleted[j] == q);
                }
                assert(cancels(ops, first, last));
            } else {
                let s = before.start->0;
                assert(cancels(ops, s as int, pos as int));
            }
        }
    }
}

/// Every position that is dropped lies in a stretch of positions that
/// cancels out and is dropped as a whole.
pub proof fn deleted_positions_cancel(ops: Seq<SerializedOperator>, p: int)
    requires
        ops.len() <= usize::MAX,
        is_deleted(ops, p),
    ensures
        exists|first: int, last: int|
            first <= p <= last && #[trigger] cancels(ops, first, last) && forall|q: int|
                first <= q <= last ==> #[trigger] is_deleted(ops, q),
{
    lemma_scan_replays(ops, ops.len());
    let deleted = deleted_positions(ops);
    let k = choose|k: int| 0 <= k < deleted.len() && deleted[k] == p;
    assert(in_cancelled_run(ops, deleted, deleted[k] as int, ops.len() as int));
    let (first, last) = choose|first: int, last: int|
        first <= p <= last < ops.len() && #[trigger] cancels(ops, first, last) && forall|q: int|
            first <= q <= last ==> #[trigger] holds(deleted, q);
    assert forall|q: int| first <= q <= last implies #[trigger] is_deleted(ops, q) by {
        assert(holds(deleted, q));
    }
    assert(cancels(ops, first, last));
}

/// The positions of `operators` whose write/read runs cancel out.
pub fn eliminate(operators: &[SerializedOperator]) -> (delete: Vec<usize>)
    ensures
        delete@ == deleted_positions(operators@),
        forall|a: int, b: int| 0 <= a < b < delete@.len() ==> delete@[a] < delete@[b],
        forall|a: int| 0 <= a < delete@.len() ==> delete@[a] < operators@.len(),
        forall|a: int|
            0 <= a < delete@.len() ==> in_cancelled_run(
                operators@,
                delete@,
                #[trigger] delete@[a] as int,
                operators@.len() as int,
            ),
{
    let mut start: Option<usize> = None;
    let mut run: Vec<(Value, usize)> = Vec::new();
    let mut delete: Vec<usize> = Vec::new();
    let mut index: usize = 0;
    while index < operators.len()
        invariant
            index <= operators.len(),
            start == scan(operators@, index as nat).start,
            run@ == scan(operators@, index as nat).run,
            delete@ == scan(operators@, index as nat).deleted,
        decreases operators.len() - index,
    {
        proof {
            lemma_scan_ordered(operators@, index as nat);
        }
        let ghost before = scan(operators@, index as nat);
        match &operators[index] {
            SerializedOperator::Write(v, i) => {
                if start.is_none() {
                    start = Some(index);
                }
                run.push((*v, *i));
            },
            SerializedOperator::Read(v, i) => {
                let on_top = match start {
                    Some(_) => {
                        let top = run[run.len() - 1];
                        top.0.0 == v.0 && top.1 == *i
                    },
                    None => false,
                };
                if on_top {
                    run.pop();
                    if run.len() == 0 {
                        let first: usize = match start {
                            Some(s) => s,
                            None => index,
                        };
                        let mut p: usize = first;
                        while p <= index
                            invariant
                                first <= p <= index + 1,
                                index < operators.len(),
                                delete@ == before.deleted + Seq::new(
                                    (p - first) as nat,
                                    |k: int| (first + k) as usize,
                                ),
                            decreases index + 1 - p,
                        {
                            delete.push(p);
                            p += 1;
                        }
                        start = None;
                    }
                } else {
                    run = Vec::new();
                    start = None;
                }
            },
            SerializedOperator::Other { .. } => {
                run = Vec::new();
                start = None;
            },
        }
        index += 1;
    }
    proof {
        lemma_scan_ordered(operators@, operators@.len());
        lemma_scan_replays(operators@, operators@.len());
    }
    delete
}

} // verus!
