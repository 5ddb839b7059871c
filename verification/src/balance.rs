use crate::heap::{lemma_occurrences_concat, occurrences, Heap};
use vstd::prelude::*;

verus! {

/// What can be done with a shared pointer to an object.
pub enum ClaimOp {
    /// Cloning it: the object is retained.
    Clone,
    /// Dropping it: its claim is released.
    Drop,
    /// Handing its claim to the innermost pool.
    Autorelease,
}

/// Whether `op` may be done on a pointer to `a` in the heap `h`.
pub open spec fn enabled<T>(h: Heap<T>, a: usize, op: ClaimOp) -> bool {
    match op {
        ClaimOp::Clone => h.is_live(a),
        ClaimOp::Drop => h.claims(a) >= 1,
        ClaimOp::Autorelease => h.claims(a) >= 1 && h.depth() >= 1,
    }
}

/// The heap after `op` was done on a pointer to `a`.
pub open spec fn step<T>(h: Heap<T>, a: usize, op: ClaimOp) -> Heap<T> {
    match op {
        ClaimOp::Clone => h.retained(a),
        ClaimOp::Drop => h.released(a),
        ClaimOp::Autorelease => h.autoreleased(a),
    }
}

/// The heap after `ops` were done, in their order, on pointers to `a`.
pub open spec fn run<T>(h: Heap<T>, a: usize, ops: Seq<ClaimOp>) -> Heap<T>
    decreases ops.len(),
{
    if ops.len() == 0 {
        h
    } else {
        step(run(h, a, ops.drop_last()), a, ops.last())
    }
}

/// Whether each of `ops` may be done when its turn comes.
pub open spec fn valid<T>(h: Heap<T>, a: usize, ops: Seq<ClaimOp>) -> bool
    decreases ops.len(),
{
    ops.len() == 0 || (valid(h, a, ops.drop_last()) && enabled(
        run(h, a, ops.drop_last()),
        a,
        ops.last(),
    ))
}

/// How many of `ops` are `op`.
pub open spec fn tally(ops: Seq<ClaimOp>, op: ClaimOp) -> nat
    decreases ops.len(),
{
    if ops.len() == 0 {
        0
    } else {
        tally(ops.drop_last(), op) + if ops.last() == op {
            1nat
        } else {
            0nat
        }
    }
}

/// The claims that `ops` create less those that they release at once:
/// one for each clone, one off for each drop.
pub open spec fn net(ops: Seq<ClaimOp>) -> int {
    tally(ops, ClaimOp::Clone) - tally(ops, ClaimOp::Drop)
}

/// Every sequence of clones, drops and hand-overs to a pool that may be
/// done leaves the bookkeeping consistent and the count of the object
/// changed by exactly the clones less the drops; the claims handed to the
/// pool are all deferred, and stand behind those that were deferred
/// before. No other object's count changes, and no pool is opened or
/// closed.
pub proof fn lemma_run_balance<T>(h: Heap<T>, a: usize, ops: Seq<ClaimOp>)
    requires
        h.wf(),
        valid(h, a, ops),
    ensures
        run(h, a, ops).wf(),
        run(h, a, ops).count(a) == h.count(a) + net(ops),
        run(h, a, ops).deferred(a) == h.deferred(a) + tally(ops, ClaimOp::Autorelease),
        run(h, a, ops).claims(a) == h.claims(a) + net(ops) - tally(ops, ClaimOp::Autorelease),
        forall|x: usize| x != a ==> run(h, a, ops).count(x) == h.count(x),
        forall|x: usize| x != a ==> run(h, a, ops).deferred(x) == h.deferred(x),
        run(h, a, ops).marks == h.marks,
        run(h, a, ops).pending.len() == h.pending.len() + tally(ops, ClaimOp::Autorelease),
        run(h, a, ops).pending.take(h.pending.len() as int) == h.pending,
    decreases ops.len(),
{
    if ops.len() == 0 {
        assert(h.pending.take(h.pending.len() as int) =~= h.pending);
    } else {
        let before = ops.drop_last();
        let mid = run(h, a, before);
        lemma_run_balance(h, a, before);
        match ops.last() {
            ClaimOp::Clone => {
                mid.lemma_retained_wf(a);
            },
            ClaimOp::Drop => {
                mid.lemma_released_wf(a);
            },
            ClaimOp::Autorelease => {
                mid.lemma_autoreleased_wf(a);
                assert(mid.autoreleased(a).pending.take(h.pending.len() as int)
                    =~= mid.pending.take(h.pending.len() as int));
            },
        }
    }
}

/// Retain and release balance. Let a sequence of clones, drops and
/// hand-overs to a pool be done on pointers to one object while the pool
/// `k` is open, and let that pool be drained afterwards. Then the object
/// has lost one claim for each drop, one for each claim handed over and
/// one for each claim that the pool held before, and has gained one for
/// each clone. Where the pool held none before and as many claims were
/// given up as were made, the count is what it was before the sequence.
pub proof fn lemma_balance_after_drain<T>(h: Heap<T>, a: usize, ops: Seq<ClaimOp>, k: int)
    requires
        h.wf(),
        valid(h, a, ops),
        0 <= k < h.marks.len(),
    ensures
        run(h, a, ops).drained(k).wf(),
        run(h, a, ops).drained(k).count(a) == h.count(a) + tally(ops, ClaimOp::Clone) - tally(
            ops,
            ClaimOp::Drop,
        ) - tally(ops, ClaimOp::Autorelease) - occurrences(h.registered_from(k), a),
        occurrences(h.registered_from(k), a) == 0 && tally(ops, ClaimOp::Clone) == tally(
            ops,
            ClaimOp::Drop,
        ) + tally(ops, ClaimOp::Autorelease) ==> run(h, a, ops).drained(k).count(a) == h.count(a),
        forall|x: usize|
            x != a ==> run(h, a, ops).drained(k).count(x) == h.count(x) - occurrences(
                h.registered_from(k),
                x,
            ),
{
    let end = run(h, a, ops);
    let start = h.marks[k].start as int;
    let n = h.pending.len() as int;
    lemma_run_balance(h, a, ops);
    end.lemma_drained_wf(k);
    assert(end.pending =~= end.pending.take(n) + end.pending.skip(n));
    assert(end.registered_from(k) =~= h.registered_from(k) + end.pending.skip(n));
    assert forall|x: usize|
        #[trigger] occurrences(end.registered_from(k), x) == occurrences(h.registered_from(k), x)
            + end.deferred(x) - h.deferred(x) by {
        lemma_occurrences_concat(h.registered_from(k), end.pending.skip(n), x);
        lemma_occurrences_concat(h.pending, end.pending.skip(n), x);
    }
    assert forall|x: usize| x != a implies end.drained(k).count(x) == h.count(x) - occurrences(
        h.registered_from(k),
        x,
    ) by {
        assert(occurrences(end.registered_from(k), x) == occurrences(h.registered_from(k), x)
            + end.deferred(x) - h.deferred(x));
    }
    assert(occurrences(end.registered_from(k), a) == occurrences(h.registered_from(k), a)
        + end.deferred(a) - h.deferred(a));
}

} // verus!
