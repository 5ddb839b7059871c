use crate::heap::{lemma_occurrences_split, occurrences, Heap};
use vstd::prelude::*;

verus! {

/// Making the deferred releases from `n` on, and then those from `m` on,
/// is making those from `m` on: none is made twice.
pub proof fn lemma_flushed_twice<T>(h: Heap<T>, m: int, n: int)
    requires
        h.wf_objects(),
        0 <= m <= n <= h.pending.len(),
    ensures
        h.flushed(n).flushed(m) == h.flushed(m),
{
    let first = h.flushed(n);
    let both = first.flushed(m);
    let once = h.flushed(m);
    h.lemma_flushed(n);
    assert(first.pending.skip(m) =~= h.pending.subrange(m, n));
    assert(h.pending.skip(m).take(n - m) =~= h.pending.subrange(m, n));
    assert(h.pending.skip(m).skip(n - m) =~= h.pending.skip(n));
    assert forall|x: usize|
        #[trigger] occurrences(h.pending.skip(m), x) == occurrences(first.pending.skip(m), x)
            + occurrences(h.pending.skip(n), x) by {
        lemma_occurrences_split(h.pending.skip(m), n - m, x);
    }
    assert forall|x: usize|
        #[trigger] both.counts.contains_key(x) == once.counts.contains_key(x) && (
        both.counts.contains_key(x) ==> both.counts[x] == once.counts[x]) by {
        assert(occurrences(h.pending.skip(m), x) == occurrences(first.pending.skip(m), x)
            + occurrences(h.pending.skip(n), x));
        assert(first.count(x) == h.count(x) - occurrences(h.pending.skip(n), x));
    }
    assert(both.counts =~= once.counts);
    assert forall|x: usize|
        #[trigger] both.values.contains_key(x) == once.values.contains_key(x) && (
        both.values.contains_key(x) ==> both.values[x] == once.values[x]) by {
        assert(occurrences(h.pending.skip(m), x) == occurrences(first.pending.skip(m), x)
            + occurrences(h.pending.skip(n), x));
        assert(first.count(x) == h.count(x) - occurrences(h.pending.skip(n), x));
        assert(h.counts.contains_key(x) <==> h.values.contains_key(x));
    }
    assert(both.values =~= once.values);
    assert(both.pending =~= once.pending);
}

/// Pool nesting. Let the pool `outer` be open and the pool `inner` be
/// open inside it. Draining the outer pool releases what the inner pool
/// and the pools inside that hold, in the order in which draining the
/// inner pool would, and only then the rest. Draining the inner pool
/// first leaves the outer pool open; draining the outer pool after that
/// releases only the rest, nothing a second time, and ends where draining
/// the outer pool alone would have ended. Either way the inner pool is
/// closed at the end.
pub proof fn lemma_drain_nested<T>(h: Heap<T>, outer: int, inner: int)
    requires
        h.wf(),
        0 <= outer < inner < h.marks.len(),
    ensures
        h.drain_order(outer) == h.drain_order(inner) + h.drained(inner).drain_order(outer),
        h.drained(inner).wf(),
        h.drained(inner).pool_open(h.marks[outer].id, outer),
        h.drained(inner).drain_order(outer) == h.pending.subrange(
            h.marks[outer].start as int,
            h.marks[inner].start as int,
        ).reverse(),
        h.drained(inner).drained(outer) == h.drained(outer),
        forall|d: int| !h.drained(outer).pool_open(h.marks[inner].id, d),
        forall|d: int| !h.drained(inner).pool_open(h.marks[inner].id, d),
{
    let lo = h.marks[outer].start as int;
    let hi = h.marks[inner].start as int;
    let first = h.drained(inner);
    assert(h.marks[outer].start <= h.marks[inner].start);
    h.lemma_drained_wf(inner);
    lemma_flushed_twice(h, lo, hi);
    assert(first.marks[outer] == h.marks[outer]);
    assert(first.registered_from(outer) =~= h.pending.subrange(lo, hi));
    assert(h.drain_order(outer) =~= h.drain_order(inner) + first.drain_order(outer));
    assert(first.drained(outer).marks =~= h.drained(outer).marks);
    assert(first.drained(outer) =~= h.drained(outer));
    assert forall|d: int| !h.drained(outer).pool_open(h.marks[inner].id, d) by {
        if 0 <= d < outer {
            assert(h.marks[d].id < h.marks[inner].id);
        }
    }
    assert forall|d: int| !h.drained(inner).pool_open(h.marks[inner].id, d) by {
        if 0 <= d < inner {
            assert(h.marks[d].id < h.marks[inner].id);
        }
    }
}

/// Draining a pool releases, newest first, what the pools inside it hold
/// and then what was handed to the pool itself.
pub proof fn lemma_drain_order_by_pool<T>(h: Heap<T>, k: int)
    requires
        h.wf(),
        0 <= k < h.marks.len(),
    ensures
        k + 1 < h.marks.len() ==> h.drain_order(k) == h.drain_order(k + 1) + h.registered_in(
            k,
        ).reverse(),
        k + 1 == h.marks.len() ==> h.drain_order(k) == h.registered_in(k).reverse(),
{
    if k + 1 < h.marks.len() {
        assert(h.marks[k].start <= h.marks[k + 1].start);
        assert(h.drain_order(k) =~= h.drain_order(k + 1) + h.registered_in(k).reverse());
    }
}

/// The identities of the pools that are open tell them apart: a pool is
/// open at one depth at most.
pub proof fn lemma_pool_open_once<T>(h: Heap<T>, id: nat, d: int, e: int)
    requires
        h.wf(),
        h.pool_open(id, d),
        h.pool_open(id, e),
    ensures
        d == e,
{
    if d < e {
        assert(h.marks[d].id < h.marks[e].id);
    } else if e < d {
        assert(h.marks[e].id < h.marks[d].id);
    }
}

/// Whether the pool `id` was opened in `h` at some time and is open no
/// more.
pub open spec fn is_drained<T>(h: Heap<T>, id: nat) -> bool {
    id < h.next_id && forall|d: int| !h.pool_open(id, d)
}

/// Drained is the last state of a pool: whatever is done next, a pool
/// that was drained is drained. A pool that is opened afterwards is
/// another pool.
pub proof fn lemma_drained_is_terminal<T>(h: Heap<T>, id: nat, a: usize, value: T, k: int)
    requires
        h.wf(),
        is_drained(h, id),
    ensures
        is_drained(h.created(value), id),
        is_drained(h.stored(a, value), id),
        is_drained(h.retained(a), id),
        is_drained(h.released(a), id),
        is_drained(h.autoreleased(a), id),
        is_drained(h.pushed(), id),
        0 <= k < h.marks.len() ==> is_drained(h.drained(k), id),
        h.pushed().marks.last().id != id,
{
    assert forall|d: int| !h.created(value).pool_open(id, d) by {
        assert(!h.pool_open(id, d));
    }
    assert forall|d: int| !h.stored(a, value).pool_open(id, d) by {
        assert(!h.pool_open(id, d));
    }
    assert forall|d: int| !h.retained(a).pool_open(id, d) by {
        assert(!h.pool_open(id, d));
    }
    assert forall|d: int| !h.released(a).pool_open(id, d) by {
        assert(!h.pool_open(id, d));
    }
    assert forall|d: int| !h.autoreleased(a).pool_open(id, d) by {
        assert(!h.pool_open(id, d));
    }
    assert forall|d: int| !h.pushed().pool_open(id, d) by {
        assert(!h.pool_open(id, d));
    }
    if 0 <= k < h.marks.len() {
        assert forall|d: int| !h.drained(k).pool_open(id, d) by {
            assert(!h.pool_open(id, d));
        }
    }
}

} // verus!
