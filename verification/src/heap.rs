use vstd::prelude::*;

verus! {

/// How often the address `a` occurs in `s`.
pub open spec fn occurrences(s: Seq<usize>, a: usize) -> nat
    decreases s.len(),
{
    if s.len() == 0 {
        0
    } else {
        occurrences(s.drop_last(), a) + if s.last() == a {
            1nat
        } else {
            0nat
        }
    }
}

/// Occurrences add up over concatenation.
pub proof fn lemma_occurrences_concat(s: Seq<usize>, t: Seq<usize>, a: usize)
    ensures
        occurrences(s + t, a) == occurrences(s, a) + occurrences(t, a),
    decreases t.len(),
{
    if t.len() == 0 {
        assert(s + t =~= s);
    } else {
        lemma_occurrences_concat(s, t.drop_last(), a);
        assert((s + t).drop_last() =~= s + t.drop_last());
        assert((s + t).last() == t.last());
    }
}

/// A sequence of one address holds that address once and no other.
pub proof fn lemma_occurrences_single(x: usize, a: usize)
    ensures
        occurrences(seq![x], a) == if x == a {
            1nat
        } else {
            0nat
        },
{
    assert(seq![x].drop_last() =~= Seq::<usize>::empty());
    assert(occurrences(seq![x].drop_last(), a) == 0);
}

/// Occurrences in a sequence split at `n`.
pub proof fn lemma_occurrences_split(s: Seq<usize>, n: int, a: usize)
    requires
        0 <= n <= s.len(),
    ensures
        occurrences(s, a) == occurrences(s.take(n), a) + occurrences(s.skip(n), a),
{
    assert(s =~= s.take(n) + s.skip(n));
    lemma_occurrences_concat(s.take(n), s.skip(n), a);
}

/// Moving the start of a tail one place to the left adds the address found
/// there.
pub proof fn lemma_occurrences_skip(s: Seq<usize>, n: int, a: usize)
    requires
        0 <= n < s.len(),
    ensures
        occurrences(s.skip(n), a) == occurrences(s.skip(n + 1), a) + if s[n] == a {
            1nat
        } else {
            0nat
        },
{
    assert(s.skip(n) =~= seq![s[n]] + s.skip(n + 1));
    lemma_occurrences_concat(seq![s[n]], s.skip(n + 1), a);
    lemma_occurrences_single(s[n], a);
}

/// The boundary that opening a pool leaves on the stack of pending releases.
#[verifier::ext_equal]
pub ghost struct Mark {
    /// The identity of the pool, given once and never again.
    pub id: nat,
    /// How many releases were pending when the pool was opened.
    pub start: nat,
}

/// The bookkeeping of the foreign runtime, as a mathematical value: which
/// objects are alive, how many claims each has, what each holds, and which
/// releases have been deferred to which pool.
#[verifier::ext_equal]
pub ghost struct Heap<T> {
    /// The reference count of every live object, by address.
    pub counts: Map<usize, nat>,
    /// What every live object holds, by address.
    pub values: Map<usize, T>,
    /// The addresses whose release is deferred, oldest first. One address
    /// may stand here several times: once for each claim handed to a pool.
    pub pending: Seq<usize>,
    /// The pools that are open, outermost first.
    pub marks: Seq<Mark>,
    /// The identity that the next pool will get.
    pub next_id: nat,
    /// How many objects were ever created. Addresses are handed out in
    /// order, from 1, and never again.
    pub allocated: nat,
}

impl<T> Heap<T> {
    /// Whether an object lives at `a`.
    pub open spec fn is_live(self, a: usize) -> bool {
        self.counts.contains_key(a)
    }

    /// The reference count of the object at `a`: zero where none lives.
    pub open spec fn count(self, a: usize) -> nat {
        if self.counts.contains_key(a) {
            self.counts[a]
        } else {
            0
        }
    }

    /// How many claims on `a` have been handed to pools and not released yet.
    pub open spec fn deferred(self, a: usize) -> nat {
        occurrences(self.pending, a)
    }

    /// How many claims on `a` are held outside the pools, by pointers.
    pub open spec fn claims(self, a: usize) -> int {
        self.count(a) - self.deferred(a)
    }

    /// How many pools are open.
    pub open spec fn depth(self) -> nat {
        self.marks.len()
    }

    /// Whether the pool `id` is open as the `depth`-th pool from the outside.
    pub open spec fn pool_open(self, id: nat, depth: int) -> bool {
        0 <= depth < self.marks.len() && self.marks[depth].id == id
    }

    /// The addresses registered in the `k`-th open pool and in every pool
    /// inside it, oldest first.
    pub open spec fn registered_from(self, k: int) -> Seq<usize>
        recommends
            0 <= k < self.marks.len(),
    {
        self.pending.skip(self.marks[k].start as int)
    }

    /// The addresses registered in the `k`-th open pool itself, oldest first.
    pub open spec fn registered_in(self, k: int) -> Seq<usize>
        recommends
            0 <= k < self.marks.len(),
    {
        if k + 1 < self.marks.len() {
            self.pending.subrange(self.marks[k].start as int, self.marks[k + 1].start as int)
        } else {
            self.pending.skip(self.marks[k].start as int)
        }
    }

    /// What holds of the objects at all times: a live object has an address
    /// that was handed out, a value and at least one claim, and no pool
    /// waits to release more claims than there are.
    pub open spec fn wf_objects(self) -> bool {
        &&& forall|a: usize| self.counts.contains_key(a) <==> self.values.contains_key(a)
        &&& forall|a: usize|
            self.counts.contains_key(a) ==> self.counts[a] >= 1 && 1 <= a <= self.allocated
        &&& forall|a: usize| #[trigger] occurrences(self.pending, a) <= self.count(a)
    }

    /// What holds of the pools at all times: they nest, each began where
    /// the one around it had got to, their identities grow inwards, and
    /// nothing is deferred while no pool is open.
    pub open spec fn wf_pools(self) -> bool {
        &&& forall|i: int| 0 <= i < self.marks.len() ==> (#[trigger] self.marks[i]).start
            <= self.pending.len()
        &&& forall|i: int, j: int|
            0 <= i < j < self.marks.len() ==> (#[trigger] self.marks[i]).start <= (
            #[trigger] self.marks[j]).start
        &&& forall|i: int, j: int|
            0 <= i < j < self.marks.len() ==> (#[trigger] self.marks[i]).id < (
            #[trigger] self.marks[j]).id
        &&& forall|i: int| 0 <= i < self.marks.len() ==> (#[trigger] self.marks[i]).id < self.next_id
        &&& self.marks.len() == 0 ==> self.pending.len() == 0
        &&& self.marks.len() > 0 ==> self.marks[0].start == 0
    }

    /// What the bookkeeping must satisfy at all times.
    pub open spec fn wf(self) -> bool {
        self.wf_objects() && self.wf_pools()
    }

    /// A heap with no object and no pool.
    pub open spec fn empty() -> Heap<T> {
        Heap {
            counts: Map::empty(),
            values: Map::empty(),
            pending: Seq::empty(),
            marks: Seq::empty(),
            next_id: 0,
            allocated: 0,
        }
    }

    /// The address that the next object will get.
    pub open spec fn next_addr(self) -> usize {
        (self.allocated + 1) as usize
    }

    /// A new object that holds `value`, with one claim, at the next address.
    pub open spec fn created(self, value: T) -> Heap<T> {
        Heap {
            counts: self.counts.insert(self.next_addr(), 1),
            values: self.values.insert(self.next_addr(), value),
            allocated: self.allocated + 1,
            ..self
        }
    }

    /// One more claim on the object at `a`.
    pub open spec fn retained(self, a: usize) -> Heap<T> {
        Heap { counts: self.counts.insert(a, self.count(a) + 1), ..self }
    }

    /// One claim fewer on the object at `a`; with its last claim the object
    /// goes.
    pub open spec fn released(self, a: usize) -> Heap<T> {
        if self.count(a) <= 1 {
            Heap { counts: self.counts.remove(a), values: self.values.remove(a), ..self }
        } else {
            Heap { counts: self.counts.insert(a, (self.count(a) - 1) as nat), ..self }
        }
    }

    /// One claim on `a` handed to the innermost pool.
    pub open spec fn autoreleased(self, a: usize) -> Heap<T> {
        Heap { pending: self.pending.push(a), ..self }
    }

    /// A new innermost pool.
    pub open spec fn pushed(self) -> Heap<T> {
        Heap {
            marks: self.marks.push(Mark { id: self.next_id, start: self.pending.len() }),
            next_id: self.next_id + 1,
            ..self
        }
    }

    /// The object at `a` holds `value` instead.
    pub open spec fn stored(self, a: usize, value: T) -> Heap<T> {
        Heap { values: self.values.insert(a, value), ..self }
    }

    /// Every deferred release from position `n` on has been made: each
    /// object lost one claim for each time its address stood there, and
    /// those left without a claim are gone.
    pub open spec fn flushed(self, n: int) -> Heap<T>
        recommends
            0 <= n <= self.pending.len(),
    {
        Heap {
            counts: Map::new(
                |a: usize| self.count(a) > occurrences(self.pending.skip(n), a),
                |a: usize| (self.count(a) - occurrences(self.pending.skip(n), a)) as nat,
            ),
            values: Map::new(
                |a: usize|
                    self.values.contains_key(a) && self.count(a) > occurrences(
                        self.pending.skip(n),
                        a,
                    ),
                |a: usize| self.values[a],
            ),
            pending: self.pending.take(n),
            ..self
        }
    }

    /// The `k`-th open pool is drained, and with it every pool inside it.
    pub open spec fn drained(self, k: int) -> Heap<T>
        recommends
            0 <= k < self.marks.len(),
    {
        Heap { marks: self.marks.take(k), ..self.flushed(self.marks[k].start as int) }
    }

    /// The order in which draining the `k`-th open pool releases: the
    /// newest registration first, so the pools inside it before the pool
    /// itself.
    pub open spec fn drain_order(self, k: int) -> Seq<usize>
        recommends
            0 <= k < self.marks.len(),
    {
        self.registered_from(k).reverse()
    }

    /// Retaining a live object keeps the bookkeeping consistent.
    pub proof fn lemma_retained_wf(self, a: usize)
        requires
            self.wf(),
            self.is_live(a),
        ensures
            self.retained(a).wf(),
    {
        let next = self.retained(a);
        assert forall|x: usize| #[trigger] occurrences(next.pending, x) <= next.count(x) by {
            assert(occurrences(self.pending, x) <= self.count(x));
        }
    }

    /// Releasing a claim that no pool holds keeps the bookkeeping
    /// consistent.
    pub proof fn lemma_released_wf(self, a: usize)
        requires
            self.wf(),
            self.claims(a) >= 1,
        ensures
            self.released(a).wf(),
    {
        let next = self.released(a);
        assert forall|x: usize| #[trigger] occurrences(next.pending, x) <= next.count(x) by {
            assert(occurrences(self.pending, x) <= self.count(x));
        }
    }

    /// Handing a claim to the innermost pool keeps the bookkeeping
    /// consistent, and adds one deferred claim on that address and on no
    /// other.
    pub proof fn lemma_autoreleased_wf(self, a: usize)
        requires
            self.wf(),
            self.claims(a) >= 1,
            self.depth() >= 1,
        ensures
            self.autoreleased(a).wf(),
            self.autoreleased(a).deferred(a) == self.deferred(a) + 1,
            forall|x: usize| x != a ==> self.autoreleased(a).deferred(x) == self.deferred(x),
    {
        let next = self.autoreleased(a);
        assert(next.pending =~= self.pending + seq![a]);
        assert forall|x: usize|
            #[trigger] occurrences(next.pending, x) == occurrences(self.pending, x) + if x == a {
                1nat
            } else {
                0nat
            } by {
            lemma_occurrences_concat(self.pending, seq![a], x);
            lemma_occurrences_single(a, x);
        }
        assert forall|x: usize| #[trigger] occurrences(next.pending, x) <= next.count(x) by {
            assert(occurrences(self.pending, x) <= self.count(x));
        }
    }

    /// Opening a pool keeps the bookkeeping consistent; the new pool is
    /// the innermost and holds nothing.
    pub proof fn lemma_pushed_wf(self)
        requires
            self.wf(),
        ensures
            self.pushed().wf(),
            self.pushed().pool_open(self.next_id, self.depth() as int),
            self.pushed().registered_from(self.depth() as int) == Seq::<usize>::empty(),
    {
        let next = self.pushed();
        assert(next.registered_from(self.depth() as int) =~= Seq::<usize>::empty());
    }

    /// Making the deferred releases from position `n` on keeps the objects
    /// consistent, and takes from each count what stood there.
    pub proof fn lemma_flushed(self, n: int)
        requires
            self.wf_objects(),
            0 <= n <= self.pending.len(),
        ensures
            self.flushed(n).wf_objects(),
            forall|x: usize|
                #[trigger] self.flushed(n).count(x) == self.count(x) - occurrences(
                    self.pending.skip(n),
                    x,
                ),
    {
        let next = self.flushed(n);
        assert forall|x: usize|
            #[trigger] next.count(x) == self.count(x) - occurrences(self.pending.skip(n), x)
                && occurrences(next.pending, x) <= next.count(x) by {
            lemma_occurrences_split(self.pending, n, x);
            assert(occurrences(self.pending, x) <= self.count(x));
        }
    }

    /// Draining an open pool keeps the bookkeeping consistent, closes the
    /// pool and those inside it, and takes from each count the claims that
    /// they held.
    pub proof fn lemma_drained_wf(self, k: int)
        requires
            self.wf(),
            0 <= k < self.marks.len(),
        ensures
            self.drained(k).wf(),
            self.drained(k).depth() == k,
            forall|x: usize|
                #[trigger] self.drained(k).count(x) == self.count(x) - occurrences(
                    self.registered_from(k),
                    x,
                ),
    {
        let start = self.marks[k].start as int;
        self.lemma_flushed(start);
        let next = self.drained(k);
        assert forall|i: int| 0 <= i < next.marks.len() implies (#[trigger] next.marks[i]).start
            <= next.pending.len() by {
            assert(self.marks[i].start <= self.marks[k].start);
        }
        assert forall|x: usize|
            #[trigger] next.count(x) == self.count(x) - occurrences(
                self.registered_from(k),
                x,
            ) by {
            assert(next.count(x) == self.flushed(start).count(x));
        }
    }
}

} // verus!
