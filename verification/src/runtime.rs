use crate::handle::{addrs, Handle};
use crate::heap::{
    lemma_occurrences_concat, lemma_occurrences_single, lemma_occurrences_skip, occurrences, Heap,
    Mark,
};
use vstd::prelude::*;

verus! {

/// Where a pool began on the stack of pending releases.
pub struct PoolMark {
    id: u64,
    start: usize,
}

/// The runtime that the pointers of this library count against: it keeps
/// the objects, a reference count for each, and the stack of pools to which
/// releases are deferred.
///
/// An object lives at the address one above its slot. A slot is used once:
/// after its object has gone, its count stays zero.
pub struct Runtime<T> {
    counts: Vec<usize>,
    values: Vec<Option<T>>,
    pending: Vec<Handle>,
    marks: Vec<PoolMark>,
    next_id: u64,
}

impl<T> View for Runtime<T> {
    type V = Heap<T>;

    closed spec fn view(&self) -> Heap<T> {
        Heap {
            counts: Map::new(
                |a: usize| 1 <= a <= self.counts.len() && self.counts[a - 1] > 0,
                |a: usize| self.counts[a - 1] as nat,
            ),
            values: Map::new(
                |a: usize| 1 <= a <= self.counts.len() && self.counts[a - 1] > 0,
                |a: usize| self.values[a - 1].unwrap(),
            ),
            pending: addrs(self.pending@),
            marks: self.marks@.map_values(
                |m: PoolMark| (Mark { id: m.id as nat, start: m.start as nat }),
            ),
            next_id: self.next_id as nat,
            allocated: self.counts.len() as nat,
        }
    }
}

impl<T> Runtime<T> {
    /// What holds of the representation: every slot has a count and a
    /// place for a value, and holds a value exactly while its count is not
    /// zero.
    pub closed spec fn inv(&self) -> bool {
        &&& self.counts.len() == self.values.len()
        &&& forall|i: int|
            0 <= i < self.counts.len() ==> (#[trigger] self.counts[i] > 0
                <==> self.values[i].is_some())
    }

    /// The runtime is well formed: its representation is sound and its
    /// bookkeeping consistent.
    pub open spec fn wf(&self) -> bool {
        self.inv() && self@.wf()
    }

    /// A runtime with no object and no pool.
    pub fn new() -> (r: Runtime<T>)
        ensures
            r.wf(),
            r@ == Heap::<T>::empty(),
    {
        let r = Runtime {
            counts: Vec::new(),
            values: Vec::new(),
            pending: Vec::new(),
            marks: Vec::new(),
            next_id: 0,
        };
        proof {
            assert(r@.counts =~= Map::<usize, nat>::empty());
            assert(r@.values =~= Map::<usize, T>::empty());
            assert(r@.pending =~= Seq::<usize>::empty());
            assert(r@.marks =~= Seq::<Mark>::empty());
        }
        r
    }

    /// Creates an object that holds `value`, with a count of one: the
    /// caller has the one claim on it. Nothing is created, and nothing
    /// changes, once every address has been handed out.
    pub fn create(&mut self, value: T) -> (r: Option<Handle>)
        requires
            old(self).wf(),
        ensures
            final(self).wf(),
            r.is_some() <==> old(self)@.allocated < usize::MAX,
            r.is_some() ==> r.unwrap().addr() == old(self)@.next_addr() && final(self)@ == old(
                self,
            )@.created(value),
            r.is_none() ==> final(self)@ == old(self)@,
    {
        let n: usize = self.counts.len();
        if n == usize::MAX {
            return None;
        }
        let r = Handle::new(n + 1);
        self.counts.push(1);
        self.values.push(Some(value));
        proof {
            let a: usize = (n + 1) as usize;
            assert(self@.counts =~= old(self)@.counts.insert(a, 1));
            assert(self@.values =~= old(self)@.values.insert(a, value));
            assert(self@.pending == old(self)@.pending);
            assert(self@.marks == old(self)@.marks);
            assert(self@ == old(self)@.created(value));
            assert forall|x: usize| #[trigger]
                occurrences(self@.pending, x) <= self@.count(x) by {
                assert(occurrences(old(self)@.pending, x) <= old(self)@.count(x));
            }
        }
        r
    }

    /// The reference count of the object that `h` names: zero where no
    /// object lives there.
    pub fn retain_count(&self, h: Handle) -> (r: usize)
        requires
            self.wf(),
        ensures
            r == self@.count(h.addr()),
    {
        let a: usize = h.as_usize();
        if a - 1 < self.counts.len() {
            self.counts[a - 1]
        } else {
            0
        }
    }

    /// Whether an object lives where `h` points.
    pub fn is_live(&self, h: Handle) -> (r: bool)
        requires
            self.wf(),
        ensures
            r == self@.is_live(h.addr()),
    {
        let a: usize = h.as_usize();
        a - 1 < self.counts.len() && self.counts[a - 1] > 0
    }

    /// How many claims on the object at `h` the pools hold: how often its
    /// release has been deferred and not made yet.
    pub fn deferred(&self, h: Handle) -> (r: usize)
        requires
            self.wf(),
        ensures
            r == self@.deferred(h.addr()),
    {
        let a: usize = h.as_usize();
        let mut n: usize = 0;
        let mut i: usize = 0;
        while i < self.pending.len()
            invariant
                i <= self.pending.len(),
                n <= i,
                n == occurrences(self@.pending.take(i as int), a),
                a == h.addr(),
            decreases self.pending.len() - i,
        {
            let x: usize = self.pending[i].as_usize();
            proof {
                assert(self@.pending.take(i + 1) =~= self@.pending.take(i as int) + seq![x]);
                lemma_occurrences_concat(self@.pending.take(i as int), seq![x], a);
                lemma_occurrences_single(x, a);
            }
            if x == a {
                n = n + 1;
            }
            i = i + 1;
        }
        proof {
            assert(self@.pending.take(i as int) =~= self@.pending);
        }
        n
    }

    /// How many claims on the object at `h` are held outside the pools, by
    /// pointers.
    pub fn claims(&self, h: Handle) -> (r: usize)
        requires
            self.wf(),
        ensures
            r == self@.claims(h.addr()),
    {
        let total: usize = self.retain_count(h);
        let held: usize = self.deferred(h);
        proof {
            assert(occurrences(self@.pending, h.addr()) <= self@.count(h.addr()));
        }
        total - held
    }

    /// How many pools were ever opened: the identity that the next pool
    /// will get.
    pub fn pools_opened(&self) -> (r: u64)
        requires
            self.wf(),
        ensures
            r == self@.next_id,
    {
        self.next_id
    }

    /// How many pools are open.
    pub fn depth(&self) -> (r: usize)
        requires
            self.wf(),
        ensures
            r == self@.depth(),
    {
        self.marks.len()
    }

    /// What the object at `h` holds.
    pub fn get(&self, h: Handle) -> (r: &T)
        requires
            self.wf(),
            self@.is_live(h.addr()),
        ensures
            *r == self@.values[h.addr()],
    {
        let a: usize = h.as_usize();
        self.values[a - 1].as_ref().unwrap()
    }

    /// The retain primitive: one more claim on the object at `h`. It gives
    /// back the handle it was given.
    pub fn retain(&mut self, h: Handle) -> (r: Handle)
        requires
            old(self).wf(),
            old(self)@.is_live(h.addr()),
            old(self)@.count(h.addr()) < usize::MAX,
        ensures
            final(self).wf(),
            final(self)@ == old(self)@.retained(h.addr()),
            r == h,
    {
        let a: usize = h.as_usize();
        let c: usize = self.counts[a - 1];
        self.counts.set(a - 1, c + 1);
        proof {
            assert(self@.counts =~= old(self)@.counts.insert(a, (c + 1) as nat));
            assert(self@.values =~= old(self)@.values);
            assert(self@ == old(self)@.retained(a));
            assert forall|x: usize| #[trigger]
                occurrences(self@.pending, x) <= self@.count(x) by {
                assert(occurrences(old(self)@.pending, x) <= old(self)@.count(x));
            }
        }
        h
    }

    /// Takes one claim from the object at `h`, and the object with its
    /// last one. The pools are not looked at.
    fn release_at(&mut self, h: Handle)
        requires
            old(self).inv(),
            old(self)@.wf_objects(),
            old(self)@.claims(h.addr()) >= 1,
        ensures
            final(self).inv(),
            final(self)@.wf_objects(),
            final(self)@ == old(self)@.released(h.addr()),
    {
        let a: usize = h.as_usize();
        let c: usize = self.counts[a - 1];
        if c == 1 {
            self.counts.set(a - 1, 0);
            self.values.set(a - 1, None);
            proof {
                assert(self@.counts =~= old(self)@.counts.remove(a));
                assert(self@.values =~= old(self)@.values.remove(a));
            }
        } else {
            self.counts.set(a - 1, c - 1);
            proof {
                assert(self@.counts =~= old(self)@.counts.insert(a, (c - 1) as nat));
                assert(self@.values =~= old(self)@.values);
            }
        }
        proof {
            assert(self@ == old(self)@.released(a));
            assert forall|x: usize| #[trigger]
                occurrences(self@.pending, x) <= self@.count(x) by {
                assert(occurrences(old(self)@.pending, x) <= old(self)@.count(x));
            }
        }
    }

    /// The release primitive: one claim fewer on the object at `h`. The
    /// claim given up must be one that no pool holds. With its last claim
    /// the object is destroyed.
    pub fn release(&mut self, h: Handle)
        requires
            old(self).wf(),
            old(self)@.claims(h.addr()) >= 1,
        ensures
            final(self).wf(),
            final(self)@ == old(self)@.released(h.addr()),
    {
        self.release_at(h);
    }

    /// The autorelease primitive: hands one claim on the object at `h` to
    /// the innermost open pool, which releases it when it is drained. The
    /// count stays as it is. It gives back the handle it was given.
    pub fn autorelease(&mut self, h: Handle) -> (r: Handle)
        requires
            old(self).wf(),
            old(self)@.claims(h.addr()) >= 1,
            old(self)@.depth() >= 1,
        ensures
            final(self).wf(),
            final(self)@ == old(self)@.autoreleased(h.addr()),
            r == h,
    {
        self.pending.push(h);
        proof {
            let a = h.addr();
            assert(self@.counts =~= old(self)@.counts);
            assert(self@.values =~= old(self)@.values);
            assert(self@.pending =~= old(self)@.pending.push(a));
            assert(self@ == old(self)@.autoreleased(a));
            assert forall|x: usize| #[trigger]
                occurrences(self@.pending, x) <= self@.count(x) by {
                assert(self@.pending =~= old(self)@.pending + seq![a]);
                lemma_occurrences_concat(old(self)@.pending, seq![a], x);
                lemma_occurrences_single(a, x);
                assert(occurrences(old(self)@.pending, x) <= old(self)@.count(x));
            }
        }
        h
    }

    /// Opens a pool inside those that are open, and gives its identity.
    /// Identities are numbered from zero and never given twice.
    pub fn push_pool(&mut self) -> (id: u64)
        requires
            old(self).wf(),
            old(self)@.next_id < u64::MAX,
        ensures
            final(self).wf(),
            final(self)@ == old(self)@.pushed(),
            id == old(self)@.next_id,
    {
        let id: u64 = self.next_id;
        let start: usize = self.pending.len();
        self.marks.push(PoolMark { id, start });
        self.next_id = id + 1;
        proof {
            assert(self@.counts =~= old(self)@.counts);
            assert(self@.values =~= old(self)@.values);
            assert(self@.pending =~= old(self)@.pending);
            assert(self@.marks =~= old(self)@.marks.push(
                Mark { id: id as nat, start: start as nat },
            ));
            assert(self@ == old(self)@.pushed());
        }
        id
    }

    /// Whether the pool `id` is open as the `depth`-th pool from the
    /// outside.
    pub fn pool_open(&self, id: u64, depth: usize) -> (r: bool)
        requires
            self.wf(),
        ensures
            r == self@.pool_open(id as nat, depth as int),
    {
        depth < self.marks.len() && self.marks[depth].id == id
    }

    /// Drains the pool `id`, which was opened as the `depth`-th from the
    /// outside, and with it every pool inside it: each claim that was
    /// handed to them is released, the newest first, and the pools are
    /// closed. The handles come back in the order of their release. Where
    /// that pool is no longer open, nothing is released and nothing
    /// changes.
    pub fn drain_pool(&mut self, id: u64, depth: usize) -> (log: Vec<Handle>)
        requires
            old(self).wf(),
        ensures
            final(self).wf(),
            old(self)@.pool_open(id as nat, depth as int) ==> final(self)@ == old(self)@.drained(
                depth as int,
            ) && addrs(log@) == old(self)@.drain_order(depth as int),
            !old(self)@.pool_open(id as nat, depth as int) ==> final(self)@ == old(self)@
                && log@.len() == 0,
    {
        let mut log: Vec<Handle> = Vec::new();
        if !self.pool_open(id, depth) {
            return log;
        }
        let start: usize = self.marks[depth].start;
        let ghost before = self@;
        let ghost total = before.pending.len() as int;
        proof {
            assert(before.marks[depth as int].start == start);
            assert(before.pending.skip(total) =~= Seq::<usize>::empty());
            assert(before.pending.take(total) =~= before.pending);
            assert(before.flushed(total).counts =~= before.counts);
            assert(before.flushed(total).values =~= before.values);
            assert(before.flushed(total) == before);
            assert(addrs(log@) =~= before.pending.skip(
                total,
            ).reverse());
        }
        while self.pending.len() > start
            invariant
                self.inv(),
                before.wf(),
                self@.wf_objects(),
                total == before.pending.len(),
                start <= self.pending.len() <= total,
                self@ == before.flushed(self.pending.len() as int),
                addrs(log@) =~= before.pending.skip(
                    self.pending.len() as int,
                ).reverse(),
            decreases self.pending.len(),
        {
            let ghost n = self.pending.len() - 1;
            let ghost mid = self@;
            let ghost log_before = log@;
            let h = self.pending.pop().unwrap();
            proof {
                let a = h.addr();
                assert(mid.pending[n] == a);
                assert(before.pending.take(n + 1)[n] == a);
                assert(before.pending[n] == a);
                assert(self@.counts =~= mid.counts);
                assert(self@.values =~= mid.values);
                assert(self@.pending =~= before.pending.take(n));
                assert(self@.marks == mid.marks);
                assert forall|x: usize| #[trigger]
                    occurrences(self@.pending, x) <= self@.count(x) by {
                    assert(before.pending.take(n + 1) =~= before.pending.take(n) + seq![a]);
                    lemma_occurrences_concat(before.pending.take(n), seq![a], x);
                    assert(occurrences(mid.pending, x) <= mid.count(x));
                }
                assert(before.pending.take(n + 1) =~= before.pending.take(n) + seq![a]);
                lemma_occurrences_concat(before.pending.take(n), seq![a], a);
                lemma_occurrences_single(a, a);
                assert(occurrences(mid.pending, a) <= mid.count(a));
                assert(self@.claims(a) >= 1);
            }
            self.release_at(h);
            log.push(h);
            proof {
                let a = h.addr();
                let now = self@;
                let goal = before.flushed(n);
                assert forall|x: usize| #[trigger]
                    now.counts.contains_key(x) == goal.counts.contains_key(x) && (
                    now.counts.contains_key(x) ==> now.counts[x] == goal.counts[x]) by {
                    lemma_occurrences_skip(before.pending, n, x);
                }
                assert(now.counts =~= goal.counts);
                assert forall|x: usize| #[trigger]
                    now.values.contains_key(x) == goal.values.contains_key(x) && (
                    now.values.contains_key(x) ==> now.values[x] == goal.values[x]) by {
                    lemma_occurrences_skip(before.pending, n, x);
                    assert(before.counts.contains_key(x) <==> before.values.contains_key(x));
                }
                assert(now.values =~= goal.values);
                assert(now.pending =~= goal.pending);
                assert(now == goal);
                assert(before.pending.skip(n).reverse() =~= before.pending.skip(
                    n + 1,
                ).reverse().push(a));
                assert(addrs(log@) =~= addrs(log_before).push(a));
            }
        }
        self.marks.truncate(depth);
        proof {
            assert(self@.counts =~= before.flushed(start as int).counts);
            assert(self@.values =~= before.flushed(start as int).values);
            assert(self@.pending =~= before.flushed(start as int).pending);
            assert(self@.marks =~= before.marks.take(depth as int));
            assert(self@ == before.drained(depth as int));
            assert(self@.wf_pools()) by {
                assert forall|i: int| 0 <= i < self@.marks.len() implies (
                #[trigger] self@.marks[i]).start <= self@.pending.len() by {
                    assert(before.marks[i].start <= before.marks[depth as int].start);
                }
            }
        }
        log
    }

    /// Mutable access to what the object at `h` holds. Whatever is written
    /// there is what the object holds afterwards; nothing else changes.
    pub fn get_mut(&mut self, h: Handle) -> (r: &mut T)
        requires
            old(self).wf(),
            old(self)@.is_live(h.addr()),
        ensures
            *r == old(self)@.values[h.addr()],
            final(self).wf(),
            final(self)@ =~= old(self)@.stored(h.addr(), *final(r)),
    {
        let a: usize = h.as_usize();
        self.values[a - 1].as_mut().unwrap()
    }
}

} // verus!
