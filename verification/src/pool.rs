use crate::handle::{addrs, Handle};
use crate::runtime::Runtime;
use vstd::prelude::*;

verus! {

/// Where a pool stands in its life.
#[derive(Clone, Copy, Debug, PartialEq, Eq, Structural)]
pub enum PoolState {
    /// Open: claims can be handed to it.
    Active,
    /// Drained: it has released what it held and will hold nothing again.
    Drained,
}

/// A scope to which releases are deferred. It is opened inside the pools
/// that are open at that time, and drained by value, so at most once.
pub struct AutoreleasePool {
    id: u64,
    depth: usize,
}

impl AutoreleasePool {
    /// The identity of the pool in its runtime.
    pub closed spec fn id(&self) -> nat {
        self.id as nat
    }

    /// How many pools were open around this one when it was opened.
    pub closed spec fn depth(&self) -> int {
        self.depth as int
    }

    /// Whether the pool is open in `rt`.
    pub open spec fn is_active<T>(&self, rt: &Runtime<T>) -> bool {
        rt@.pool_open(self.id(), self.depth())
    }

    /// Opens a pool in `rt`, inside those that are open.
    pub fn new<T>(rt: &mut Runtime<T>) -> (pool: AutoreleasePool)
        requires
            old(rt).wf(),
            old(rt)@.next_id < u64::MAX,
        ensures
            final(rt).wf(),
            final(rt)@ == old(rt)@.pushed(),
            pool.id() == old(rt)@.next_id,
            pool.depth() == old(rt)@.depth(),
            pool.is_active(final(rt)),
    {
        let depth: usize = rt.depth();
        let id: u64 = rt.push_pool();
        AutoreleasePool { id, depth }
    }

    /// Where the pool stands in `rt`: active until it is drained, by
    /// itself or by a pool around it.
    pub fn state<T>(&self, rt: &Runtime<T>) -> (r: PoolState)
        requires
            rt.wf(),
        ensures
            r == PoolState::Active <==> self.is_active(rt),
            r == PoolState::Drained <==> !self.is_active(rt),
    {
        if rt.pool_open(self.id, self.depth) {
            PoolState::Active
        } else {
            PoolState::Drained
        }
    }

    /// Ends the scope: releases every claim handed to this pool and to the
    /// pools inside it, the newest first, and closes them. The handles come
    /// back in the order of their release. A pool that a pool around it
    /// has drained already releases nothing.
    pub fn drain<T>(self, rt: &mut Runtime<T>) -> (log: Vec<Handle>)
        requires
            old(rt).wf(),
        ensures
            final(rt).wf(),
            self.is_active(old(rt)) ==> final(rt)@ == old(rt)@.drained(self.depth())
                && addrs(log@) == old(rt)@.drain_order(self.depth()),
            !self.is_active(old(rt)) ==> final(rt)@ == old(rt)@ && log@.len() == 0,
            !self.is_active(final(rt)),
    {
        rt.drain_pool(self.id, self.depth)
    }
}

} // verus!
