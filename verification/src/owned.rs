use crate::handle::Handle;
use crate::runtime::Runtime;
use core::marker::PhantomData;
use vstd::prelude::*;

verus! {

/// A pointer that holds the only claim on an object, and so may change
/// what the object holds.
///
/// That no other pointer to the object exists is for the one who makes an
/// `Owned` to know. What can be checked is stated by `is_exclusive`: the
/// object has one claim, and no pool waits to release it.
pub struct Owned<T> {
    handle: Handle,
    phantom: PhantomData<T>,
}

impl<T> Owned<T> {
    /// The handle that the pointer wraps.
    pub closed spec fn handle(&self) -> Handle {
        self.handle
    }

    /// The address of the object.
    pub open spec fn addr(&self) -> usize {
        self.handle().addr()
    }

    /// Whether the claim of this pointer is the only one on its object in
    /// `rt`.
    pub open spec fn is_exclusive(&self, rt: &Runtime<T>) -> bool {
        rt@.count(self.addr()) == 1 && rt@.deferred(self.addr()) == 0
    }

    /// Takes over the one claim on the object at `handle`. The runtime is
    /// looked at and not called: no count changes.
    ///
    /// The object must have that one claim and no other. That no other
    /// pointer stands for it already is for the caller to know.
    pub fn new(handle: Handle, rt: &Runtime<T>) -> (r: Owned<T>)
        requires
            rt.wf(),
            rt@.count(handle.addr()) == 1,
            rt@.deferred(handle.addr()) == 0,
        ensures
            r.handle() == handle,
            r.is_exclusive(rt),
    {
        Owned { handle, phantom: PhantomData }
    }

    /// The handle that the pointer wraps.
    pub fn as_ptr(&self) -> (r: Handle)
        ensures
            r == self.handle(),
    {
        self.handle
    }

    /// Gives up the pointer and keeps its claim, as a bare handle.
    pub fn into_raw(self) -> (r: Handle)
        ensures
            r == self.handle(),
    {
        self.handle
    }

    /// What the object holds, for as long as the pointer and the runtime
    /// are left alone.
    pub fn deref<'a>(&'a self, rt: &'a Runtime<T>) -> (r: &'a T)
        requires
            rt.wf(),
            rt@.is_live(self.addr()),
        ensures
            *r == rt@.values[self.addr()],
    {
        rt.get(self.handle)
    }

    /// Mutable access to what the object holds. What is written through
    /// it is what the object holds afterwards; nothing else changes.
    pub fn deref_mut<'a>(&'a mut self, rt: &'a mut Runtime<T>) -> (r: &'a mut T)
        requires
            old(rt).wf(),
            old(self).is_exclusive(old(rt)),
        ensures
            final(self).handle() == old(self).handle(),
            *r == old(rt)@.values[old(self).addr()],
            final(rt).wf(),
            final(rt)@ =~= old(rt)@.stored(old(self).addr(), *final(r)),
    {
        rt.get_mut(self.handle)
    }

    /// Destroys the pointer: its claim is released, and the object, on
    /// which it was the only claim, goes.
    pub fn release(self, rt: &mut Runtime<T>)
        requires
            old(rt).wf(),
            self.is_exclusive(old(rt)),
        ensures
            final(rt).wf(),
            final(rt)@ == old(rt)@.released(self.addr()),
            !final(rt)@.is_live(self.addr()),
    {
        rt.release(self.handle);
    }
}

} // verus!
