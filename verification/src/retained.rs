use crate::handle::Handle;
use crate::owned::Owned;
use crate::pool::AutoreleasePool;
use crate::runtime::Runtime;
use core::marker::PhantomData;
use std::sync::Arc;
use vstd::prelude::*;
use vstd::std_specs::cmp::PartialEqSpec;
use vstd::std_specs::convert::FromSpecImpl;

verus! {

/// A pointer that holds one claim on an object, and so keeps it alive.
///
/// Other pointers may hold claims on the same object, so a `Retained`
/// gives read access only. It is as large as the handle it wraps. It can
/// go to another thread only where the object's type can be both shared
/// with and sent to one, as with `Arc`.
pub struct Retained<T> {
    handle: Handle,
    phantom: PhantomData<Arc<T>>,
}

impl<T> Retained<T> {
    /// The handle that the pointer wraps.
    pub closed spec fn handle(&self) -> Handle {
        self.handle
    }

    /// The address of the object.
    pub open spec fn addr(&self) -> usize {
        self.handle().addr()
    }

    /// The pointer that wraps `handle`.
    pub closed spec fn wrap(handle: Handle) -> Retained<T> {
        Retained { handle, phantom: PhantomData }
    }

    /// The pointer that wraps a handle wraps that handle.
    pub proof fn lemma_wrap(handle: Handle)
        ensures
            #[trigger] Self::wrap(handle).handle() == handle,
    {
    }

    /// Narrowing an exclusive pointer gives the shared pointer that wraps
    /// its handle. It takes no runtime, so it retains nothing: where the
    /// exclusive pointer had the only claim on its object, the shared
    /// pointer has it, and the count is still one.
    pub proof fn lemma_narrowing(obj: Owned<T>, rt: &Runtime<T>)
        ensures
            Self::wrap(obj.handle()).handle() == obj.handle(),
            obj.is_exclusive(rt) ==> Self::wrap(obj.handle()).has_claim(rt) && rt@.count(
                Self::wrap(obj.handle()).addr(),
            ) == 1,
    {
    }

    /// Whether the pointer can have a claim of its own in `rt`: one that
    /// no pool waits to release.
    pub open spec fn has_claim(&self, rt: &Runtime<T>) -> bool {
        rt@.claims(self.addr()) >= 1
    }

    /// Wraps a handle that comes with a claim: the pointer takes the claim
    /// over. The runtime is looked at and not called: no count changes.
    ///
    /// The claim must be one that no pool holds. That no other pointer
    /// stands for it already is for the caller to know.
    pub fn new(handle: Handle, rt: &Runtime<T>) -> (r: Retained<T>)
        requires
            rt.wf(),
            rt@.claims(handle.addr()) >= 1,
        ensures
            r == Self::wrap(handle),
            r.handle() == handle,
            r.has_claim(rt),
    {
        Retained { handle, phantom: PhantomData }
    }

    /// The handle that the pointer wraps.
    pub fn as_ptr(&self) -> (r: Handle)
        ensures
            r == self.handle(),
    {
        self.handle
    }

    /// Retains the object at `handle` and wraps the handle: the pointer
    /// has a new claim of its own.
    pub fn retain(handle: Handle, rt: &mut Runtime<T>) -> (r: Retained<T>)
        requires
            old(rt).wf(),
            old(rt)@.is_live(handle.addr()),
            old(rt)@.count(handle.addr()) < usize::MAX,
        ensures
            final(rt).wf(),
            final(rt)@ == old(rt)@.retained(handle.addr()),
            r.handle() == handle,
            r.has_claim(final(rt)),
    {
        let rtn = rt.retain(handle);
        // The runtime gives back the handle that it was given.
        assert(rtn == handle);
        Retained { handle: rtn, phantom: PhantomData }
    }

    /// A second pointer to the same object, with a claim of its own.
    pub fn clone(&self, rt: &mut Runtime<T>) -> (r: Retained<T>)
        requires
            old(rt).wf(),
            old(rt)@.is_live(self.addr()),
            old(rt)@.count(self.addr()) < usize::MAX,
        ensures
            final(rt).wf(),
            final(rt)@ == old(rt)@.retained(self.addr()),
            r.handle() == self.handle(),
            r.has_claim(final(rt)),
    {
        Retained::retain(self.handle, rt)
    }

    /// What the object holds, for as long as the pointer and the runtime
    /// are left alone.
    pub fn deref<'a>(&'a self, rt: &'a Runtime<T>) -> (r: &'a T)
        requires
            rt.wf(),
            rt@.is_live(self.addr()),
        ensures
            *r == rt@.values[self.addr()],
    {
        rt.get(self.handle)
    }

    /// Destroys the pointer: its claim is released, once. With the last
    /// claim the object goes.
    pub fn release(self, rt: &mut Runtime<T>)
        requires
            old(rt).wf(),
            self.has_claim(old(rt)),
        ensures
            final(rt).wf(),
            final(rt)@ == old(rt)@.released(self.addr()),
    {
        rt.release(self.handle);
    }

    /// Hands the pointer's claim to the innermost open pool, which
    /// releases it when it is drained; until then the object lives on with
    /// its count unchanged. The view that comes back holds the runtime, so
    /// no pool can be drained while it is in use.
    pub fn autorelease<'p>(self, rt: &'p mut Runtime<T>, pool: &'p AutoreleasePool) -> (r: &'p T)
        requires
            old(rt).wf(),
            self.has_claim(old(rt)),
            pool.is_active(old(rt)),
        ensures
            final(rt).wf(),
            final(rt)@ == old(rt)@.autoreleased(self.addr()),
            *r == old(rt)@.values[self.addr()],
    {
        let h = rt.autorelease(self.handle);
        rt.get(h)
    }

    /// As `autorelease`, for a pointer that a function is about to hand to
    /// its caller; this runtime has no cheaper way for that.
    pub fn autorelease_return<'p>(self, rt: &'p mut Runtime<T>, pool: &'p AutoreleasePool) -> (r:
        &'p T)
        requires
            old(rt).wf(),
            self.has_claim(old(rt)),
            pool.is_active(old(rt)),
        ensures
            final(rt).wf(),
            final(rt)@ == old(rt)@.autoreleased(self.addr()),
            *r == old(rt)@.values[self.addr()],
    {
        self.autorelease(rt, pool)
    }

    /// As `retain`, for a handle that a function has just handed back
    /// after deferring its release; this runtime has no cheaper way for
    /// that.
    pub fn retain_autoreleased_return(obj: Handle, rt: &mut Runtime<T>) -> (r: Retained<T>)
        requires
            old(rt).wf(),
            old(rt)@.is_live(obj.addr()),
            old(rt)@.count(obj.addr()) < usize::MAX,
        ensures
            final(rt).wf(),
            final(rt)@ == old(rt)@.retained(obj.addr()),
            r.handle() == obj,
            r.has_claim(final(rt)),
    {
        Retained::retain(obj, rt)
    }

    /// Retains the object at `obj` and hands the new claim to the
    /// innermost open pool at once: the object lives at least until that
    /// pool is drained.
    pub fn retain_and_autorelease<'p>(
        obj: Handle,
        rt: &'p mut Runtime<T>,
        pool: &'p AutoreleasePool,
    ) -> (r: &'p T)
        requires
            old(rt).wf(),
            old(rt)@.is_live(obj.addr()),
            old(rt)@.count(obj.addr()) < usize::MAX,
            pool.is_active(old(rt)),
        ensures
            final(rt).wf(),
            final(rt)@ == old(rt)@.retained(obj.addr()).autoreleased(obj.addr()),
            *r == old(rt)@.values[obj.addr()],
    {
        let retained = Retained::retain(obj, rt);
        retained.autorelease(rt, pool)
    }

    /// As `retain_and_autorelease`, for a handle that a function is about
    /// to hand to its caller.
    pub fn retain_and_autorelease_return<'p>(
        obj: Handle,
        rt: &'p mut Runtime<T>,
        pool: &'p AutoreleasePool,
    ) -> (r: &'p T)
        requires
            old(rt).wf(),
            old(rt)@.is_live(obj.addr()),
            old(rt)@.count(obj.addr()) < usize::MAX,
            pool.is_active(old(rt)),
        ensures
            final(rt).wf(),
            final(rt)@ == old(rt)@.retained(obj.addr()).autoreleased(obj.addr()),
            *r == old(rt)@.values[obj.addr()],
    {
        Retained::retain_and_autorelease(obj, rt, pool)
    }

    /// Whether the two objects are equal, as their own type compares
    /// them: the pointers may differ.
    pub fn eq(&self, other: &Retained<T>, rt: &Runtime<T>) -> (r: bool) where T: PartialEq
        requires
            rt.wf(),
            rt@.is_live(self.addr()),
            rt@.is_live(other.addr()),
        ensures
            T::obeys_eq_spec() ==> r == rt@.values[self.addr()].eq_spec(
                &rt@.values[other.addr()],
            ),
    {
        rt.get(self.handle) == rt.get(other.handle)
    }

    /// Whether the two objects differ, as their own type compares them.
    pub fn ne(&self, other: &Retained<T>, rt: &Runtime<T>) -> (r: bool) where T: PartialEq
        requires
            rt.wf(),
            rt@.is_live(self.addr()),
            rt@.is_live(other.addr()),
        ensures
            T::obeys_eq_spec() ==> r == !rt@.values[self.addr()].eq_spec(
                &rt@.values[other.addr()],
            ),
    {
        rt.get(self.handle) != rt.get(other.handle)
    }

    /// What the object holds, for code that asks for a borrowed value.
    pub fn borrow<'a>(&'a self, rt: &'a Runtime<T>) -> (r: &'a T)
        requires
            rt.wf(),
            rt@.is_live(self.addr()),
        ensures
            *r == rt@.values[self.addr()],
    {
        self.deref(rt)
    }

    /// What the object holds, for code that asks for a reference.
    pub fn as_ref<'a>(&'a self, rt: &'a Runtime<T>) -> (r: &'a T)
        requires
            rt.wf(),
            rt@.is_live(self.addr()),
        ensures
            *r == rt@.values[self.addr()],
    {
        self.deref(rt)
    }

    /// The reference count of the object: the claims of all its pointers
    /// and pools together.
    pub fn retain_count(&self, rt: &Runtime<T>) -> (r: usize)
        requires
            rt.wf(),
        ensures
            r == rt@.count(self.addr()),
    {
        rt.retain_count(self.handle)
    }
}

impl<T> FromSpecImpl<Owned<T>> for Retained<T> {
    open spec fn obeys_from_spec() -> bool {
        true
    }

    open spec fn from_spec(obj: Owned<T>) -> Self {
        Retained::wrap(obj.handle())
    }
}

impl<T> From<Owned<T>> for Retained<T> {
    /// Narrows an exclusive pointer to a shared one. The claim is the
    /// same one: the runtime is not called, and no count changes.
    fn from(obj: Owned<T>) -> (r: Retained<T>) {
        Retained { handle: obj.into_raw(), phantom: PhantomData }
    }
}

} // verus!
