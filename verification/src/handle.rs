use vstd::prelude::*;
use vstd::std_specs::cmp::PartialEqSpecImpl;

verus! {

/// A machine word that is never zero, so that an absent handle costs no extra
/// space.
#[verifier::external_body]
pub struct NonNull {
    word: core::num::NonZeroUsize,
}

impl Clone for NonNull {
    /// Copies the `core::num::NonZeroUsize` inside: the same address.
    #[verifier::external_body]
    fn clone(&self) -> (r: Self)
        ensures
            word_addr(r) == word_addr(*self),
    {
        NonNull { word: self.word }
    }
}

impl Copy for NonNull {

}

/// The address that a non-zero word holds.
pub uninterp spec fn word_addr(w: NonNull) -> usize;

/// `core::num::NonZeroUsize::new`: no word for zero, and for any other
/// address the word that holds it.
#[verifier::external_body]
fn word_new(addr: usize) -> (r: Option<NonNull>)
    ensures
        addr == 0 ==> r.is_none(),
        addr != 0 ==> r.is_some() && word_addr(r.unwrap()) == addr,
{
    match core::num::NonZeroUsize::new(addr) {
        Some(word) => Some(NonNull { word }),
        None => None,
    }
}

/// `core::num::NonZeroUsize::get`: the address held, which is not zero.
#[verifier::external_body]
fn word_get(w: NonNull) -> (r: usize)
    ensures
        r == word_addr(w),
        r != 0,
{
    w.word.get()
}

/// An opaque, non-owning address of an object in the foreign heap.
#[derive(Clone, Copy)]
pub struct Handle {
    word: NonNull,
}

impl Handle {
    /// The address that this handle identifies.
    pub closed spec fn addr(self) -> usize {
        word_addr(self.word)
    }

    /// The handle for `addr`, or nothing for the null address.
    pub fn new(addr: usize) -> (r: Option<Handle>)
        ensures
            addr == 0 <==> r.is_none(),
            r.is_some() ==> r.unwrap().addr() == addr,
    {
        match word_new(addr) {
            Some(word) => Some(Handle { word }),
            None => None,
        }
    }

    /// The address as a machine word.
    pub fn as_usize(&self) -> (r: usize)
        ensures
            r == self.addr(),
            r != 0,
    {
        word_get(self.word)
    }
}

impl PartialEqSpecImpl for Handle {
    open spec fn obeys_eq_spec() -> bool {
        true
    }

    open spec fn eq_spec(&self, other: &Handle) -> bool {
        self.addr() == other.addr()
    }
}

impl PartialEq for Handle {
    /// Two handles are equal where they hold the same address.
    fn eq(&self, other: &Handle) -> (r: bool) {
        self.as_usize() == other.as_usize()
    }
}

impl Eq for Handle {

}

/// The addresses of the handles in `hs`, in their order.
pub open spec fn addrs(hs: Seq<Handle>) -> Seq<usize> {
    hs.map_values(|h: Handle| h.addr())
}

} // verus!
