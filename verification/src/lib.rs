//! Ownership of objects that a foreign runtime counts references to.
//!
//! `Retained` is a shared pointer with a claim of its own and read access;
//! `Owned` holds the only claim and may write. An `AutoreleasePool` is a
//! scope to which releases are deferred. `Runtime` keeps the counts and the
//! pools; `Heap` is what it keeps, as a mathematical value, and the
//! contracts of all operations are stated over it.
pub mod balance;
pub mod handle;
pub mod heap;
pub mod nesting;
pub mod owned;
pub mod pool;
pub mod retained;
pub mod runtime;
