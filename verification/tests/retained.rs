use core::mem::size_of;

use retained::handle::Handle;
use retained::owned::Owned;
use retained::pool::{AutoreleasePool, PoolState};
use retained::retained::Retained;
use retained::runtime::Runtime;

pub struct TestType {
    _data: [u8; 0],
}

#[test]
fn test_size_of() {
    assert_eq!(size_of::<Retained<TestType>>(), size_of::<&TestType>());
    assert_eq!(
        size_of::<Option<Retained<TestType>>>(),
        size_of::<&TestType>()
    );
}

#[test]
fn test_clone() {
    let mut rt: Runtime<u32> = Runtime::new();
    let obj: Handle = rt.create(7).unwrap();
    let obj: Retained<u32> = Retained::new(obj, &rt);
    assert!(obj.retain_count(&rt) == 1);

    let cloned = obj.clone(&mut rt);
    assert!(cloned.retain_count(&rt) == 2);
    assert!(obj.retain_count(&rt) == 2);

    obj.release(&mut rt);
    assert!(cloned.retain_count(&rt) == 1);
}

#[test]
fn size_of_owned_and_handle() {
    assert_eq!(size_of::<Handle>(), size_of::<usize>());
    assert_eq!(size_of::<Option<Handle>>(), size_of::<usize>());
    assert_eq!(size_of::<Owned<TestType>>(), size_of::<&TestType>());
    assert_eq!(size_of::<Option<Owned<TestType>>>(), size_of::<&TestType>());
}

#[test]
fn basic_lifecycle() {
    let mut rt: Runtime<&str> = Runtime::new();
    let h = rt.create("object").unwrap();
    let first: Retained<&str> = Retained::new(h, &rt);
    assert_eq!(first.retain_count(&rt), 1);

    let clone = first.clone(&mut rt);
    assert_eq!(first.retain_count(&rt), 2);
    assert_eq!(clone.as_ptr().as_usize(), h.as_usize());

    clone.release(&mut rt);
    assert_eq!(first.retain_count(&rt), 1);
    assert_eq!(*first.deref(&rt), "object");

    first.release(&mut rt);
    assert_eq!(rt.retain_count(h), 0);
    assert!(!rt.is_live(h));
}

#[test]
fn pool_deferral() {
    let mut rt: Runtime<u8> = Runtime::new();
    let h = rt.create(5).unwrap();
    let kept: Retained<u8> = Retained::new(h, &rt);
    let given = kept.clone(&mut rt);
    assert_eq!(rt.retain_count(h), 2);

    let pool = AutoreleasePool::new(&mut rt);
    let view = given.autorelease(&mut rt, &pool);
    assert_eq!(*view, 5);
    assert_eq!(rt.retain_count(h), 2);

    let log = pool.drain(&mut rt);
    assert_eq!(log.len(), 1);
    assert_eq!(log[0].as_usize(), h.as_usize());
    assert_eq!(rt.retain_count(h), 1);
    assert_eq!(*kept.deref(&rt), 5);
}

#[test]
fn pool_takes_the_last_claim() {
    let mut rt: Runtime<u8> = Runtime::new();
    let h = rt.create(9).unwrap();
    let only: Retained<u8> = Retained::new(h, &rt);
    let pool = AutoreleasePool::new(&mut rt);
    let view = only.autorelease(&mut rt, &pool);
    assert_eq!(*view, 9);
    assert!(rt.is_live(h));
    pool.drain(&mut rt);
    assert!(!rt.is_live(h));
    assert_eq!(rt.retain_count(h), 0);
}

#[test]
fn nested_pools_drain_innermost_first() {
    let mut rt: Runtime<char> = Runtime::new();
    let a1 = rt.create('a').unwrap();
    let a2 = rt.create('b').unwrap();
    let b1 = rt.create('c').unwrap();
    let b2 = rt.create('d').unwrap();

    let pool_a = AutoreleasePool::new(&mut rt);
    let _ = Retained::<char>::new(a1, &rt).autorelease(&mut rt, &pool_a);
    let pool_b = AutoreleasePool::new(&mut rt);
    let _ = Retained::<char>::new(b1, &rt).autorelease(&mut rt, &pool_b);
    let _ = Retained::<char>::new(b2, &rt).autorelease(&mut rt, &pool_b);
    assert_eq!(rt.depth(), 2);

    // Draining the outer pool drains the inner one first.
    let _ = Retained::<char>::new(a2, &rt);
    let log = pool_a.drain(&mut rt);
    let order: Vec<usize> = log.iter().map(|h| h.as_usize()).collect();
    assert_eq!(order, vec![b2.as_usize(), b1.as_usize(), a1.as_usize()]);
    assert_eq!(rt.depth(), 0);
    assert!(!rt.is_live(a1) && !rt.is_live(b1) && !rt.is_live(b2));
    assert!(rt.is_live(a2));

    // The inner pool was drained with the outer one: it has nothing left.
    assert_eq!(pool_b.state(&rt), PoolState::Drained);
    assert!(pool_b.drain(&mut rt).is_empty());
    assert!(rt.is_live(a2));
}

#[test]
fn inner_pool_drained_first_is_not_drained_again() {
    let mut rt: Runtime<u16> = Runtime::new();
    let a = rt.create(1).unwrap();
    let b = rt.create(2).unwrap();
    let keep_a: Retained<u16> = Retained::new(a, &rt);
    let keep_b: Retained<u16> = Retained::new(b, &rt);

    let pool_a = AutoreleasePool::new(&mut rt);
    let _ = keep_a.clone(&mut rt).autorelease(&mut rt, &pool_a);
    let pool_b = AutoreleasePool::new(&mut rt);
    let _ = keep_b.clone(&mut rt).autorelease(&mut rt, &pool_b);
    assert_eq!(pool_a.state(&rt), PoolState::Active);
    assert_eq!(pool_b.state(&rt), PoolState::Active);

    let first = pool_b.drain(&mut rt);
    assert_eq!(first.len(), 1);
    assert_eq!(first[0].as_usize(), b.as_usize());
    assert_eq!(rt.retain_count(b), 1);
    assert_eq!(rt.retain_count(a), 2);

    let second = pool_a.drain(&mut rt);
    assert_eq!(second.len(), 1);
    assert_eq!(second[0].as_usize(), a.as_usize());
    assert_eq!(rt.retain_count(b), 1);
    assert_eq!(rt.retain_count(a), 1);
}

#[test]
fn narrowing_calls_no_primitive() {
    let mut rt: Runtime<i32> = Runtime::new();
    let h = rt.create(42).unwrap();
    let owned: Owned<i32> = Owned::new(h, &rt);
    assert_eq!(rt.retain_count(h), 1);
    let shared: Retained<i32> = Retained::from(owned);
    assert_eq!(shared.as_ptr().as_usize(), h.as_usize());
    assert_eq!(shared.retain_count(&rt), 1);
    shared.release(&mut rt);
    assert!(!rt.is_live(h));
}

#[test]
fn mutation_needs_the_exclusive_pointer() {
    // The exclusive pointer reads, writes and reads again: each view ends
    // before the next write begins, so the second read sees the new value.
    let mut rt: Runtime<i32> = Runtime::new();
    let h = rt.create(42).unwrap();
    let mut owned: Owned<i32> = Owned::new(h, &rt);
    assert_eq!(*owned.deref(&rt), 42);
    *owned.deref_mut(&mut rt) += 1;
    assert_eq!(*owned.deref(&rt), 43);
    owned.release(&mut rt);
    assert!(!rt.is_live(h));
}

#[test]
fn equality_goes_by_the_objects() {
    let mut rt: Runtime<String> = Runtime::new();
    let x = rt.create(String::from("same")).unwrap();
    let y = rt.create(String::from("same")).unwrap();
    let z = rt.create(String::from("other")).unwrap();
    let x = Retained::<String>::new(x, &rt);
    let y = Retained::<String>::new(y, &rt);
    let z = Retained::<String>::new(z, &rt);
    assert_ne!(x.as_ptr().as_usize(), y.as_ptr().as_usize());
    assert!(x.eq(&y, &rt));
    assert!(!x.ne(&y, &rt));
    assert!(!x.eq(&z, &rt));
    assert!(x.ne(&z, &rt));
    assert_eq!(x.borrow(&rt), "same");
    assert_eq!(z.as_ref(&rt), "other");
}

#[test]
fn retain_takes_a_claim_of_its_own() {
    let mut rt: Runtime<u8> = Runtime::new();
    let h = rt.create(0).unwrap();
    let first: Retained<u8> = Retained::new(h, &rt);
    let second: Retained<u8> = Retained::retain(h, &mut rt);
    let third: Retained<u8> = Retained::retain_autoreleased_return(h, &mut rt);
    assert_eq!(rt.retain_count(h), 3);
    first.release(&mut rt);
    second.release(&mut rt);
    assert_eq!(third.retain_count(&rt), 1);
    third.release(&mut rt);
    assert_eq!(rt.retain_count(h), 0);
}

#[test]
fn retain_and_autorelease_is_balanced_by_the_drain() {
    let mut rt: Runtime<u8> = Runtime::new();
    let h = rt.create(3).unwrap();
    let kept: Retained<u8> = Retained::new(h, &rt);
    let pool = AutoreleasePool::new(&mut rt);
    assert_eq!(*Retained::<u8>::retain_and_autorelease(h, &mut rt, &pool), 3);
    assert_eq!(rt.retain_count(h), 2);
    assert_eq!(
        *Retained::<u8>::retain_and_autorelease_return(h, &mut rt, &pool),
        3
    );
    assert_eq!(rt.retain_count(h), 3);
    assert_eq!(*kept.clone(&mut rt).autorelease_return(&mut rt, &pool), 3);
    assert_eq!(rt.retain_count(h), 4);
    let log = pool.drain(&mut rt);
    assert_eq!(log.len(), 3);
    assert_eq!(rt.retain_count(h), 1);
    kept.release(&mut rt);
    assert!(!rt.is_live(h));
}

#[test]
fn addresses_are_handed_out_in_order_and_once() {
    let mut rt: Runtime<u8> = Runtime::new();
    let a = rt.create(1).unwrap();
    let b = rt.create(2).unwrap();
    assert_eq!(a.as_usize(), 1);
    assert_eq!(b.as_usize(), 2);
    rt.release(a);
    let c = rt.create(3).unwrap();
    assert_eq!(c.as_usize(), 3);
    assert!(!rt.is_live(a));
    assert_eq!(*rt.get(c), 3);
}

#[test]
fn count_of_a_handle_that_was_never_given_is_zero() {
    let rt: Runtime<u8> = Runtime::new();
    let stray = Handle::new(17).unwrap();
    assert_eq!(rt.retain_count(stray), 0);
    assert!(!rt.is_live(stray));
}

#[test]
fn shared_pointer_crosses_threads_with_a_shareable_object() {
    fn needs_send<S: Send>() {}
    fn needs_sync<S: Sync>() {}
    needs_send::<Retained<u32>>();
    needs_sync::<Retained<u32>>();
    needs_send::<Owned<u32>>();
}

#[test]
fn claims_are_the_count_less_what_the_pools_hold() {
    let mut rt: Runtime<u8> = Runtime::new();
    let h = rt.create(1).unwrap();
    let other = rt.create(2).unwrap();
    let kept: Retained<u8> = Retained::new(h, &rt);
    let pool = AutoreleasePool::new(&mut rt);
    let _ = kept.clone(&mut rt).autorelease(&mut rt, &pool);
    let _ = kept.clone(&mut rt).autorelease(&mut rt, &pool);
    let _ = Retained::<u8>::retain_and_autorelease(other, &mut rt, &pool);
    assert_eq!(rt.retain_count(h), 3);
    assert_eq!(rt.deferred(h), 2);
    assert_eq!(rt.claims(h), 1);
    assert_eq!(rt.deferred(other), 1);
    assert_eq!(rt.claims(other), 1);
    pool.drain(&mut rt);
    assert_eq!(rt.retain_count(h), 1);
    assert_eq!(rt.deferred(h), 0);
    assert_eq!(rt.claims(h), 1);
    assert_eq!(rt.retain_count(other), 1);
}

#[test]
fn count_returns_to_where_it_was() {
    // Three clones, two drops and one hand-over to the pool: after the
    // drain the count is what it was before.
    let mut rt: Runtime<u8> = Runtime::new();
    let h = rt.create(0).unwrap();
    let base: Retained<u8> = Retained::new(h, &rt);
    let pool = AutoreleasePool::new(&mut rt);
    let before = rt.retain_count(h);
    let c1 = base.clone(&mut rt);
    let c2 = c1.clone(&mut rt);
    c1.release(&mut rt);
    let c3 = c2.clone(&mut rt);
    let _ = c2.autorelease(&mut rt, &pool);
    c3.release(&mut rt);
    assert_eq!(rt.retain_count(h), before + 1);
    pool.drain(&mut rt);
    assert_eq!(rt.retain_count(h), before);
}

#[test]
fn a_drained_pool_stays_drained() {
    let mut rt: Runtime<u8> = Runtime::new();
    let h = rt.create(0).unwrap();
    let kept: Retained<u8> = Retained::new(h, &rt);
    let outer = AutoreleasePool::new(&mut rt);
    let inner = AutoreleasePool::new(&mut rt);
    assert_eq!(inner.state(&rt), PoolState::Active);
    outer.drain(&mut rt);
    assert_eq!(inner.state(&rt), PoolState::Drained);

    // New pools at the same depths are other pools.
    let outer2 = AutoreleasePool::new(&mut rt);
    let inner2 = AutoreleasePool::new(&mut rt);
    let _ = kept.clone(&mut rt).autorelease(&mut rt, &inner2);
    assert_eq!(inner.state(&rt), PoolState::Drained);
    assert!(inner.drain(&mut rt).is_empty());
    assert_eq!(rt.retain_count(h), 2);
    assert_eq!(rt.pools_opened(), 4);
    assert_eq!(inner2.state(&rt), PoolState::Active);
    assert_eq!(inner2.drain(&mut rt).len(), 1);
    assert_eq!(rt.retain_count(h), 1);
    assert_eq!(outer2.state(&rt), PoolState::Active);
    assert!(outer2.drain(&mut rt).is_empty());
    assert_eq!(rt.depth(), 0);
}

#[test]
fn exclusive_pointer_destroys_its_object() {
    let mut rt: Runtime<Vec<u8>> = Runtime::new();
    let h = rt.create(vec![1, 2]).unwrap();
    let mut owned: Owned<Vec<u8>> = Owned::new(h, &rt);
    owned.deref_mut(&mut rt).push(3);
    assert_eq!(owned.deref(&rt), &vec![1, 2, 3]);
    assert_eq!(owned.as_ptr().as_usize(), h.as_usize());
    owned.release(&mut rt);
    assert!(!rt.is_live(h));
    assert_eq!(rt.retain_count(h), 0);
}

#[test]
fn runtime_primitives_give_the_handle_back() {
    let mut rt: Runtime<u8> = Runtime::new();
    let h = rt.create(0).unwrap();
    let pool = AutoreleasePool::new(&mut rt);
    assert!(rt.retain(h) == h);
    assert_eq!(rt.retain_count(h), 2);
    assert!(rt.autorelease(h) == h);
    assert_eq!(rt.retain_count(h), 2);
    *rt.get_mut(h) = 9;
    assert_eq!(*rt.get(h), 9);
    assert_eq!(pool.drain(&mut rt).len(), 1);
    assert_eq!(rt.retain_count(h), 1);
}
