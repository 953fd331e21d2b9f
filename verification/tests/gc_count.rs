use ginkgo::Object;
use ginkgo::RootedObject;
use ginkgo::SVal;
use ginkgo::VM;

#[test]
fn rooted_equality() {
    let mut vm = VM::new();
    let a = vm.cons(vm.integer(1), Object::S(SVal::Nil));
    let r = vm.rooted(&a);
    assert!(a == r);
    assert!(r == a);
    assert!(RootedObject::S(SVal::Nil) == Object::S(SVal::Nil));
    assert!(Object::S(SVal::Bool(true)) != RootedObject::S(SVal::Bool(false)));
    vm.release(r);
    vm.gc();
    assert_eq!(0, vm.heapsize());
}

#[test]
fn count_unrooted() {
    let mut vm = VM::new();
    assert_eq!(0, vm.heapsize());
    let a = vm.integer(0);
    assert_eq!(0, vm.heapsize());
    let b = vm.float(1.0f64.to_bits());
    assert_eq!(0, vm.heapsize());
    let _ = vm.cons(a, b);
    assert_eq!(1, vm.heapsize());
    vm.gc();
    assert_eq!(0, vm.heapsize());
}

#[test]
fn count_rooted_release() {
    let mut vm = VM::new();
    let a = vm.cons(Object::S(SVal::Bool(true)), Object::S(SVal::Nil));
    assert_eq!(1, vm.heapsize());
    let b = vm.cons(Object::S(SVal::Bool(false)), a);
    assert_eq!(2, vm.heapsize());
    let c = vm.rooted(&b);
    assert_eq!(2, vm.heapsize());
    vm.gc();
    assert_eq!(2, vm.heapsize());
    vm.release(c);
    assert_eq!(2, vm.heapsize());
    let d = vm.rooted(&a);
    assert_eq!(2, vm.heapsize());
    vm.gc();
    assert_eq!(1, vm.heapsize());
    vm.release(d);
    assert_eq!(1, vm.heapsize());
    vm.gc();
    assert_eq!(0, vm.heapsize());
}

#[test]
fn rooted_survives_many_collections() {
    let mut vm = VM::new();
    let a = vm.cons(vm.integer(1), Object::S(SVal::Nil));
    let r = vm.rooted(&a);
    for _ in 0..10 {
        vm.gc();
        assert_eq!(1, vm.heapsize());
        assert_eq!(Some(vm.integer(1)), vm.car(a));
    }
    vm.release(r);
    vm.gc();
    assert_eq!(0, vm.heapsize());
    assert_eq!(None, vm.car(a));
}

#[test]
fn multiple_roots_per_slot() {
    let mut vm = VM::new();
    let a = vm.cons(vm.integer(7), Object::S(SVal::Nil));
    let r1 = vm.rooted(&a);
    let r2 = vm.rooted(&a);
    vm.gc();
    assert_eq!(1, vm.heapsize());
    vm.release(r1);
    vm.gc();
    assert_eq!(1, vm.heapsize());
    vm.release(r2);
    vm.gc();
    assert_eq!(0, vm.heapsize());
}

#[test]
fn reachable_through_rooted_chain() {
    let mut vm = VM::new();
    // a vector reachable only through a rooted pair survives with it
    let v = vm.vec(2);
    let p = vm.cons(v, Object::S(SVal::Nil));
    assert_eq!(2, vm.heapsize());
    let r = vm.rooted(&p);
    vm.gc();
    assert_eq!(2, vm.heapsize());
    assert_eq!(Some(Object::S(SVal::Undefined)), vm.vec_get(v, 0));
    vm.release(r);
    vm.gc();
    assert_eq!(0, vm.heapsize());
}

#[test]
fn stale_handle_never_matches_reused_slot() {
    let mut vm = VM::new();
    let a = vm.cons(vm.integer(1), Object::S(SVal::Nil));
    assert_eq!(Some(vm.integer(1)), vm.car(a));
    vm.gc();
    // the slot is reclaimed; the old handle neither resolves ...
    assert_eq!(None, vm.car(a));
    // ... nor compares equal to the handle of the slot's next occupant
    let b = vm.cons(vm.integer(2), Object::S(SVal::Nil));
    assert_eq!(1, vm.heapsize());
    assert_ne!(a, b);
    assert_eq!(None, vm.car(a));
    assert_eq!(Some(vm.integer(2)), vm.car(b));
}
