use ginkgo::GObj;
use ginkgo::Object;
use ginkgo::SVal;
use ginkgo::VM;

#[test]
fn simple() {
    let vm = VM::new();
    assert_eq!("nil", vm.wrap(Object::S(SVal::Nil)).to_text());
    assert_eq!("#undefined", vm.wrap(Object::S(SVal::Undefined)).to_text());
    assert_eq!("#t", vm.wrap(Object::S(SVal::Bool(true))).to_text());
    assert_eq!("#f", vm.wrap(Object::S(SVal::Bool(false))).to_text());

    assert_eq!(Object::S(SVal::Nil), Object::S(SVal::Nil));
    assert_eq!(Object::S(SVal::Undefined), Object::S(SVal::Undefined));
    assert_eq!(Object::S(SVal::Bool(true)), Object::S(SVal::Bool(true)));
    assert_eq!(Object::S(SVal::Bool(false)), Object::S(SVal::Bool(false)));
    assert_ne!(Object::S(SVal::Nil), Object::S(SVal::Undefined));
    assert_ne!(Object::S(SVal::Nil), Object::S(SVal::Bool(true)));
    assert_ne!(Object::S(SVal::Nil), Object::S(SVal::Bool(false)));
    assert_ne!(Object::S(SVal::Undefined), Object::S(SVal::Nil));
    assert_ne!(Object::S(SVal::Undefined), Object::S(SVal::Bool(true)));
    assert_ne!(Object::S(SVal::Undefined), Object::S(SVal::Bool(false)));
    assert_ne!(Object::S(SVal::Bool(true)), Object::S(SVal::Nil));
    assert_ne!(Object::S(SVal::Bool(true)), Object::S(SVal::Undefined));
    assert_ne!(Object::S(SVal::Bool(true)), Object::S(SVal::Bool(false)));
    assert_ne!(Object::S(SVal::Bool(false)), Object::S(SVal::Nil));
    assert_ne!(Object::S(SVal::Bool(false)), Object::S(SVal::Undefined));
    assert_ne!(Object::S(SVal::Bool(false)), Object::S(SVal::Bool(true)));

    assert_eq!(None, Object::S(SVal::Nil).as_int());
    assert_eq!(None, Object::S(SVal::Undefined).as_int());
    assert_eq!(None, Object::S(SVal::Bool(true)).as_int());
    assert_eq!(None, Object::S(SVal::Bool(false)).as_int());

    assert_eq!(None, Object::S(SVal::Nil).as_float());
    assert_eq!(None, Object::S(SVal::Undefined).as_float());
    assert_eq!(None, Object::S(SVal::Bool(true)).as_float());
    assert_eq!(None, Object::S(SVal::Bool(false)).as_float());

    assert_eq!(None, Object::S(SVal::Nil).as_bool());
    assert_eq!(None, Object::S(SVal::Undefined).as_bool());
    assert_eq!(Some(true), Object::S(SVal::Bool(true)).as_bool());
    assert_eq!(Some(false), Object::S(SVal::Bool(false)).as_bool());
}

#[test]
fn fixnums() {
    let vm = VM::new();
    assert_eq!("0", vm.wrap(vm.integer(0)).to_text());
    assert_eq!("-1", vm.wrap(vm.integer(-1)).to_text());
    assert_eq!("1", vm.wrap(vm.integer(1)).to_text());
    assert_eq!(format!("{}", isize::MAX), vm.wrap(vm.integer(isize::MAX)).to_text());
    assert_eq!(format!("{}", isize::MIN), vm.wrap(vm.integer(isize::MIN)).to_text());

    assert_eq!(vm.integer(1), vm.integer(1));
    assert_ne!(vm.integer(-1), vm.integer(1));
    assert_ne!(vm.integer(1), Object::S(SVal::Nil));
    assert_ne!(vm.integer(1), Object::S(SVal::Undefined));
    assert_ne!(vm.integer(1), Object::S(SVal::Bool(true)));
    assert_ne!(vm.integer(1), Object::S(SVal::Bool(false)));

    assert_eq!(Some(1), vm.integer(1).as_int());
    assert_eq!(Some(-1), vm.integer(-1).as_int());
    assert_eq!(None, vm.integer(1).as_float());
    assert_eq!(None, vm.integer(1).as_bool());
}

#[test]
fn conses() {
    let mut vm = VM::new();

    let a = vm.cons(vm.integer(0), Object::S(SVal::Nil));
    assert_eq!("(0)", vm.wrap(a).to_text());
    assert_eq!(Some(vm.integer(0)), vm.car(a));
    assert_eq!(Some(Object::S(SVal::Nil)), vm.cdr(a));

    let b = vm.cons(vm.integer(1), a);
    assert_eq!("(1 0)", vm.wrap(b).to_text());
    assert_eq!(Some(vm.integer(1)), vm.car(b));
    assert_eq!(Some(a), vm.cdr(b));

    let c = vm.cons(vm.integer(1), vm.integer(0));
    assert_eq!("(1 . 0)", vm.wrap(c).to_text());
    assert_eq!(Some(vm.integer(1)), vm.car(c));
    assert_eq!(Some(vm.integer(0)), vm.cdr(c));

    let d = vm.cons(vm.integer(2), c);
    assert_eq!("(2 1 . 0)", vm.wrap(d).to_text());
    assert_eq!(Some(vm.integer(2)), vm.car(d));
    assert_eq!(Some(c), vm.cdr(d));

    assert_ne!(d, vm.integer(2));
    assert_ne!(d, Object::S(SVal::Nil));
    assert_ne!(d, Object::S(SVal::Undefined));
    assert_ne!(d, Object::S(SVal::Bool(true)));
    assert_ne!(d, Object::S(SVal::Bool(false)));
}

#[test]
fn vectors_without_floats() {
    let mut vm = VM::new();

    let v = vm.vec(3);
    assert_eq!("#(#undefined #undefined #undefined)", vm.wrap(v).to_text());
    assert_eq!(Some(Object::S(SVal::Undefined)), vm.vec_get(v, 0));
    assert_eq!(Some(Object::S(SVal::Undefined)), vm.vec_get(v, 1));
    assert_eq!(Some(Object::S(SVal::Undefined)), vm.vec_get(v, 2));

    vm.vec_set(v, 0, vm.integer(0)).unwrap();
    vm.vec_set(v, 1, Object::S(SVal::Nil)).unwrap();
    vm.vec_set(v, 2, vm.integer(-23)).unwrap();

    assert_eq!("#(0 nil -23)", vm.wrap(v).to_text());
    assert_eq!(Some(vm.integer(0)), vm.vec_get(v, 0));
    assert_eq!(Some(Object::S(SVal::Nil)), vm.vec_get(v, 1));
    assert_eq!(Some(vm.integer(-23)), vm.vec_get(v, 2));
}

#[test]
fn vector_failures_are_distinct() {
    let mut vm = VM::new();
    let v = vm.vec(2);
    // set with an index past the length fails; the vector is unchanged
    assert_eq!(Err(()), vm.vec_set(v, 2, vm.integer(9)));
    // set through a non-vector reference fails too
    let p = vm.cons(vm.integer(1), Object::S(SVal::Nil));
    assert_eq!(Err(()), vm.vec_set(p, 0, vm.integer(9)));
    assert_eq!(Err(()), vm.vec_set(Object::S(SVal::Nil), 0, vm.integer(9)));
    // get with an index past the length is absent, not a panic
    assert_eq!(None, vm.vec_get(v, 2));
    assert_eq!(None, vm.vec_get(p, 0));
    assert_eq!(Some(Object::S(SVal::Undefined)), vm.vec_get(v, 1));
}

#[test]
fn strings_and_escaping() {
    let mut vm = VM::new();
    let s = vm.string(String::from("hi\nthere \"x\" \\"));
    assert_eq!("\"hi\\nthere \\\"x\\\" \\\\\"", vm.wrap(s).to_text());
    let e = vm.string(String::new());
    assert_eq!("\"\"", vm.wrap(e).to_text());
}

#[test]
fn float_bits_model() {
    let vm = VM::new();
    // floating-point immediates carry their bit pattern
    assert_eq!(vm.float(1.0f64.to_bits()), vm.float(1.0f64.to_bits()));
    assert_ne!(vm.float(1.0f64.to_bits()), vm.float(2.0f64.to_bits()));
    assert_ne!(vm.float(1.0f64.to_bits()), vm.integer(1));
    assert_eq!(Some(2.3f64.to_bits()), vm.float(2.3f64.to_bits()).as_float());
    assert_eq!(None, vm.float(2.3f64.to_bits()).as_int());
    // the renderer shows the bit pattern in a marker form
    assert_eq!("#float<0>", vm.wrap(vm.float(0.0f64.to_bits())).to_text());
}

#[test]
fn dead_handle_rendering() {
    let mut vm = VM::new();
    let a = vm.cons(vm.integer(1), Object::S(SVal::Nil));
    vm.gc();
    // the slot was reclaimed: the renderer shows the handle's identity
    assert_eq!("#dead<0:0>", vm.wrap(a).to_text());
}

#[test]
fn render_shared_structure() {
    let mut vm = VM::new();
    let inner = vm.cons(vm.integer(0), Object::S(SVal::Nil));
    let outer = vm.cons(inner, inner);
    assert_eq!("((0) 0)", vm.wrap(outer).to_text());
}
