//! The tagged value model: immediate values, heap handles, and the
//! composite values that live in the heap arena.

use vstd::prelude::*;

verus! {

/// An immediate value: stack-resident, copyable, never heap-allocated.
///
/// A floating-point payload is carried as its IEEE-754 bit pattern so that
/// equality over values is structural and total; no two tags compare equal.
#[derive(Clone, Copy, PartialEq, Eq, Structural, Debug)]
pub enum SVal {
    Undefined,
    Nil,
    Bool(bool),
    Int(isize),
    Float(u64),
}

/// A generation-checked identifier for a heap slot.
///
/// A handle is valid only while its generation equals the slot's current
/// generation; once the slot is reclaimed the generation moves on, and the
/// old handle never compares equal to any later handle of that slot.
#[derive(Clone, Copy, PartialEq, Eq, Structural, Debug)]
pub struct Handle {
    pub slot: usize,
    pub gen: u64,
}

/// A value reference: either an embedded immediate or a handle into the heap.
#[derive(Clone, Copy, PartialEq, Eq, Structural, Debug)]
pub enum Object {
    S(SVal),
    H(Handle),
}

/// A heap-resident composite value: a cons cell, a vector, or a text buffer.
#[derive(Debug)]
pub enum HVal {
    Cons(Object, Object),
    Vect(Vec<Object>),
    Str(String),
}

/// An owning reference: either an embedded immediate, or a handle whose slot
/// is registered in the heap's root table. The registration is a per-slot
/// count kept by the heap; it is released through [`crate::heap::VM::release`].
#[derive(PartialEq, Eq, Structural, Debug)]
pub enum RootedObject {
    S(SVal),
    H(Handle),
}

impl Object {
    /// The immediate payload, if this reference is an immediate.
    pub open spec fn sval_of(self) -> Option<SVal> {
        match self {
            Object::S(v) => Some(v),
            Object::H(_) => None,
        }
    }

    /// The handle payload, if this reference is heap-resident.
    pub open spec fn handle_of(self) -> Option<Handle> {
        match self {
            Object::S(_) => None,
            Object::H(h) => Some(h),
        }
    }
}

impl RootedObject {
    /// The plain (unrooted) reference this owning reference stands for.
    pub open spec fn spec_unroot(self) -> Object {
        match self {
            RootedObject::S(v) => Object::S(v),
            RootedObject::H(h) => Object::H(h),
        }
    }
}

impl PartialEq<RootedObject> for Object {
    fn eq(&self, other: &RootedObject) -> (r: bool) {
        match (self, other) {
            (Object::S(l), RootedObject::S(r2)) => l == r2,
            (Object::H(l), RootedObject::H(r2)) => l == r2,
            _ => false,
        }
    }
}

impl vstd::std_specs::cmp::PartialEqSpecImpl<RootedObject> for Object {
    open spec fn obeys_eq_spec() -> bool {
        true
    }

    open spec fn eq_spec(&self, other: &RootedObject) -> bool {
        *self == other.spec_unroot()
    }
}

impl PartialEq<Object> for RootedObject {
    fn eq(&self, other: &Object) -> (r: bool) {
        match (self, other) {
            (RootedObject::S(l), Object::S(r2)) => l == r2,
            (RootedObject::H(l), Object::H(r2)) => l == r2,
            _ => false,
        }
    }
}

impl vstd::std_specs::cmp::PartialEqSpecImpl<Object> for RootedObject {
    open spec fn obeys_eq_spec() -> bool {
        true
    }

    open spec fn eq_spec(&self, other: &Object) -> bool {
        self.spec_unroot() == *other
    }
}

/// The integer payload of a reference, if it is an immediate integer.
pub open spec fn as_int_spec(o: Object) -> Option<isize> {
    match o {
        Object::S(SVal::Int(v)) => Some(v),
        _ => None,
    }
}

/// The floating-point payload (as its bit pattern), if the reference is an
/// immediate floating-point value.
pub open spec fn as_float_spec(o: Object) -> Option<u64> {
    match o {
        Object::S(SVal::Float(v)) => Some(v),
        _ => None,
    }
}

/// The boolean payload of a reference, if it is an immediate boolean.
pub open spec fn as_bool_spec(o: Object) -> Option<bool> {
    match o {
        Object::S(SVal::Bool(v)) => Some(v),
        _ => None,
    }
}

/// Common access to plain and rooted references: each stands for a plain
/// `Object` and hands out its immediate payload, if any.
pub trait GObj: Sized {
    /// The plain reference this value stands for.
    spec fn obj(&self) -> Object;

    /// The plain reference, as a value.
    fn unroot(&self) -> (r: Object)
        ensures
            r == self.obj(),
    ;

    /// The immediate payload, absent for heap-resident references.
    fn as_sval(&self) -> (r: Option<SVal>)
        ensures
            r == self.obj().sval_of(),
    ;

    /// The integer payload, if this is an immediate integer.
    fn as_int(&self) -> (r: Option<isize>)
        ensures
            r == as_int_spec(self.obj()),
    {
        match self.as_sval() {
            Some(SVal::Int(v)) => Some(v),
            _ => None,
        }
    }

    /// The floating-point payload as its IEEE-754 bit pattern, if this is
    /// an immediate floating-point value.
    fn as_float(&self) -> (r: Option<u64>)
        ensures
            r == as_float_spec(self.obj()),
    {
        match self.as_sval() {
            Some(SVal::Float(v)) => Some(v),
            _ => None,
        }
    }

    /// The boolean payload, if this is an immediate boolean.
    fn as_bool(&self) -> (r: Option<bool>)
        ensures
            r == as_bool_spec(self.obj()),
    {
        match self.as_sval() {
            Some(SVal::Bool(v)) => Some(v),
            _ => None,
        }
    }
}

impl GObj for Object {
    open spec fn obj(&self) -> Object {
        *self
    }

    fn unroot(&self) -> (r: Object) {
        *self
    }

    fn as_sval(&self) -> (r: Option<SVal>) {
        match self {
            Object::S(v) => Some(*v),
            Object::H(_) => None,
        }
    }
}

impl GObj for RootedObject {
    open spec fn obj(&self) -> Object {
        self.spec_unroot()
    }

    fn unroot(&self) -> (r: Object) {
        match self {
            RootedObject::S(v) => Object::S(*v),
            RootedObject::H(h) => Object::H(*h),
        }
    }

    fn as_sval(&self) -> (r: Option<SVal>) {
        match self {
            RootedObject::S(v) => Some(*v),
            RootedObject::H(_) => None,
        }
    }
}

/// The references a composite value holds, in tracing order: a cons cell
/// yields head then tail, a vector yields its elements in order, a text
/// buffer yields nothing.
pub open spec fn refs_of(v: HVal) -> Seq<Object> {
    match v {
        HVal::Cons(a, b) => seq![a, b],
        HVal::Vect(elems) => elems@,
        HVal::Str(_) => Seq::empty(),
    }
}

} // verus!
