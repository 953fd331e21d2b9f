//! The renderer: canonical text for any value. Pair chains are walked
//! iteratively, never by recursing along the tail, so long lists cannot
//! exhaust the call stack; nesting depth is bounded by a fuel so that even
//! a cyclic structure built through vector mutation cannot recurse forever.

use vstd::prelude::*;

use crate::heap::DObj;
use crate::heap::VM;
use crate::string::escape_spec;
use crate::string::push_char;
use crate::value::GObj;
use crate::value::HVal;
use crate::value::Handle;
use crate::value::Object;
use crate::value::SVal;

verus! {

/// The decimal digit character for `d` (meaningful for `d < 10`).
pub open spec fn digit_char(d: nat) -> char {
    ((48 + d) as u8) as char
}

/// The decimal text of a natural number, most significant digit first.
pub open spec fn nat_text(n: nat) -> Seq<char>
    decreases n,
{
    if n < 10 {
        seq![digit_char(n)]
    } else {
        nat_text(n / 10) + seq![digit_char(n % 10)]
    }
}

/// The decimal text of an integer: a minus sign for negative values, no
/// forced sign otherwise.
pub open spec fn int_text(i: int) -> Seq<char> {
    if i < 0 {
        seq!['-'] + nat_text((-i) as nat)
    } else {
        nat_text(i as nat)
    }
}

/// The rendered text of a floating-point immediate: its bit pattern in a
/// marker form. Computing the decimal form of a double-precision value
/// takes floating-point arithmetic, which this crate keeps out of its
/// verified core; the bit pattern is shown instead, and a caller that
/// needs the decimal form converts the bits outside this crate.
pub open spec fn float_marker(bits: u64) -> Seq<char> {
    seq!['#', 'f', 'l', 'o', 'a', 't', '<'] + nat_text(bits as nat) + seq!['>']
}

/// The canonical text of an immediate value.
pub open spec fn sval_text(v: SVal) -> Seq<char> {
    match v {
        SVal::Undefined => seq!['#', 'u', 'n', 'd', 'e', 'f', 'i', 'n', 'e', 'd'],
        SVal::Nil => seq!['n', 'i', 'l'],
        SVal::Bool(b) => if b {
            seq!['#', 't']
        } else {
            seq!['#', 'f']
        },
        SVal::Int(i) => int_text(i as int),
        SVal::Float(bits) => float_marker(bits),
    }
}

/// The diagnostic text for a handle whose slot has been reclaimed.
pub open spec fn dead_text(h: Handle) -> Seq<char> {
    seq!['#', 'd', 'e', 'a', 'd', '<'] + nat_text(h.slot as nat) + seq![':'] + nat_text(
        h.gen as nat,
    ) + seq!['>']
}

impl VM {
    /// The canonical text of a reference, to nesting depth `fuel`.
    pub open spec fn render_obj(self, o: Object, fuel: nat) -> Seq<char>
        decreases fuel, 0nat,
    {
        if fuel == 0 {
            Seq::empty()
        } else {
            match o {
                Object::S(v) => sval_text(v),
                Object::H(h) => if self.valid(h) {
                    match self.value_at(h.slot as int) {
                        HVal::Cons(a, b) => seq!['('] + self.render_obj(a, (fuel - 1) as nat)
                            + self.render_chain(b, (fuel - 1) as nat),
                        HVal::Vect(es) => seq!['#', '('] + self.render_elems(
                            es@,
                            (fuel - 1) as nat,
                        ) + seq![')'],
                        HVal::Str(st) => seq!['"'] + escape_spec(st@) + seq!['"'],
                    }
                } else {
                    dead_text(h)
                },
            }
        }
    }

    /// The text that follows the head of a pair chain: one space-separated
    /// element for each further pair along the tails, then `)` for a `nil`
    /// terminator or ` . terminator)` for any other.
    pub open spec fn render_chain(self, o: Object, fuel: nat) -> Seq<char>
        decreases fuel, 0nat,
    {
        if fuel == 0 {
            Seq::empty()
        } else {
            match self.spec_cons(o) {
                Some(p) => seq![' '] + self.render_obj(p.0, (fuel - 1) as nat)
                    + self.render_chain(p.1, (fuel - 1) as nat),
                None => if o == Object::S(SVal::Nil) {
                    seq![')']
                } else {
                    seq![' ', '.', ' '] + self.render_obj(o, (fuel - 1) as nat) + seq![')']
                },
            }
        }
    }

    /// The space-separated texts of a vector's elements.
    pub open spec fn render_elems(self, es: Seq<Object>, fuel: nat) -> Seq<char>
        decreases fuel, es.len(),
    {
        if es.len() == 0 {
            Seq::empty()
        } else if es.len() == 1 {
            self.render_obj(es[0], fuel)
        } else {
            self.render_obj(es[0], fuel) + seq![' '] + self.render_elems(es.skip(1), fuel)
        }
    }
}

/// Relies on String::push_str: appends exactly the given text.
#[verifier::external_body]
fn push_text(s: &mut String, t: &str)
    ensures
        final(s)@ == old(s)@ + t@,
{
    s.push_str(t);
}

/// The decimal text of a 64-bit natural number.
fn u64_text(v: u64) -> (r: String)
    ensures
        r@ == nat_text(v as nat),
    decreases v,
{
    if v < 10 {
        let mut s = String::new();
        push_char(&mut s, ((48 + v) as u8) as char);
        proof {
            assert(s@ =~= seq![digit_char(v as nat)]);
        }
        s
    } else {
        proof {
            assert(v / 10 < v) by (nonlinear_arith)
                requires
                    v >= 10,
            ;
        }
        let mut s = u64_text(v / 10);
        push_char(&mut s, ((48 + (v % 10)) as u8) as char);
        proof {
            assert((v / 10) as nat == (v as nat) / 10);
            assert((v % 10) as nat == (v as nat) % 10);
            assert(s@ =~= nat_text((v as nat) / 10) + seq![digit_char((v as nat) % 10)]);
        }
        s
    }
}

/// The decimal text of a signed machine integer.
fn isize_text(v: isize) -> (r: String)
    ensures
        r@ == int_text(v as int),
{
    if v >= 0 {
        u64_text(v as u64)
    } else {
        let mag: u64 = ((-(v + 1)) as u64) + 1;
        let mut s = String::new();
        push_char(&mut s, '-');
        let t = u64_text(mag);
        push_text(&mut s, t.as_str());
        proof {
            assert(mag as nat == (-(v as int)) as nat);
            assert(s@ =~= seq!['-'] + nat_text((-(v as int)) as nat));
        }
        s
    }
}

/// The marker text of a floating-point bit pattern.
fn float_to_text(bits: u64) -> (r: String)
    ensures
        r@ == float_marker(bits),
{
    let mut s = String::new();
    push_text(&mut s, "#float<");
    let t = u64_text(bits);
    push_text(&mut s, t.as_str());
    push_char(&mut s, '>');
    proof {
        reveal_strlit("#float<");
        assert(s@ =~= float_marker(bits));
    }
    s
}

/// The canonical text of an immediate value.
fn sval_to_text(v: SVal) -> (r: String)
    ensures
        r@ == sval_text(v),
{
    match v {
        SVal::Undefined => {
            let mut s = String::new();
            push_text(&mut s, "#undefined");
            proof {
                reveal_strlit("#undefined");
                assert(s@ =~= sval_text(v));
            }
            s
        },
        SVal::Nil => {
            let mut s = String::new();
            push_text(&mut s, "nil");
            proof {
                reveal_strlit("nil");
                assert(s@ =~= sval_text(v));
            }
            s
        },
        SVal::Bool(b) => {
            let mut s = String::new();
            if b {
                push_text(&mut s, "#t");
                proof {
                    reveal_strlit("#t");
                    assert(s@ =~= sval_text(v));
                }
            } else {
                push_text(&mut s, "#f");
                proof {
                    reveal_strlit("#f");
                    assert(s@ =~= sval_text(v));
                }
            }
            s
        },
        SVal::Int(i) => isize_text(i),
        SVal::Float(bits) => float_to_text(bits),
    }
}

impl VM {
    /// The pieces of the cons cell `o` refers to, if any.
    fn cons_parts(&self, o: Object) -> (r: Option<(Object, Object)>)
        ensures
            r == self.spec_cons(o),
    {
        match self.direct(o) {
            DObj::H(HVal::Cons(a, b)) => Some((*a, *b)),
            _ => None,
        }
    }

    /// Render a reference to its canonical text, walking pair chains
    /// iteratively and descending at most `fuel` nesting levels.
    fn render_fuel(&self, o: Object, fuel: usize) -> (r: String)
        ensures
            r@ == self.render_obj(o, fuel as nat),
        decreases fuel,
    {
        if fuel == 0 {
            let s = String::new();
            proof {
                assert(s@ =~= self.render_obj(o, 0));
            }
            return s;
        }
        match self.direct(o) {
            DObj::S(v) => sval_to_text(v),
            DObj::D(h) => {
                let mut s = String::new();
                push_text(&mut s, "#dead<");
                let a = u64_text(h.slot as u64);
                push_text(&mut s, a.as_str());
                push_char(&mut s, ':');
                let b = u64_text(h.gen);
                push_text(&mut s, b.as_str());
                push_char(&mut s, '>');
                proof {
                    reveal_strlit("#dead<");
                    assert((h.slot as u64) as nat == h.slot as nat);
                    assert(s@ =~= dead_text(h));
                }
                s
            },
            DObj::H(HVal::Str(st)) => {
                let mut s = String::new();
                push_char(&mut s, '"');
                let e = crate::string::escape(st.as_str());
                push_text(&mut s, e.as_str());
                push_char(&mut s, '"');
                proof {
                    assert(s@ =~= seq!['"'] + escape_spec(st@) + seq!['"']);
                }
                s
            },
            DObj::H(HVal::Vect(es)) => {
                let ghost f1 = (fuel - 1) as nat;
                let mut s = String::new();
                push_text(&mut s, "#(");
                proof {
                    reveal_strlit("#(");
                    assert(s@ =~= seq!['#', '(']);
                    assert(es@.skip(0) =~= es@);
                }
                let m = es.len();
                let mut k: usize = 0;
                while k < m
                    invariant
                        k <= m,
                        m == es@.len(),
                        fuel >= 1,
                        f1 == (fuel - 1) as nat,
                        seq!['#', '('] + self.render_elems(es@, f1) == s@ + self.render_elems(
                            es@.skip(k as int),
                            f1,
                        ),
                    decreases m - k,
                {
                    let ghost s_pre = s@;
                    let t = self.render_fuel(es[k], fuel - 1);
                    push_text(&mut s, t.as_str());
                    if k + 1 < m {
                        push_char(&mut s, ' ');
                    }
                    proof {
                        let tail = es@.skip(k as int);
                        assert(tail[0] == es@[k as int]);
                        assert(tail.skip(1) =~= es@.skip(k + 1));
                        if k + 1 < m {
                            assert(self.render_elems(tail, f1) == self.render_obj(es@[k as int], f1)
                                + seq![' '] + self.render_elems(es@.skip(k + 1), f1));
                            assert(s_pre + self.render_elems(tail, f1) =~= s@
                                + self.render_elems(es@.skip(k + 1), f1));
                        } else {
                            assert(tail.len() == 1);
                            assert(self.render_elems(tail, f1) == self.render_obj(
                                es@[k as int],
                                f1,
                            ));
                            assert(es@.skip(k + 1).len() == 0);
                            assert(s_pre + self.render_elems(tail, f1) =~= s@
                                + self.render_elems(es@.skip(k + 1), f1));
                        }
                    }
                    k = k + 1;
                }
                push_char(&mut s, ')');
                proof {
                    assert(es@.skip(m as int) =~= Seq::<Object>::empty());
                    assert(s@ =~= seq!['#', '('] + self.render_elems(es@, f1) + seq![')']);
                }
                s
            },
            DObj::H(HVal::Cons(a0, b0)) => {
                let a = *a0;
                let b = *b0;
                let ghost f1 = (fuel - 1) as nat;
                let mut s = String::new();
                push_char(&mut s, '(');
                let t = self.render_fuel(a, fuel - 1);
                push_text(&mut s, t.as_str());
                proof {
                    assert(s@ =~= seq!['('] + self.render_obj(a, f1));
                }
                let mut cur = b;
                let mut f = fuel - 1;
                let mut parts = self.cons_parts(cur);
                while f > 0 && parts.is_some()
                    invariant
                        f <= fuel - 1,
                        parts == self.spec_cons(cur),
                        self.render_obj(o, fuel as nat) == s@ + self.render_chain(cur, f as nat),
                    decreases f,
                {
                    let ghost s_pre = s@;
                    let ghost cur_pre = cur;
                    let ghost f_pre = f as nat;
                    let p = parts.unwrap();
                    push_char(&mut s, ' ');
                    let t2 = self.render_fuel(p.0, f - 1);
                    push_text(&mut s, t2.as_str());
                    proof {
                        assert(self.render_chain(cur_pre, f_pre) == seq![' '] + self.render_obj(
                            p.0,
                            (f - 1) as nat,
                        ) + self.render_chain(p.1, (f - 1) as nat));
                        assert(s_pre + self.render_chain(cur_pre, f_pre) =~= s@
                            + self.render_chain(p.1, (f - 1) as nat));
                    }
                    cur = p.1;
                    f = f - 1;
                    parts = self.cons_parts(cur);
                }
                if f == 0 {
                    proof {
                        assert(self.render_chain(cur, 0) =~= Seq::<char>::empty());
                        assert(s@ + Seq::<char>::empty() =~= s@);
                    }
                    return s;
                }
                let ghost s_mid = s@;
                if cur == Object::S(SVal::Nil) {
                    push_char(&mut s, ')');
                    proof {
                        assert(self.render_chain(cur, f as nat) =~= seq![')']);
                    }
                    s
                } else {
                    push_text(&mut s, " . ");
                    let t3 = self.render_fuel(cur, f - 1);
                    push_text(&mut s, t3.as_str());
                    push_char(&mut s, ')');
                    proof {
                        reveal_strlit(" . ");
                        assert(" . "@ =~= seq![' ', '.', ' ']);
                        assert(self.render_chain(cur, f as nat) == seq![' ', '.', ' ']
                            + self.render_obj(cur, (f - 1) as nat) + seq![')']);
                        assert(s@ =~= s_mid + self.render_chain(cur, f as nat));
                    }
                    s
                }
            },
        }
    }

    /// The canonical text of a reference, at the renderer's full nesting
    /// depth.
    pub fn render(&self, obj: impl GObj) -> (r: String)
        ensures
            r@ == self.render_obj(obj.obj(), usize::MAX as nat),
    {
        self.render_fuel(obj.unroot(), usize::MAX)
    }

    /// Pair a reference with this arena for display.
    pub fn wrap<'a>(&'a self, obj: impl GObj) -> (r: WrappedObject<'a>)
        ensures
            r.spec_vm() == *self,
            r.spec_obj() == obj.obj(),
    {
        WrappedObject { vm: self, object: obj.unroot() }
    }
}

/// A reference paired with the arena it lives in, so that it can be
/// turned into text on its own.
pub struct WrappedObject<'a> {
    vm: &'a VM,
    object: Object,
}

impl<'a> WrappedObject<'a> {
    /// The arena the reference was wrapped with.
    pub closed spec fn spec_vm(self) -> VM {
        *self.vm
    }

    /// The wrapped reference.
    pub closed spec fn spec_obj(self) -> Object {
        self.object
    }

    /// The canonical text of the wrapped reference.
    pub fn to_text(&self) -> (r: String)
        ensures
            r@ == self.spec_vm().render_obj(self.spec_obj(), usize::MAX as nat),
    {
        self.vm.render_fuel(self.object, usize::MAX)
    }
}

} // verus!
