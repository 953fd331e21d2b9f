//! The heap arena: slots holding composite values, free-slot reuse guarded
//! by generation counters, a per-slot root count, and the stop-the-world
//! mark-and-sweep collector.

use vstd::prelude::*;

use crate::value::GObj;
use crate::value::HVal;
use crate::value::Handle;
use crate::value::Object;
use crate::value::RootedObject;
use crate::value::SVal;
use crate::value::refs_of;

verus! {

/// One arena slot. The generation is even exactly while the slot is
/// occupied; freeing a slot increments the generation, so a handle minted
/// for an earlier occupancy never matches again.
struct Slot {
    gen: u64,
    val: Option<HVal>,
    roots: u64,
}

/// The heap arena together with its root table and collector.
pub struct VM {
    slots: Vec<Slot>,
    marks: Vec<bool>,
}

/// Whether the slot is occupied, as a count contribution.
spec fn occ_bit(sl: Slot) -> nat {
    if sl.val is Some {
        1
    } else {
        0
    }
}

/// How many of the slots are occupied.
spec fn occ_count(s: Seq<Slot>) -> nat
    decreases s.len(),
{
    if s.len() == 0 {
        0
    } else {
        occ_count(s.drop_last()) + occ_bit(s.last())
    }
}

proof fn lemma_occ_count_push(s: Seq<Slot>, x: Slot)
    ensures
        occ_count(s.push(x)) == occ_count(s) + occ_bit(x),
{
    assert(s.push(x).drop_last() =~= s);
}

proof fn lemma_occ_count_update(s: Seq<Slot>, i: int, x: Slot)
    requires
        0 <= i < s.len(),
    ensures
        occ_count(s.update(i, x)) + occ_bit(s[i]) == occ_count(s) + occ_bit(x),
    decreases s.len(),
{
    let t = s.update(i, x);
    if i == s.len() - 1 {
        assert(t.drop_last() =~= s.drop_last());
    } else {
        assert(t.drop_last() =~= s.drop_last().update(i, x));
        lemma_occ_count_update(s.drop_last(), i, x);
    }
}

/// Count of slots the collector has not yet marked.
spec fn false_bit(b: bool) -> nat {
    if b {
        0
    } else {
        1
    }
}

spec fn unmarked_count(m: Seq<bool>) -> nat
    decreases m.len(),
{
    if m.len() == 0 {
        0
    } else {
        unmarked_count(m.drop_last()) + false_bit(m.last())
    }
}

proof fn lemma_unmarked_update(m: Seq<bool>, i: int, x: bool)
    requires
        0 <= i < m.len(),
    ensures
        unmarked_count(m.update(i, x)) + false_bit(m[i]) == unmarked_count(m) + false_bit(x),
    decreases m.len(),
{
    let t = m.update(i, x);
    if i == m.len() - 1 {
        assert(t.drop_last() =~= m.drop_last());
    } else {
        assert(t.drop_last() =~= m.drop_last().update(i, x));
        lemma_unmarked_update(m.drop_last(), i, x);
    }
}

/// Whether slot `i` of the arena is occupied.
spec fn slot_occ(s: Seq<Slot>, i: int) -> bool {
    0 <= i < s.len() && s[i].val is Some
}

/// The value in occupied slot `i`.
spec fn slot_value(s: Seq<Slot>, i: int) -> HVal {
    s[i].val->Some_0
}

/// The slot a reference leads to, provided the reference is a handle that
/// currently resolves: the slot is occupied and the generations agree.
spec fn target_of(s: Seq<Slot>, o: Object) -> Option<usize> {
    match o {
        Object::H(h) => if slot_occ(s, h.slot as int) && h.gen == s[h.slot as int].gen {
            Some(h.slot)
        } else {
            None
        },
        Object::S(_) => None,
    }
}

/// Whether reference `o` leads to slot `j`.
spec fn obj_targets(s: Seq<Slot>, o: Object, j: int) -> bool {
    match target_of(s, o) {
        Some(t) => t as int == j,
        None => false,
    }
}

/// Whether the value in slot `i` holds a reference leading to slot `j`.
spec fn edge(s: Seq<Slot>, i: int, j: int) -> bool {
    &&& slot_occ(s, i)
    &&& exists|k: int|
        0 <= k < refs_of(slot_value(s, i)).len() && obj_targets(
            s,
            refs_of(slot_value(s, i))[k],
            j,
        )
}

/// Whether slot `i` is registered in the root table.
spec fn slot_rooted(s: Seq<Slot>, i: int) -> bool {
    slot_occ(s, i) && s[i].roots > 0
}

/// A trace from the root table: the first slot is rooted and each next slot
/// is referenced by the value of the one before it.
spec fn is_path(s: Seq<Slot>, p: Seq<int>) -> bool {
    &&& p.len() > 0
    &&& slot_rooted(s, p[0])
    &&& forall|k: int| 0 <= k < p.len() - 1 ==> edge(s, #[trigger] p[k], p[k + 1])
}

/// Whether slot `j` is transitively reachable from the root table.
spec fn reachable(s: Seq<Slot>, j: int) -> bool {
    exists|p: Seq<int>| is_path(s, p) && p.last() == j
}

proof fn lemma_reachable_occ(s: Seq<Slot>, j: int)
    requires
        reachable(s, j),
    ensures
        slot_occ(s, j),
{
    let p = choose|p: Seq<int>| is_path(s, p) && p.last() == j;
    if p.len() == 1 {
        assert(p[0] == j);
    } else {
        assert(edge(s, p[p.len() - 2], p[p.len() - 1]));
        let v = slot_value(s, p[p.len() - 2]);
        let k = choose|k: int|
            0 <= k < refs_of(v).len() && obj_targets(s, refs_of(v)[k], p[p.len() - 1]);
        assert(obj_targets(s, refs_of(v)[k], j));
    }
}

proof fn lemma_rooted_reachable_int(s: Seq<Slot>, i: int)
    requires
        slot_rooted(s, i),
    ensures
        reachable(s, i),
{
    let p: Seq<int> = seq![i];
    assert(is_path(s, p));
    assert(p.last() == i);
}

proof fn lemma_reach_step(s: Seq<Slot>, i: int, j: int)
    requires
        reachable(s, i),
        edge(s, i, j),
    ensures
        reachable(s, j),
{
    let p = choose|p: Seq<int>| is_path(s, p) && p.last() == i;
    let q = p.push(j);
    assert forall|k: int| 0 <= k < q.len() - 1 implies edge(s, #[trigger] q[k], q[k + 1]) by {
        if k < p.len() - 1 {
            assert(edge(s, p[k], p[k + 1]));
        } else {
            assert(q[k] == p.last());
        }
    }
    assert(is_path(s, q));
    assert(q.last() == j);
}

/// Count of reachable slot indices below `k`.
spec fn reach_bit(s: Seq<Slot>, i: int) -> nat {
    if reachable(s, i) {
        1
    } else {
        0
    }
}

spec fn reach_count_to(s: Seq<Slot>, k: int) -> nat
    decreases k,
{
    if k <= 0 {
        0
    } else {
        reach_count_to(s, k - 1) + reach_bit(s, k - 1)
    }
}

/// The per-slot invariant: occupancy and generation parity agree, and only
/// occupied slots carry root registrations.
spec fn slot_wf(sl: Slot) -> bool {
    &&& (sl.val is Some) <==> (sl.gen % 2 == 0)
    &&& sl.roots > 0 ==> sl.val is Some
}

impl VM {
    /// Number of slots in the arena, occupied or free.
    pub closed spec fn n(self) -> nat {
        self.slots@.len()
    }

    /// Whether slot `i` currently holds a value.
    pub closed spec fn occ(self, i: int) -> bool {
        0 <= i < self.slots@.len() && self.slots@[i].val is Some
    }

    /// The current generation of slot `i`.
    pub closed spec fn gen_at(self, i: int) -> u64 {
        self.slots@[i].gen
    }

    /// The root-table count of slot `i`.
    pub closed spec fn roots_at(self, i: int) -> u64 {
        self.slots@[i].roots
    }

    /// The value held by slot `i` (meaningful only while `occ(i)`).
    pub closed spec fn value_at(self, i: int) -> HVal {
        self.slots@[i].val->Some_0
    }

    /// Whether the handle currently resolves: its slot is occupied and the
    /// generations agree.
    pub open spec fn valid(self, h: Handle) -> bool {
        &&& self.occ(h.slot as int)
        &&& h.gen == self.gen_at(h.slot as int)
    }

    /// The number of occupied slots.
    pub closed spec fn size(self) -> nat {
        occ_count(self.slots@)
    }

    /// The arena's internal invariant, established by `new` and preserved
    /// by every operation.
    pub closed spec fn wf(self) -> bool {
        &&& self.marks@.len() == self.slots@.len()
        &&& forall|i: int| 0 <= i < self.marks@.len() ==> !self.marks@[i]
        &&& forall|i: int| 0 <= i < self.slots@.len() ==> slot_wf(#[trigger] self.slots@[i])
    }

    /// Create an empty arena.
    pub fn new() -> (vm: VM)
        ensures
            vm.wf(),
            vm.n() == 0,
            vm.size() == 0,
    {
        VM { slots: Vec::new(), marks: Vec::new() }
    }

    /// The count of occupied slots.
    pub fn heapsize(&self) -> (r: usize)
        ensures
            r == self.size(),
    {
        let mut c: usize = 0;
        let mut i: usize = 0;
        let n = self.slots.len();
        while i < n
            invariant
                i <= n,
                n == self.slots@.len(),
                c == occ_count(self.slots@.take(i as int)),
                c <= i,
            decreases n - i,
        {
            proof {
                assert(self.slots@.take(i + 1).drop_last() =~= self.slots@.take(i as int));
            }
            if self.slots[i].val.is_some() {
                c = c + 1;
            }
            i = i + 1;
        }
        proof {
            assert(self.slots@.take(n as int) =~= self.slots@);
        }
        c
    }
}

/// What `insert` guarantees besides the stored value: the returned handle
/// is fresh and valid, the slot is unrooted, every other slot is untouched,
/// and the occupied count grows by exactly one.
pub open spec fn inserted_frame(pre: VM, post: VM, h: Handle) -> bool {
    &&& post.valid(h)
    &&& post.roots_at(h.slot as int) == 0
    &&& !pre.valid(h)
    &&& forall|g: Handle| pre.valid(g) ==> g != h
    &&& (h.slot as int) < post.n()
    &&& (post.n() == pre.n() && (h.slot as int) < pre.n() && !pre.occ(h.slot as int)) || (post.n()
        == pre.n() + 1 && h.slot as int == pre.n())
    &&& forall|i: int|
        0 <= i < pre.n() && i != h.slot as int ==> post.occ(i) == pre.occ(i) && post.gen_at(i)
            == pre.gen_at(i) && post.roots_at(i) == pre.roots_at(i) && (pre.occ(i)
            ==> post.value_at(i) == pre.value_at(i))
    &&& (h.slot as int) < pre.n() ==> h.gen == pre.gen_at(h.slot as int) + 1
    &&& post.size() == pre.size() + 1
}

/// What `insert` guarantees: the frame above, and the slot holds `v`.
pub open spec fn inserted(pre: VM, post: VM, h: Handle, v: HVal) -> bool {
    &&& inserted_frame(pre, post, h)
    &&& post.value_at(h.slot as int) == v
}

impl VM {
    /// Place a composite value in the arena, reusing a free slot when one
    /// is available, and return an unrooted handle to it.
    pub fn insert(&mut self, v: HVal) -> (h: Handle)
        requires
            old(self).wf(),
        ensures
            final(self).wf(),
            inserted(*old(self), *final(self), h, v),
    {
        let n = self.slots.len();
        let mut i: usize = 0;
        while i < n
            invariant
                i <= n,
                n == self.slots@.len(),
                *self == *old(self),
                old(self).wf(),
                forall|j: int|
                    0 <= j < i ==> (self.slots@[j].val is Some || self.slots@[j].gen
                        == u64::MAX),
            decreases n - i,
        {
            if self.slots[i].val.is_none() && self.slots[i].gen < u64::MAX {
                let g = self.slots[i].gen + 1;
                let ghost pre_slots = self.slots@;
                self.slots[i] = Slot { gen: g, val: Some(v), roots: 0 };
                proof {
                    lemma_occ_count_update(pre_slots, i as int, self.slots@[i as int]);
                }
                return Handle { slot: i, gen: g };
            }
            i = i + 1;
        }
        let ghost pre_slots = self.slots@;
        self.slots.push(Slot { gen: 0, val: Some(v), roots: 0 });
        self.marks.push(false);
        proof {
            lemma_occ_count_push(pre_slots, self.slots@.last());
        }
        Handle { slot: n, gen: 0 }
    }

    /// Resolve a handle to a borrowed view of its value; absent exactly
    /// when the handle is stale or targets a free slot.
    pub fn get(&self, h: Handle) -> (r: Option<&HVal>)
        ensures
            match r {
                Some(v) => self.valid(h) && *v == self.value_at(h.slot as int),
                None => !self.valid(h),
            },
    {
        if h.slot < self.slots.len() {
            let sl = &self.slots[h.slot];
            if sl.gen == h.gen {
                match &sl.val {
                    Some(v) => Some(v),
                    None => None,
                }
            } else {
                None
            }
        } else {
            None
        }
    }
}

/// Whether `j` occurs in the collector's work list.
spec fn in_stack(st: Seq<usize>, j: int) -> bool {
    exists|k: int| 0 <= k < st.len() && #[trigger] st[k] as int == j
}

/// The work list is well formed for `s`: every entry is a reachable slot.
spec fn stack_ok(s: Seq<Slot>, st: Seq<usize>) -> bool {
    forall|k: int|
        0 <= k < st.len() ==> #[trigger] st[k] < s.len() && reachable(s, st[k] as int)
}

/// Push the slot that `o` leads to, if `o` is a handle that resolves.
/// `o` must be one of the references of reachable slot `x`, so whatever is
/// pushed is itself reachable.
fn push_target(slots: &Vec<Slot>, stack: &mut Vec<usize>, o: Object, Ghost(x): Ghost<int>)
    requires
        reachable(slots@, x),
        slot_occ(slots@, x),
        refs_of(slot_value(slots@, x)).contains(o),
        stack_ok(slots@, old(stack)@),
    ensures
        stack_ok(slots@, final(stack)@),
        forall|j: int| in_stack(old(stack)@, j) ==> in_stack(final(stack)@, j),
        forall|j: int| obj_targets(slots@, o, j) ==> in_stack(final(stack)@, j),
{
    let ghost s = slots@;
    let ghost st0 = stack@;
    match o {
        Object::H(h) => {
            if h.slot < slots.len() {
                let sl = &slots[h.slot];
                if sl.gen == h.gen && sl.val.is_some() {
                    stack.push(h.slot);
                    proof {
                        let k = choose|k: int|
                            0 <= k < refs_of(slot_value(s, x)).len() && refs_of(
                                slot_value(s, x),
                            )[k] == o;
                        assert(edge(s, x, h.slot as int));
                        lemma_reach_step(s, x, h.slot as int);
                        assert(stack@[st0.len() as int] == h.slot);
                        assert forall|j: int| in_stack(st0, j) implies in_stack(stack@, j) by {
                            let kk = choose|kk: int|
                                0 <= kk < st0.len() && #[trigger] st0[kk] as int == j;
                            assert(stack@[kk] == st0[kk]);
                        }
                    }
                }
            }
        },
        Object::S(_) => {},
    }
}

/// Once the work list is empty, the marked set contains the root table and
/// is closed under tracing, so it covers the end of every trace.
proof fn lemma_marked_covers(s: Seq<Slot>, m: Seq<bool>, p: Seq<int>)
    requires
        m.len() == s.len(),
        is_path(s, p),
        forall|i: int| slot_rooted(s, i) ==> m[i],
        forall|i: int, j: int| m[i] && edge(s, i, j) ==> m[j],
    ensures
        m[p.last()],
    decreases p.len(),
{
    if p.len() == 1 {
        assert(slot_rooted(s, p[0]));
    } else {
        let q = p.drop_last();
        assert forall|k: int| 0 <= k < q.len() - 1 implies edge(s, #[trigger] q[k], q[k + 1]) by {
            assert(edge(s, p[k], p[k + 1]));
        }
        assert(is_path(s, q));
        lemma_marked_covers(s, m, q);
        assert(edge(s, p[p.len() - 2], p[p.len() - 1]));
    }
}

/// Push the slot of every reference held by the value of reachable slot
/// `x` onto the work list, so that every edge out of `x` is covered.
fn trace_slot(slots: &Vec<Slot>, stack: &mut Vec<usize>, x: usize)
    requires
        reachable(slots@, x as int),
        slot_occ(slots@, x as int),
        stack_ok(slots@, old(stack)@),
    ensures
        stack_ok(slots@, final(stack)@),
        forall|j: int| in_stack(old(stack)@, j) ==> in_stack(final(stack)@, j),
        forall|j: int| edge(slots@, x as int, j) ==> in_stack(final(stack)@, j),
{
    let ghost s = slots@;
    match &slots[x].val {
        Some(HVal::Cons(a, b)) => {
            proof {
                assert(refs_of(slot_value(s, x as int)) =~= seq![*a, *b]);
                assert(refs_of(slot_value(s, x as int)).contains(*a));
                assert(refs_of(slot_value(s, x as int)).contains(*b));
            }
            push_target(slots, stack, *a, Ghost(x as int));
            let ghost st2 = stack@;
            push_target(slots, stack, *b, Ghost(x as int));
            proof {
                assert forall|j: int| edge(s, x as int, j) implies in_stack(stack@, j) by {
                    let k = choose|k: int|
                        0 <= k < refs_of(slot_value(s, x as int)).len() && obj_targets(
                            s,
                            refs_of(slot_value(s, x as int))[k],
                            j,
                        );
                    if k == 0 {
                        assert(in_stack(st2, j));
                    }
                }
            }
        },
        Some(HVal::Vect(elems)) => {
            proof {
                assert(refs_of(slot_value(s, x as int)) =~= elems@);
            }
            let mut k: usize = 0;
            let m = elems.len();
            let ghost st1 = stack@;
            while k < m
                invariant
                    k <= m,
                    slots@ == s,
                    m == elems@.len(),
                    slot_occ(s, x as int),
                    reachable(s, x as int),
                    refs_of(slot_value(s, x as int)) == elems@,
                    stack_ok(s, stack@),
                    forall|j: int| in_stack(st1, j) ==> in_stack(stack@, j),
                    forall|j: int, kk: int|
                        0 <= kk < k && #[trigger] obj_targets(s, elems@[kk], j) ==> in_stack(
                            stack@,
                            j,
                        ),
                decreases m - k,
            {
                push_target(slots, stack, elems[k], Ghost(x as int));
                k = k + 1;
            }
            proof {
                assert forall|j: int| edge(s, x as int, j) implies in_stack(stack@, j) by {
                    let kk = choose|kk: int|
                        0 <= kk < refs_of(slot_value(s, x as int)).len() && obj_targets(
                            s,
                            refs_of(slot_value(s, x as int))[kk],
                            j,
                        );
                    assert(obj_targets(s, elems@[kk], j));
                }
            }
        },
        Some(HVal::Str(_)) => {
            proof {
                assert(refs_of(slot_value(s, x as int)).len() == 0);
            }
        },
        None => {
            proof {
                assert(false);
            }
        },
    }
}

/// The mark phase: set exactly the marks of the slots that are transitively
/// reachable from the root table.
#[verifier::rlimit(100)]
fn mark(slots: &Vec<Slot>, marks: &mut Vec<bool>)
    requires
        old(marks)@.len() == slots@.len(),
        forall|i: int| 0 <= i < old(marks)@.len() ==> !old(marks)@[i],
    ensures
        final(marks)@.len() == slots@.len(),
        forall|i: int| 0 <= i < slots@.len() ==> (final(marks)@[i] <==> reachable(slots@, i)),
{
    let ghost s = slots@;
    let n = slots.len();
    let mut stack: Vec<usize> = Vec::new();
    let mut i: usize = 0;
    while i < n
        invariant
            i <= n,
            n == s.len(),
            slots@ == s,
            marks@.len() == n,
            forall|j: int| 0 <= j < n ==> !marks@[j],
            stack_ok(s, stack@),
            forall|j: int| 0 <= j < i && slot_rooted(s, j) ==> in_stack(stack@, j),
        decreases n - i,
    {
        let ghost st0 = stack@;
        if slots[i].val.is_some() && slots[i].roots > 0 {
            stack.push(i);
            proof {
                lemma_rooted_reachable_int(s, i as int);
                assert(stack@[st0.len() as int] as int == i as int);
                assert forall|j: int| in_stack(st0, j) implies in_stack(stack@, j) by {
                    let k = choose|k: int| 0 <= k < st0.len() && #[trigger] st0[k] as int == j;
                    assert(stack@[k] == st0[k]);
                }
            }
        }
        i = i + 1;
    }
    while stack.len() > 0
        invariant
            n == s.len(),
            slots@ == s,
            marks@.len() == n,
            stack_ok(s, stack@),
            forall|j: int| 0 <= j < n && #[trigger] marks@[j] ==> reachable(s, j),
            forall|j: int| slot_rooted(s, j) ==> marks@[j] || in_stack(stack@, j),
            forall|x: int, j: int|
                0 <= x < n && marks@[x] && edge(s, x, j) ==> marks@[j] || in_stack(stack@, j),
        decreases unmarked_count(marks@), stack@.len(),
    {
        let ghost st_pre = stack@;
        let x = stack.pop().unwrap();
        let ghost st_mid = stack@;
        proof {
            assert(st_pre[st_pre.len() - 1] == x);
            assert(reachable(s, x as int));
            assert forall|j: int| in_stack(st_pre, j) && j != x as int implies in_stack(
                st_mid,
                j,
            ) by {
                let k = choose|k: int| 0 <= k < st_pre.len() && #[trigger] st_pre[k] as int == j;
                assert(k < st_pre.len() - 1);
                assert(st_mid[k] as int == j);
            }
        }
        if !marks[x] {
            let ghost m_pre = marks@;
            marks[x] = true;
            proof {
                lemma_unmarked_update(m_pre, x as int, true);
                lemma_reachable_occ(s, x as int);
            }
            trace_slot(slots, &mut stack, x);
            proof {
                assert forall|xx: int, j: int|
                    0 <= xx < n && marks@[xx] && edge(s, xx, j) implies marks@[j] || in_stack(
                    stack@,
                    j,
                ) by {
                    if xx != x as int {
                        assert(m_pre[xx] && edge(s, xx, j));
                        if !m_pre[j] && j != x as int {
                            assert(in_stack(st_pre, j));
                            assert(in_stack(st_mid, j));
                        }
                    }
                }
                assert forall|j: int| slot_rooted(s, j) implies marks@[j] || in_stack(stack@, j) by {
                    if !m_pre[j] && j != x as int {
                        assert(in_stack(st_pre, j));
                        assert(in_stack(st_mid, j));
                    }
                }
            }
        } else {
            proof {
                assert forall|j: int| slot_rooted(s, j) implies marks@[j] || in_stack(stack@, j) by {
                    if !marks@[j] {
                        assert(in_stack(st_pre, j));
                        assert(j != x as int);
                        assert(in_stack(st_mid, j));
                    }
                }
                assert forall|xx: int, j: int|
                    0 <= xx < n && marks@[xx] && edge(s, xx, j) implies marks@[j] || in_stack(
                    stack@,
                    j,
                ) by {
                    if !marks@[j] {
                        assert(in_stack(st_pre, j));
                        assert(j != x as int);
                        assert(in_stack(st_mid, j));
                    }
                }
            }
        }
    }
    proof {
        assert forall|i0: int| 0 <= i0 < s.len() && reachable(s, i0) implies marks@[i0] by {
            let p = choose|p: Seq<int>| is_path(s, p) && p.last() == i0;
            lemma_marked_covers(s, marks@, p);
        }
    }
}

/// How the sweep leaves slot `j`: reachable slots are untouched, occupied
/// unreachable slots are emptied with their generation moved on, free slots
/// are untouched.
spec fn swept_slot(s0: Seq<Slot>, s1: Seq<Slot>, j: int) -> bool {
    if reachable(s0, j) {
        s1[j] == s0[j]
    } else if slot_occ(s0, j) {
        &&& s1[j].gen == s0[j].gen + 1
        &&& s1[j].val is None
        &&& s1[j].roots == s0[j].roots
    } else {
        s1[j] == s0[j]
    }
}

/// After the sweep the occupied count equals the count of slots that were
/// reachable beforehand.
proof fn lemma_size_matches(s1: Seq<Slot>, s0: Seq<Slot>, k: int)
    requires
        0 <= k <= s1.len(),
        s1.len() == s0.len(),
        forall|j: int| 0 <= j < s1.len() ==> ((s1[j].val is Some) <==> reachable(s0, j)),
    ensures
        occ_count(s1.take(k)) == reach_count_to(s0, k),
    decreases k,
{
    if k > 0 {
        lemma_size_matches(s1, s0, k - 1);
        assert(s1.take(k).drop_last() =~= s1.take(k - 1));
        assert(s1.take(k).last() == s1[k - 1]);
    }
}

impl VM {
    /// Whether slot `i` is transitively reachable from the root table: it
    /// is registered there, or a chain of references from a registered slot
    /// leads to it.
    pub closed spec fn reach(self, i: int) -> bool {
        reachable(self.slots@, i)
    }

    /// How many slots are transitively reachable from the root table.
    pub closed spec fn reach_count(self) -> nat {
        reach_count_to(self.slots@, self.slots@.len() as int)
    }

    /// Run a stop-the-world mark-and-sweep collection: afterwards exactly
    /// the slots that were transitively reachable from the root table are
    /// occupied, untouched; every other previously occupied slot has been
    /// emptied and its generation moved on, so handles to it never resolve
    /// again.
    pub fn gc(&mut self)
        requires
            old(self).wf(),
        ensures
            final(self).wf(),
            final(self).n() == old(self).n(),
            final(self).size() == old(self).reach_count(),
            forall|i: int|
                0 <= i < old(self).n() ==> (final(self).occ(i) <==> old(self).reach(i)),
            forall|i: int|
                0 <= i < old(self).n() && old(self).reach(i) ==> final(self).value_at(i)
                    == old(self).value_at(i) && final(self).gen_at(i) == old(self).gen_at(i),
            forall|i: int|
                0 <= i < old(self).n() && old(self).occ(i) && !old(self).reach(i)
                    ==> final(self).gen_at(i) == old(self).gen_at(i) + 1,
            forall|i: int|
                0 <= i < old(self).n() && !old(self).occ(i) ==> final(self).gen_at(i)
                    == old(self).gen_at(i),
            forall|i: int|
                0 <= i < old(self).n() ==> final(self).roots_at(i) == old(self).roots_at(i),
            forall|i: int|
                0 <= i < old(self).n() ==> final(self).gen_at(i) >= old(self).gen_at(i),
            forall|i: int|
                0 <= i < old(self).n() && old(self).occ(i) && old(self).roots_at(i) > 0
                    ==> final(self).occ(i) && final(self).value_at(i) == old(self).value_at(i)
                    && final(self).gen_at(i) == old(self).gen_at(i),
    {
        let ghost s0 = self.slots@;
        mark(&self.slots, &mut self.marks);
        let ghost m = self.marks@;
        let n = self.slots.len();
        let mut i: usize = 0;
        while i < n
            invariant
                i <= n,
                n == s0.len(),
                self.slots@.len() == n,
                self.marks@.len() == n,
                forall|j: int| 0 <= j < n ==> slot_wf(#[trigger] s0[j]),
                forall|j: int| 0 <= j < n ==> (m[j] <==> reachable(s0, j)),
                forall|j: int|
                    i <= j < n ==> self.slots@[j] == s0[j] && self.marks@[j] == m[j],
                forall|j: int| 0 <= j < i ==> !self.marks@[j],
                forall|j: int| 0 <= j < i ==> swept_slot(s0, self.slots@, j),
            decreases n - i,
        {
            let ghost prev = self.slots@;
            let swept = self.slots[i].val.is_some() && !self.marks[i];
            if swept {
                proof {
                    if s0[i as int].roots > 0 {
                        lemma_rooted_reachable_int(s0, i as int);
                    }
                }
                let g = self.slots[i].gen;
                self.slots[i] = Slot { gen: g + 1, val: None, roots: 0 };
            }
            self.marks[i] = false;
            proof {
                assert forall|j: int| 0 <= j <= i implies swept_slot(s0, self.slots@, j) by {
                    if j < i {
                        assert(swept_slot(s0, prev, j));
                        assert(self.slots@[j] == prev[j]);
                    } else {
                        if swept {
                            assert(!m[j]);
                            assert(!reachable(s0, j));
                        } else {
                            assert(self.slots@[j] == s0[j]);
                        }
                    }
                }
            }
            i = i + 1;
        }
        proof {
            assert forall|j: int| 0 <= j < n && final(self).occ(j) implies old(self).reach(j) by {
                assert(swept_slot(s0, self.slots@, j));
            }
            assert forall|j: int| 0 <= j < n && old(self).reach(j) implies final(self).occ(j) by {
                lemma_reachable_occ(s0, j);
                assert(swept_slot(s0, self.slots@, j));
            }
            assert forall|j: int|
                0 <= j < n && !old(self).occ(j) implies final(self).gen_at(j) == old(
                self,
            ).gen_at(j) by {
                if reachable(s0, j) {
                    lemma_reachable_occ(s0, j);
                }
                assert(swept_slot(s0, self.slots@, j));
            }
            assert forall|j: int| 0 <= j < n implies slot_wf(#[trigger] self.slots@[j]) by {
                assert(swept_slot(s0, self.slots@, j));
                if !reachable(s0, j) && slot_occ(s0, j) {
                    assert(s0[j].gen % 2 == 0);
                    if s0[j].roots > 0 {
                        lemma_rooted_reachable_int(s0, j);
                    }
                }
            }
            assert forall|j: int|
                0 <= j < n implies ((self.slots@[j].val is Some) <==> reachable(s0, j)) by {
                assert(swept_slot(s0, self.slots@, j));
                if reachable(s0, j) {
                    lemma_reachable_occ(s0, j);
                }
            }
            assert forall|j: int| 0 <= j < n && old(self).reach(j) implies self.slots@[j]
                == s0[j] by {
                assert(swept_slot(s0, self.slots@, j));
            }
            assert forall|j: int|
                0 <= j < n && old(self).occ(j) && !old(self).reach(j)
                implies self.slots@[j].gen == s0[j].gen + 1 by {
                assert(slot_occ(s0, j));
                assert(swept_slot(s0, self.slots@, j));
            }
            assert forall|j: int| 0 <= j < n implies self.slots@[j].gen >= s0[j].gen
                && self.slots@[j].roots == s0[j].roots by {
                assert(swept_slot(s0, self.slots@, j));
                if !reachable(s0, j) && slot_occ(s0, j) && s0[j].roots > 0 {
                    lemma_rooted_reachable_int(s0, j);
                }
            }
            assert forall|j: int|
                0 <= j < n && old(self).occ(j) && old(self).roots_at(j) > 0 implies old(
                self,
            ).reach(j) by {
                lemma_rooted_reachable_int(s0, j);
            }
            lemma_size_matches(self.slots@, s0, n as int);
            assert(self.slots@.take(n as int) =~= self.slots@);
        }
    }
}

/// The heap part of the arena is unchanged: same slots, same occupancy,
/// same generations, same values, same root counts.
pub open spec fn heap_same(pre: VM, post: VM) -> bool {
    &&& post.n() == pre.n()
    &&& post.size() == pre.size()
    &&& forall|j: int|
        0 <= j < pre.n() ==> post.occ(j) == pre.occ(j) && post.gen_at(j) == pre.gen_at(j)
            && post.roots_at(j) == pre.roots_at(j) && (pre.occ(j) ==> post.value_at(j)
            == pre.value_at(j))
}

/// The root count of slot `i` has grown by one (saturating); everything
/// else is unchanged.
pub open spec fn root_bumped(pre: VM, post: VM, i: int) -> bool {
    &&& post.n() == pre.n()
    &&& post.size() == pre.size()
    &&& forall|j: int|
        0 <= j < pre.n() ==> post.occ(j) == pre.occ(j) && post.gen_at(j) == pre.gen_at(j) && (
        pre.occ(j) ==> post.value_at(j) == pre.value_at(j))
    &&& forall|j: int| 0 <= j < pre.n() && j != i ==> post.roots_at(j) == pre.roots_at(j)
    &&& post.roots_at(i) == (if pre.roots_at(i) == u64::MAX {
        u64::MAX
    } else {
        (pre.roots_at(i) + 1) as u64
    })
}

/// The root count of slot `i` has dropped by one; everything else is
/// unchanged.
pub open spec fn root_dropped(pre: VM, post: VM, i: int) -> bool {
    &&& post.n() == pre.n()
    &&& post.size() == pre.size()
    &&& forall|j: int|
        0 <= j < pre.n() ==> post.occ(j) == pre.occ(j) && post.gen_at(j) == pre.gen_at(j) && (
        pre.occ(j) ==> post.value_at(j) == pre.value_at(j))
    &&& forall|j: int| 0 <= j < pre.n() && j != i ==> post.roots_at(j) == pre.roots_at(j)
    &&& post.roots_at(i) == pre.roots_at(i) - 1
}

/// What promoting a reference to a rooted reference does: an immediate
/// passes through; a handle that resolves has its slot's root count bumped;
/// a stale handle leaves the arena unchanged.
pub open spec fn root_outcome(pre: VM, post: VM, o: Object, r: RootedObject) -> bool {
    match o {
        Object::S(v) => heap_same(pre, post) && r == RootedObject::S(v),
        Object::H(h) => r == RootedObject::H(h) && (if pre.valid(h) {
            root_bumped(pre, post, h.slot as int)
        } else {
            heap_same(pre, post)
        }),
    }
}

/// What releasing a rooted reference does: the slot's root count drops by
/// one if the handle still resolves and the count is positive; otherwise
/// the arena is unchanged.
pub open spec fn release_outcome(pre: VM, post: VM, r: RootedObject) -> bool {
    match r {
        RootedObject::S(_) => heap_same(pre, post),
        RootedObject::H(h) => if pre.valid(h) && pre.roots_at(h.slot as int) > 0 {
            root_dropped(pre, post, h.slot as int)
        } else {
            heap_same(pre, post)
        },
    }
}

impl VM {
    /// Register the slot of `o` in the root table (when `o` is a handle
    /// that resolves) and hand back the owning reference.
    pub fn rooted(&mut self, o: &Object) -> (r: RootedObject)
        requires
            old(self).wf(),
        ensures
            final(self).wf(),
            root_outcome(*old(self), *final(self), *o, r),
    {
        match o {
            Object::S(v) => RootedObject::S(*v),
            Object::H(h) => {
                let idx = h.slot;
                if idx < self.slots.len() {
                    let sl = &self.slots[idx];
                    if sl.gen == h.gen && sl.val.is_some() && sl.roots < u64::MAX {
                        let ghost pre_slots = self.slots@;
                        let slm = vstd::std_specs::vec::vec_index_mut(&mut self.slots, idx);
                        let g = slm.gen;
                        let rc = slm.roots + 1;
                        let v = slm.val.take();
                        *slm = Slot { gen: g, val: v, roots: rc };
                        proof {
                            lemma_occ_count_update(
                                pre_slots,
                                idx as int,
                                self.slots@[idx as int],
                            );
                        }
                    }
                }
                RootedObject::H(*h)
            },
        }
    }

    /// Release one root registration held by `r`. Reaching a count of
    /// zero does not free the slot; the next collection does, if no other
    /// root path reaches it.
    pub fn release(&mut self, r: RootedObject)
        requires
            old(self).wf(),
        ensures
            final(self).wf(),
            release_outcome(*old(self), *final(self), r),
    {
        match r {
            RootedObject::S(_) => {},
            RootedObject::H(h) => {
                let idx = h.slot;
                if idx < self.slots.len() {
                    let sl = &self.slots[idx];
                    if sl.gen == h.gen && sl.val.is_some() && sl.roots > 0 {
                        let ghost pre_slots = self.slots@;
                        let slm = vstd::std_specs::vec::vec_index_mut(&mut self.slots, idx);
                        let g = slm.gen;
                        let rc = slm.roots - 1;
                        let v = slm.val.take();
                        *slm = Slot { gen: g, val: v, roots: rc };
                        proof {
                            lemma_occ_count_update(
                                pre_slots,
                                idx as int,
                                self.slots@[idx as int],
                            );
                        }
                    }
                }
            },
        }
    }
}

/// A short-lived resolution of a reference: an immediate, a borrowed view
/// of the value in a live slot, or the dead marker carrying the identity of
/// a handle whose slot has been reclaimed.
pub enum DObj<M> {
    D(Handle),
    S(SVal),
    H(M),
}

impl VM {
    /// The head and tail of the cons cell `o` refers to, if any.
    pub open spec fn spec_cons(self, o: Object) -> Option<(Object, Object)> {
        match o {
            Object::H(h) => if self.valid(h) {
                match self.value_at(h.slot as int) {
                    HVal::Cons(a, b) => Some((a, b)),
                    _ => None,
                }
            } else {
                None
            },
            Object::S(_) => None,
        }
    }

    /// The elements of the vector `o` refers to, if `o` is a live handle
    /// to a vector.
    pub open spec fn vect_elems(self, o: Object) -> Option<Seq<Object>> {
        match o {
            Object::H(h) => if self.valid(h) {
                match self.value_at(h.slot as int) {
                    HVal::Vect(elems) => Some(elems@),
                    _ => None,
                }
            } else {
                None
            },
            Object::S(_) => None,
        }
    }

    /// The characters of the text `o` refers to, if `o` is a live handle
    /// to a text value.
    pub open spec fn str_chars(self, o: Object) -> Option<Seq<char>> {
        match o {
            Object::H(h) => if self.valid(h) {
                match self.value_at(h.slot as int) {
                    HVal::Str(s) => Some(s@),
                    _ => None,
                }
            } else {
                None
            },
            Object::S(_) => None,
        }
    }

    /// Resolve a reference for the current operation: an immediate passes
    /// through, a live handle yields a borrowed view of its value, a stale
    /// handle yields the dead marker with the handle's identity.
    pub fn direct(&self, obj: impl GObj) -> (r: DObj<&HVal>)
        ensures
            match r {
                DObj::S(v) => obj.obj() == Object::S(v),
                DObj::H(hv) => (match obj.obj() {
                    Object::H(h) => self.valid(h) && *hv == self.value_at(h.slot as int),
                    Object::S(_) => false,
                }),
                DObj::D(h) => obj.obj() == Object::H(h) && !self.valid(h),
            },
    {
        match obj.unroot() {
            Object::S(v) => DObj::S(v),
            Object::H(h) => match self.get(h) {
                Some(v) => DObj::H(v),
                None => DObj::D(h),
            },
        }
    }

    /// Create an immediate integer reference; no heap interaction.
    pub fn integer(&self, v: isize) -> (r: Object)
        ensures
            r == Object::S(SVal::Int(v)),
    {
        Object::S(SVal::Int(v))
    }

    /// Create an immediate floating-point reference from the IEEE-754 bit
    /// pattern of its value; no heap interaction.
    pub fn float(&self, bits: u64) -> (r: Object)
        ensures
            r == Object::S(SVal::Float(bits)),
    {
        Object::S(SVal::Float(bits))
    }

    /// Allocate an unrooted cons cell.
    pub fn cons(&mut self, car: impl GObj, cdr: impl GObj) -> (r: Object)
        requires
            old(self).wf(),
        ensures
            final(self).wf(),
            r matches Object::H(h) && inserted(
                *old(self),
                *final(self),
                h,
                HVal::Cons(car.obj(), cdr.obj()),
            ),
    {
        let a = car.unroot();
        let b = cdr.unroot();
        let h = self.insert(HVal::Cons(a, b));
        Object::H(h)
    }

    /// The head of the cons cell `obj` refers to; absent if `obj` is not a
    /// live handle to a cons cell.
    pub fn car(&self, obj: impl GObj) -> (r: Option<Object>)
        ensures
            r == (match self.spec_cons(obj.obj()) {
                Some(p) => Some(p.0),
                None => None::<Object>,
            }),
    {
        match self.direct(obj) {
            DObj::H(HVal::Cons(a, _)) => Some(*a),
            _ => None,
        }
    }

    /// The tail of the cons cell `obj` refers to; absent if `obj` is not a
    /// live handle to a cons cell.
    pub fn cdr(&self, obj: impl GObj) -> (r: Option<Object>)
        ensures
            r == (match self.spec_cons(obj.obj()) {
                Some(p) => Some(p.1),
                None => None::<Object>,
            }),
    {
        match self.direct(obj) {
            DObj::H(HVal::Cons(_, b)) => Some(*b),
            _ => None,
        }
    }

    /// Allocate an unrooted vector of length `len`, every element the
    /// undefined immediate.
    pub fn vec(&mut self, len: usize) -> (r: Object)
        requires
            old(self).wf(),
        ensures
            final(self).wf(),
            r matches Object::H(h) && inserted_frame(*old(self), *final(self), h)
                && final(self).vect_elems(r) == Some(
                Seq::new(len as nat, |i: int| Object::S(SVal::Undefined)),
            ),
    {
        let mut elems: Vec<Object> = Vec::new();
        let mut i: usize = 0;
        while i < len
            invariant
                i <= len,
                elems@.len() == i,
                forall|k: int| 0 <= k < i ==> elems@[k] == Object::S(SVal::Undefined),
            decreases len - i,
        {
            elems.push(Object::S(SVal::Undefined));
            i = i + 1;
        }
        proof {
            assert(elems@ =~= Seq::new(len as nat, |i: int| Object::S(SVal::Undefined)));
        }
        let h = self.insert(HVal::Vect(elems));
        Object::H(h)
    }

    /// The `index`-th element of the vector `obj` refers to; absent if
    /// `obj` is not a live handle to a vector or the index is out of range.
    pub fn vec_get(&self, obj: impl GObj, index: usize) -> (r: Option<Object>)
        ensures
            r == (match self.vect_elems(obj.obj()) {
                Some(es) => if (index as int) < es.len() {
                    Some(es[index as int])
                } else {
                    None::<Object>
                },
                None => None::<Object>,
            }),
    {
        match self.direct(obj) {
            DObj::H(HVal::Vect(v)) => {
                if index < v.len() {
                    Some(v[index])
                } else {
                    None
                }
            },
            _ => None,
        }
    }

    /// Allocate an unrooted text value holding `s`.
    pub fn string(&mut self, s: String) -> (r: Object)
        requires
            old(self).wf(),
        ensures
            final(self).wf(),
            r matches Object::H(h) && inserted_frame(*old(self), *final(self), h)
                && final(self).str_chars(r) == Some(s@),
    {
        let h = self.insert(HVal::Str(s));
        Object::H(h)
    }
}

/// What a successful vector-element update does: the element at `index` of
/// the vector `o` refers to becomes `v`; everything else is unchanged.
pub open spec fn vect_updated(pre: VM, post: VM, o: Object, index: int, v: Object) -> bool {
    match o {
        Object::H(h) => {
            &&& post.n() == pre.n()
            &&& post.size() == pre.size()
            &&& forall|j: int|
                0 <= j < pre.n() ==> post.occ(j) == pre.occ(j) && post.gen_at(j) == pre.gen_at(
                    j,
                ) && post.roots_at(j) == pre.roots_at(j)
            &&& forall|j: int|
                0 <= j < pre.n() && j != h.slot as int && pre.occ(j) ==> post.value_at(j)
                    == pre.value_at(j)
            &&& post.vect_elems(o) == (match pre.vect_elems(o) {
                Some(es) => Some(es.update(index, v)),
                None => None::<Seq<Object>>,
            })
        },
        Object::S(_) => false,
    }
}

impl VM {
    /// Set the `index`-th element of the vector `obj` refers to. Fails,
    /// changing nothing, when `obj` is not a live handle to a vector or
    /// the index is out of range.
    pub fn vec_set(&mut self, obj: impl GObj, index: usize, val: impl GObj) -> (r: Result<
        (),
        (),
    >)
        requires
            old(self).wf(),
        ensures
            final(self).wf(),
            match old(self).vect_elems(obj.obj()) {
                Some(es) => if (index as int) < es.len() {
                    r is Ok && vect_updated(
                        *old(self),
                        *final(self),
                        obj.obj(),
                        index as int,
                        val.obj(),
                    )
                } else {
                    r is Err && heap_same(*old(self), *final(self))
                },
                None => r is Err && heap_same(*old(self), *final(self)),
            },
    {
        let o = obj.unroot();
        let v = val.unroot();
        match o {
            Object::H(h) => {
                if h.slot >= self.slots.len() {
                    return Err(());
                }
                let usable = {
                    let sl = &self.slots[h.slot];
                    sl.gen == h.gen && (match &sl.val {
                        Some(HVal::Vect(elems)) => index < elems.len(),
                        _ => false,
                    })
                };
                if !usable {
                    return Err(());
                }
                let ghost pre_slots = self.slots@;
                let slm = vstd::std_specs::vec::vec_index_mut(&mut self.slots, h.slot);
                match &mut slm.val {
                    Some(HVal::Vect(elems)) => {
                        elems[index] = v;
                    },
                    _ => {
                        proof {
                            assert(false);
                        }
                    },
                }
                proof {
                    lemma_occ_count_update(pre_slots, h.slot as int, self.slots@[h.slot as int]);
                }
                Ok(())
            },
            Object::S(_) => Err(()),
        }
    }
}

impl Object {
    /// Promote to an owning rooted reference, registering the slot in the
    /// root table when the handle resolves.
    pub fn root(self, vm: &mut VM) -> (r: RootedObject)
        requires
            old(vm).wf(),
        ensures
            final(vm).wf(),
            root_outcome(*old(vm), *final(vm), self, r),
    {
        vm.rooted(&self)
    }
}

impl RootedObject {
    /// Already owning: rooting again is the identity and touches nothing.
    pub fn root(self, vm: &mut VM) -> (r: RootedObject)
        ensures
            r == self,
            *final(vm) == *old(vm),
    {
        self
    }
}

/// Law: a slot registered in the root table is reachable from it, so a
/// value kept alive by a live rooted reference survives any collection.
pub proof fn lemma_rooted_reachable(vm: VM, i: int)
    requires
        vm.occ(i),
        vm.roots_at(i) > 0,
    ensures
        vm.reach(i),
{
    lemma_rooted_reachable_int(vm.slots@, i);
}

/// Law: a reachable slot is occupied.
pub proof fn lemma_reach_is_occupied(vm: VM, i: int)
    requires
        vm.reach(i),
    ensures
        vm.occ(i),
{
    lemma_reachable_occ(vm.slots@, i);
}

proof fn lemma_reach_count_zero(s: Seq<Slot>, k: int)
    requires
        forall|i: int| !reachable(s, i),
    ensures
        reach_count_to(s, k) == 0,
    decreases k,
{
    if k > 0 {
        lemma_reach_count_zero(s, k - 1);
    }
}

/// Law: reachability begins at the root table. With no registration at
/// all, nothing is reachable, and a collection empties the heap.
pub proof fn lemma_no_roots_nothing_reachable(vm: VM)
    requires
        forall|i: int| 0 <= i < vm.n() ==> vm.roots_at(i) == 0,
    ensures
        forall|i: int| !vm.reach(i),
        vm.reach_count() == 0,
{
    let s = vm.slots@;
    assert forall|i: int| !reachable(s, i) by {
        if reachable(s, i) {
            let p = choose|p: Seq<int>| is_path(s, p) && p.last() == i;
            assert(slot_rooted(s, p[0]));
            assert(vm.roots_at(p[0]) == 0);
            assert(false);
        }
    }
    lemma_reach_count_zero(s, s.len() as int);
}

/// Law: a handle whose slot's generation has moved past it never compares
/// equal to the slot's current handle, and never resolves again.
pub proof fn lemma_stale_handle(vm: VM, h: Handle, h2: Handle)
    requires
        (h.slot as int) < vm.n(),
        h.gen < vm.gen_at(h.slot as int),
        h2.slot == h.slot,
        h2.gen == vm.gen_at(h2.slot as int),
    ensures
        h2 != h,
        !vm.valid(h),
{
}

} // verus!
