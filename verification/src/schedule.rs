use vstd::prelude::*;
use crate::block::BB;
use crate::func::Func;
use crate::module::AsmModule;
use crate::instrs::{LIRInst, InstrsType, BinaryOp, SingleOp, Operand, same_operand, contains_reg};
use crate::operand::ScalarType;

verus! {

/// Control-flow instructions keep their place at the end of the block.
pub open spec fn is_control(t: InstrsType) -> bool {
    t is Ret || t is Branch || t is Jump
}

/// Two memory accesses through the same base (operand 1) of which one
/// is a store.
pub open spec fn sl_conflict(a: LIRInst, b: LIRInst) -> bool {
    &&& ((a.inst_type == InstrsType::Store && b.inst_type == InstrsType::Store)
        || (a.inst_type == InstrsType::Load && b.inst_type == InstrsType::Store)
        || (a.inst_type == InstrsType::Store && b.inst_type == InstrsType::Load))
    &&& same_operand(a.operands@[1], b.operands@[1])
}

/// `a`, placed after `b` in a block, must stay after it: a call orders
/// everything around it, conflicting memory accesses keep their order,
/// and so do a read after a write and a write after a read of a register.
pub open spec fn sched_dep(a: LIRInst, b: LIRInst) -> bool {
    ||| b.inst_type is Call
    ||| a.inst_type is Call
    ||| sl_conflict(a, b)
    ||| exists|k: int| 0 <= k < a.spec_reg_use().len() && b.spec_reg_def().contains(#[trigger] a.spec_reg_use()[k])
    ||| exists|k: int| 0 <= k < a.spec_reg_def().len() && b.spec_reg_use().contains(#[trigger] a.spec_reg_def()[k])
}

/// What scheduling needs of an instruction: a register where it defines
/// one, and a base operand where it accesses memory.
pub open spec fn sched_ready(i: LIRInst) -> bool {
    &&& i.def_well_formed()
    &&& (i.inst_type == InstrsType::Load || i.inst_type == InstrsType::Store) ==> i.operands@.len() > 1
}

/// `b` is `a` reordered by `ord` (the position in `a` of each instruction
/// of `b`): the control instructions last and in their order, and no other
/// instruction moved before one it depends on.
pub open spec fn scheduled(a: Seq<LIRInst>, b: Seq<LIRInst>, ord: Seq<int>) -> bool {
    &&& ord.len() == a.len()
    &&& b.len() == a.len()
    &&& forall|k: int| 0 <= k < ord.len() ==> 0 <= #[trigger] ord[k] < a.len() && b[k]@ == a[ord[k]]@
    &&& forall|k1: int, k2: int| 0 <= k1 < ord.len() && 0 <= k2 < ord.len() && k1 != k2 ==> ord[k1] != ord[k2]
    &&& forall|k1: int, k2: int| 0 <= k1 < k2 < ord.len() && is_control(a[ord[k1]].inst_type)
        ==> is_control(a[ord[k2]].inst_type) && ord[k1] < ord[k2]
    &&& forall|k1: int, k2: int| 0 <= k1 < k2 < ord.len() && ord[k2] < ord[k1] && !is_control(a[ord[k2]].inst_type)
        ==> !sched_dep(a[ord[k1]], a[ord[k2]])
}

/// Whether the value of `a` written through `b` is one of `regs`.
fn meets(a: &Vec<crate::operand::Reg>, b: &Vec<crate::operand::Reg>) -> (r: bool)
    ensures
        r == exists|k: int| 0 <= k < a@.len() && b@.contains(#[trigger] a@[k]),
{
    let mut k: usize = 0;
    while k < a.len()
        invariant
            k <= a@.len(),
            forall|j: int| 0 <= j < k ==> !b@.contains(#[trigger] a@[j]),
        decreases a@.len() - k,
    {
        if contains_reg(b, &a[k]) {
            return true;
        }
        k += 1;
    }
    false
}

/// Whether `a`, after `b`, depends on it.
fn depends(a: &LIRInst, b: &LIRInst) -> (r: bool)
    requires
        sched_ready(*a),
        sched_ready(*b),
    ensures
        r == sched_dep(*a, *b),
{
    if b.inst_type == InstrsType::Call || a.inst_type == InstrsType::Call {
        return true;
    }
    let ls = (a.inst_type == InstrsType::Store && b.inst_type == InstrsType::Store)
        || (a.inst_type == InstrsType::Load && b.inst_type == InstrsType::Store)
        || (a.inst_type == InstrsType::Store && b.inst_type == InstrsType::Load);
    if ls && a.operands[1] == b.operands[1] {
        return true;
    }
    let au = a.get_reg_use();
    let ad = a.get_reg_def();
    let bu = b.get_reg_use();
    let bd = b.get_reg_def();
    meets(&au, &bd) || meets(&ad, &bu)
}

/// Two neighbouring instructions that compete for one unit: memory
/// accesses, multiplications, float operations.
pub open spec fn spec_special_pair(a: LIRInst, b: LIRInst) -> bool {
    if is_mem(a.inst_type) {
        is_mem(b.inst_type) || b.inst_type == InstrsType::OpReg(SingleOp::LoadAddr)
    } else if a.inst_type == InstrsType::Binary(BinaryOp::Mul) {
        b.inst_type == InstrsType::Binary(BinaryOp::Mul)
    } else if a.inst_type is Binary {
        b.inst_type is Binary && has_float_reg(a.operands@) && has_float_reg(b.operands@)
    } else {
        false
    }
}

/// A load or store, to memory or to the stack.
pub open spec fn is_mem(t: InstrsType) -> bool {
    t is LoadFromStack || t is StoreToStack || t is LoadParamFromStack || t is StoreParamToStack
        || t is Load || t is Store
}

/// Some operand is a float register.
pub open spec fn has_float_reg(ops: Seq<Operand>) -> bool {
    exists|k: int| 0 <= k < ops.len() && (#[trigger] ops[k] matches Operand::Reg(r) && r.r_type == ScalarType::Float)
}

fn mem_kind(t: InstrsType) -> (r: bool)
    ensures
        r == is_mem(t),
{
    match t {
        InstrsType::LoadFromStack | InstrsType::StoreToStack | InstrsType::LoadParamFromStack
        | InstrsType::StoreParamToStack | InstrsType::Load | InstrsType::Store => true,
        _ => false,
    }
}

fn float_reg_in(ops: &Vec<Operand>) -> (r: bool)
    ensures
        r == has_float_reg(ops@),
{
    let mut k: usize = 0;
    while k < ops.len()
        invariant
            k <= ops@.len(),
            forall|j: int| 0 <= j < k ==> !(#[trigger] ops@[j] matches Operand::Reg(r) && r.r_type == ScalarType::Float),
        decreases ops@.len() - k,
    {
        match &ops[k] {
            Operand::Reg(r) => {
                if r.r_type == ScalarType::Float {
                    return true;
                }
            },
            _ => {},
        }
        k += 1;
    }
    false
}

/// Whether `a` issued right after `b` would wait on the same unit.
fn dep_inst_special(a: &LIRInst, b: &LIRInst) -> (r: bool)
    ensures
        r == spec_special_pair(*a, *b),
{
    if mem_kind(a.inst_type) {
        mem_kind(b.inst_type) || b.inst_type == InstrsType::OpReg(SingleOp::LoadAddr)
    } else if a.inst_type == InstrsType::Binary(BinaryOp::Mul) {
        b.inst_type == InstrsType::Binary(BinaryOp::Mul)
    } else {
        match a.inst_type {
            InstrsType::Binary(_) => {
                match b.inst_type {
                    InstrsType::Binary(_) => float_reg_in(&a.operands) && float_reg_in(&b.operands),
                    _ => false,
                }
            },
            _ => false,
        }
    }
}

/// The first slot tried for the instruction at `q[j]`: one past the
/// latest slot, among the first `i` of the queue, of an instruction before
/// it in the block that it depends on (0 when there is none).
pub open spec fn dep_top(a: Seq<LIRInst>, q: Seq<usize>, s: Seq<i32>, j: int, i: int) -> int
    decreases i,
{
    if i <= 0 {
        0
    } else {
        let t = dep_top(a, q, s, j, i - 1);
        let c = i - 1;
        if q[c] < q[j] && sched_dep(a[q[j] as int], a[q[c] as int]) && s[c] + 1 > t {
            s[c] + 1
        } else {
            t
        }
    }
}

/// How far the instruction at `q[j]` moves past the one at `q[h]` whose
/// slot it found taken: two places when they share a unit, else one.
pub open spec fn slot_step(a: Seq<LIRInst>, q: Seq<usize>, j: int, h: int) -> int {
    if spec_special_pair(a[q[j] as int], a[q[h] as int]) { 2 } else { 1 }
}

/// The slots `c` tried for the `j`th of the queue, from `dep_top` on, each
/// taken by an earlier one of the queue and left by `slot_step`, up to a
/// free one, which is its slot `s[j]`.
pub open spec fn bumped(a: Seq<LIRInst>, q: Seq<usize>, s: Seq<i32>, j: int, c: Seq<int>) -> bool {
    &&& c.len() >= 1
    &&& c[0] == dep_top(a, q, s, j, j)
    &&& c[c.len() - 1] == s[j]
    &&& forall|x: int| 0 <= x < j ==> s[x] != s[j]
    &&& forall|t: int| #![trigger c[t]] 0 <= t < c.len() - 1 ==>
        exists|h: int| #![trigger s[h]] 0 <= h < j && s[h] == c[t] && c[t + 1] == c[t] + slot_step(a, q, j, h)
}

/// The slot of the `j`th of the queue is the one its search reaches.
pub open spec fn slot_rule(a: Seq<LIRInst>, q: Seq<usize>, s: Seq<i32>, j: int) -> bool {
    exists|c: Seq<int>| bumped(a, q, s, j, c)
}

proof fn lemma_dep_top_prefix(a: Seq<LIRInst>, q: Seq<usize>, s: Seq<i32>, s2: Seq<i32>, j: int, i: int)
    requires
        0 <= i <= j < s.len(),
        j < s2.len(),
        forall|x: int| 0 <= x <= j ==> s[x] == s2[x],
    ensures
        dep_top(a, q, s, j, i) == dep_top(a, q, s2, j, i),
    decreases i,
{
    if i > 0 {
        lemma_dep_top_prefix(a, q, s, s2, j, i - 1);
    }
}

proof fn lemma_slot_rule_prefix(a: Seq<LIRInst>, q: Seq<usize>, s: Seq<i32>, s2: Seq<i32>, j: int)
    requires
        0 <= j < s.len(),
        j < s2.len(),
        forall|x: int| 0 <= x <= j ==> s[x] == s2[x],
        slot_rule(a, q, s, j),
    ensures
        slot_rule(a, q, s2, j),
{
    let c = choose|c: Seq<int>| bumped(a, q, s, j, c);
    lemma_dep_top_prefix(a, q, s, s2, j, j);
    assert forall|t: int| #![trigger c[t]] 0 <= t < c.len() - 1 implies
        exists|h: int| #![trigger s2[h]] 0 <= h < j && s2[h] == c[t] && c[t + 1] == c[t] + slot_step(a, q, j, h) by {
        let h = choose|h: int| #![trigger s[h]] 0 <= h < j && s[h] == c[t] && c[t + 1] == c[t] + slot_step(a, q, j, h);
        assert(s2[h] == s[h]);
    }
    assert(bumped(a, q, s2, j, c));
}

/// An issue slot for each instruction `idx` picks out of `insts`, in order:
/// one past the latest slot of an instruction before it in the block that
/// it depends on, then moved past the slots already taken (two places past
/// one whose unit it shares, else one).
fn schedule_slots(insts: &Vec<LIRInst>, idx: &Vec<usize>) -> (s: Vec<i32>)
    requires
        idx@.len() <= 0x3fff_ffff,
        forall|i: int| 0 <= i < idx@.len() ==> (#[trigger] idx@[i]) < insts@.len(),
        forall|i: int| 0 <= i < insts@.len() ==> sched_ready(#[trigger] insts@[i]),
    ensures
        s@.len() == idx@.len(),
        forall|i: int, j: int| 0 <= i < j < idx@.len() && idx@[i] < idx@[j]
            && sched_dep(insts@[idx@[j] as int], insts@[idx@[i] as int]) ==> s@[i] < s@[j],
        forall|i: int, j: int| 0 <= i < s@.len() && 0 <= j < s@.len() && i != j ==> s@[i] != s@[j],
        forall|j: int| 0 <= j < s@.len() ==> #[trigger] slot_rule(insts@, idx@, s@, j),
{
    let n = idx.len();
    let mut s: Vec<i32> = Vec::new();
    let mut j: usize = 0;
    while j < n
        invariant
            n == idx@.len(),
            n <= 0x3fff_ffff,
            forall|i: int| 0 <= i < n ==> (#[trigger] idx@[i]) < insts@.len(),
            forall|i: int| 0 <= i < insts@.len() ==> sched_ready(#[trigger] insts@[i]),
            j <= n,
            s@.len() == j,
            forall|i: int| 0 <= i < j ==> 0 <= #[trigger] s@[i] <= 2 * i + 2,
            forall|i: int, k: int| 0 <= i < k < j && idx@[i] < idx@[k]
                && sched_dep(insts@[idx@[k] as int], insts@[idx@[i] as int]) ==> s@[i] < s@[k],
            forall|a: int, b: int| 0 <= a < j && 0 <= b < j && a != b ==> s@[a] != s@[b],
            forall|k: int| 0 <= k < j ==> #[trigger] slot_rule(insts@, idx@, s@, k),
        decreases n - j,
    {
        // the latest slot among the earlier instructions, and the first free after dependences
        let mut top: i32 = 0;
        let mut slot: i32 = 0;
        let mut i: usize = 0;
        while i < j
            invariant
                j < n,
                n == idx@.len(),
                n <= 0x3fff_ffff,
                forall|x: int| 0 <= x < n ==> (#[trigger] idx@[x]) < insts@.len(),
                forall|x: int| 0 <= x < insts@.len() ==> sched_ready(#[trigger] insts@[x]),
                s@.len() == j,
                forall|x: int| 0 <= x < j ==> 0 <= #[trigger] s@[x] <= 2 * x + 2,
                i <= j,
                0 <= top <= 2 * j,
                forall|x: int| 0 <= x < i ==> s@[x] <= top,
                0 <= slot <= top + 1,
                slot == dep_top(insts@, idx@, s@, j as int, i as int),
                forall|x: int| 0 <= x < i && idx@[x] < idx@[j as int]
                    && sched_dep(insts@[idx@[j as int] as int], insts@[idx@[x] as int]) ==> s@[x] < slot,
            decreases j - i,
        {
            if s[i] > top {
                top = s[i];
            }
            if idx[i] < idx[j] && depends(&insts[idx[j]], &insts[idx[i]]) && s[i] + 1 > slot {
                slot = s[i] + 1;
            }
            i += 1;
        }
        let ghost start = slot as int;
        let ghost mut c: Seq<int> = seq![slot as int];
        // move past the slots already taken
        let mut free = false;
        while !free
            invariant
                j < n,
                n == idx@.len(),
                n <= 0x3fff_ffff,
                forall|x: int| 0 <= x < n ==> (#[trigger] idx@[x]) < insts@.len(),
                s@.len() == j,
                forall|x: int| 0 <= x < j ==> 0 <= #[trigger] s@[x] <= top,
                0 <= top <= 2 * j,
                0 <= slot <= top + 2,
                forall|x: int| 0 <= x < j && idx@[x] < idx@[j as int]
                    && sched_dep(insts@[idx@[j as int] as int], insts@[idx@[x] as int]) ==> s@[x] < slot,
                free ==> forall|x: int| 0 <= x < j ==> s@[x] != slot,
                start == dep_top(insts@, idx@, s@, j as int, j as int),
                c.len() >= 1,
                c[0] == start,
                c[c.len() - 1] == slot,
                forall|t: int| #![trigger c[t]] 0 <= t < c.len() - 1 ==>
                    exists|h: int| #![trigger s@[h]] 0 <= h < j && s@[h] == c[t] && c[t + 1] == c[t] + slot_step(insts@, idx@, j as int, h),
            decreases top + 3 - slot - (if free { 1int } else { 0int }),
        {
            let mut hit: Option<usize> = None;
            let mut i: usize = 0;
            while i < j
                invariant
                    i <= j,
                    s@.len() == j,
                    hit is None ==> forall|x: int| 0 <= x < i ==> s@[x] != slot,
                    hit matches Some(h) ==> h < j && s@[h as int] == slot,
                decreases j - i,
            {
                if hit.is_none() && s[i] == slot {
                    hit = Some(i);
                }
                i += 1;
            }
            match hit {
                None => {
                    free = true;
                },
                Some(h) => {
                    let ghost c0 = c;
                    if dep_inst_special(&insts[idx[j]], &insts[idx[h]]) {
                        slot = slot + 2;
                    } else {
                        slot = slot + 1;
                    }
                    proof {
                        c = c.push(slot as int);
                        assert forall|t: int| #![trigger c[t]] 0 <= t < c.len() - 1 implies
                            exists|hh: int| #![trigger s@[hh]] 0 <= hh < j && s@[hh] == c[t] && c[t + 1] == c[t] + slot_step(insts@, idx@, j as int, hh) by {
                            if t < c0.len() - 1 {
                                assert(c[t] == c0[t] && c[t + 1] == c0[t + 1]);
                                assert(c0[t] == c0[t]);
                            } else {
                                assert(s@[h as int] == c[t]);
                            }
                        }
                    }
                },
            }
        }
        let ghost s0 = s@;
        s.push(slot);
        proof {
            lemma_dep_top_prefix(insts@, idx@, s0.push(slot), s@, j as int, j as int);
            assert(s0.push(slot) =~= s@);
            assert(bumped(insts@, idx@, s@, j as int, c)) by {
                assert forall|t: int| #![trigger c[t]] 0 <= t < c.len() - 1 implies
                    exists|h: int| #![trigger s@[h]] 0 <= h < j && s@[h] == c[t] && c[t + 1] == c[t] + slot_step(insts@, idx@, j as int, h) by {
                    let h = choose|h: int| #![trigger s0[h]] 0 <= h < j && s0[h] == c[t] && c[t + 1] == c[t] + slot_step(insts@, idx@, j as int, h);
                    assert(s@[h] == s0[h]);
                }
                assert(dep_top(insts@, idx@, s0, j as int, j as int) == dep_top(insts@, idx@, s@, j as int, j as int)) by {
                    lemma_dep_top_prefix_short(insts@, idx@, s0, s@, j as int, j as int);
                }
            }
            assert forall|k: int| 0 <= k < j + 1 implies #[trigger] slot_rule(insts@, idx@, s@, k) by {
                if k < j {
                    assert(slot_rule(insts@, idx@, s0, k));
                    lemma_slot_rule_prefix(insts@, idx@, s0, s@, k);
                }
            }
        }
        j += 1;
    }
    s
}

proof fn lemma_dep_top_prefix_short(a: Seq<LIRInst>, q: Seq<usize>, s: Seq<i32>, s2: Seq<i32>, j: int, i: int)
    requires
        0 <= i <= j,
        j <= s.len(),
        j <= s2.len(),
        forall|x: int| 0 <= x < j ==> s[x] == s2[x],
    ensures
        dep_top(a, q, s, j, i) == dep_top(a, q, s2, j, i),
    decreases i,
{
    if i > 0 {
        lemma_dep_top_prefix_short(a, q, s, s2, j, i - 1);
    }
}

/// The indices of `s`, ordered by their slots.
fn order_by_slot(s: &Vec<i32>) -> (o: Vec<usize>)
    requires
        forall|a: int, b: int| 0 <= a < s@.len() && 0 <= b < s@.len() && a != b ==> s@[a] != s@[b],
    ensures
        o@.len() == s@.len(),
        forall|k: int| 0 <= k < o@.len() ==> #[trigger] o@[k] < s@.len(),
        forall|a: int, b: int| 0 <= a < o@.len() && 0 <= b < o@.len() && a != b ==> o@[a] != o@[b],
        forall|a: int, b: int| 0 <= a < b < o@.len() ==> s@[o@[a] as int] < s@[o@[b] as int],
{
    let n = s.len();
    let mut placed: Vec<bool> = Vec::new();
    let mut i: usize = 0;
    while i < n
        invariant
            i <= n,
            n == s@.len(),
            placed@.len() == i,
            forall|x: int| 0 <= x < i ==> !placed@[x],
        decreases n - i,
    {
        placed.push(false);
        i += 1;
    }
    let mut o: Vec<usize> = Vec::new();
    let mut k: usize = 0;
    while k < n
        invariant
            n == s@.len(),
            forall|a: int, b: int| 0 <= a < n && 0 <= b < n && a != b ==> s@[a] != s@[b],
            placed@.len() == n,
            k <= n,
            o@.len() == k,
            forall|x: int| 0 <= x < k ==> #[trigger] o@[x] < n,
            forall|x: int| 0 <= x < n ==> (#[trigger] placed@[x] <==> exists|y: int| 0 <= y < k && o@[y] == x),
            forall|a: int, b: int| 0 <= a < k && 0 <= b < k && a != b ==> o@[a] != o@[b],
            forall|a: int, b: int| 0 <= a < b < k ==> s@[o@[a] as int] < s@[o@[b] as int],
            forall|a: int, x: int| 0 <= a < k && 0 <= x < n && !placed@[x] ==> s@[o@[a] as int] < s@[x],
        decreases n - k,
    {
        proof {
            lemma_cover(o@, n as int);
            let x = choose|x: int| 0 <= x < n && #[trigger] left_out(o@, x);
            assert(!placed@[x]);
        }
        let mut best: usize = n;
        let mut x: usize = 0;
        while x < n
            invariant
                n == s@.len(),
                placed@.len() == n,
                x <= n,
                best == n || (best < n && !placed@[best as int]),
                best == n ==> forall|y: int| 0 <= y < x ==> placed@[y],
                best < n ==> forall|y: int| 0 <= y < x && !placed@[y] ==> s@[best as int] <= s@[y],
            decreases n - x,
        {
            if !placed[x] && (best == n || s[x] < s[best]) {
                best = x;
            }
            x += 1;
        }
        let ghost o0 = o@;
        let ghost p0 = placed@;
        placed.set(best, true);
        o.push(best);
        proof {
            assert forall|y: int| 0 <= y < n implies (#[trigger] placed@[y] <==> exists|z: int| 0 <= z < k + 1 && o@[z] == y) by {
                if y == best {
                    assert(o@[k as int] == y);
                } else {
                    assert(placed@[y] == p0[y]);
                    if p0[y] {
                        let z = choose|z: int| 0 <= z < k && o0[z] == y;
                        assert(o@[z] == y);
                    }
                    if exists|z: int| 0 <= z < k + 1 && o@[z] == y {
                        let z = choose|z: int| 0 <= z < k + 1 && o@[z] == y;
                        assert(o0[z] == y);
                    }
                }
            }
            assert forall|a: int, b: int| 0 <= a < k + 1 && 0 <= b < k + 1 && a != b implies o@[a] != o@[b] by {
                if a == k {
                    assert(!p0[best as int]);
                    assert(o@[b] == o0[b]);
                } else if b == k {
                    assert(!p0[best as int]);
                    assert(o@[a] == o0[a]);
                }
            }
            assert forall|a: int, y: int| 0 <= a < k + 1 && 0 <= y < n && !placed@[y] implies s@[o@[a] as int] < s@[y] by {
                if a < k {
                    assert(o@[a] == o0[a]);
                } else {
                    assert(y != best);
                    assert(s@[best as int] != s@[y]);
                }
            }
        }
        k += 1;
    }
    o
}

/// No entry of `o` is `x`.
spec fn left_out(o: Seq<usize>, x: int) -> bool {
    forall|y: int| 0 <= y < o.len() ==> o[y] != x
}

/// `o` of length below `n` with distinct entries below `n` leaves an index out.
proof fn lemma_cover(o: Seq<usize>, n: int)
    requires
        o.len() < n,
        forall|x: int| 0 <= x < o.len() ==> #[trigger] o[x] < n,
        forall|a: int, b: int| 0 <= a < o.len() && 0 <= b < o.len() && a != b ==> o[a] != o[b],
    ensures
        exists|x: int| 0 <= x < n && #[trigger] left_out(o, x),
{
    if forall|x: int| 0 <= x < n ==> !#[trigger] left_out(o, x) {
        // where each index sits in `o`: distinct positions of `o`, one per index
        let t = Seq::new(n as nat, |x: int| choose|y: int| 0 <= y < o.len() && o[y] == x);
        assert forall|a: int, b: int| 0 <= a < t.len() && 0 <= b < t.len() && a != b implies t[a] != t[b] by {
            assert(!left_out(o, a));
            assert(!left_out(o, b));
        }
        assert forall|a: int| 0 <= a < t.len() implies 0 <= #[trigger] t[a] < o.len() by {
            assert(!left_out(o, a));
        }
        crate::call_graph::lemma_distinct_len(t, o.len() as int);
    }
}

fn control_kind(t: InstrsType) -> (r: bool)
    ensures
        r == is_control(t),
{
    match t {
        InstrsType::Ret(_) | InstrsType::Branch(_) | InstrsType::Jump => true,
        _ => false,
    }
}

/// The dependence level of the instruction at `p` of `a`: 0 when it
/// depends on no earlier instruction other than control flow, else one more
/// than the highest level of those it depends on.
pub open spec fn dep_level(a: Seq<LIRInst>, p: int) -> int
    decreases p, p + 1,
{
    if p < 0 {
        0
    } else {
        level_upto(a, p, p)
    }
}

/// The level of `p` as found among the first `i` instructions of `a`.
pub open spec fn level_upto(a: Seq<LIRInst>, p: int, i: int) -> int
    decreases p, i,
{
    if i <= 0 || i > p {
        0
    } else {
        let t = level_upto(a, p, i - 1);
        let c = i - 1;
        if !is_control(a[c].inst_type) && sched_dep(a[p], a[c]) && dep_level(a, c) + 1 > t {
            dep_level(a, c) + 1
        } else {
            t
        }
    }
}

proof fn lemma_level_above(a: Seq<LIRInst>, p: int, c: int, i: int)
    requires
        0 <= c < i <= p,
        !is_control(a[c].inst_type),
        sched_dep(a[p], a[c]),
    ensures
        dep_level(a, c) < level_upto(a, p, i),
    decreases i,
{
    if i > c + 1 {
        lemma_level_above(a, p, c, i - 1);
    }
}

/// `e` is an entry of `v`.
pub open spec fn in_seq(v: Seq<usize>, e: usize) -> bool {
    exists|k: int| 0 <= k < v.len() && v[k] == e
}

proof fn lemma_in_seq_push(v: Seq<usize>, e: usize, f: usize)
    ensures
        in_seq(v, e) ==> in_seq(v.push(f), e),
        in_seq(v.push(f), f),
{
    if in_seq(v, e) {
        let k = choose|k: int| 0 <= k < v.len() && v[k] == e;
        assert(v.push(f)[k] == e);
    }
    assert(v.push(f)[v.len() as int] == f);
}

/// `q` is the queue of the instructions of `a` other than control flow,
/// by dependence level, and by place in the block within a level.
pub open spec fn queued(a: Seq<LIRInst>, q: Seq<usize>) -> bool {
    &&& forall|x: int| 0 <= x < q.len() ==> (#[trigger] q[x]) < a.len() && !is_control(a[q[x] as int].inst_type)
    &&& forall|p: int| 0 <= p < a.len() && !is_control(a[p].inst_type) ==> exists|x: int| 0 <= x < q.len() && #[trigger] q[x] == p
    &&& forall|x: int, y: int| 0 <= x < y < q.len() ==> dep_level(a, q[x] as int) < dep_level(a, q[y] as int)
        || (dep_level(a, q[x] as int) == dep_level(a, q[y] as int) && q[x] < q[y])
}

/// `b` begins with the instructions of `a` other than control flow, given
/// their slots `s` in the order of the queue `q` and issued by slot (`o`
/// lists their places in the queue in that order).
pub open spec fn list_scheduled(a: Seq<LIRInst>, b: Seq<LIRInst>, q: Seq<usize>, s: Seq<i32>, o: Seq<usize>) -> bool {
    &&& queued(a, q)
    &&& s.len() == q.len()
    &&& forall|j: int| 0 <= j < s.len() ==> #[trigger] slot_rule(a, q, s, j)
    &&& o.len() == q.len()
    &&& forall|k: int| 0 <= k < o.len() ==> #[trigger] o[k] < q.len()
    &&& forall|k1: int, k2: int| 0 <= k1 < k2 < o.len() ==> s[o[k1] as int] < s[o[k2] as int]
    &&& b.len() >= o.len()
    &&& forall|k: int| 0 <= k < o.len() ==> (#[trigger] b[k])@ == a[q[o[k] as int] as int]@
}

/// `new` is `old` with its instructions scheduled: those other than control
/// flow issued by slot, the slots given over the queue by dependence level,
/// then the control instructions in their order.
pub open spec fn block_scheduled(new: BB, old: BB) -> bool {
    &&& new.same_but_insts(&old)
    &&& exists|ord: Seq<int>| scheduled(old.insts@, new.insts@, ord)
    &&& exists|q: Seq<usize>, s: Seq<i32>, o: Seq<usize>| list_scheduled(old.insts@, new.insts@, q, s, o)
}

/// What scheduling needs of a block: ready instructions, not too many.
pub open spec fn block_sched_ready(bb: BB) -> bool {
    &&& bb.insts@.len() <= 0x3fff_ffff
    &&& forall|i: int| 0 <= i < bb.insts@.len() ==> sched_ready(#[trigger] bb.insts@[i])
}

/// The dependence level of every instruction of `a`.
fn dep_levels(a: &Vec<LIRInst>) -> (lv: Vec<usize>)
    requires
        forall|i: int| 0 <= i < a@.len() ==> sched_ready(#[trigger] a@[i]),
    ensures
        lv@.len() == a@.len(),
        forall|p: int| 0 <= p < a@.len() ==> #[trigger] lv@[p] as int == dep_level(a@, p) && lv@[p] <= p,
{
    let n = a.len();
    let mut lv: Vec<usize> = Vec::new();
    let mut p: usize = 0;
    while p < n
        invariant
            n == a@.len(),
            forall|i: int| 0 <= i < a@.len() ==> sched_ready(#[trigger] a@[i]),
            p <= n,
            lv@.len() == p,
            forall|x: int| 0 <= x < p ==> #[trigger] lv@[x] as int == dep_level(a@, x) && lv@[x] <= x,
        decreases n - p,
    {
        let mut t: usize = 0;
        let mut c: usize = 0;
        while c < p
            invariant
                n == a@.len(),
                p < n,
                forall|i: int| 0 <= i < a@.len() ==> sched_ready(#[trigger] a@[i]),
                lv@.len() == p,
                forall|x: int| 0 <= x < p ==> #[trigger] lv@[x] as int == dep_level(a@, x) && lv@[x] <= x,
                c <= p,
                t as int == level_upto(a@, p as int, c as int),
                t <= c,
            decreases p - c,
        {
            if !control_kind(a[c].inst_type) && depends(&a[p], &a[c]) && lv[c] + 1 > t {
                t = lv[c] + 1;
            }
            c += 1;
        }
        lv.push(t);
        p += 1;
    }
    lv
}

/// The positions `bidx` (those of the instructions other than control
/// flow, in order) queued by dependence level, then by place.
fn level_queue(insts: &Vec<LIRInst>, bidx: &Vec<usize>) -> (q: Vec<usize>)
    requires
        forall|i: int| 0 <= i < insts@.len() ==> sched_ready(#[trigger] insts@[i]),
        bidx@.len() <= insts@.len(),
        forall|k: int| 0 <= k < bidx@.len() ==> (#[trigger] bidx@[k]) < insts@.len() && !is_control(insts@[bidx@[k] as int].inst_type),
        forall|k1: int, k2: int| 0 <= k1 < k2 < bidx@.len() ==> bidx@[k1] < bidx@[k2],
        forall|p: int| 0 <= p < insts@.len() && !is_control(insts@[p].inst_type) ==> exists|k: int| 0 <= k < bidx@.len() && #[trigger] bidx@[k] == p,
    ensures
        queued(insts@, q@),
        q@.len() == bidx@.len(),
{
    let ghost a = insts@;
    let n = insts.len();
    let m = bidx.len();
    let lv = dep_levels(insts);
    // the queue: by level, then by place
    let mut q: Vec<usize> = Vec::new();
    let mut lvl: usize = 0;
    proof {
        assert forall|k: int| 0 <= k < m implies dep_level(a, #[trigger] bidx@[k] as int) >= 0 by {
            assert(lv@[bidx@[k] as int] as int == dep_level(a, bidx@[k] as int));
        }
    }
    while lvl < n
        invariant
            a == insts@,
            n == a.len(),
            m == bidx@.len(),
            m <= n,
            lv@.len() == n,
            forall|p: int| 0 <= p < n ==> #[trigger] lv@[p] as int == dep_level(a, p) && lv@[p] <= p,
            forall|k: int| 0 <= k < m ==> (#[trigger] bidx@[k]) < n && !is_control(a[bidx@[k] as int].inst_type),
            forall|k1: int, k2: int| 0 <= k1 < k2 < m ==> bidx@[k1] < bidx@[k2],
            lvl <= n,
            forall|x: int| 0 <= x < q@.len() ==> in_seq(bidx@, #[trigger] q@[x]),
            forall|x: int| 0 <= x < q@.len() ==> dep_level(a, #[trigger] q@[x] as int) < lvl,
            forall|x: int, y: int| 0 <= x < y < q@.len() ==> dep_level(a, q@[x] as int) < dep_level(a, q@[y] as int)
                || (dep_level(a, q@[x] as int) == dep_level(a, q@[y] as int) && q@[x] < q@[y]),
            forall|k: int| 0 <= k < m && dep_level(a, #[trigger] bidx@[k] as int) < lvl ==> in_seq(q@, bidx@[k]),
            forall|k: int| 0 <= k < m ==> dep_level(a, #[trigger] bidx@[k] as int) >= 0,
        decreases n - lvl,
    {
        let mut k: usize = 0;
        while k < m
            invariant
                a == insts@,
                n == a.len(),
                m == bidx@.len(),
                lv@.len() == n,
                lvl < n,
                forall|p: int| 0 <= p < n ==> #[trigger] lv@[p] as int == dep_level(a, p) && lv@[p] <= p,
                forall|kk: int| 0 <= kk < m ==> (#[trigger] bidx@[kk]) < n && !is_control(a[bidx@[kk] as int].inst_type),
                forall|k1: int, k2: int| 0 <= k1 < k2 < m ==> bidx@[k1] < bidx@[k2],
                k <= m,
                forall|x: int| 0 <= x < q@.len() ==> in_seq(bidx@, #[trigger] q@[x]),
                forall|x: int| 0 <= x < q@.len() ==> dep_level(a, #[trigger] q@[x] as int) <= lvl,
                forall|x: int, kk: int| #![trigger q@[x], bidx@[kk]] 0 <= x < q@.len() && k <= kk < m && dep_level(a, q@[x] as int) == lvl
                    ==> q@[x] < bidx@[kk],
                forall|x: int, y: int| 0 <= x < y < q@.len() ==> dep_level(a, q@[x] as int) < dep_level(a, q@[y] as int)
                    || (dep_level(a, q@[x] as int) == dep_level(a, q@[y] as int) && q@[x] < q@[y]),
                forall|kk: int| 0 <= kk < m && (dep_level(a, #[trigger] bidx@[kk] as int) < lvl || (dep_level(a, bidx@[kk] as int) == lvl && kk < k))
                    ==> in_seq(q@, bidx@[kk]),
            decreases m - k,
        {
            let p = bidx[k];
            if lv[p] == lvl {
                let ghost q0 = q@;
                q.push(p);
                proof {
                    lemma_in_seq_push(q0, 0, p);
                    assert(in_seq(bidx@, p)) by { assert(bidx@[k as int] == p); }
                    assert forall|x: int| 0 <= x < q@.len() implies in_seq(bidx@, #[trigger] q@[x]) by {
                        if x < q0.len() {
                            assert(q@[x] == q0[x]);
                        }
                    }
                    assert forall|kk: int| 0 <= kk < m && (dep_level(a, #[trigger] bidx@[kk] as int) < lvl || (dep_level(a, bidx@[kk] as int) == lvl && kk < k + 1))
                        implies in_seq(q@, bidx@[kk]) by {
                        lemma_in_seq_push(q0, bidx@[kk], p);
                    }
                    assert forall|x: int, kk: int| #![trigger q@[x], bidx@[kk]] 0 <= x < q@.len() && k + 1 <= kk < m && dep_level(a, q@[x] as int) == lvl
                        implies q@[x] < bidx@[kk] by {
                        if x < q0.len() {
                            assert(q@[x] == q0[x]);
                        }
                    }
                    assert forall|x: int, y: int| 0 <= x < y < q@.len() implies dep_level(a, q@[x] as int) < dep_level(a, q@[y] as int)
                        || (dep_level(a, q@[x] as int) == dep_level(a, q@[y] as int) && q@[x] < q@[y]) by {
                        if y == q0.len() {
                            assert(q@[x] == q0[x]);
                            assert(dep_level(a, q0[x] as int) <= lvl);
                            if dep_level(a, q0[x] as int) == lvl {
                                assert(q0[x] < bidx@[k as int]);
                            }
                        } else {
                            assert(q@[x] == q0[x] && q@[y] == q0[y]);
                        }
                    }
                }
            }
            k += 1;
        }
        lvl += 1;
    }
    proof {
        assert forall|p: int| 0 <= p < n && !is_control(a[p].inst_type) implies exists|x: int| 0 <= x < q@.len() && #[trigger] q@[x] == p by {
            let k = choose|k: int| 0 <= k < bidx@.len() && #[trigger] bidx@[k] == p;
            assert(lv@[p] as int == dep_level(a, p));
            assert(lv@[p] <= p);
            assert(dep_level(a, bidx@[k] as int) < lvl);
            assert(in_seq(q@, bidx@[k]));
            let x = choose|x: int| 0 <= x < q@.len() && q@[x] == bidx@[k];
            assert(q@[x] == p);
        }
        assert forall|x: int| 0 <= x < q@.len() implies (#[trigger] q@[x]) < a.len() && !is_control(a[q@[x] as int].inst_type) by {
            assert(in_seq(bidx@, q@[x]));
            let k = choose|kk: int| 0 <= kk < bidx@.len() && bidx@[kk] == q@[x];
            assert(bidx@[k] < n);
        }
        assert(queued(a, q@));
        // the queue has one entry per instruction other than control flow
        let tq = Seq::new(q@.len(), |x: int| choose|k: int| 0 <= k < bidx@.len() && bidx@[k] == q@[x]);
        assert forall|x: int| 0 <= x < tq.len() implies 0 <= #[trigger] tq[x] < m && bidx@[tq[x]] == q@[x] by {
            assert(in_seq(bidx@, q@[x]));
        }
        assert forall|x: int, y: int| 0 <= x < tq.len() && 0 <= y < tq.len() && x != y implies tq[x] != tq[y] by {
            assert(bidx@[tq[x]] == q@[x] && bidx@[tq[y]] == q@[y]);
            if x < y {
                assert(q@[x] != q@[y]);
            } else {
                assert(q@[y] != q@[x]);
            }
        }
        crate::call_graph::lemma_distinct_len(tq, m as int);
        let tb = Seq::new(m as nat, |k: int| choose|x: int| 0 <= x < q@.len() && q@[x] == bidx@[k]);
        assert forall|k: int| 0 <= k < tb.len() implies 0 <= #[trigger] tb[k] < q@.len() && q@[tb[k]] == bidx@[k] by {
            assert(lv@[bidx@[k] as int] as int == dep_level(a, bidx@[k] as int));
            assert(in_seq(q@, bidx@[k]));
        }
        assert forall|x: int, y: int| 0 <= x < tb.len() && 0 <= y < tb.len() && x != y implies tb[x] != tb[y] by {
            assert(q@[tb[x]] == bidx@[x] && q@[tb[y]] == bidx@[y]);
            if x < y {
                assert(bidx@[x] < bidx@[y]);
            } else {
                assert(bidx@[y] < bidx@[x]);
            }
        }
        crate::call_graph::lemma_distinct_len(tb, q@.len() as int);
    }
    assert(q@.len() == m);
    q
}

/// List scheduling of one block: the instructions other than control flow
/// are queued by dependence level, given slots in that order (slots respect
/// dependences), and issued in slot order; then the control instructions
/// follow in their order.
#[verifier::rlimit(50)]
fn schedule_block(bb: &mut BB)
    requires
        block_sched_ready(*old(bb)),
    ensures
        block_scheduled(*final(bb), *old(bb)),
{
    let ghost a = bb.insts@;
    let n = bb.insts.len();
    let mut bidx: Vec<usize> = Vec::new();
    let mut cidx: Vec<usize> = Vec::new();
    let mut i: usize = 0;
    while i < n
        invariant
            a == bb.insts@,
            n == a.len(),
            i <= n,
            bidx@.len() + cidx@.len() == i,
            forall|k: int| 0 <= k < bidx@.len() ==> (#[trigger] bidx@[k]) < i && !is_control(a[bidx@[k] as int].inst_type),
            forall|k: int| 0 <= k < cidx@.len() ==> (#[trigger] cidx@[k]) < i && is_control(a[cidx@[k] as int].inst_type),
            forall|k1: int, k2: int| 0 <= k1 < k2 < bidx@.len() ==> bidx@[k1] < bidx@[k2],
            forall|k1: int, k2: int| 0 <= k1 < k2 < cidx@.len() ==> cidx@[k1] < cidx@[k2],
            forall|p: int| 0 <= p < i && !is_control(a[p].inst_type) ==> exists|k: int| 0 <= k < bidx@.len() && #[trigger] bidx@[k] == p,
        decreases n - i,
    {
        let ghost b0 = bidx@;
        if control_kind(bb.insts[i].inst_type) {
            cidx.push(i);
        } else {
            bidx.push(i);
        }
        proof {
            assert forall|p: int| 0 <= p < i + 1 && !is_control(a[p].inst_type) implies exists|k: int| 0 <= k < bidx@.len() && #[trigger] bidx@[k] == p by {
                if p < i {
                    let k = choose|k: int| 0 <= k < b0.len() && #[trigger] b0[k] == p;
                    assert(bidx@[k] == p);
                } else {
                    assert(bidx@[bidx@.len() - 1] == p);
                }
            }
        }
        i += 1;
    }
    let q = level_queue(&bb.insts, &bidx);
    let m = bidx.len();
    let s = schedule_slots(&bb.insts, &q);
    let o = order_by_slot(&s);
    let mut out: Vec<LIRInst> = Vec::new();
    let ghost mut ord: Seq<int> = Seq::empty();
    let mut k: usize = 0;
    while k < m
        invariant
            a == bb.insts@,
            m == o@.len(),
            m == q@.len(),
            k <= m,
            out@.len() == k,
            ord.len() == k,
            forall|x: int| 0 <= x < m ==> (#[trigger] o@[x]) < m,
            forall|x: int| 0 <= x < m ==> (#[trigger] q@[x]) < a.len(),
            forall|x: int| 0 <= x < k ==> #[trigger] ord[x] == q@[o@[x] as int] as int && out@[x]@ == a[ord[x]]@,
        decreases m - k,
    {
        let inst = bb.insts[q[o[k]]].clone();
        out.push(inst);
        proof {
            ord = ord.push(q@[o@[k as int] as int] as int);
        }
        k += 1;
    }
    let c = cidx.len();
    let mut t: usize = 0;
    while t < c
        invariant
            a == bb.insts@,
            m == o@.len(),
            m == q@.len(),
            c == cidx@.len(),
            t <= c,
            out@.len() == m + t,
            ord.len() == m + t,
            forall|x: int| 0 <= x < c ==> (#[trigger] cidx@[x]) < a.len(),
            forall|x: int| 0 <= x < m ==> #[trigger] ord[x] == q@[o@[x] as int] as int && out@[x]@ == a[ord[x]]@,
            forall|x: int| 0 <= x < t ==> #[trigger] ord[m + x] == cidx@[x] as int && out@[m + x]@ == a[ord[m + x]]@,
        decreases c - t,
    {
        let inst = bb.insts[cidx[t]].clone();
        out.push(inst);
        proof {
            ord = ord.push(cidx@[t as int] as int);
        }
        t += 1;
    }
    bb.insts = out;
    proof {
        let b = bb.insts@;
        assert(m + c == n);
        assert forall|x: int| 0 <= x < ord.len() implies 0 <= #[trigger] ord[x] < a.len() && b[x]@ == a[ord[x]]@ by {
            if x >= m {
                assert(ord[m + (x - m)] == cidx@[x - m] as int);
            }
        }
        assert forall|k1: int, k2: int| 0 <= k1 < ord.len() && 0 <= k2 < ord.len() && k1 != k2 implies ord[k1] != ord[k2] by {
            if k1 < m && k2 < m {
                assert(ord[k1] == q@[o@[k1] as int]);
                assert(ord[k2] == q@[o@[k2] as int]);
                assert(o@[k1] != o@[k2]);
                if o@[k1] < o@[k2] {
                    assert(q@[o@[k1] as int] != q@[o@[k2] as int]);
                } else {
                    assert(q@[o@[k2] as int] != q@[o@[k1] as int]);
                }
            } else if k1 >= m && k2 >= m {
                assert(ord[m + (k1 - m)] == cidx@[k1 - m] as int);
                assert(ord[m + (k2 - m)] == cidx@[k2 - m] as int);
                if k1 < k2 {
                    assert(cidx@[k1 - m] < cidx@[k2 - m]);
                } else {
                    assert(cidx@[k2 - m] < cidx@[k1 - m]);
                }
            } else if k1 < m {
                assert(ord[m + (k2 - m)] == cidx@[k2 - m] as int);
                assert(!is_control(a[q@[o@[k1] as int] as int].inst_type));
                assert(is_control(a[cidx@[k2 - m] as int].inst_type));
            } else {
                assert(ord[m + (k1 - m)] == cidx@[k1 - m] as int);
                assert(!is_control(a[q@[o@[k2] as int] as int].inst_type));
                assert(is_control(a[cidx@[k1 - m] as int].inst_type));
            }
        }
        assert forall|k1: int, k2: int| 0 <= k1 < k2 < ord.len() && is_control(a[ord[k1]].inst_type)
            implies is_control(a[ord[k2]].inst_type) && ord[k1] < ord[k2] by {
            if k1 < m {
                assert(ord[k1] == q@[o@[k1] as int]);
                assert(!is_control(a[q@[o@[k1] as int] as int].inst_type));
            }
            assert(ord[m + (k1 - m)] == cidx@[k1 - m] as int);
            assert(ord[m + (k2 - m)] == cidx@[k2 - m] as int);
            assert(cidx@[k1 - m] < cidx@[k2 - m]);
        }
        assert forall|k1: int, k2: int| 0 <= k1 < k2 < ord.len() && ord[k2] < ord[k1] && !is_control(a[ord[k2]].inst_type)
            implies !sched_dep(a[ord[k1]], a[ord[k2]]) by {
            if k2 >= m {
                assert(ord[m + (k2 - m)] == cidx@[k2 - m] as int);
                assert(is_control(a[cidx@[k2 - m] as int].inst_type));
            }
            let x1 = o@[k1] as int;
            let x2 = o@[k2] as int;
            assert(ord[k1] == q@[x1]);
            assert(ord[k2] == q@[x2]);
            assert(s@[x1] < s@[x2]);
            if sched_dep(a[ord[k1]], a[ord[k2]]) {
                let p1 = q@[x1] as int;
                let p2 = q@[x2] as int;
                lemma_level_above(a, p1, p2, p1);
                assert(dep_level(a, p2) < dep_level(a, p1));
                if x1 < x2 {
                    assert(false);
                }
                assert(x2 < x1);
                assert(s@[x2] < s@[x1]);
            }
        }
        assert(scheduled(a, b, ord));
        assert forall|kk: int| 0 <= kk < o@.len() implies (#[trigger] b[kk])@ == a[q@[o@[kk] as int] as int]@ by {
            assert(ord[kk] == q@[o@[kk] as int]);
        }
        assert(list_scheduled(a, b, q@, s@, o@));
    }
}

impl Func {
    /// List scheduling inside each block: the instructions other than
    /// control flow are queued by dependence level (by place within a
    /// level), given issue slots in that order and issued by slot, so that
    /// none comes before one it depends on; control flow stays last.
    pub fn list_scheduling_tech(&mut self)
        requires
            forall|b: int| 0 <= b < old(self).blocks@.len() ==> block_sched_ready(#[trigger] old(self).blocks@[b]),
        ensures
            final(self).same_but_blocks(old(self)),
            final(self).blocks@.len() == old(self).blocks@.len(),
            forall|b: int| 0 <= b < final(self).blocks@.len() ==> block_scheduled(#[trigger] final(self).blocks@[b], old(self).blocks@[b]),
    {
        let n = self.blocks.len();
        let mut b: usize = 0;
        while b < n
            invariant
                n == self.blocks@.len(),
                b <= n,
                self.same_but_blocks(old(self)),
                forall|k: int| 0 <= k < n ==> block_sched_ready(#[trigger] old(self).blocks@[k]),
                forall|k: int| b <= k < n ==> #[trigger] self.blocks@[k] == old(self).blocks@[k],
                forall|k: int| 0 <= k < b ==> block_scheduled(#[trigger] self.blocks@[k], old(self).blocks@[k]),
            decreases n - b,
        {
            assert(self.blocks@[b as int] == old(self).blocks@[b as int]);
            schedule_block(&mut self.blocks[b]);
            b += 1;
        }
    }
}

impl AsmModule {
    /// List scheduling of every function with a body.
    pub fn list_scheduling_tech(&mut self)
        requires
            forall|i: int, b: int| 0 <= i < old(self).name_func@.len() && !old(self).name_func@[i].is_extern
                && 0 <= b < old(self).name_func@[i].blocks@.len() ==> block_sched_ready(#[trigger] old(self).name_func@[i].blocks@[b]),
        ensures
            final(self).name_func@.len() == old(self).name_func@.len(),
            final(self).call_map@ == old(self).call_map@,
            final(self).callee_regs_to_saveds@ == old(self).callee_regs_to_saveds@,
            final(self).caller_regs_to_saveds@ == old(self).caller_regs_to_saveds@,
            forall|i: int| 0 <= i < final(self).name_func@.len() ==> (if old(self).name_func@[i].is_extern {
                #[trigger] final(self).name_func@[i] == old(self).name_func@[i]
            } else {
                &&& final(self).name_func@[i].same_but_blocks(&old(self).name_func@[i])
                &&& final(self).name_func@[i].blocks@.len() == old(self).name_func@[i].blocks@.len()
                &&& forall|b: int| 0 <= b < final(self).name_func@[i].blocks@.len()
                    ==> block_scheduled(#[trigger] final(self).name_func@[i].blocks@[b], old(self).name_func@[i].blocks@[b])
            }),
    {
        let n = self.name_func.len();
        let mut i: usize = 0;
        while i < n
            invariant
                n == self.name_func@.len(),
                i <= n,
                self.call_map@ == old(self).call_map@,
                self.callee_regs_to_saveds@ == old(self).callee_regs_to_saveds@,
                self.caller_regs_to_saveds@ == old(self).caller_regs_to_saveds@,
                forall|k: int, b: int| 0 <= k < n && !old(self).name_func@[k].is_extern
                    && 0 <= b < old(self).name_func@[k].blocks@.len() ==> block_sched_ready(#[trigger] old(self).name_func@[k].blocks@[b]),
                forall|k: int| i <= k < n ==> #[trigger] self.name_func@[k] == old(self).name_func@[k],
                forall|k: int| 0 <= k < i ==> (if old(self).name_func@[k].is_extern {
                    #[trigger] self.name_func@[k] == old(self).name_func@[k]
                } else {
                    &&& self.name_func@[k].same_but_blocks(&old(self).name_func@[k])
                    &&& self.name_func@[k].blocks@.len() == old(self).name_func@[k].blocks@.len()
                    &&& forall|b: int| 0 <= b < self.name_func@[k].blocks@.len()
                        ==> block_scheduled(#[trigger] self.name_func@[k].blocks@[b], old(self).name_func@[k].blocks@[b])
                }),
            decreases n - i,
        {
            if !self.name_func[i].is_extern {
                assert(self.name_func@[i as int] == old(self).name_func@[i as int]);
                self.name_func[i].list_scheduling_tech();
            }
            i += 1;
        }
    }
}


/// Law: scheduling keeps two accesses to memory through the same base in
/// their order when one of them is a store (a load never passes a store, a
/// store never passes a load or a store): if the instructions placed at
/// `k1 < k2` are such a pair, the one at `k1` came first in the block.
pub proof fn lemma_scheduling_keeps_memory_order(a: Seq<LIRInst>, b: Seq<LIRInst>, ord: Seq<int>, k1: int, k2: int)
    requires
        scheduled(a, b, ord),
        0 <= k1 < k2 < ord.len(),
        a[ord[k1]].operands@.len() > 1,
        a[ord[k2]].operands@.len() > 1,
        a[ord[k1]].operands@[1] == a[ord[k2]].operands@[1],
        (a[ord[k1]].inst_type == InstrsType::Store && a[ord[k2]].inst_type == InstrsType::Store)
            || (a[ord[k1]].inst_type == InstrsType::Store && a[ord[k2]].inst_type == InstrsType::Load)
            || (a[ord[k1]].inst_type == InstrsType::Load && a[ord[k2]].inst_type == InstrsType::Store),
    ensures
        ord[k1] < ord[k2],
{
    let x = a[ord[k1]];
    let y = a[ord[k2]];
    assert(same_operand(x.operands@[1], y.operands@[1]));
    assert(ord[k1] != ord[k2]);
    if ord[k2] < ord[k1] {
        assert(!is_control(y.inst_type));
        assert(sl_conflict(x, y));
        assert(sched_dep(x, y));
    }
}


/// Law: scheduling keeps every read of a register after the write it reads
/// and every write after the reads of the value it overwrites, and keeps
/// calls in place relative to the other instructions: if the instructions
/// placed at `k1 < k2` (neither one a jump, branch or return) are so linked,
/// the one at `k1` came first in the block.
pub proof fn lemma_scheduling_keeps_register_order(a: Seq<LIRInst>, b: Seq<LIRInst>, ord: Seq<int>, k1: int, k2: int, r: crate::operand::Reg)
    requires
        scheduled(a, b, ord),
        0 <= k1 < k2 < ord.len(),
        !is_control(a[ord[k1]].inst_type),
        !is_control(a[ord[k2]].inst_type),
        (a[ord[k1]].spec_reg_use().contains(r) && a[ord[k2]].spec_reg_def().contains(r))
            || (a[ord[k1]].spec_reg_def().contains(r) && a[ord[k2]].spec_reg_use().contains(r))
            || a[ord[k1]].inst_type is Call
            || a[ord[k2]].inst_type is Call,
    ensures
        ord[k1] < ord[k2],
{
    let x = a[ord[k1]];
    let y = a[ord[k2]];
    assert(ord[k1] != ord[k2]);
    if ord[k2] < ord[k1] {
        if x.spec_reg_use().contains(r) && y.spec_reg_def().contains(r) {
            let k = choose|k: int| 0 <= k < x.spec_reg_use().len() && x.spec_reg_use()[k] == r;
            assert(y.spec_reg_def().contains(x.spec_reg_use()[k]));
        }
        if x.spec_reg_def().contains(r) && y.spec_reg_use().contains(r) {
            let k = choose|k: int| 0 <= k < x.spec_reg_def().len() && x.spec_reg_def()[k] == r;
            assert(y.spec_reg_use().contains(x.spec_reg_def()[k]));
        }
        assert(sched_dep(x, y));
    }
}


/// Law: scheduling leaves the jumps, branches and returns at the end of the
/// block in their order: after one of them comes only another, placed later
/// in the block too.
pub proof fn lemma_control_stays_last(a: Seq<LIRInst>, b: Seq<LIRInst>, ord: Seq<int>, k1: int, k2: int)
    requires
        scheduled(a, b, ord),
        0 <= k1 < k2 < ord.len(),
        is_control(a[ord[k1]].inst_type),
    ensures
        is_control(a[ord[k2]].inst_type),
        ord[k1] < ord[k2],
{
}

/// Law: the scheduled block holds the instructions of the block, each once:
/// position `k` holds instruction `ord[k]`, and no two positions the same one.
pub proof fn lemma_scheduling_permutes(a: Seq<LIRInst>, b: Seq<LIRInst>, ord: Seq<int>)
    requires
        scheduled(a, b, ord),
    ensures
        b.len() == a.len(),
        forall|k: int| 0 <= k < b.len() ==> 0 <= #[trigger] ord[k] < a.len() && b[k]@ == a[ord[k]]@,
        forall|i: int| 0 <= i < a.len() ==> #[trigger] placed(ord, i),
{
    assert forall|i: int| 0 <= i < a.len() implies #[trigger] placed(ord, i) by {
        lemma_injective_onto(ord, a.len() as int, i);
    }
}

/// Some position of the scheduled block holds instruction `i`.
pub open spec fn placed(ord: Seq<int>, i: int) -> bool {
    exists|k: int| 0 <= k < ord.len() && ord[k] == i
}

proof fn lemma_injective_onto(ord: Seq<int>, n: int, v: int)
    requires
        ord.len() == n,
        0 <= v < n,
        forall|k: int| 0 <= k < n ==> 0 <= #[trigger] ord[k] < n,
        forall|k1: int, k2: int| 0 <= k1 < n && 0 <= k2 < n && k1 != k2 ==> ord[k1] != ord[k2],
    ensures
        exists|k: int| 0 <= k < n && #[trigger] ord[k] == v,
{
    if !exists|k: int| 0 <= k < n && #[trigger] ord[k] == v {
        let img = ord.to_set();
        assert(ord.no_duplicates());
        ord.unique_seq_to_set();
        let full = vstd::set_lib::set_int_range(0, n);
        let rng = full.remove(v);
        assert(img.subset_of(rng)) by {
            assert forall|w: int| img.contains(w) implies rng.contains(w) by {
                let k = choose|k: int| 0 <= k < ord.len() && ord[k] == w;
            }
        }
        vstd::set_lib::lemma_int_range(0, n);
        assert(full.contains(v));
        vstd::set_lib::lemma_len_subset(img, rng);
        assert(img.len() == n);
        assert(rng.len() == n - 1);
    }
}

} // verus!
