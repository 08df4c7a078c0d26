use std::collections::HashMap;
use vstd::prelude::*;
use crate::analysis::live_at;
use crate::block::{BB, ADDR_SIZE};
use crate::call_save::live_across;
use crate::func::Func;
use crate::instrs::{InstView, InstrsType, LIRInst, Operand, contains_reg, insts_view, new_inst, with_double};
use crate::liveness::{exposed_from, live_into, live_out_of, reserved_reg, live_sets_pinned, same_but_live, lemma_same_flow};
use crate::mem_rearrange::same_but_code_frame;
use crate::module::{AsmModule, keys_distinct, labels_distinct};
use crate::operand::{IImm, Reg, ScalarType, FLOAT_BASE, REG_COUNT};
use crate::regset::{is_set, copy_regs};
use crate::rm_inst::same_frame;
use crate::spill::frame_end;
use crate::structs::StackSlot;

verus! {

broadcast use vstd::std_specs::hash::group_hash_axioms;

/// The table `cu` has an entry for `name`.
pub open spec fn has_entry(cu: Seq<(String, Vec<Reg>)>, name: Seq<char>) -> bool {
    exists|i: int| 0 <= i < cu.len() && #[trigger] cu[i].0@ == name
}

/// The registers of the entry for `name` of `cu`.
pub open spec fn entry_regs(cu: Seq<(String, Vec<Reg>)>, name: Seq<char>) -> Seq<Reg> {
    cu[choose|i: int| 0 <= i < cu.len() && #[trigger] cu[i].0@ == name].1@
}

/// The name of the function that the call `inst` calls.
pub open spec fn callee_name(inst: LIRInst) -> Seq<char> {
    inst.operands@[0]->Addr_0@
}

/// `x` holds a value across instruction `k` of block `b`: it may be read
/// after the instruction (the reserved registers are taken as read after
/// every block) and the instruction does not write it.
pub open spec fn held_across(blocks: Seq<BB>, b: int, k: int, x: Reg) -> bool {
    let insts = blocks[b].insts@;
    &&& (exposed_from(insts, k + 1, x) || ((live_out_of(blocks, b, x) || reserved_reg(x))
        && forall|j: int| k + 1 <= j < insts.len() ==> !(#[trigger] insts[j].spec_reg_def().contains(x))))
    &&& !insts[k].spec_reg_def().contains(x)
}

/// The call at `k` of block `b` has `x` saved around it: a caller-saved
/// register other than ra that holds a value across the call and that the
/// callee's entry of `cu` lists.
pub open spec fn saved_at(blocks: Seq<BB>, cu: Seq<(String, Vec<Reg>)>, b: int, k: int, x: Reg) -> bool {
    &&& held_across(blocks, b, k, x)
    &&& x.spec_is_caller_save()
    &&& x.id != 1
    &&& entry_regs(cu, callee_name(blocks[b].insts@[k])).contains(x)
}

/// What the call at `k` of block `b` has saved around it, as `saved_at` says.
pub open spec fn saved_v3(blocks: Seq<BB>, cu: Seq<(String, Vec<Reg>)>) -> spec_fn(int, int, Reg) -> bool {
    |b: int, k: int, x: Reg| saved_at(blocks, cu, b, k, x)
}

/// `regs` lists, once each, the registers that `sv` saves around the call
/// at `k` of block `b`.
pub open spec fn saves_list(sv: spec_fn(int, int, Reg) -> bool, b: int, k: int, regs: Seq<Reg>) -> bool {
    &&& regs.no_duplicates()
    &&& forall|x: Reg| #[trigger] regs.contains(x) <==> sv(b, k, x)
}

/// Instruction `k` of block `b` is a call.
pub open spec fn is_call_at(blocks: Seq<BB>, b: int, k: int) -> bool {
    0 <= b < blocks.len() && 0 <= k < blocks[b].insts@.len() && blocks[b].insts@[k].inst_type is Call
}

/// A stack store or load of `x` at offset `p`.
pub open spec fn slot_access(kind: InstrsType, x: Reg, p: i32) -> InstView {
    with_double(new_inst(kind, seq![Operand::Reg(x), Operand::IImm(IImm { data: p })]))
}

/// A store (or load) of each register of `regs` at the offset that `ps` gives it.
pub open spec fn slot_accesses(kind: InstrsType, regs: Seq<Reg>, ps: Seq<i32>) -> Seq<InstView> {
    Seq::new(regs.len(), |j: int| slot_access(kind, regs[j], ps[j]))
}

/// `ps` holds, in some order, the offsets of the first `ps.len()` slots
/// after `base`, one word each.
pub open spec fn first_places(ps: Seq<i32>, base: int) -> bool {
    &&& ps.no_duplicates()
    &&& forall|j: int| 0 <= j < ps.len() ==> #[trigger] among_first(ps[j] as int, base, ps.len() as int)
}

/// `p` is the offset of one of the first `n` one-word slots after `base`.
pub open spec fn among_first(p: int, base: int, n: int) -> bool {
    exists|t: int| 0 <= t < n && p == #[trigger] slot_place(base, t)
}

/// The offset of the `t`th one-word slot after `base`.
pub open spec fn slot_place(base: int, t: int) -> int {
    base + 8 * t
}

/// `seg` is what instruction `k` of block `b` (whose instructions are
/// `insts`) becomes: a call has each register of `regs` (what `sv` saves
/// around it) stored at the offset `ps` gives it before the call and
/// loaded back from there after it; any other instruction stays alone.
pub open spec fn call_segment(insts: Seq<LIRInst>, sv: spec_fn(int, int, Reg) -> bool, b: int, k: int,
    seg: Seq<InstView>, regs: Seq<Reg>, ps: Seq<i32>, base: int) -> bool {
    let inst = insts[k];
    if inst.inst_type is Call {
        &&& saves_list(sv, b, k, regs)
        &&& regs.len() == ps.len()
        &&& first_places(ps, base)
        &&& seg == slot_accesses(InstrsType::StoreToStack, regs, ps) + seq![inst@]
            + slot_accesses(InstrsType::LoadFromStack, regs, ps)
    } else {
        seg == seq![inst@]
    }
}

/// Every instruction of block `b` has its segment.
pub open spec fn segments_ok(insts: Seq<LIRInst>, sv: spec_fn(int, int, Reg) -> bool, b: int,
    segs: Seq<Seq<InstView>>, regss: Seq<Seq<Reg>>, pss: Seq<Seq<i32>>, base: int) -> bool {
    &&& segs.len() == insts.len()
    &&& regss.len() == segs.len()
    &&& pss.len() == segs.len()
    &&& forall|k: int| 0 <= k < segs.len() ==> call_segment(insts, sv, b, k, #[trigger] segs[k], regss[k], pss[k], base)
}

/// The instructions `new` are `insts` (block `b`) with the saves `sv`
/// around its calls.
pub open spec fn block_saved(insts: Seq<LIRInst>, sv: spec_fn(int, int, Reg) -> bool, b: int, new: Seq<InstView>,
    base: int) -> bool {
    exists|segs: Seq<Seq<InstView>>, regss: Seq<Seq<Reg>>, pss: Seq<Seq<i32>>|
        #[trigger] segments_ok(insts, sv, b, segs, regss, pss, base) && new == segs.flatten()
}

/// The frame `stack` has room for the slots that the saves `sv` around
/// the calls of `blocks` need.
pub open spec fn saves_fit(stack: Seq<StackSlot>, blocks: Seq<BB>, sv: spec_fn(int, int, Reg) -> bool) -> bool {
    forall|b: int, k: int, regs: Seq<Reg>| is_call_at(blocks, b, k) && #[trigger] saves_list(sv, b, k, regs)
        && regs.len() > 0 ==> {
        &&& stack.len() > 0
        &&& i32::MIN <= frame_end(stack)
        &&& frame_end(stack) + 8 * regs.len() <= i32::MAX
    }
}

/// The frame of `new` is `stack0` with new one-word slots after its end, as
/// many as the largest number of registers `sv` saves around one call of
/// `blocks0`, and each block of `new` is that of `blocks0` with the saves
/// around its calls, as `block_saved` says.
pub open spec fn saves_placed(new: Func, stack0: Seq<StackSlot>, blocks0: Seq<BB>, sv: spec_fn(int, int, Reg) -> bool) -> bool {
    let n0 = stack0.len();
    let n1 = new.stack_addr@.len();
    let base = if n0 > 0 { frame_end(stack0) } else { 0 };
    &&& n1 >= n0
    &&& new.stack_addr@.subrange(0, n0 as int) == stack0
    &&& forall|j: int| n0 <= j < n1 ==> #[trigger] new.stack_addr@[j]
        == (StackSlot { pos: (base + 8 * (j - n0)) as i32, size: ADDR_SIZE })
    &&& forall|b: int, k: int, regs: Seq<Reg>| is_call_at(blocks0, b, k) && #[trigger] saves_list(sv, b, k, regs)
        ==> regs.len() <= n1 - n0
    &&& n1 > n0 ==> exists|b: int, k: int, regs: Seq<Reg>| is_call_at(blocks0, b, k)
        && #[trigger] saves_list(sv, b, k, regs) && regs.len() == n1 - n0
    &&& new.blocks@.len() == blocks0.len()
    &&& forall|b: int| 0 <= b < new.blocks@.len() ==>
        block_saved(blocks0[b].insts@, sv, b, insts_view(#[trigger] new.blocks@[b].insts@), base)
}

/// What the saves around calls may assume: the code is well formed, the
/// table has one entry per name and one for every function called, and the
/// frame has room for the slots the saves need.
pub open spec fn call_save_ready(f: Func, cu: Seq<(String, Vec<Reg>)>) -> bool {
    &&& f.wf()
    &&& keys_distinct(cu)
    &&& forall|b: int, k: int| #[trigger] is_call_at(f.blocks@, b, k) ==> {
        &&& f.blocks@[b].insts@[k].operands@.len() > 0
        &&& f.blocks@[b].insts@[k].operands@[0] is Addr
        &&& has_entry(cu, callee_name(f.blocks@[b].insts@[k]))
    }
    &&& saves_fit(f.stack_addr@, f.blocks@, saved_v3(f.blocks@, cu))
}

/// The liveness sets of `new` are those of the code of `old` with the
/// reserved registers live everywhere, and nothing but the blocks' code
/// and the frame differs.
pub open spec fn relived(new: Func, old: Func) -> bool {
    &&& new.wf()
    &&& same_but_code_frame(&new, &old)
    &&& new.blocks@.len() == old.blocks@.len()
    &&& forall|b: int| 0 <= b < new.blocks@.len() ==> same_frame(#[trigger] new.blocks@[b], old.blocks@[b])
    &&& forall|b: int| 0 <= b < new.blocks@.len() ==> is_set((#[trigger] new.blocks@[b]).live_out@)
        && is_set(new.blocks@[b].live_in@)
    &&& forall|b: int, x: Reg| 0 <= b < new.blocks@.len() ==> (#[trigger] new.blocks@[b].live_out@.contains(x)
        <==> (live_out_of(old.blocks@, b, x) || reserved_reg(x)))
    &&& forall|b: int, x: Reg| 0 <= b < new.blocks@.len() ==> (#[trigger] new.blocks@[b].live_in@.contains(x)
        <==> (live_into(old.blocks@, b, x) || reserved_reg(x)))
}

/// `new` is `old` with the saves around its calls (`saved_at`): liveness
/// recomputed as `relived` says, and frame and code as `saves_placed` says.
pub open spec fn calls_saved(new: Func, old: Func, cu: Seq<(String, Vec<Reg>)>) -> bool {
    &&& relived(new, old)
    &&& saves_placed(new, old.stack_addr@, old.blocks@, saved_v3(old.blocks@, cu))
}

/// Two enumerations of one set have the same length.
proof fn lemma_same_members_len(a: Seq<Reg>, c: Seq<Reg>)
    requires
        a.no_duplicates(),
        c.no_duplicates(),
        forall|x: Reg| a.contains(x) <==> c.contains(x),
    ensures
        a.len() == c.len(),
{
    a.unique_seq_to_set();
    c.unique_seq_to_set();
    assert(a.to_set() =~= c.to_set());
}

/// Where `name` is among the keys of `cu`, or the length of `cu`.
fn find_entry(cu: &Vec<(String, Vec<Reg>)>, name: &String) -> (r: usize)
    ensures
        r <= cu@.len(),
        r < cu@.len() ==> cu@[r as int].0@ == name@,
        r == cu@.len() ==> !has_entry(cu@, name@),
{
    let mut i: usize = 0;
    while i < cu.len()
        invariant
            i <= cu@.len(),
            forall|j: int| 0 <= j < i ==> cu@[j].0@ != name@,
        decreases cu@.len() - i,
    {
        if cu[i].0 == *name {
            return i;
        }
        i += 1;
    }
    i
}

/// The caller-saved registers (but ra) of `live` that `used` lists.
fn select_saved(live: &Vec<Reg>, used: &Vec<Reg>) -> (r: Vec<Reg>)
    requires
        is_set(live@),
    ensures
        r@.no_duplicates(),
        forall|x: Reg| #[trigger] r@.contains(x) <==> (live@.contains(x) && x.spec_is_caller_save() && x.id != 1 && used@.contains(x)),
{
    let mut r: Vec<Reg> = Vec::new();
    let mut i: usize = 0;
    while i < live.len()
        invariant
            is_set(live@),
            i <= live@.len(),
            r@.no_duplicates(),
            forall|x: Reg| #[trigger] r@.contains(x) <==> (live@.subrange(0, i as int).contains(x)
                && x.spec_is_caller_save() && x.id != 1 && used@.contains(x)),
        decreases live@.len() - i,
    {
        let x = live[i];
        let ghost pre = live@.subrange(0, i as int);
        let ghost post = live@.subrange(0, i + 1);
        proof {
            assert(post =~= pre.push(x));
            assert forall|z: Reg| #[trigger] post.contains(z) <==> (pre.contains(z) || z == x) by {
                if post.contains(z) {
                    let q = choose|q: int| 0 <= q < post.len() && post[q] == z;
                    if q < pre.len() {
                        assert(pre[q] == z);
                    }
                }
                if pre.contains(z) {
                    let q = choose|q: int| 0 <= q < pre.len() && pre[q] == z;
                    assert(post[q] == z);
                }
                if z == x {
                    assert(post[i as int] == z);
                }
            }
            assert(!pre.contains(x)) by {
                if pre.contains(x) {
                    let q = choose|q: int| 0 <= q < pre.len() && pre[q] == x;
                    assert(live@[q] == live@[i as int]);
                }
            }
        }
        if x.is_caller_save() && x.get_id() != 1 && contains_reg(used, &x) {
            let ghost before = r@;
            r.push(x);
            proof {
                assert forall|a: int, c: int| 0 <= a < r@.len() && 0 <= c < r@.len() && a != c implies r@[a] != r@[c] by {
                    if a == before.len() {
                        assert(before.contains(r@[c]));
                    } else if c == before.len() {
                        assert(before.contains(r@[a]));
                    }
                }
                assert forall|z: Reg| #[trigger] r@.contains(z) <==> (post.contains(z)
                    && z.spec_is_caller_save() && z.id != 1 && used@.contains(z)) by {
                    if r@.contains(z) {
                        let q = choose|q: int| 0 <= q < r@.len() && r@[q] == z;
                        if q < before.len() {
                            assert(before.contains(z));
                        }
                    }
                    if before.contains(z) {
                        let q = choose|q: int| 0 <= q < before.len() && before[q] == z;
                        assert(r@[q] == z);
                    }
                    if z == x {
                        assert(r@[before.len() as int] == z);
                    }
                }
            }
        }
        i += 1;
    }
    proof {
        assert(live@.subrange(0, live@.len() as int) =~= live@);
    }
    r
}

/// After recomputing liveness (with the reserved registers pinned), what
/// holds a value across an instruction is what `held_across` says of the
/// old blocks.
proof fn lemma_held_across(old: Seq<BB>, mid: Seq<BB>, b: int, k: int, x: Reg)
    requires
        old.len() == mid.len(),
        0 <= b < old.len(),
        0 <= k < old[b].insts@.len(),
        forall|c: int| 0 <= c < old.len() ==> same_but_live(#[trigger] mid[c], old[c]),
        live_sets_pinned(mid, |r: Reg| reserved_reg(r)),
    ensures
        live_across(mid[b], k, x) <==> held_across(old, b, k, x),
{
    lemma_same_flow(old, mid);
    assert(same_but_live(mid[b], old[b]));
    assert(mid[b].live_out@.contains(x) <==> (live_out_of(mid, b, x) || reserved_reg(x)));
}

impl Func {
    /// Stores before each call the registers that `saves` lists for it,
    /// each to a slot of its own after the end of the frame, and loads them
    /// back after the call; as many slots are added as one call needs at
    /// most. `blocks0` is the code (the instructions of each block) and
    /// `sv` says what each call saves.
    #[verifier::rlimit(100)]
    fn insert_saves(&mut self, saves: &Vec<Vec<Vec<Reg>>>, Ghost(blocks0): Ghost<Seq<BB>>,
        Ghost(sv): Ghost<spec_fn(int, int, Reg) -> bool>)
        requires
            old(self).wf(),
            blocks0.len() == old(self).blocks@.len(),
            forall|c: int| 0 <= c < blocks0.len() ==> (#[trigger] old(self).blocks@[c]).insts@ == blocks0[c].insts@,
            saves@.len() == blocks0.len(),
            forall|c: int| 0 <= c < blocks0.len() ==> (#[trigger] saves@[c])@.len() == blocks0[c].insts@.len(),
            forall|c: int, k: int| #[trigger] is_call_at(blocks0, c, k) ==> saves_list(sv, c, k, saves@[c]@[k]@),
            saves_fit(old(self).stack_addr@, blocks0, sv),
        ensures
            final(self).wf(),
            same_but_code_frame(final(self), old(self)),
            final(self).blocks@.len() == old(self).blocks@.len(),
            forall|c: int| 0 <= c < final(self).blocks@.len() ==> (#[trigger] final(self).blocks@[c]).same_but_insts(&old(self).blocks@[c]),
            saves_placed(*final(self), old(self).stack_addr@, blocks0, sv),
    {
        let ghost f0 = *self;
        let ghost stack0 = self.stack_addr@;
        let ghost mid = self.blocks@;
        let n0 = self.stack_addr.len();
        let ghost base: int = if n0 > 0 { frame_end(stack0) } else { 0 };
        let nb = self.blocks.len();
        let mut b: usize = 0;
        while b < nb
            invariant
                f0 == *old(self),
                f0.wf(),
                mid == f0.blocks@,
                blocks0.len() == mid.len(),
                forall|c: int| 0 <= c < nb ==> (#[trigger] mid[c]).insts@ == blocks0[c].insts@,
                saves@.len() == nb,
                forall|c: int| 0 <= c < nb ==> (#[trigger] saves@[c])@.len() == blocks0[c].insts@.len(),
                forall|c: int, k: int| #[trigger] is_call_at(blocks0, c, k) ==> saves_list(sv, c, k, saves@[c]@[k]@),
                saves_fit(stack0, blocks0, sv),
                stack0 == f0.stack_addr@,
                n0 == stack0.len(),
                base == (if n0 > 0 { frame_end(stack0) } else { 0 }),
                nb == mid.len(),
                b <= nb,
                self.blocks@.len() == nb,
                same_but_code_frame(self, &f0),
                forall|c: int| b <= c < nb ==> #[trigger] self.blocks@[c] == mid[c],
                forall|c: int| 0 <= c < b ==> (#[trigger] self.blocks@[c]).same_but_insts(&mid[c]),
                forall|c: int, i: int| 0 <= c < b && 0 <= i < self.blocks@[c].insts@.len()
                    ==> #[trigger] self.blocks@[c].insts@[i].def_well_formed(),
                forall|c: int| 0 <= c < b ==> block_saved(blocks0[c].insts@, sv, c, insts_view(#[trigger] self.blocks@[c].insts@), base),
                self.stack_addr@.len() >= n0,
                self.stack_addr@.subrange(0, n0 as int) == stack0,
                forall|j: int| n0 <= j < self.stack_addr@.len() ==> #[trigger] self.stack_addr@[j]
                    == (StackSlot { pos: slot_place(base, j - n0) as i32, size: ADDR_SIZE }),
                self.stack_addr@.len() > n0 ==> i32::MIN <= base && base + 8 * (self.stack_addr@.len() - n0) <= i32::MAX + 8,
                forall|c: int, k: int, regs: Seq<Reg>| 0 <= c < b && is_call_at(blocks0, c, k)
                    && #[trigger] saves_list(sv, c, k, regs) ==> regs.len() <= self.stack_addr@.len() - n0,
                self.stack_addr@.len() > n0 ==> exists|c: int, k: int, regs: Seq<Reg>| is_call_at(blocks0, c, k)
                    && #[trigger] saves_list(sv, c, k, regs) && regs.len() == self.stack_addr@.len() - n0,
            decreases nb - b,
        {
            let ghost blocks_before = self.blocks@;
            let mut new_insts: Vec<LIRInst> = Vec::new();
            let ghost mut segs: Seq<Seq<InstView>> = Seq::empty();
            let ghost mut regss: Seq<Seq<Reg>> = Seq::empty();
            let ghost mut pss: Seq<Seq<i32>> = Seq::empty();
            let n = self.blocks[b].insts.len();
            assert(mid[b as int].insts@ == blocks0[b as int].insts@);
            let mut k: usize = 0;
            while k < n
                invariant
                    f0 == *old(self),
                    f0.wf(),
                    mid == f0.blocks@,
                    blocks0.len() == mid.len(),
                    forall|c: int| 0 <= c < nb ==> (#[trigger] mid[c]).insts@ == blocks0[c].insts@,
                    saves@.len() == nb,
                    forall|c: int| 0 <= c < nb ==> (#[trigger] saves@[c])@.len() == blocks0[c].insts@.len(),
                    forall|c: int, kk: int| #[trigger] is_call_at(blocks0, c, kk) ==> saves_list(sv, c, kk, saves@[c]@[kk]@),
                    saves_fit(stack0, blocks0, sv),
                    stack0 == f0.stack_addr@,
                    n0 == stack0.len(),
                    base == (if n0 > 0 { frame_end(stack0) } else { 0 }),
                    nb == mid.len(),
                    b < nb,
                    n == mid[b as int].insts@.len(),
                    mid[b as int].insts@ == blocks0[b as int].insts@,
                    self.blocks@ == blocks_before,
                    self.blocks@.len() == nb,
                    self.blocks@[b as int] == mid[b as int],
                    same_but_code_frame(self, &f0),
                    k <= n,
                    segs.len() == k,
                    regss.len() == k,
                    pss.len() == k,
                    forall|kk: int| 0 <= kk < k ==> call_segment(blocks0[b as int].insts@, sv, b as int, kk, #[trigger] segs[kk], regss[kk], pss[kk], base),
                    insts_view(new_insts@) == segs.flatten(),
                    forall|i: int| 0 <= i < new_insts@.len() ==> #[trigger] new_insts@[i].def_well_formed(),
                    self.stack_addr@.len() >= n0,
                    self.stack_addr@.subrange(0, n0 as int) == stack0,
                    forall|j: int| n0 <= j < self.stack_addr@.len() ==> #[trigger] self.stack_addr@[j]
                        == (StackSlot { pos: slot_place(base, j - n0) as i32, size: ADDR_SIZE }),
                    self.stack_addr@.len() > n0 ==> i32::MIN <= base && base + 8 * (self.stack_addr@.len() - n0) <= i32::MAX + 8,
                    forall|c: int, kk: int, regs: Seq<Reg>| (0 <= c < b || (c == b && 0 <= kk < k)) && is_call_at(blocks0, c, kk)
                        && #[trigger] saves_list(sv, c, kk, regs) ==> regs.len() <= self.stack_addr@.len() - n0,
                    self.stack_addr@.len() > n0 ==> exists|c: int, kk: int, regs: Seq<Reg>| is_call_at(blocks0, c, kk)
                        && #[trigger] saves_list(sv, c, kk, regs) && regs.len() == self.stack_addr@.len() - n0,
                decreases n - k,
            {
                let ghost orig = blocks0[b as int].insts@[k as int];
                assert(self.blocks@[b as int].insts@[k as int] == orig);
                assert(orig.def_well_formed());
                let inst = self.blocks[b].insts[k].clone();
                let ghost len_before = self.stack_addr@.len();
                if inst.inst_type == InstrsType::Call {
                    proof {
                        assert(is_call_at(blocks0, b as int, k as int));
                    }
                    let to_saved = copy_regs(&saves[b][k]);
                    proof {
                        assert(saves_list(sv, b as int, k as int, to_saved@));
                    }
                    let m = to_saved.len();
                    while self.stack_addr.len() - n0 < m
                        invariant
                            stack0 == f0.stack_addr@,
                            n0 == stack0.len(),
                            base == (if n0 > 0 { frame_end(stack0) } else { 0 }),
                            saves_fit(stack0, blocks0, sv),
                            is_call_at(blocks0, b as int, k as int),
                            saves_list(sv, b as int, k as int, to_saved@),
                            m == to_saved@.len(),
                            self.blocks@ == blocks_before,
                            same_but_code_frame(self, &f0),
                            self.stack_addr@.len() >= len_before >= n0,
                            self.stack_addr@.subrange(0, n0 as int) == stack0,
                            self.stack_addr@.len() - n0 <= m || self.stack_addr@.len() == len_before,
                            forall|j: int| n0 <= j < self.stack_addr@.len() ==> #[trigger] self.stack_addr@[j]
                                == (StackSlot { pos: slot_place(base, j - n0) as i32, size: ADDR_SIZE }),
                            self.stack_addr@.len() > n0 ==> i32::MIN <= base && base + 8 * (self.stack_addr@.len() - n0) <= i32::MAX + 8,
                        decreases m - (self.stack_addr@.len() - n0),
                    {
                        let ghost l = self.stack_addr@.len();
                        proof {
                            assert(m > 0);
                            assert(stack0.len() > 0);
                            assert(i32::MIN <= frame_end(stack0) && frame_end(stack0) + 8 * m <= i32::MAX);
                        }
                        let back = self.stack_addr[self.stack_addr.len() - 1];
                        proof {
                            if l == n0 {
                                assert(back == self.stack_addr@.subrange(0, n0 as int)[n0 - 1]);
                                assert(back == stack0.last());
                            } else {
                                assert(back == self.stack_addr@[l - 1]);
                            }
                            assert(back.pos as int + back.size as int == slot_place(base, l - n0));
                        }
                        let p = StackSlot::new(back.pos + back.size, ADDR_SIZE);
                        let ghost st = self.stack_addr@;
                        self.stack_addr.push(p);
                        proof {
                            assert(self.stack_addr@.subrange(0, n0 as int) =~= st.subrange(0, n0 as int));
                            assert forall|j: int| n0 <= j < self.stack_addr@.len() implies #[trigger] self.stack_addr@[j]
                                == (StackSlot { pos: slot_place(base, j - n0) as i32, size: ADDR_SIZE }) by {
                                if j < l {
                                    assert(self.stack_addr@[j] == st[j]);
                                }
                            }
                        }
                    }
                    let ghost len_after = self.stack_addr@.len();
                    let ghost ps: Seq<i32> = Seq::new(m as nat, |j: int| slot_place(base, j) as i32);
                    let ghost stores: Seq<InstView> = Seq::empty();
                    let ghost loads: Seq<InstView> = Seq::empty();
                    let ghost pre = insts_view(new_insts@);
                    let mut j: usize = 0;
                    while j < m
                        invariant
                            j <= m,
                            m == to_saved@.len(),
                            n0 + m <= self.stack_addr@.len(),
                            forall|q: int| n0 <= q < self.stack_addr@.len() ==> #[trigger] self.stack_addr@[q]
                                == (StackSlot { pos: slot_place(base, q - n0) as i32, size: ADDR_SIZE }),
                            ps.len() == m,
                            forall|q: int| 0 <= q < m ==> #[trigger] ps[q] == slot_place(base, q) as i32,
                            insts_view(new_insts@) == pre + slot_accesses(InstrsType::StoreToStack, to_saved@.subrange(0, j as int), ps.subrange(0, j as int)),
                            forall|i: int| 0 <= i < new_insts@.len() ==> #[trigger] new_insts@[i].def_well_formed(),
                        decreases m - j,
                    {
                        let slen = self.stack_addr.len();
                        assert(n0 + j < slen);
                        let pos = self.stack_addr[n0 + j].pos;
                        let mut ins = LIRInst::new(InstrsType::StoreToStack, vec![Operand::Reg(to_saved[j]), Operand::IImm(IImm::new(pos))]);
                        ins.set_double();
                        let ghost before = new_insts@;
                        new_insts.push(ins);
                        proof {
                            assert(insts_view(new_insts@) =~= insts_view(before).push(ins@));
                            assert(ins@ == slot_access(InstrsType::StoreToStack, to_saved@[j as int], ps[j as int]));
                            assert(slot_accesses(InstrsType::StoreToStack, to_saved@.subrange(0, j + 1), ps.subrange(0, j + 1))
                                =~= slot_accesses(InstrsType::StoreToStack, to_saved@.subrange(0, j as int), ps.subrange(0, j as int)).push(ins@));
                            assert forall|i: int| 0 <= i < new_insts@.len() implies #[trigger] new_insts@[i].def_well_formed() by {
                                if i < before.len() {
                                    assert(new_insts@[i] == before[i]);
                                }
                            }
                        }
                        j += 1;
                    }
                    let ghost mid_view = insts_view(new_insts@);
                    let ghost b4 = new_insts@;
                    new_insts.push(inst);
                    proof {
                        assert(insts_view(new_insts@) =~= insts_view(b4).push(inst@));
                        assert forall|i: int| 0 <= i < new_insts@.len() implies #[trigger] new_insts@[i].def_well_formed() by {
                            if i < b4.len() {
                                assert(new_insts@[i] == b4[i]);
                            } else {
                                assert(new_insts@[i] == inst);
                            }
                        }
                    }
                    let ghost pre2 = insts_view(new_insts@);
                    let mut j: usize = 0;
                    while j < m
                        invariant
                            j <= m,
                            m == to_saved@.len(),
                            n0 + m <= self.stack_addr@.len(),
                            forall|q: int| n0 <= q < self.stack_addr@.len() ==> #[trigger] self.stack_addr@[q]
                                == (StackSlot { pos: slot_place(base, q - n0) as i32, size: ADDR_SIZE }),
                            ps.len() == m,
                            forall|q: int| 0 <= q < m ==> #[trigger] ps[q] == slot_place(base, q) as i32,
                            insts_view(new_insts@) == pre2 + slot_accesses(InstrsType::LoadFromStack, to_saved@.subrange(0, j as int), ps.subrange(0, j as int)),
                            forall|i: int| 0 <= i < new_insts@.len() ==> #[trigger] new_insts@[i].def_well_formed(),
                        decreases m - j,
                    {
                        let slen = self.stack_addr.len();
                        assert(n0 + j < slen);
                        let pos = self.stack_addr[n0 + j].pos;
                        let mut ins = LIRInst::new(InstrsType::LoadFromStack, vec![Operand::Reg(to_saved[j]), Operand::IImm(IImm::new(pos))]);
                        ins.set_double();
                        let ghost before = new_insts@;
                        new_insts.push(ins);
                        proof {
                            assert(insts_view(new_insts@) =~= insts_view(before).push(ins@));
                            assert(ins@ == slot_access(InstrsType::LoadFromStack, to_saved@[j as int], ps[j as int]));
                            assert(slot_accesses(InstrsType::LoadFromStack, to_saved@.subrange(0, j + 1), ps.subrange(0, j + 1))
                                =~= slot_accesses(InstrsType::LoadFromStack, to_saved@.subrange(0, j as int), ps.subrange(0, j as int)).push(ins@));
                            assert forall|i: int| 0 <= i < new_insts@.len() implies #[trigger] new_insts@[i].def_well_formed() by {
                                if i < before.len() {
                                    assert(new_insts@[i] == before[i]);
                                }
                            }
                        }
                        j += 1;
                    }
                    proof {
                        assert(to_saved@.subrange(0, m as int) =~= to_saved@);
                        assert(ps.subrange(0, m as int) =~= ps);
                        let seg = slot_accesses(InstrsType::StoreToStack, to_saved@, ps) + seq![orig@]
                            + slot_accesses(InstrsType::LoadFromStack, to_saved@, ps);
                        assert(inst@ == orig@);
                        assert(insts_view(new_insts@) =~= segs.flatten() + seg);
                        if m > 0 {
                            assert(stack0.len() > 0 && i32::MIN <= frame_end(stack0) && frame_end(stack0) + 8 * m <= i32::MAX);
                        }
                        assert forall|q: int| 0 <= q < ps.len() implies #[trigger] among_first(ps[q] as int, base, ps.len() as int) by {
                            assert(i32::MIN <= slot_place(base, q) <= i32::MAX);
                            assert(ps[q] == slot_place(base, q));
                        }
                        assert(ps.no_duplicates()) by {
                            assert forall|a: int, c: int| 0 <= a < ps.len() && 0 <= c < ps.len() && a != c implies ps[a] != ps[c] by {
                                assert(ps[a] == slot_place(base, a) as i32);
                                assert(ps[c] == slot_place(base, c) as i32);
                            }
                        }
                        assert(orig.inst_type is Call);
                        assert(saves_list(sv, b as int, k as int, to_saved@));
                        assert(to_saved@.len() == ps.len());
                        assert(first_places(ps, base));
                        assert(call_segment(blocks0[b as int].insts@, sv, b as int, k as int, seg, to_saved@, ps, base));
                        segs.lemma_flatten_push(seg);
                        segs = segs.push(seg);
                        regss = regss.push(to_saved@);
                        pss = pss.push(ps);
                        assert forall|c: int, kk: int, regs: Seq<Reg>| (0 <= c < b || (c == b && 0 <= kk < k + 1)) && is_call_at(blocks0, c, kk)
                            && #[trigger] saves_list(sv, c, kk, regs) implies regs.len() <= self.stack_addr@.len() - n0 by {
                            if c == b && kk == k {
                                lemma_same_members_len(regs, to_saved@);
                            }
                        }
                        if self.stack_addr@.len() > len_before {
                            assert(self.stack_addr@.len() - n0 == m);
                            assert(is_call_at(blocks0, b as int, k as int) && saves_list(sv, b as int, k as int, to_saved@));
                        }
                    }
                } else {
                    let ghost b4 = new_insts@;
                    new_insts.push(inst);
                    proof {
                        assert(inst@ == orig@);
                        assert(insts_view(new_insts@) =~= segs.flatten() + seq![orig@]);
                        assert forall|i: int| 0 <= i < new_insts@.len() implies #[trigger] new_insts@[i].def_well_formed() by {
                            if i < b4.len() {
                                assert(new_insts@[i] == b4[i]);
                            } else {
                                assert(new_insts@[i] == inst);
                            }
                        }
                        assert(call_segment(blocks0[b as int].insts@, sv, b as int, k as int, seq![orig@], Seq::empty(), Seq::empty(), base));
                        segs.lemma_flatten_push(seq![orig@]);
                        segs = segs.push(seq![orig@]);
                        regss = regss.push(Seq::empty());
                        pss = pss.push(Seq::empty());
                        assert forall|c: int, kk: int, regs: Seq<Reg>| (0 <= c < b || (c == b && 0 <= kk < k + 1)) && is_call_at(blocks0, c, kk)
                            && #[trigger] saves_list(sv, c, kk, regs) implies regs.len() <= self.stack_addr@.len() - n0 by {
                            if c == b && kk == k {
                                assert(!is_call_at(blocks0, c, kk));
                            }
                        }
                    }
                }
                proof {
                    assert forall|kk: int| 0 <= kk < k + 1 implies call_segment(blocks0[b as int].insts@, sv, b as int, kk, #[trigger] segs[kk], regss[kk], pss[kk], base) by {
                    }
                }
                k += 1;
            }
            self.blocks[b].insts = new_insts;
            proof {
                assert(segments_ok(blocks0[b as int].insts@, sv, b as int, segs, regss, pss, base));
                assert(block_saved(blocks0[b as int].insts@, sv, b as int, insts_view(self.blocks@[b as int].insts@), base));
                assert forall|c: int| 0 <= c < b + 1 implies block_saved(blocks0[c].insts@, sv, c, insts_view(#[trigger] self.blocks@[c].insts@), base) by {
                    if c < b {
                        assert(self.blocks@[c] == blocks_before[c]);
                    }
                }
                assert forall|c: int, i: int| 0 <= c < b + 1 && 0 <= i < self.blocks@[c].insts@.len()
                    implies #[trigger] self.blocks@[c].insts@[i].def_well_formed() by {
                    if c < b {
                        assert(self.blocks@[c] == blocks_before[c]);
                    }
                }
            }
            b += 1;
        }
        proof {
            let fb = self.blocks@;
            assert forall|c: int, i: int| 0 <= c < fb.len() && 0 <= i < fb[c].in_edge@.len()
                implies #[trigger] fb[c].in_edge@[i] < fb.len() by {
                assert(f0.blocks@[c].in_edge@[i] < f0.blocks@.len());
            }
            assert forall|c: int, i: int| 0 <= c < fb.len() && 0 <= i < fb[c].out_edge@.len()
                implies #[trigger] fb[c].out_edge@[i] < fb.len() by {
                assert(f0.blocks@[c].out_edge@[i] < f0.blocks@.len());
            }
            assert(saves_placed(*self, stack0, blocks0, sv));
        }
    }
}


impl Func {
    /// Saves around every call the caller-saved registers (but ra) that
    /// hold a value across it and that the callee's entry of
    /// `callers_used` lists: each is stored to a slot of its own before the
    /// call and loaded back from it after the call; the slots are added
    /// after the end of the frame, as many as one call needs at most.
    pub fn handle_call_v3(&mut self, callers_used: &Vec<(String, Vec<Reg>)>)
        requires
            call_save_ready(*old(self), callers_used@),
        ensures
            calls_saved(*final(self), *old(self), callers_used@),
    {
        let ghost f0 = *self;
        let ghost cu = callers_used@;
        self.calc_live_for_handle_call();
        let ghost mid = self.blocks@;
        let ghost f1 = *self;
        proof {
            lemma_same_flow(f0.blocks@, mid);
        }
        let lives = AsmModule::analyse_inst_with_live_now(self);
        let mut saves: Vec<Vec<Vec<Reg>>> = Vec::new();
        let nb = self.blocks.len();
        let mut b: usize = 0;
        while b < nb
            invariant
                f0 == *old(self),
                cu == callers_used@,
                call_save_ready(f0, cu),
                self.blocks@ == mid,
                nb == mid.len(),
                mid.len() == f0.blocks@.len(),
                forall|c: int| 0 <= c < nb ==> same_but_live(#[trigger] mid[c], f0.blocks@[c]),
                live_sets_pinned(mid, |r: Reg| reserved_reg(r)),
                lives@.len() == nb,
                forall|c: int| 0 <= c < nb ==> (#[trigger] lives@[c])@.len() == mid[c].insts@.len(),
                forall|c: int, k: int| 0 <= c < nb && 0 <= k < lives@[c]@.len() ==> is_set(#[trigger] lives@[c]@[k]@),
                forall|c: int, k: int, x: Reg| 0 <= c < nb && 0 <= k < lives@[c]@.len() ==>
                    (#[trigger] lives@[c]@[k]@.contains(x) <==> live_across(mid[c], k, x)),
                b <= nb,
                saves@.len() == b,
                forall|c: int| 0 <= c < b ==> (#[trigger] saves@[c])@.len() == f0.blocks@[c].insts@.len(),
                forall|c: int, k: int| 0 <= c < b && #[trigger] is_call_at(f0.blocks@, c, k)
                    ==> saves_list(saved_v3(f0.blocks@, cu), c, k, saves@[c]@[k]@),
            decreases nb - b,
        {
            let n = self.blocks[b].insts.len();
            assert(mid[b as int].insts@ == f0.blocks@[b as int].insts@);
            let mut row: Vec<Vec<Reg>> = Vec::new();
            let mut k: usize = 0;
            while k < n
                invariant
                    f0 == *old(self),
                    cu == callers_used@,
                    call_save_ready(f0, cu),
                    self.blocks@ == mid,
                    nb == mid.len(),
                    mid.len() == f0.blocks@.len(),
                    forall|c: int| 0 <= c < nb ==> same_but_live(#[trigger] mid[c], f0.blocks@[c]),
                    live_sets_pinned(mid, |r: Reg| reserved_reg(r)),
                    lives@.len() == nb,
                    forall|c: int| 0 <= c < nb ==> (#[trigger] lives@[c])@.len() == mid[c].insts@.len(),
                    forall|c: int, kk: int| 0 <= c < nb && 0 <= kk < lives@[c]@.len() ==> is_set(#[trigger] lives@[c]@[kk]@),
                    forall|c: int, kk: int, x: Reg| 0 <= c < nb && 0 <= kk < lives@[c]@.len() ==>
                        (#[trigger] lives@[c]@[kk]@.contains(x) <==> live_across(mid[c], kk, x)),
                    b < nb,
                    n == f0.blocks@[b as int].insts@.len(),
                    mid[b as int].insts@ == f0.blocks@[b as int].insts@,
                    k <= n,
                    row@.len() == k,
                    forall|kk: int| 0 <= kk < k && #[trigger] is_call_at(f0.blocks@, b as int, kk)
                        ==> saves_list(saved_v3(f0.blocks@, cu), b as int, kk, row@[kk]@),
                decreases n - k,
            {
                if self.blocks[b].insts[k].inst_type == InstrsType::Call {
                    proof {
                        assert(is_call_at(f0.blocks@, b as int, k as int));
                    }
                    let name = match self.blocks[b].insts[k].get_func_name() {
                        Some(nm) => nm,
                        None => {
                            proof { assert(false); }
                            String::new()
                        },
                    };
                    let e = find_entry(callers_used, &name);
                    assert(e < callers_used.len());
                    proof {
                        let ch = choose|i: int| 0 <= i < cu.len() && #[trigger] cu[i].0@ == name@;
                        assert(ch == e as int);
                    }
                    let to_saved = select_saved(&lives[b][k], &callers_used[e].1);
                    proof {
                        assert forall|x: Reg| #[trigger] to_saved@.contains(x) <==> saved_v3(f0.blocks@, cu)(b as int, k as int, x) by {
                            lemma_held_across(f0.blocks@, mid, b as int, k as int, x);
                        }
                    }
                    row.push(to_saved);
                } else {
                    row.push(Vec::new());
                }
                proof {
                    assert forall|kk: int| 0 <= kk < k + 1 && #[trigger] is_call_at(f0.blocks@, b as int, kk)
                        implies saves_list(saved_v3(f0.blocks@, cu), b as int, kk, row@[kk]@) by {
                    }
                }
                k += 1;
            }
            saves.push(row);
            proof {
                assert forall|c: int, kk: int| 0 <= c < b + 1 && #[trigger] is_call_at(f0.blocks@, c, kk)
                    implies saves_list(saved_v3(f0.blocks@, cu), c, kk, saves@[c]@[kk]@) by {
                }
            }
            b += 1;
        }
        proof {
            assert forall|c: int| 0 <= c < f0.blocks@.len() implies (#[trigger] self.blocks@[c]).insts@ == f0.blocks@[c].insts@ by {
                assert(same_but_live(mid[c], f0.blocks@[c]));
            }
        }
        self.insert_saves(&saves, Ghost(f0.blocks@), Ghost(saved_v3(f0.blocks@, cu)));
        proof {
            let fb = self.blocks@;
            assert forall|c: int, x: Reg| 0 <= c < fb.len() implies (#[trigger] fb[c].live_out@.contains(x)
                <==> (live_out_of(f0.blocks@, c, x) || reserved_reg(x))) by {
                assert(fb[c].same_but_insts(&mid[c]));
                assert(mid[c].live_out@.contains(x) <==> (live_out_of(mid, c, x) || reserved_reg(x)));
            }
            assert forall|c: int, x: Reg| 0 <= c < fb.len() implies (#[trigger] fb[c].live_in@.contains(x)
                <==> (live_into(f0.blocks@, c, x) || reserved_reg(x))) by {
                assert(fb[c].same_but_insts(&mid[c]));
                assert(mid[c].live_in@.contains(x) <==> (live_into(mid, c, x) || reserved_reg(x)));
            }
            assert forall|c: int| 0 <= c < fb.len() implies is_set((#[trigger] fb[c]).live_out@) && is_set(fb[c].live_in@) by {
                assert(fb[c].same_but_insts(&mid[c]));
                assert(is_set(mid[c].live_out@));
            }
            assert forall|c: int| 0 <= c < fb.len() implies same_frame(#[trigger] fb[c], f0.blocks@[c]) by {
                assert(fb[c].same_but_insts(&mid[c]));
                assert(same_but_live(mid[c], f0.blocks@[c]));
            }
            assert(relived(*self, f0));
        }
    }
}

impl AsmModule {
    /// Saves the caller-saved registers around the calls of every function
    /// (see `Func::handle_call_v3`), with the table of caller-saved
    /// registers each function uses.
    pub fn handle_call_v3(&mut self)
        requires
            labels_distinct(old(self).name_func@),
            forall|i: int| 0 <= i < old(self).name_func@.len()
                ==> call_save_ready(#[trigger] old(self).name_func@[i], old(self).caller_regs_to_saveds@),
        ensures
            labels_distinct(final(self).name_func@),
            final(self).name_func@.len() == old(self).name_func@.len(),
            final(self).call_map@ == old(self).call_map@,
            final(self).callee_regs_to_saveds@ == old(self).callee_regs_to_saveds@,
            final(self).caller_regs_to_saveds@ == old(self).caller_regs_to_saveds@,
            forall|i: int| 0 <= i < final(self).name_func@.len() ==>
                calls_saved(#[trigger] final(self).name_func@[i], old(self).name_func@[i], old(self).caller_regs_to_saveds@),
    {
        let n = self.name_func.len();
        let mut i: usize = 0;
        while i < n
            invariant
                n == self.name_func@.len(),
                i <= n,
                labels_distinct(self.name_func@),
                self.call_map@ == old(self).call_map@,
                self.callee_regs_to_saveds@ == old(self).callee_regs_to_saveds@,
                self.caller_regs_to_saveds@ == old(self).caller_regs_to_saveds@,
                forall|k: int| 0 <= k < n ==> (#[trigger] self.name_func@[k]).label == old(self).name_func@[k].label,
                forall|k: int| i <= k < n ==> #[trigger] self.name_func@[k] == old(self).name_func@[k],
                forall|k: int| 0 <= k < n ==> call_save_ready(#[trigger] old(self).name_func@[k], old(self).caller_regs_to_saveds@),
                forall|k: int| 0 <= k < i ==> calls_saved(#[trigger] self.name_func@[k], old(self).name_func@[k], old(self).caller_regs_to_saveds@),
            decreases n - i,
        {
            assert(self.name_func@[i as int] == old(self).name_func@[i as int]);
            let ghost before = self.name_func@;
            self.name_func[i].handle_call_v3(&self.caller_regs_to_saveds);
            proof {
                assert forall|a: int, c: int| 0 <= a < n && 0 <= c < n && a != c
                    implies self.name_func@[a].label@ != self.name_func@[c].label@ by {
                    assert(self.name_func@[a].label == before[a].label);
                    assert(self.name_func@[c].label == before[c].label);
                }
            }
            i += 1;
        }
    }
}

/// The positions of the calls among `insts[lo..hi]`, last first.
pub open spec fn calls_desc(insts: Seq<LIRInst>, lo: int, hi: int) -> Seq<int>
    decreases hi - lo,
{
    if lo >= hi {
        Seq::empty()
    } else {
        calls_desc(insts, lo + 1, hi) + if insts[lo].inst_type is Call { seq![lo] } else { Seq::empty() }
    }
}

/// The calls of `blocks[..b]` as (block, position): block by block, and in
/// each block the last call first.
pub open spec fn call_sites(blocks: Seq<BB>, b: int) -> Seq<(int, int)>
    decreases b,
{
    if b <= 0 {
        Seq::empty()
    } else {
        call_sites(blocks, b - 1) + calls_desc(blocks[b - 1].insts@, 0, blocks[b - 1].insts@.len() as int)
            .map_values(|k: int| (b - 1, k))
    }
}

/// The code is well formed, and every call names a function of the table
/// `cu`, which has one entry per name.
pub open spec fn calls_have_entries(f: Func, cu: Seq<(String, Vec<Reg>)>) -> bool {
    &&& f.wf()
    &&& keys_distinct(cu)
    &&& forall|b: int, k: int| #[trigger] is_call_at(f.blocks@, b, k) ==> {
        &&& f.blocks@[b].insts@[k].operands@.len() > 0
        &&& f.blocks@[b].insts@[k].operands@[0] is Addr
        &&& has_entry(cu, callee_name(f.blocks@[b].insts@[k]))
    }
}

/// The registers of `used` that `live` holds.
fn keep_held(used: &Vec<Reg>, live: &Vec<Reg>) -> (r: Vec<Reg>)
    ensures
        is_set(r@),
        forall|x: Reg| #[trigger] r@.contains(x) <==> (used@.contains(x) && live@.contains(x)),
{
    let mut r: Vec<Reg> = Vec::new();
    let mut i: usize = 0;
    while i < used.len()
        invariant
            i <= used@.len(),
            is_set(r@),
            forall|x: Reg| #[trigger] r@.contains(x) <==> (used@.subrange(0, i as int).contains(x) && live@.contains(x)),
        decreases used@.len() - i,
    {
        let x = used[i];
        let ghost pre = used@.subrange(0, i as int);
        let ghost post = used@.subrange(0, i + 1);
        proof {
            assert(post =~= pre.push(x));
            assert forall|z: Reg| #[trigger] post.contains(z) <==> (pre.contains(z) || z == x) by {
                if post.contains(z) {
                    let q = choose|q: int| 0 <= q < post.len() && post[q] == z;
                    if q < pre.len() {
                        assert(pre[q] == z);
                    }
                }
                if pre.contains(z) {
                    let q = choose|q: int| 0 <= q < pre.len() && pre[q] == z;
                    assert(post[q] == z);
                }
                if z == x {
                    assert(post[i as int] == z);
                }
            }
        }
        if contains_reg(live, &x) {
            crate::regset::set_insert(&mut r, x);
        }
        i += 1;
    }
    proof {
        assert(used@.subrange(0, used@.len() as int) =~= used@);
    }
    r
}

impl Func {
    /// For every call, the registers of the callee's entry of `callee_saved`
    /// that hold a value across it (after recomputing liveness with the
    /// reserved registers live everywhere); the calls come block by block,
    /// each block's last call first, as (block, position).
    pub fn analyse_for_handle_call(&mut self, callee_saved: &Vec<(String, Vec<Reg>)>) -> (r: Vec<((usize, usize), Vec<Reg>)>)
        requires
            calls_have_entries(*old(self), callee_saved@),
        ensures
            final(self).wf(),
            final(self).same_but_blocks(old(self)),
            final(self).blocks@.len() == old(self).blocks@.len(),
            forall|b: int| 0 <= b < final(self).blocks@.len()
                ==> same_but_live(#[trigger] final(self).blocks@[b], old(self).blocks@[b]),
            live_sets_pinned(final(self).blocks@, |x: Reg| reserved_reg(x)),
            r@.len() == call_sites(old(self).blocks@, old(self).blocks@.len() as int).len(),
            forall|i: int| 0 <= i < r@.len() ==> ((#[trigger] r@[i]).0.0 as int, r@[i].0.1 as int)
                == call_sites(old(self).blocks@, old(self).blocks@.len() as int)[i],
            forall|i: int| 0 <= i < r@.len() ==> is_set((#[trigger] r@[i]).1@),
            forall|i: int, x: Reg| 0 <= i < r@.len() ==> (#[trigger] r@[i].1@.contains(x) <==> ({
                let b = r@[i].0.0 as int;
                let k = r@[i].0.1 as int;
                &&& entry_regs(callee_saved@, callee_name(old(self).blocks@[b].insts@[k])).contains(x)
                &&& held_across(old(self).blocks@, b, k, x)
            })),
    {
        let ghost f0 = *self;
        let ghost cu = callee_saved@;
        self.calc_live_for_handle_call();
        let ghost mid = self.blocks@;
        proof {
            lemma_same_flow(f0.blocks@, mid);
        }
        let lives = AsmModule::analyse_inst_with_live_now(self);
        let mut out: Vec<((usize, usize), Vec<Reg>)> = Vec::new();
        let nb = self.blocks.len();
        let mut b: usize = 0;
        while b < nb
            invariant
                f0 == *old(self),
                cu == callee_saved@,
                calls_have_entries(f0, cu),
                self.blocks@ == mid,
                nb == mid.len(),
                mid.len() == f0.blocks@.len(),
                forall|c: int| 0 <= c < nb ==> same_but_live(#[trigger] mid[c], f0.blocks@[c]),
                live_sets_pinned(mid, |r: Reg| reserved_reg(r)),
                lives@.len() == nb,
                forall|c: int| 0 <= c < nb ==> (#[trigger] lives@[c])@.len() == mid[c].insts@.len(),
                forall|c: int, k: int, x: Reg| 0 <= c < nb && 0 <= k < lives@[c]@.len() ==>
                    (#[trigger] lives@[c]@[k]@.contains(x) <==> live_across(mid[c], k, x)),
                b <= nb,
                out@.len() == call_sites(f0.blocks@, b as int).len(),
                forall|i: int| 0 <= i < out@.len() ==> ((#[trigger] out@[i]).0.0 as int, out@[i].0.1 as int)
                    == call_sites(f0.blocks@, b as int)[i],
                forall|i: int| 0 <= i < out@.len() ==> is_set((#[trigger] out@[i]).1@),
                forall|i: int, x: Reg| 0 <= i < out@.len() ==> (#[trigger] out@[i].1@.contains(x) <==> ({
                    let bb = out@[i].0.0 as int;
                    let k = out@[i].0.1 as int;
                    &&& entry_regs(cu, callee_name(f0.blocks@[bb].insts@[k])).contains(x)
                    &&& held_across(f0.blocks@, bb, k, x)
                })),
            decreases nb - b,
        {
            let ghost out0 = out@;
            let ghost insts = f0.blocks@[b as int].insts@;
            assert(mid[b as int].insts@ == insts);
            let n = self.blocks[b].insts.len();
            let mut idx: usize = n;
            while idx > 0
                invariant
                    f0 == *old(self),
                    cu == callee_saved@,
                    calls_have_entries(f0, cu),
                    self.blocks@ == mid,
                    nb == mid.len(),
                    mid.len() == f0.blocks@.len(),
                    forall|c: int| 0 <= c < nb ==> same_but_live(#[trigger] mid[c], f0.blocks@[c]),
                    live_sets_pinned(mid, |r: Reg| reserved_reg(r)),
                    lives@.len() == nb,
                    forall|c: int| 0 <= c < nb ==> (#[trigger] lives@[c])@.len() == mid[c].insts@.len(),
                    forall|c: int, k: int, x: Reg| 0 <= c < nb && 0 <= k < lives@[c]@.len() ==>
                        (#[trigger] lives@[c]@[k]@.contains(x) <==> live_across(mid[c], k, x)),
                    b < nb,
                    insts == f0.blocks@[b as int].insts@,
                    n == insts.len(),
                    idx <= n,
                    out@.len() == out0.len() + calls_desc(insts, idx as int, n as int).len(),
                    forall|i: int| 0 <= i < out0.len() ==> #[trigger] out@[i] == out0[i],
                    forall|i: int| 0 <= i < calls_desc(insts, idx as int, n as int).len() ==>
                        ((#[trigger] out@[out0.len() + i]).0.0 as int, out@[out0.len() + i].0.1 as int)
                            == (b as int, calls_desc(insts, idx as int, n as int)[i]),
                    forall|i: int| 0 <= i < out@.len() ==> is_set((#[trigger] out@[i]).1@),
                    forall|i: int, x: Reg| 0 <= i < out@.len() ==> (#[trigger] out@[i].1@.contains(x) <==> ({
                        let bb = out@[i].0.0 as int;
                        let k = out@[i].0.1 as int;
                        &&& entry_regs(cu, callee_name(f0.blocks@[bb].insts@[k])).contains(x)
                        &&& held_across(f0.blocks@, bb, k, x)
                    })),
                decreases idx,
            {
                let i = idx - 1;
                let ghost before = out@;
                if self.blocks[b].insts[i].inst_type == InstrsType::Call {
                    proof {
                        assert(is_call_at(f0.blocks@, b as int, i as int));
                    }
                    let name = match self.blocks[b].insts[i].get_func_name() {
                        Some(nm) => nm,
                        None => {
                            proof { assert(false); }
                            String::new()
                        },
                    };
                    let e = find_entry(callee_saved, &name);
                    assert(e < callee_saved.len());
                    proof {
                        let ch = choose|q: int| 0 <= q < cu.len() && #[trigger] cu[q].0@ == name@;
                        assert(ch == e as int);
                    }
                    let held = keep_held(&callee_saved[e].1, &lives[b][i]);
                    out.push(((b, i), held));
                    proof {
                        assert forall|x: Reg| #[trigger] held@.contains(x) <==> ({
                            &&& entry_regs(cu, callee_name(f0.blocks@[b as int].insts@[i as int])).contains(x)
                            &&& held_across(f0.blocks@, b as int, i as int, x)
                        }) by {
                            lemma_held_across(f0.blocks@, mid, b as int, i as int, x);
                        }
                    }
                }
                proof {
                    assert(calls_desc(insts, i as int, n as int) == calls_desc(insts, i + 1, n as int)
                        + if insts[i as int].inst_type is Call { seq![i as int] } else { Seq::<int>::empty() });
                    assert forall|q: int| 0 <= q < out@.len() implies is_set((#[trigger] out@[q]).1@) by {
                        if q < before.len() {
                            assert(out@[q] == before[q]);
                        }
                    }
                    assert forall|q: int, x: Reg| 0 <= q < out@.len() implies (#[trigger] out@[q].1@.contains(x) <==> ({
                        let bb = out@[q].0.0 as int;
                        let k = out@[q].0.1 as int;
                        &&& entry_regs(cu, callee_name(f0.blocks@[bb].insts@[k])).contains(x)
                        &&& held_across(f0.blocks@, bb, k, x)
                    })) by {
                        if q < before.len() {
                            assert(out@[q] == before[q]);
                        }
                    }
                    assert forall|q: int| 0 <= q < calls_desc(insts, i as int, n as int).len() implies
                        ((#[trigger] out@[out0.len() + q]).0.0 as int, out@[out0.len() + q].0.1 as int)
                            == (b as int, calls_desc(insts, i as int, n as int)[q]) by {
                        if q < calls_desc(insts, i + 1, n as int).len() {
                            assert(out@[out0.len() + q] == before[out0.len() + q]);
                        }
                    }
                }
                idx = i;
            }
            proof {
                let sites = call_sites(f0.blocks@, b + 1);
                let here = calls_desc(insts, 0, n as int).map_values(|k: int| (b as int, k));
                assert(sites == call_sites(f0.blocks@, b as int) + here);
                assert forall|q: int| 0 <= q < out@.len() implies ((#[trigger] out@[q]).0.0 as int, out@[q].0.1 as int)
                    == sites[q] by {
                    if q < out0.len() {
                        assert(out@[q] == out0[q]);
                    } else {
                        let qq = q - out0.len();
                        assert(out0.len() + qq == q);
                        assert(((out@[out0.len() + qq]).0.0 as int, out@[out0.len() + qq].0.1 as int)
                            == (b as int, calls_desc(insts, 0, n as int)[qq]));
                        assert(here[qq] == (b as int, calls_desc(insts, 0, n as int)[qq]));
                        assert(sites[q] == here[qq]);
                    }
                }
            }
            b += 1;
        }
        out
    }
}

/// The physical register that `r` is given: itself when physical, else the
/// register of the colour `dstr` gives its id.
pub open spec fn phys_of(r: Reg, dstr: Map<i32, i32>) -> Reg {
    if r.spec_is_physic() {
        r
    } else {
        Reg { id: dstr[r.id], r_type: if dstr[r.id] >= FLOAT_BASE { ScalarType::Float } else { ScalarType::Int } }
    }
}

/// Some register of `s` is given the physical register `p`.
pub open spec fn maps_to(s: Seq<Reg>, dstr: Map<i32, i32>, p: Reg) -> bool {
    exists|j: int| 0 <= j < s.len() && #[trigger] phys_of(s[j], dstr) == p
}

/// Whether the physical register `p` holds a value that may be read at
/// position `i` of `insts` once every register is given its physical
/// register (`out` is live on exit).
pub open spec fn phys_live_at(insts: Seq<LIRInst>, out: spec_fn(Reg) -> bool, dstr: Map<i32, i32>, i: int, p: Reg) -> bool
    decreases insts.len() - i,
{
    if i >= insts.len() {
        exists|r: Reg| out(r) && #[trigger] phys_of(r, dstr) == p
    } else {
        maps_to(insts[i].spec_reg_use(), dstr, p)
            || (!maps_to(insts[i].spec_reg_def(), dstr, p) && phys_live_at(insts, out, dstr, i + 1, p))
    }
}

/// What is live on exit from block `b` once liveness is recomputed with the
/// reserved registers live everywhere.
pub open spec fn exit_live(blocks: Seq<BB>, b: int) -> spec_fn(Reg) -> bool {
    |r: Reg| live_out_of(blocks, b, r) || reserved_reg(r)
}

/// The call at `k` of block `b` saves the physical register `p`: a
/// caller-saved register (but ra) that, registers given their colours,
/// holds a value across the call.
pub open spec fn saved_phys(blocks: Seq<BB>, dstr: Map<i32, i32>) -> spec_fn(int, int, Reg) -> bool {
    |b: int, k: int, p: Reg| {
        &&& phys_live_at(blocks[b].insts@, exit_live(blocks, b), dstr, k + 1, p)
        &&& !maps_to(blocks[b].insts@[k].spec_reg_def(), dstr, p)
        &&& p.spec_is_caller_save()
        &&& p.id != 1
    }
}

/// A virtual register that needs a colour has one, and it names a physical register.
pub open spec fn colored(r: Reg, dstr: Map<i32, i32>) -> bool {
    !r.spec_is_physic() ==> dstr.contains_key(r.id) && 0 <= dstr[r.id] < 2 * REG_COUNT
}

/// What saving around calls after colouring may assume: the code is well
/// formed, every register the code names or that is live on exit from a
/// block has a colour, and the frame has room for the slots.
pub open spec fn colored_call_ready(f: Func, dstr: Map<i32, i32>) -> bool {
    &&& f.wf()
    &&& forall|b: int, i: int, r: Reg| 0 <= b < f.blocks@.len() && 0 <= i < f.blocks@[b].insts@.len()
        && #[trigger] f.blocks@[b].insts@[i].spec_reg_def().contains(r) ==> colored(r, dstr)
    &&& forall|b: int, i: int, r: Reg| 0 <= b < f.blocks@.len() && 0 <= i < f.blocks@[b].insts@.len()
        && #[trigger] f.blocks@[b].insts@[i].spec_reg_use().contains(r) ==> colored(r, dstr)
    &&& forall|b: int, r: Reg| 0 <= b < f.blocks@.len() && #[trigger] live_out_of(f.blocks@, b, r) ==> colored(r, dstr)
    &&& saves_fit(f.stack_addr@, f.blocks@, saved_phys(f.blocks@, dstr))
}

/// The physical register of `r`.
fn phys(r: &Reg, dstr: &HashMap<i32, i32>) -> (p: Reg)
    requires
        colored(*r, dstr@),
    ensures
        p == phys_of(*r, dstr@),
{
    if r.is_physic() {
        *r
    } else {
        match dstr.get(&r.get_id()) {
            Some(c) => Reg::from_color(*c),
            None => {
                proof { assert(false); }
                *r
            },
        }
    }
}

/// The caller-saved registers (but ra) of `live`.
fn caller_saved_of(live: &Vec<Reg>) -> (r: Vec<Reg>)
    requires
        is_set(live@),
    ensures
        r@.no_duplicates(),
        forall|x: Reg| #[trigger] r@.contains(x) <==> (live@.contains(x) && x.spec_is_caller_save() && x.id != 1),
{
    let all = copy_regs(live);
    let r = select_saved(live, &all);
    r
}

impl Func {
    /// For each instruction of block `b`, the caller-saved registers (but
    /// ra) that hold a value across it once registers are given their
    /// colours (for calls; nothing for other instructions).
    fn colored_saves(&self, b: usize, dstr: &HashMap<i32, i32>, Ghost(f0): Ghost<Func>) -> (r: Vec<Vec<Reg>>)
        requires
            colored_call_ready(f0, dstr@),
            b < self.blocks@.len(),
            self.blocks@.len() == f0.blocks@.len(),
            self.blocks@[b as int].insts@ == f0.blocks@[b as int].insts@,
            is_set(self.blocks@[b as int].live_out@),
            forall|x: Reg| #[trigger] self.blocks@[b as int].live_out@.contains(x) <==> exit_live(f0.blocks@, b as int)(x),
        ensures
            r@.len() == self.blocks@[b as int].insts@.len(),
            forall|k: int| #[trigger] is_call_at(f0.blocks@, b as int, k)
                ==> saves_list(saved_phys(f0.blocks@, dstr@), b as int, k, r@[k]@),
    {
        let ghost insts = f0.blocks@[b as int].insts@;
        let ghost out = exit_live(f0.blocks@, b as int);
        let ghost d = dstr@;
        let n = self.blocks[b].insts.len();
        let mut row: Vec<Vec<Reg>> = Vec::new();
        let mut k: usize = 0;
        while k < n
            invariant
                k <= n,
                row@.len() == k,
            decreases n - k,
        {
            row.push(Vec::new());
            k += 1;
        }
        let mut live_now: Vec<Reg> = Vec::new();
        let mut j: usize = 0;
        while j < self.blocks[b].live_out.len()
            invariant
                colored_call_ready(f0, d),
                d == dstr@,
                b < self.blocks@.len(),
                self.blocks@.len() == f0.blocks@.len(),
                forall|x: Reg| #[trigger] self.blocks@[b as int].live_out@.contains(x) <==> out(x),
                out == exit_live(f0.blocks@, b as int),
                j <= self.blocks@[b as int].live_out@.len(),
                is_set(live_now@),
                forall|p: Reg| #[trigger] live_now@.contains(p) <==> exists|t: int| 0 <= t < j
                    && #[trigger] phys_of(self.blocks@[b as int].live_out@[t], d) == p,
            decreases self.blocks@[b as int].live_out@.len() - j,
        {
            let r = self.blocks[b].live_out[j];
            proof {
                assert(self.blocks@[b as int].live_out@.contains(r));
                assert(out(r));
                if !r.spec_is_physic() {
                    if reserved_reg(r) {
                        assert(r.spec_is_physic());
                    }
                    assert(live_out_of(f0.blocks@, b as int, r));
                }
            }
            let p = phys(&r, dstr);
            crate::regset::set_insert(&mut live_now, p);
            proof {
                assert forall|q: Reg| #[trigger] live_now@.contains(q) <==> exists|t: int| 0 <= t < j + 1
                    && #[trigger] phys_of(self.blocks@[b as int].live_out@[t], d) == q by {
                    if exists|t: int| 0 <= t < j + 1 && #[trigger] phys_of(self.blocks@[b as int].live_out@[t], d) == q {
                        let t = choose|t: int| 0 <= t < j + 1 && #[trigger] phys_of(self.blocks@[b as int].live_out@[t], d) == q;
                        if t < j {
                        }
                    }
                }
            }
            j += 1;
        }
        proof {
            assert forall|p: Reg| #[trigger] live_now@.contains(p) <==> phys_live_at(insts, out, d, n as int, p) by {
                let lo = self.blocks@[b as int].live_out@;
                if live_now@.contains(p) {
                    let t = choose|t: int| 0 <= t < lo.len() && #[trigger] phys_of(lo[t], d) == p;
                    assert(lo.contains(lo[t]));
                    assert(out(lo[t]));
                }
                if phys_live_at(insts, out, d, n as int, p) {
                    let r = choose|r: Reg| out(r) && #[trigger] phys_of(r, d) == p;
                    assert(lo.contains(r));
                    let t = choose|t: int| 0 <= t < lo.len() && lo[t] == r;
                    assert(phys_of(lo[t], d) == p);
                }
            }
        }
        let mut idx: usize = n;
        while idx > 0
            invariant
                colored_call_ready(f0, d),
                d == dstr@,
                b < self.blocks@.len(),
                self.blocks@.len() == f0.blocks@.len(),
                self.blocks@[b as int].insts@ == insts,
                insts == f0.blocks@[b as int].insts@,
                out == exit_live(f0.blocks@, b as int),
                n == insts.len(),
                idx <= n,
                row@.len() == n,
                is_set(live_now@),
                forall|p: Reg| #[trigger] live_now@.contains(p) <==> phys_live_at(insts, out, d, idx as int, p),
                forall|kk: int| idx <= kk < n && #[trigger] is_call_at(f0.blocks@, b as int, kk)
                    ==> saves_list(saved_phys(f0.blocks@, d), b as int, kk, row@[kk]@),
            decreases idx,
        {
            let i = idx - 1;
            assert(f0.blocks@[b as int].insts@[i as int].def_well_formed());
            let ghost live0 = live_now@;
            let defs = self.blocks[b].insts[i].get_reg_def();
            let uses = self.blocks[b].insts[i].get_reg_use();
            let mut t: usize = 0;
            while t < defs.len()
                invariant
                    colored_call_ready(f0, d),
                    d == dstr@,
                    b < f0.blocks@.len(),
                    i < insts.len(),
                    insts == f0.blocks@[b as int].insts@,
                    defs@ == insts[i as int].spec_reg_def(),
                    t <= defs@.len(),
                    is_set(live_now@),
                    forall|p: Reg| #[trigger] live_now@.contains(p) <==> (live0.contains(p)
                        && !exists|u: int| 0 <= u < t && #[trigger] phys_of(defs@[u], d) == p),
                decreases defs@.len() - t,
            {
                proof {
                    assert(f0.blocks@[b as int].insts@[i as int].spec_reg_def().contains(defs@[t as int]));
                }
                let p = phys(&defs[t], dstr);
                crate::regset::set_remove(&mut live_now, p);
                proof {
                    assert forall|q: Reg| #[trigger] live_now@.contains(q) <==> (live0.contains(q)
                        && !exists|u: int| 0 <= u < t + 1 && #[trigger] phys_of(defs@[u], d) == q) by {
                        if exists|u: int| 0 <= u < t + 1 && #[trigger] phys_of(defs@[u], d) == q {
                            let u = choose|u: int| 0 <= u < t + 1 && #[trigger] phys_of(defs@[u], d) == q;
                            if u < t {
                            }
                        }
                    }
                }
                t += 1;
            }
            if self.blocks[b].insts[i].inst_type == InstrsType::Call {
                let sv = caller_saved_of(&live_now);
                proof {
                    assert forall|p: Reg| #[trigger] sv@.contains(p) <==> saved_phys(f0.blocks@, d)(b as int, i as int, p) by {
                        assert(live_now@.contains(p) <==> (live0.contains(p) && !maps_to(insts[i as int].spec_reg_def(), d, p)));
                    }
                }
                row.set(i, sv);
            }
            let mut t: usize = 0;
            let ghost live1 = live_now@;
            while t < uses.len()
                invariant
                    colored_call_ready(f0, d),
                    d == dstr@,
                    b < f0.blocks@.len(),
                    i < insts.len(),
                    insts == f0.blocks@[b as int].insts@,
                    uses@ == insts[i as int].spec_reg_use(),
                    t <= uses@.len(),
                    is_set(live_now@),
                    forall|p: Reg| #[trigger] live_now@.contains(p) <==> (live1.contains(p)
                        || exists|u: int| 0 <= u < t && #[trigger] phys_of(uses@[u], d) == p),
                decreases uses@.len() - t,
            {
                proof {
                    assert(f0.blocks@[b as int].insts@[i as int].spec_reg_use().contains(uses@[t as int]));
                }
                let p = phys(&uses[t], dstr);
                crate::regset::set_insert(&mut live_now, p);
                proof {
                    assert forall|q: Reg| #[trigger] live_now@.contains(q) <==> (live1.contains(q)
                        || exists|u: int| 0 <= u < t + 1 && #[trigger] phys_of(uses@[u], d) == q) by {
                        if exists|u: int| 0 <= u < t + 1 && #[trigger] phys_of(uses@[u], d) == q {
                            let u = choose|u: int| 0 <= u < t + 1 && #[trigger] phys_of(uses@[u], d) == q;
                            if u < t {
                            }
                        }
                    }
                }
                t += 1;
            }
            proof {
                assert forall|p: Reg| #[trigger] live_now@.contains(p) <==> phys_live_at(insts, out, d, i as int, p) by {
                    assert(phys_live_at(insts, out, d, i as int, p) == (maps_to(insts[i as int].spec_reg_use(), d, p)
                        || (!maps_to(insts[i as int].spec_reg_def(), d, p) && phys_live_at(insts, out, d, i + 1, p))));
                }
            }
            idx = i;
        }
        row
    }

    /// Saves around every call the caller-saved registers (but ra) that,
    /// once every register is given its colour (`dstr`, by id), hold a
    /// value across it: each is stored to a slot of its own before the call
    /// and loaded back from it after the call; the slots are added after
    /// the end of the frame, as many as one call needs at most.
    pub fn handle_call(&mut self, dstr: &HashMap<i32, i32>)
        requires
            colored_call_ready(*old(self), dstr@),
        ensures
            relived(*final(self), *old(self)),
            saves_placed(*final(self), old(self).stack_addr@, old(self).blocks@, saved_phys(old(self).blocks@, dstr@)),
    {
        let ghost f0 = *self;
        self.calc_live_for_handle_call();
        let ghost mid = self.blocks@;
        proof {
            lemma_same_flow(f0.blocks@, mid);
        }
        let mut saves: Vec<Vec<Vec<Reg>>> = Vec::new();
        let nb = self.blocks.len();
        let mut b: usize = 0;
        while b < nb
            invariant
                f0 == *old(self),
                colored_call_ready(f0, dstr@),
                self.blocks@ == mid,
                nb == mid.len(),
                mid.len() == f0.blocks@.len(),
                forall|c: int| 0 <= c < nb ==> same_but_live(#[trigger] mid[c], f0.blocks@[c]),
                live_sets_pinned(mid, |r: Reg| reserved_reg(r)),
                b <= nb,
                saves@.len() == b,
                forall|c: int| 0 <= c < b ==> (#[trigger] saves@[c])@.len() == f0.blocks@[c].insts@.len(),
                forall|c: int, k: int| 0 <= c < b && #[trigger] is_call_at(f0.blocks@, c, k)
                    ==> saves_list(saved_phys(f0.blocks@, dstr@), c, k, saves@[c]@[k]@),
            decreases nb - b,
        {
            proof {
                lemma_same_flow(f0.blocks@, mid);
                assert(same_but_live(mid[b as int], f0.blocks@[b as int]));
                assert forall|x: Reg| #[trigger] mid[b as int].live_out@.contains(x) <==> exit_live(f0.blocks@, b as int)(x) by {
                    assert(mid[b as int].live_out@.contains(x) <==> (live_out_of(mid, b as int, x) || reserved_reg(x)));
                }
            }
            let row = self.colored_saves(b, dstr, Ghost(f0));
            saves.push(row);
            proof {
                assert forall|c: int, kk: int| 0 <= c < b + 1 && #[trigger] is_call_at(f0.blocks@, c, kk)
                    implies saves_list(saved_phys(f0.blocks@, dstr@), c, kk, saves@[c]@[kk]@) by {
                }
            }
            b += 1;
        }
        proof {
            assert forall|c: int| 0 <= c < f0.blocks@.len() implies (#[trigger] self.blocks@[c]).insts@ == f0.blocks@[c].insts@ by {
                assert(same_but_live(mid[c], f0.blocks@[c]));
            }
        }
        self.insert_saves(&saves, Ghost(f0.blocks@), Ghost(saved_phys(f0.blocks@, dstr@)));
        proof {
            let fb = self.blocks@;
            assert forall|c: int, x: Reg| 0 <= c < fb.len() implies (#[trigger] fb[c].live_out@.contains(x)
                <==> (live_out_of(f0.blocks@, c, x) || reserved_reg(x))) by {
                assert(fb[c].same_but_insts(&mid[c]));
                assert(mid[c].live_out@.contains(x) <==> (live_out_of(mid, c, x) || reserved_reg(x)));
            }
            assert forall|c: int, x: Reg| 0 <= c < fb.len() implies (#[trigger] fb[c].live_in@.contains(x)
                <==> (live_into(f0.blocks@, c, x) || reserved_reg(x))) by {
                assert(fb[c].same_but_insts(&mid[c]));
                assert(mid[c].live_in@.contains(x) <==> (live_into(mid, c, x) || reserved_reg(x)));
            }
            assert forall|c: int| 0 <= c < fb.len() implies is_set((#[trigger] fb[c]).live_out@) && is_set(fb[c].live_in@) by {
                assert(fb[c].same_but_insts(&mid[c]));
                assert(is_set(mid[c].live_out@));
            }
            assert forall|c: int| 0 <= c < fb.len() implies same_frame(#[trigger] fb[c], f0.blocks@[c]) by {
                assert(fb[c].same_but_insts(&mid[c]));
                assert(same_but_live(mid[c], f0.blocks@[c]));
            }
        }
    }
}

} // verus!
