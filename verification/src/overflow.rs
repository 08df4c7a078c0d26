use vstd::prelude::*;
use vstd::string::StringExecFns;
use crate::block::{BB, op_imm, op_reg, int_reg, inst2, inst3, decimal, i64_to_string, ADDR_SIZE};
use crate::func::Func;
use crate::module::AsmModule;
use crate::pool::{BackendPool, get_tmp_bb};
use crate::instrs::{LIRInst, InstView, InstrsType, BinaryOp, SingleOp, Operand, insts_view, new_inst, with_double};
use crate::operand::{is_imm_12bs, spec_is_imm_12bs, IImm, Reg, ScalarType};

verus! {

/// The register that carries a rebuilt address: s0.
pub open spec fn addr_temp() -> Operand {
    op_reg(int_reg(8))
}

/// The stack pointer as an operand.
pub open spec fn sp_operand() -> Operand {
    op_reg(int_reg(2))
}

/// A load or store through a base register.
pub open spec fn is_mem_access(t: InstrsType) -> bool {
    t == InstrsType::Load || t == InstrsType::Store
}

/// A load or store relative to the stack pointer.
pub open spec fn is_stack_access(t: InstrsType) -> bool {
    t == InstrsType::LoadFromStack || t == InstrsType::StoreToStack
}

/// A load or store of a parameter passed on the caller's stack.
pub open spec fn is_param_access(t: InstrsType) -> bool {
    t == InstrsType::LoadParamFromStack || t == InstrsType::StoreParamToStack
}

/// The load or store through a base register of the same direction.
pub open spec fn as_mem_access(t: InstrsType) -> InstrsType {
    if t == InstrsType::LoadFromStack || t == InstrsType::LoadParamFromStack {
        InstrsType::Load
    } else {
        InstrsType::Store
    }
}

/// The shape the pass needs: a base and an immediate offset (operand 2)
/// for a load or store, an immediate offset (operand 1) for the stack ones.
pub open spec fn overflow_ready(i: InstView, frame: int) -> bool {
    &&& is_mem_access(i.inst_type) ==> i.operands.len() > 2 && i.operands[2] is IImm
    &&& (is_stack_access(i.inst_type) || is_param_access(i.inst_type)) ==> i.operands.len() > 1 && i.operands[1] is IImm
    &&& is_param_access(i.inst_type) ==> i32::MIN <= frame - i.operands[1]->IImm_0.data <= i32::MAX
}

/// The offset of a memory access from its base: operand 2 for a load or
/// store, operand 1 for the stack ones, the frame size less operand 1 for
/// a parameter.
pub open spec fn access_offset(i: InstView, frame: int) -> int {
    if is_mem_access(i.inst_type) {
        i.operands[2]->IImm_0.data as int
    } else if is_stack_access(i.inst_type) {
        i.operands[1]->IImm_0.data as int
    } else {
        frame - i.operands[1]->IImm_0.data
    }
}

/// What a memory access becomes: unchanged when its offset fits 12 bits,
/// else the offset is loaded into s0, the base (the stack pointer for the
/// stack ones) added, and the access goes through s0 with offset 0.
pub open spec fn fix_access(i: InstView, frame: int) -> Seq<InstView> {
    if !(is_mem_access(i.inst_type) || is_stack_access(i.inst_type) || is_param_access(i.inst_type))
        || spec_is_imm_12bs(access_offset(i, frame)) {
        seq![i]
    } else {
        let base = if is_mem_access(i.inst_type) { i.operands[1] } else { sp_operand() };
        let kind = if is_mem_access(i.inst_type) { i.inst_type } else { as_mem_access(i.inst_type) };
        seq![
            new_inst(InstrsType::OpReg(SingleOp::Li), seq![addr_temp(), op_imm(access_offset(i, frame))]),
            with_double(new_inst(InstrsType::Binary(BinaryOp::Add), seq![addr_temp(), addr_temp(), base])),
            InstView { inst_type: kind, operands: seq![i.operands[0], addr_temp(), op_imm(0)], ..i },
        ]
    }
}

/// The first `k` instructions of `insts`, each memory access fixed.
pub open spec fn fix_accesses(insts: Seq<InstView>, frame: int, k: int) -> Seq<InstView>
    decreases k,
{
    if k <= 0 {
        Seq::empty()
    } else {
        fix_accesses(insts, frame, k - 1) + fix_access(insts[k - 1], frame)
    }
}

impl BB {
    /// Rewrites every load and store of the block whose offset does not fit
    /// a 12-bit immediate into an address computation in s0 followed by an
    /// access through s0; `frame` is the size of the frame, against which a
    /// parameter's offset is counted.
    #[verifier::rlimit(60)]
    pub fn handle_overflow(&mut self, frame: i32)
        requires
            forall|k: int| 0 <= k < old(self).insts@.len() ==> overflow_ready(#[trigger] old(self).insts@[k]@, frame as int),
        ensures
            insts_view(final(self).insts@) == fix_accesses(insts_view(old(self).insts@), frame as int, old(self).insts@.len() as int),
            final(self).same_but_insts(old(self)),
    {
        let ghost orig = insts_view(self.insts@);
        let ghost n = orig.len() as int;
        let ghost mut k: int = 0;
        let mut pos: usize = 0;
        while pos < self.insts.len()
            invariant
                orig == insts_view(old(self).insts@),
                n == orig.len(),
                0 <= k <= n,
                forall|j: int| 0 <= j < n ==> overflow_ready(#[trigger] orig[j], frame as int),
                self.same_but_insts(old(self)),
                pos <= self.insts@.len(),
                pos == fix_accesses(orig, frame as int, k).len(),
                insts_view(self.insts@) == fix_accesses(orig, frame as int, k) + orig.subrange(k, n),
            decreases n - k,
        {
            let ghost before = insts_view(self.insts@);
            let ghost fixed = fix_accesses(orig, frame as int, k);
            assert(before[pos as int] == orig[k]);
            assert(self.insts@[pos as int]@ == orig[k]);
            let t = self.insts[pos].inst_type;
            let is_mem = t == InstrsType::Load || t == InstrsType::Store;
            let is_stack = t == InstrsType::LoadFromStack || t == InstrsType::StoreToStack;
            let is_param = t == InstrsType::LoadParamFromStack || t == InstrsType::StoreParamToStack;
            if is_mem || is_stack || is_param {
                let offset: i32 = if is_mem {
                    self.insts[pos].get_offset().get_data()
                } else if is_stack {
                    self.insts[pos].get_stack_offset().get_data()
                } else {
                    frame - self.insts[pos].get_stack_offset().get_data()
                };
                assert(offset == access_offset(orig[k], frame as int));
                if is_imm_12bs(offset) {
                    pos += 1;
                    proof {
                        assert(fix_access(orig[k], frame as int) == seq![orig[k]]);
                    }
                } else {
                    let temp = Operand::Reg(Reg::new(8, ScalarType::Int));
                    let base = if is_mem { self.insts[pos].get_lhs().clone() } else { Operand::Reg(Reg::new(2, ScalarType::Int)) };
                    let dst = self.insts[pos].get_dst().clone();
                    let ghost p0 = pos as int;
                    self.resolve_overflow_sl(temp.clone(), &mut pos, offset);
                    let ghost b1 = insts_view(self.insts@);
                    assert(b1.len() == self.insts@.len());
                    assert(b1.len() == before.len() + 1);
                    let mut add = inst3(InstrsType::Binary(BinaryOp::Add), temp.clone(), temp.clone(), base);
                    add.set_double();
                    let ghost addv = add@;
                    self.insts.insert(pos, add);
                    proof {
                        assert(insts_view(self.insts@) =~= b1.insert(p0 + 1, addv));
                    }
                    let cur_len = self.insts.len();
                    assert(pos < cur_len);
                    pos += 1;
                    let ghost b2 = insts_view(self.insts@);
                    let ghost at = self.insts@[pos as int]@;
                    assert(insts_view(self.insts@)[pos as int] == at);
                    assert(b1[p0 + 1] == before[p0]);
                    assert(at == orig[k]);
                    if !is_mem {
                        let kind = if t == InstrsType::LoadFromStack || t == InstrsType::LoadParamFromStack {
                            InstrsType::Load
                        } else {
                            InstrsType::Store
                        };
                        self.insts[pos].replace_kind(kind);
                    }
                    let mut ops: Vec<Operand> = Vec::new();
                    ops.push(dst);
                    ops.push(temp);
                    ops.push(Operand::IImm(IImm::new(0)));
                    assert(ops@ =~= seq![orig[k].operands[0], addr_temp(), op_imm(0)]);
                    self.insts[pos].replace_op(ops);
                    let cur_len = self.insts.len();
                    assert(pos < cur_len);
                    proof {
                        let expected = fix_access(orig[k], frame as int);
                        let got = self.insts@[pos as int]@;
                        assert(got.operands == expected[2].operands);
                        assert(got.inst_type == expected[2].inst_type);
                        assert(got.param_cnt == expected[2].param_cnt);
                        assert(got.double == expected[2].double);
                        assert(got == expected[2]);
                    }
                    pos += 1;
                    proof {
                        let expected = fix_access(orig[k], frame as int);
                        assert(expected.len() == 3);
                        assert(insts_view(self.insts@)[pos - 1] == expected[2]);
                        assert(insts_view(self.insts@) =~= b2.update(p0 + 2, expected[2]));
                        assert(b1[p0] == expected[0]);
                        assert(addv == expected[1]);
                        assert(insts_view(self.insts@) =~= fixed + expected + orig.subrange(k + 1, n));
                    }
                }
            } else {
                pos += 1;
                proof {
                    assert(fix_access(orig[k], frame as int) == seq![orig[k]]);
                }
            }
            proof {
                assert(fix_accesses(orig, frame as int, k + 1) == fixed + fix_access(orig[k], frame as int));
                if fix_access(orig[k], frame as int).len() == 1 {
                    assert(insts_view(self.insts@) =~= fixed + fix_access(orig[k], frame as int) + orig.subrange(k + 1, n));
                }
                k = k + 1;
            }
        }
        proof {
            if k < n {
                assert(insts_view(self.insts@).len() == pos + (n - k));
            }
            assert(orig.subrange(n, n) =~= Seq::<InstView>::empty());
            assert(insts_view(self.insts@) =~= fix_accesses(orig, frame as int, n));
        }
    }
}

/// Law: after the rewriting, every load or store has an offset that fits a
/// 12-bit immediate.
pub proof fn lemma_fixed_accesses_fit(insts: Seq<InstView>, frame: int, k: int)
    requires
        0 <= k <= insts.len(),
        forall|j: int| 0 <= j < k ==> overflow_ready(#[trigger] insts[j], frame),
    ensures
        forall|i: int| 0 <= i < fix_accesses(insts, frame, k).len()
            && (is_mem_access(#[trigger] fix_accesses(insts, frame, k)[i].inst_type)
                || is_stack_access(fix_accesses(insts, frame, k)[i].inst_type)
                || is_param_access(fix_accesses(insts, frame, k)[i].inst_type))
            ==> overflow_ready(fix_accesses(insts, frame, k)[i], frame)
                && spec_is_imm_12bs(access_offset(fix_accesses(insts, frame, k)[i], frame)),
    decreases k,
{
    if k > 0 {
        lemma_fixed_accesses_fit(insts, frame, k - 1);
        let prev = fix_accesses(insts, frame, k - 1);
        let last = fix_access(insts[k - 1], frame);
        assert(overflow_ready(insts[k - 1], frame));
        assert forall|i: int| 0 <= i < fix_accesses(insts, frame, k).len()
            && (is_mem_access(#[trigger] fix_accesses(insts, frame, k)[i].inst_type)
                || is_stack_access(fix_accesses(insts, frame, k)[i].inst_type)
                || is_param_access(fix_accesses(insts, frame, k)[i].inst_type))
            implies overflow_ready(fix_accesses(insts, frame, k)[i], frame)
                && spec_is_imm_12bs(access_offset(fix_accesses(insts, frame, k)[i], frame)) by {
            if i < prev.len() {
                assert(fix_accesses(insts, frame, k)[i] == prev[i]);
            } else {
                assert(fix_accesses(insts, frame, k)[i] == last[i - prev.len()]);
            }
        }
    }
}

/// A fixed sequence is at most three times as long as the original.
proof fn lemma_fix_len(insts: Seq<InstView>, frame: int, k: int)
    requires
        0 <= k,
    ensures
        fix_accesses(insts, frame, k).len() <= 3 * k,
    decreases k,
{
    if k > 0 {
        lemma_fix_len(insts, frame, k - 1);
    }
}

/// A fixed sequence is at least as long as the original.
proof fn lemma_fix_len_lower(insts: Seq<InstView>, frame: int, k: int)
    requires
        0 <= k,
    ensures
        fix_accesses(insts, frame, k).len() >= k,
    decreases k,
{
    if k > 0 {
        lemma_fix_len_lower(insts, frame, k - 1);
    }
}

/// A branch of a fixed sequence is one of the original instructions.
proof fn lemma_fix_branch(insts: Seq<InstView>, frame: int, k: int, i: int)
    requires
        0 <= k <= insts.len(),
        0 <= i < fix_accesses(insts, frame, k).len(),
        fix_accesses(insts, frame, k)[i].inst_type is Branch,
    ensures
        exists|j: int| 0 <= j < k && insts[j] == fix_accesses(insts, frame, k)[i],
    decreases k,
{
    let prev = fix_accesses(insts, frame, k - 1);
    if i < prev.len() {
        lemma_fix_branch(insts, frame, k - 1, i);
    } else {
        assert(fix_accesses(insts, frame, k)[i] == fix_access(insts[k - 1], frame)[i - prev.len()]);
        assert(insts[k - 1] == fix_accesses(insts, frame, k)[i]);
    }
}

/// The label of the `n`th block made to carry a long jump.
pub open spec fn overflow_label(n: int) -> Seq<char> {
    "overflow_"@ + decimal(n)
}

/// `b` is the block numbered `n` that the pass made in function `fl`: one
/// jump to `target`, no edges, no liveness.
pub open spec fn jump_pad(b: BB, n: int, fl: Seq<char>, target: Operand) -> bool {
    &&& b.label@ == overflow_label(n)
    &&& b.func_label@ == fl
    &&& insts_view(b.insts@) == seq![new_inst(InstrsType::Jump, seq![target])]
    &&& b.in_edge@.len() == 0
    &&& b.out_edge@.len() == 0
    &&& b.live_use@.len() == 0
    &&& b.live_def@.len() == 0
    &&& b.live_in@.len() == 0
    &&& b.live_out@.len() == 0
    &&& b.reg_intervals@.len() == 0
    &&& b.phis@.len() == 0
}

/// `b` is the branch `a` sent instead to a block of `bs` made by the pass
/// (not one of the original blocks at `q`), which jumps where `a` went.
pub open spec fn redirected(a: InstView, b: InstView, bs: Seq<BB>, q: Seq<usize>, fl: Seq<char>) -> bool {
    &&& a.inst_type is Branch
    &&& a.operands.len() > 0
    &&& b.operands.len() > 0
    &&& b.operands[0] is Addr
    &&& b == InstView { operands: a.operands.update(0, b.operands[0]), ..a }
    &&& exists|j: int, n: int| 0 <= j < bs.len() && !is_orig(q, j) && #[trigger] jump_pad(bs[j], n, fl, a.operands[0])
        && b.operands[0]->Addr_0@ == bs[j].label@
}

/// The block `new` is `old` with its accesses fixed and the instructions
/// before `pos` kept or redirected, the others as fixed.
pub open spec fn overflow_prefix(new: BB, old: BB, frame: int, bs: Seq<BB>, q: Seq<usize>, fl: Seq<char>, pos: int) -> bool {
    let fixed = fix_accesses(insts_view(old.insts@), frame, old.insts@.len() as int);
    &&& new.same_but_insts(&old)
    &&& new.insts@.len() == fixed.len()
    &&& forall|i: int| 0 <= i < new.insts@.len() ==> ((#[trigger] new.insts@[i])@ == fixed[i]
        || (i < pos && redirected(fixed[i], new.insts@[i]@, bs, q, fl)))
}

/// `new` is the block `old` after the pass: its memory accesses fixed and
/// some of its branches redirected.
pub open spec fn overflow_fixed(new: BB, old: BB, frame: int, bs: Seq<BB>, q: Seq<usize>, fl: Seq<char>) -> bool {
    overflow_prefix(new, old, frame, bs, q, fl, new.insts@.len() as int)
}

/// Block `j` of a layout is one of the original blocks.
pub open spec fn is_orig(q: Seq<usize>, j: int) -> bool {
    exists|k: int| 0 <= k < q.len() && q[k] == j
}

/// Every block of `bs` that is not an original one is a block made by the
/// pass, numbered in `(t0, t1]`.
pub open spec fn pads_ok(bs: Seq<BB>, q: Seq<usize>, fl: Seq<char>, t0: int, t1: int) -> bool {
    forall|j: int| 0 <= j < bs.len() && !#[trigger] is_orig(q, j) ==>
        exists|n: int, t: Operand| t0 < n <= t1 && #[trigger] jump_pad(bs[j], n, fl, t)
}

/// `new` is `old` after the pass: the original blocks, in their order at
/// the positions `q`, each fixed; every other block one the pass made,
/// numbered in `(t0, t1]`.
pub open spec fn overflow_layout(new: Seq<BB>, old: Seq<BB>, q: Seq<usize>, frame: int, fl: Seq<char>, t0: int, t1: int) -> bool {
    &&& q.len() == old.len()
    &&& forall|a: int, b: int| 0 <= a < b < q.len() ==> q[a] < q[b]
    &&& forall|k: int| 0 <= k < q.len() ==> (#[trigger] q[k]) < new.len() && overflow_fixed(new[q[k] as int], old[k], frame, new, q, fl)
    &&& pads_ok(new, q, fl, t0, t1)
}

/// The positions `q` after a block is put at `idx`.
pub open spec fn shifted(q: Seq<usize>, idx: int) -> Seq<usize> {
    Seq::new(q.len(), |k: int| if q[k] >= idx { (q[k] + 1) as usize } else { q[k] })
}

proof fn lemma_shift_orig(q: Seq<usize>, idx: int, j: int)
    requires
        0 <= idx,
        0 <= j,
        !is_orig(q, j),
        forall|k: int| 0 <= k < q.len() ==> (#[trigger] q[k]) < usize::MAX,
    ensures
        !is_orig(shifted(q, idx), if j < idx { j } else { j + 1 }),
{
    let j2 = if j < idx { j } else { j + 1 };
    if is_orig(shifted(q, idx), j2) {
        let k = choose|k: int| 0 <= k < shifted(q, idx).len() && shifted(q, idx)[k] == j2;
        assert(q[k] < usize::MAX);
        assert(q[k] == j);
    }
}

proof fn lemma_shift_fresh(q: Seq<usize>, idx: int)
    requires
        0 <= idx,
        forall|k: int| 0 <= k < q.len() ==> (#[trigger] q[k]) < usize::MAX,
    ensures
        !is_orig(shifted(q, idx), idx),
{
    if is_orig(shifted(q, idx), idx) {
        let k = choose|k: int| 0 <= k < shifted(q, idx).len() && shifted(q, idx)[k] == idx;
        assert(q[k] < usize::MAX);
    }
}

proof fn lemma_redirect_change(a: InstView, b: InstView, bs: Seq<BB>, bs2: Seq<BB>, q: Seq<usize>, fl: Seq<char>)
    requires
        redirected(a, b, bs, q, fl),
        bs.len() == bs2.len(),
        forall|j: int| 0 <= j < bs.len() && !#[trigger] is_orig(q, j) ==> bs2[j] == bs[j],
    ensures
        redirected(a, b, bs2, q, fl),
{
    let (j, n) = choose|j: int, n: int| 0 <= j < bs.len() && !is_orig(q, j) && #[trigger] jump_pad(bs[j], n, fl, a.operands[0])
        && b.operands[0]->Addr_0@ == bs[j].label@;
    assert(bs2[j] == bs[j]);
    assert(jump_pad(bs2[j], n, fl, a.operands[0]));
}

proof fn lemma_redirect_insert(a: InstView, b: InstView, bs: Seq<BB>, q: Seq<usize>, fl: Seq<char>, idx: int, pad: BB)
    requires
        redirected(a, b, bs, q, fl),
        0 <= idx <= bs.len(),
        forall|k: int| 0 <= k < q.len() ==> (#[trigger] q[k]) < usize::MAX,
    ensures
        redirected(a, b, bs.insert(idx, pad), shifted(q, idx), fl),
{
    let (j, n) = choose|j: int, n: int| 0 <= j < bs.len() && !is_orig(q, j) && #[trigger] jump_pad(bs[j], n, fl, a.operands[0])
        && b.operands[0]->Addr_0@ == bs[j].label@;
    let j2 = if j < idx { j } else { j + 1 };
    lemma_shift_orig(q, idx, j);
    assert(bs.insert(idx, pad)[j2] == bs[j]);
    assert(jump_pad(bs.insert(idx, pad)[j2], n, fl, a.operands[0]));
}

proof fn lemma_prefix_change(new: BB, old: BB, frame: int, bs: Seq<BB>, bs2: Seq<BB>, q: Seq<usize>, fl: Seq<char>, pos: int)
    requires
        overflow_prefix(new, old, frame, bs, q, fl, pos),
        bs.len() == bs2.len(),
        forall|j: int| 0 <= j < bs.len() && !#[trigger] is_orig(q, j) ==> bs2[j] == bs[j],
    ensures
        overflow_prefix(new, old, frame, bs2, q, fl, pos),
{
    let fixed = fix_accesses(insts_view(old.insts@), frame, old.insts@.len() as int);
    assert forall|i: int| 0 <= i < new.insts@.len() implies ((#[trigger] new.insts@[i])@ == fixed[i]
        || (i < pos && redirected(fixed[i], new.insts@[i]@, bs2, q, fl))) by {
        if new.insts@[i]@ != fixed[i] {
            lemma_redirect_change(fixed[i], new.insts@[i]@, bs, bs2, q, fl);
        }
    }
}

proof fn lemma_prefix_insert(new: BB, old: BB, frame: int, bs: Seq<BB>, q: Seq<usize>, fl: Seq<char>, pos: int, idx: int, pad: BB)
    requires
        overflow_prefix(new, old, frame, bs, q, fl, pos),
        0 <= idx <= bs.len(),
        forall|k: int| 0 <= k < q.len() ==> (#[trigger] q[k]) < usize::MAX,
    ensures
        overflow_prefix(new, old, frame, bs.insert(idx, pad), shifted(q, idx), fl, pos),
{
    let fixed = fix_accesses(insts_view(old.insts@), frame, old.insts@.len() as int);
    assert forall|i: int| 0 <= i < new.insts@.len() implies ((#[trigger] new.insts@[i])@ == fixed[i]
        || (i < pos && redirected(fixed[i], new.insts@[i]@, bs.insert(idx, pad), shifted(q, idx), fl))) by {
        if new.insts@[i]@ != fixed[i] {
            lemma_redirect_insert(fixed[i], new.insts@[i]@, bs, q, fl, idx, pad);
        }
    }
}

proof fn lemma_pads_change(bs: Seq<BB>, bs2: Seq<BB>, q: Seq<usize>, fl: Seq<char>, t0: int, t1: int)
    requires
        pads_ok(bs, q, fl, t0, t1),
        bs.len() == bs2.len(),
        forall|j: int| 0 <= j < bs.len() && !#[trigger] is_orig(q, j) ==> bs2[j] == bs[j],
    ensures
        pads_ok(bs2, q, fl, t0, t1),
{
    assert forall|j: int| 0 <= j < bs2.len() && !#[trigger] is_orig(q, j) implies
        exists|n: int, t: Operand| t0 < n <= t1 && #[trigger] jump_pad(bs2[j], n, fl, t) by {
        let (n, t) = choose|n: int, t: Operand| t0 < n <= t1 && #[trigger] jump_pad(bs[j], n, fl, t);
        assert(bs2[j] == bs[j]);
        assert(jump_pad(bs2[j], n, fl, t));
    }
}

proof fn lemma_pads_insert(bs: Seq<BB>, q: Seq<usize>, fl: Seq<char>, t0: int, t1: int, idx: int, pad: BB, t: Operand)
    requires
        pads_ok(bs, q, fl, t0, t1),
        0 <= idx <= bs.len(),
        forall|k: int| 0 <= k < q.len() ==> (#[trigger] q[k]) < bs.len(),
        bs.len() < usize::MAX,
        t0 <= t1,
        jump_pad(pad, t1 + 1, fl, t),
    ensures
        pads_ok(bs.insert(idx, pad), shifted(q, idx), fl, t0, t1 + 1),
{
    let bs2 = bs.insert(idx, pad);
    let q2 = shifted(q, idx);
    assert forall|j2: int| 0 <= j2 < bs2.len() && !#[trigger] is_orig(q2, j2) implies
        exists|n: int, t: Operand| t0 < n <= t1 + 1 && #[trigger] jump_pad(bs2[j2], n, fl, t) by {
        if j2 == idx {
            assert(bs2[j2] == pad);
            assert(jump_pad(bs2[j2], t1 + 1, fl, t));
        } else {
            let j = if j2 < idx { j2 } else { j2 - 1 };
            assert(bs2[j2] == bs[j]);
            if is_orig(q, j) {
                let k = choose|k: int| 0 <= k < q.len() && q[k] == j;
                assert(q[k] < bs.len());
                assert(q2[k] == j2);
            }
            let (n, t) = choose|n: int, t: Operand| t0 < n <= t1 && #[trigger] jump_pad(bs[j], n, fl, t);
            assert(jump_pad(bs2[j2], n, fl, t));
        }
    }
}

proof fn lemma_insts_from_nonneg(bs: Seq<BB>, k: int)
    ensures
        insts_from(bs, k) >= 0,
    decreases bs.len() - k,
{
    if 0 <= k < bs.len() {
        lemma_insts_from_nonneg(bs, k + 1);
    }
}

/// The most instructions a block may have while the pass sums distances:
/// a sum below 2048 plus 8 bytes for each still fits an `i32`.
pub open spec fn overflow_max_block() -> int {
    (i32::MAX - 2047) / ADDR_SIZE as int
}

/// What the pass needs of a block: ready accesses, named branch targets,
/// and a size, once its accesses are fixed, that keeps distances in 32 bits.
pub open spec fn overflow_block_ready(b: BB, frame: int) -> bool {
    &&& fix_accesses(insts_view(b.insts@), frame, b.insts@.len() as int).len() <= overflow_max_block()
    &&& forall|k: int| 0 <= k < b.insts@.len() ==> overflow_ready(#[trigger] b.insts@[k]@, frame)
    &&& forall|k: int| 0 <= k < b.insts@.len() && (#[trigger] b.insts@[k]).inst_type is Branch
        ==> b.insts@[k].operands@.len() > 0 && b.insts@[k].operands@[0] is Addr
}

/// The number of instructions of the blocks from `k` on.
pub open spec fn insts_from(bs: Seq<BB>, k: int) -> int
    decreases bs.len() - k,
{
    if k >= bs.len() || k < 0 {
        0
    } else {
        bs[k].insts@.len() + insts_from(bs, k + 1)
    }
}

/// A jump to `target`.
fn jump_to(target: Operand) -> (r: LIRInst)
    ensures
        r@ == new_inst(InstrsType::Jump, seq![target]),
{
    let mut v = Vec::new();
    v.push(target);
    let r = LIRInst::new(InstrsType::Jump, v);
    assert(r@.operands =~= seq![target]);
    r
}

/// The label of the `n`th block the pass makes.
fn overflow_name(n: i32) -> (s: String)
    ensures
        s@ == overflow_label(n as int),
{
    let mut s = String::from_str("overflow_");
    let num = i64_to_string(n as i64);
    s.append(num.as_str());
    s
}

/// One step on of the label scan: from block `i` on, with the positions
/// `start` and `end` found so far; the scan stops once both are past the
/// first block, and a later match replaces an earlier one.
pub open spec fn label_scan(bs: Seq<BB>, me: Seq<char>, t: Seq<char>, i: int, start: int, end: int) -> (int, int)
    decreases bs.len() - i,
{
    if i >= bs.len() || i < 0 {
        (start, end)
    } else {
        let s2 = if bs[i].label@ == me { i } else { start };
        let e2 = if bs[i].label@ == t { i } else { end };
        if s2 != 0 && e2 != 0 {
            (s2, e2)
        } else {
            label_scan(bs, me, t, i + 1, s2, e2)
        }
    }
}

/// The positions of the block named `me` and of the one named `t`, found
/// by one scan that stops once both are past the first block (0 when not found).
fn scan_labels(blocks: &Vec<BB>, me: &String, t: &String) -> (r: (usize, usize))
    requires
        blocks@.len() > 0,
    ensures
        r.0 < blocks@.len(),
        r.1 < blocks@.len(),
        (r.0 as int, r.1 as int) == label_scan(blocks@, me@, t@, 0, 0, 0),
{
    let mut start: usize = 0;
    let mut end: usize = 0;
    let mut i: usize = 0;
    while i < blocks.len()
        invariant_except_break
            label_scan(blocks@, me@, t@, i as int, start as int, end as int) == label_scan(blocks@, me@, t@, 0, 0, 0),
        invariant
            i <= blocks@.len(),
            blocks@.len() > 0,
            start < blocks@.len(),
            end < blocks@.len(),
        ensures
            (start as int, end as int) == label_scan(blocks@, me@, t@, 0, 0, 0),
        decreases blocks@.len() - i,
    {
        let ghost s0 = start as int;
        let ghost e0 = end as int;
        if blocks[i].label == *me {
            start = i;
        }
        if blocks[i].label == *t {
            end = i;
        }
        if start != 0 && end != 0 {
            assert(label_scan(blocks@, me@, t@, i as int, s0, e0) == (start as int, end as int));
            break;
        }
        i += 1;
    }
    (start, end)
}

/// The block visited at step `i` of a walk over the blocks strictly
/// between `st` and `ed` (from `ed` down when `rev`).
pub open spec fn walk_block(st: int, ed: int, rev: bool, i: int) -> int {
    if rev { ed - i + st } else { i }
}

/// Going on from step `i` of that walk with `dist` bytes summed so far, the
/// first block at which the sum no longer fits a 12-bit offset.
pub open spec fn overflow_from(bs: Seq<BB>, st: int, ed: int, rev: bool, i: int, dist: int) -> Option<int>
    decreases ed - i,
{
    if i >= ed {
        None
    } else {
        let idx = walk_block(st, ed, rev, i);
        let d = dist + bs[idx].insts@.len() * ADDR_SIZE;
        if !spec_is_imm_12bs(d) {
            Some(idx)
        } else {
            overflow_from(bs, st, ed, rev, i + 1, d)
        }
    }
}

/// Walking the blocks strictly between `st` and `ed` (from `ed` down when
/// `rev`), the first at which their summed size leaves a 12-bit offset.
fn overflow_point(blocks: &Vec<BB>, st: usize, ed: usize, rev: bool) -> (r: Option<usize>)
    requires
        st < ed < blocks@.len(),
        forall|j: int| 0 <= j < blocks@.len() ==> (#[trigger] blocks@[j]).insts@.len() <= overflow_max_block(),
    ensures
        r matches Some(idx) ==> st < idx < ed,
        match r {
            Some(idx) => overflow_from(blocks@, st as int, ed as int, rev, st + 1, 0) == Some(idx as int),
            None => overflow_from(blocks@, st as int, ed as int, rev, st + 1, 0) is None,
        },
{
    let mut distance: i32 = 0;
    let mut i: usize = st + 1;
    while i < ed
        invariant
            st < ed < blocks@.len(),
            st + 1 <= i <= ed,
            0 <= distance <= 2047,
            forall|j: int| 0 <= j < blocks@.len() ==> (#[trigger] blocks@[j]).insts@.len() <= overflow_max_block(),
            overflow_from(blocks@, st as int, ed as int, rev, i as int, distance as int)
                == overflow_from(blocks@, st as int, ed as int, rev, st + 1, 0),
        decreases ed - i,
    {
        let index = if rev { ed - i + st } else { i };
        let len = blocks[index].insts.len();
        distance = distance + (len as i32) * crate::block::ADDR_SIZE;
        if !is_imm_12bs(distance) {
            return Some(index);
        }
        i += 1;
    }
    None
}

/// A layout during the pass: the blocks, where the original ones stand,
/// and the number of the last block the pool has named.
pub type OverflowState = (Seq<BB>, Seq<usize>, int);

/// The block of a far branch, as the pass decides it: for instruction
/// `pos` of block `p`, a branch to a named block, the two positions the
/// label scan finds for `p`'s label and the target; when they differ, the
/// first block walked between them at which the summed size leaves a
/// 12-bit offset (`None`: the branch stays).
pub open spec fn overflow_decision(bs: Seq<BB>, p: int, pos: int) -> Option<int> {
    let i = bs[p].insts@[pos]@;
    if i.inst_type is Branch && i.operands.len() > 0 && i.operands[0] is Addr {
        let se = label_scan(bs, bs[p].label@, i.operands[0]->Addr_0@, 0, 0, 0);
        if se.0 == se.1 {
            None
        } else {
            let st = if se.0 < se.1 { se.0 } else { se.1 };
            let ed = if se.0 < se.1 { se.1 } else { se.0 };
            overflow_from(bs, st, ed, se.0 > se.1, st + 1, 0)
        }
    } else {
        None
    }
}

/// `nb` is `ob` with the target of its instruction `pos` renamed `name`.
pub open spec fn relabelled(nb: BB, ob: BB, pos: int, name: Seq<char>) -> bool {
    let i = ob.insts@[pos]@;
    let j = nb.insts@[pos]@;
    &&& nb.same_but_insts(&ob)
    &&& nb.insts@.len() == ob.insts@.len()
    &&& forall|x: int| 0 <= x < ob.insts@.len() && x != pos ==> #[trigger] nb.insts@[x] == ob.insts@[x]
    &&& j.operands.len() > 0
    &&& j.operands[0] is Addr
    &&& j.operands[0]->Addr_0@ == name
    &&& j == InstView { operands: i.operands.update(0, j.operands[0]), ..i }
}

/// One decision of the pass, on instruction `pos` of the original block
/// `k`: when `overflow_decision` names a block `idx`, a new jump block to
/// the branch's target (numbered one more) is put at `idx` and the branch
/// is sent to it; otherwise nothing changes.
pub open spec fn branch_step(a: OverflowState, b: OverflowState, k: int, pos: int, fl: Seq<char>) -> bool {
    let p = a.1[k] as int;
    match overflow_decision(a.0, p, pos) {
        None => b == a,
        Some(idx) => {
            let p2 = if idx <= p { p + 1 } else { p };
            &&& b.2 == a.2 + 1
            &&& b.1 == shifted(a.1, idx)
            &&& 0 <= idx < a.0.len()
            &&& b.0.len() == a.0.len() + 1
            &&& jump_pad(b.0[idx], a.2 + 1, fl, a.0[p].insts@[pos]@.operands[0])
            &&& forall|j: int| 0 <= j < a.0.len() && j != p ==> b.0[if j < idx { j } else { j + 1 }] == #[trigger] a.0[j]
            &&& relabelled(b.0[p2], a.0[p], pos, overflow_label(a.2 + 1))
        },
    }
}

/// The accesses of the original block `k` (where it stands in `a`) fixed,
/// nothing else changed.
pub open spec fn fix_step(a: OverflowState, b: OverflowState, k: int, frame: int) -> bool {
    let p = a.1[k] as int;
    &&& 0 <= k < a.1.len()
    &&& 0 <= p < a.0.len()
    &&& b.1 == a.1
    &&& b.2 == a.2
    &&& b.0.len() == a.0.len()
    &&& forall|j: int| 0 <= j < a.0.len() && j != p ==> #[trigger] b.0[j] == a.0[j]
    &&& b.0[p].same_but_insts(&a.0[p])
    &&& insts_view(b.0[p].insts@) == fix_accesses(insts_view(a.0[p].insts@), frame, a.0[p].insts@.len() as int)
}

/// Where the pass starts on the original block `k`: the function as given
/// (each block at its own place) for the first, else where the chain of
/// the block before ends.
pub open spec fn chain_start(ch: Seq<Seq<OverflowState>>, ob: Seq<BB>, t0: int, k: int) -> OverflowState {
    if k <= 0 {
        (ob, Seq::new(ob.len(), |i: int| i as usize), t0)
    } else {
        ch[k - 1].last()
    }
}

/// The states of the pass over its first `ch.len()` original blocks: for
/// block `k`, `ch[k][0]` has its accesses fixed, and `ch[k][pos + 1]`
/// follows `ch[k][pos]` by the decision on instruction `pos`.
pub open spec fn overflow_chain(ch: Seq<Seq<OverflowState>>, ob: Seq<BB>, frame: int, fl: Seq<char>, t0: int) -> bool {
    &&& ch.len() <= ob.len()
    &&& forall|k: int| 0 <= k < ch.len() ==> (#[trigger] ch[k]).len()
        == fix_accesses(insts_view(ob[k].insts@), frame, ob[k].insts@.len() as int).len() + 1
    &&& forall|k: int| 0 <= k < ch.len() ==> fix_step(chain_start(ch, ob, t0, k), #[trigger] ch[k][0], k, frame)
    &&& forall|k: int, pos: int| #![trigger ch[k][pos]] 0 <= k < ch.len() && 0 <= pos < ch[k].len() - 1
        ==> branch_step(ch[k][pos], ch[k][pos + 1], k, pos, fl)
}

proof fn lemma_chain_push(ch: Seq<Seq<OverflowState>>, ob: Seq<BB>, frame: int, fl: Seq<char>, t0: int, cur: Seq<OverflowState>)
    requires
        overflow_chain(ch, ob, frame, fl, t0),
        ch.len() < ob.len(),
        cur.len() == fix_accesses(insts_view(ob[ch.len() as int].insts@), frame, ob[ch.len() as int].insts@.len() as int).len() + 1,
        fix_step(chain_start(ch, ob, t0, ch.len() as int), cur[0], ch.len() as int, frame),
        forall|x: int| 0 <= x < cur.len() - 1 ==> branch_step(#[trigger] cur[x], cur[x + 1], ch.len() as int, x, fl),
    ensures
        overflow_chain(ch.push(cur), ob, frame, fl, t0),
        chain_start(ch.push(cur), ob, t0, ch.len() + 1int) == cur.last(),
{
    let ch2 = ch.push(cur);
    assert forall|k: int| 0 <= k <= ch.len() implies chain_start(ch2, ob, t0, k) == chain_start(ch, ob, t0, k) by {
        if k > 0 {
            assert(ch2[k - 1] == ch[k - 1]);
        }
    }
    assert forall|k: int| 0 <= k < ch2.len() implies fix_step(chain_start(ch2, ob, t0, k), #[trigger] ch2[k][0], k, frame) by {
        assert(chain_start(ch2, ob, t0, k) == chain_start(ch, ob, t0, k));
        if k < ch.len() {
            assert(ch2[k] == ch[k]);
        }
    }
    assert forall|k: int, pos: int| #![trigger ch2[k][pos]] 0 <= k < ch2.len() && 0 <= pos < ch2[k].len() - 1
        implies branch_step(ch2[k][pos], ch2[k][pos + 1], k, pos, fl) by {
        if k < ch.len() {
            assert(ch2[k] == ch[k]);
            assert(ch[k][pos] == ch2[k][pos]);
        } else {
            assert(ch2[k] == cur);
            assert(cur[pos] == ch2[k][pos]);
        }
    }
    assert(ch2[ch.len() as int] == cur);
}

impl Func {
    /// Removes offset overflows from the whole function, block by block in
    /// the original order: each load or store whose offset does not fit 12
    /// bits goes through an address built in s0; each conditional branch
    /// whose target lies farther than a 12-bit offset can span (counting
    /// the blocks in between as they stand then) is sent instead to a new
    /// block, placed between, that jumps to the target.
    #[verifier::rlimit(100)]
    pub fn handle_overflow(&mut self, pool: &mut BackendPool)
        requires
            forall|b: int| 0 <= b < old(self).blocks@.len()
                ==> overflow_block_ready(#[trigger] old(self).blocks@[b], old(self).context.offset as int),
            old(pool).tmp_bb + 3 * insts_from(old(self).blocks@, 0) <= i32::MAX,
        ensures
            final(self).same_but_blocks(old(self)),
            old(pool).tmp_bb <= final(pool).tmp_bb,
            final(pool).tmp_bb <= old(pool).tmp_bb + 3 * insts_from(old(self).blocks@, 0),
            final(pool).next_reg_id == old(pool).next_reg_id,
            final(pool).func_pool@ == old(pool).func_pool@,
            final(pool).block_pool@ == old(pool).block_pool@,
            final(pool).inst_pool@ == old(pool).inst_pool@,
            final(pool).context_pool@ == old(pool).context_pool@,
            exists|q: Seq<usize>| overflow_layout(final(self).blocks@, old(self).blocks@, q,
                old(self).context.offset as int, old(self).label@, old(pool).tmp_bb as int, final(pool).tmp_bb as int),
            exists|ch: Seq<Seq<OverflowState>>| #[trigger] overflow_chain(ch, old(self).blocks@, old(self).context.offset as int,
                old(self).label@, old(pool).tmp_bb as int)
                && ch.len() == old(self).blocks@.len()
                && chain_start(ch, old(self).blocks@, old(pool).tmp_bb as int, ch.len() as int).0 == final(self).blocks@
                && chain_start(ch, old(self).blocks@, old(pool).tmp_bb as int, ch.len() as int).2 == final(pool).tmp_bb,
    {
        let frame = self.context.get_offset();
        let ghost fl = self.label@;
        let ghost ob = self.blocks@;
        let ghost t0 = pool.tmp_bb as int;
        let n0 = self.blocks.len();
        let mut op: Vec<usize> = Vec::new();
        let mut i: usize = 0;
        while i < n0
            invariant
                n0 == self.blocks@.len(),
                i <= n0,
                op@.len() == i,
                forall|k: int| 0 <= k < i ==> #[trigger] op@[k] == k,
            decreases n0 - i,
        {
            op.push(i);
            i += 1;
        }
        proof {
            assert forall|j: int| 0 <= j < self.blocks@.len() && !#[trigger] is_orig(op@, j) implies
                exists|n: int, t: Operand| t0 < n <= pool.tmp_bb && #[trigger] jump_pad(self.blocks@[j], n, fl, t) by {
                assert(op@[j] == j);
            }
            assert forall|b: int| 0 <= b < ob.len() implies (#[trigger] ob[b]).insts@.len() <= overflow_max_block() by {
                assert(overflow_block_ready(ob[b], frame as int));
                lemma_fix_len_lower(insts_view(ob[b].insts@), frame as int, ob[b].insts@.len() as int);
            }
        }
        let ghost mut ch: Seq<Seq<OverflowState>> = Seq::empty();
        proof {
            assert(op@ =~= Seq::new(ob.len(), |i: int| i as usize));
        }
        let mut k: usize = 0;
        while k < n0
            invariant
                ch.len() == k,
                overflow_chain(ch, ob, frame as int, fl, t0),
                chain_start(ch, ob, t0, k as int) == (self.blocks@, op@, pool.tmp_bb as int),
                n0 == ob.len(),
                ob == old(self).blocks@,
                frame == old(self).context.offset,
                fl == old(self).label@,
                t0 == old(pool).tmp_bb,
                self.same_but_blocks(old(self)),
                forall|b: int| 0 <= b < n0 ==> overflow_block_ready(#[trigger] ob[b], frame as int),
                k <= n0,
                op@.len() == n0,
                forall|a: int, b: int| 0 <= a < b < n0 ==> op@[a] < op@[b],
                forall|kk: int| 0 <= kk < n0 ==> (#[trigger] op@[kk]) < self.blocks@.len(),
                forall|kk: int| 0 <= kk < k ==> overflow_fixed(self.blocks@[#[trigger] op@[kk] as int], ob[kk], frame as int, self.blocks@, op@, fl),
                forall|kk: int| k <= kk < n0 ==> self.blocks@[#[trigger] op@[kk] as int] == ob[kk],
                pads_ok(self.blocks@, op@, fl, t0, pool.tmp_bb as int),
                forall|j: int| 0 <= j < self.blocks@.len() ==> (#[trigger] self.blocks@[j]).insts@.len() <= overflow_max_block(),
                t0 <= pool.tmp_bb,
                pool.tmp_bb + 3 * insts_from(ob, k as int) <= t0 + 3 * insts_from(ob, 0),
                t0 + 3 * insts_from(ob, 0) <= i32::MAX,
                pool.next_reg_id == old(pool).next_reg_id,
                pool.func_pool@ == old(pool).func_pool@,
                pool.block_pool@ == old(pool).block_pool@,
                pool.inst_pool@ == old(pool).inst_pool@,
                pool.context_pool@ == old(pool).context_pool@,
            decreases n0 - k,
        {
            let mut p = op[k];
            let ghost ok = ob[k as int];
            let ghost fixed = fix_accesses(insts_view(ok.insts@), frame as int, ok.insts@.len() as int);
            assert(self.blocks@[p as int] == ok);
            assert(overflow_block_ready(ok, frame as int));
            let ghost before_fix = self.blocks@;
            self.blocks[p].handle_overflow(frame);
            proof {
                lemma_fix_len(insts_view(ok.insts@), frame as int, ok.insts@.len() as int);
                lemma_insts_from_nonneg(ob, k + 1);
                assert(is_orig(op@, p as int));
                assert forall|j: int| 0 <= j < before_fix.len() && !#[trigger] is_orig(op@, j) implies self.blocks@[j] == before_fix[j] by {}
                assert forall|kk: int| 0 <= kk < n0 && kk != k implies self.blocks@[#[trigger] op@[kk] as int] == before_fix[op@[kk] as int] by {
                    if kk < k { assert(op@[kk] < op@[k as int]); } else { assert(op@[k as int] < op@[kk]); }
                }
                assert forall|kk: int| 0 <= kk < k implies overflow_fixed(self.blocks@[#[trigger] op@[kk] as int], ob[kk], frame as int, self.blocks@, op@, fl) by {
                    lemma_prefix_change(before_fix[op@[kk] as int], ob[kk], frame as int, before_fix, self.blocks@, op@, fl,
                        before_fix[op@[kk] as int].insts@.len() as int);
                }
                lemma_pads_change(before_fix, self.blocks@, op@, fl, t0, pool.tmp_bb as int);
                assert(overflow_prefix(self.blocks@[p as int], ok, frame as int, self.blocks@, op@, fl, 0)) by {
                    assert forall|i: int| 0 <= i < self.blocks@[p as int].insts@.len() implies
                        (#[trigger] self.blocks@[p as int].insts@[i])@ == fixed[i] by {
                        assert(insts_view(self.blocks@[p as int].insts@)[i] == self.blocks@[p as int].insts@[i]@);
                    }
                }
                assert(insts_from(ob, k as int) == ok.insts@.len() + insts_from(ob, k + 1));
                assert forall|j: int| 0 <= j < self.blocks@.len() implies (#[trigger] self.blocks@[j]).insts@.len() <= overflow_max_block() by {
                    if j != p {
                        assert(self.blocks@[j] == before_fix[j]);
                    }
                }
            }
            let ghost mut cur: Seq<OverflowState> = seq![(self.blocks@, op@, pool.tmp_bb as int)];
            proof {
                let a = chain_start(ch, ob, t0, k as int);
                assert(a.0 == before_fix);
                assert forall|j: int| 0 <= j < before_fix.len() && j != p implies #[trigger] self.blocks@[j] == before_fix[j] by {}
                assert(fix_step(a, cur[0], k as int, frame as int));
            }
            let nl = self.blocks[p].insts.len();
            let mut pos: usize = 0;
            while pos < nl
                invariant
                    ch.len() == k,
                    overflow_chain(ch, ob, frame as int, fl, t0),
                    cur.len() == pos + 1,
                    fix_step(chain_start(ch, ob, t0, k as int), cur[0], k as int, frame as int),
                    forall|x: int| 0 <= x < pos ==> branch_step(#[trigger] cur[x], cur[x + 1], k as int, x, fl),
                    cur[pos as int] == (self.blocks@, op@, pool.tmp_bb as int),
                    n0 == ob.len(),
                    ob == old(self).blocks@,
                    frame == old(self).context.offset,
                    fl == old(self).label@,
                    t0 == old(pool).tmp_bb,
                    self.same_but_blocks(old(self)),
                    forall|b: int| 0 <= b < n0 ==> overflow_block_ready(#[trigger] ob[b], frame as int),
                    k < n0,
                    ok == ob[k as int],
                    fixed == fix_accesses(insts_view(ok.insts@), frame as int, ok.insts@.len() as int),
                    nl == fixed.len(),
                    pos <= nl,
                    op@.len() == n0,
                    p == op@[k as int],
                    forall|a: int, b: int| 0 <= a < b < n0 ==> op@[a] < op@[b],
                    forall|kk: int| 0 <= kk < n0 ==> (#[trigger] op@[kk]) < self.blocks@.len(),
                    forall|kk: int| 0 <= kk < k ==> overflow_fixed(self.blocks@[#[trigger] op@[kk] as int], ob[kk], frame as int, self.blocks@, op@, fl),
                    overflow_prefix(self.blocks@[p as int], ok, frame as int, self.blocks@, op@, fl, pos as int),
                    forall|kk: int| k < kk < n0 ==> self.blocks@[#[trigger] op@[kk] as int] == ob[kk],
                    pads_ok(self.blocks@, op@, fl, t0, pool.tmp_bb as int),
                    forall|j: int| 0 <= j < self.blocks@.len() ==> (#[trigger] self.blocks@[j]).insts@.len() <= overflow_max_block(),
                    t0 <= pool.tmp_bb,
                    pool.tmp_bb + (nl - pos) + 3 * insts_from(ob, k + 1) <= t0 + 3 * insts_from(ob, 0),
                    t0 + 3 * insts_from(ob, 0) <= i32::MAX,
                    insts_from(ob, k + 1) >= 0,
                    pool.next_reg_id == old(pool).next_reg_id,
                    pool.func_pool@ == old(pool).func_pool@,
                    pool.block_pool@ == old(pool).block_pool@,
                    pool.inst_pool@ == old(pool).inst_pool@,
                    pool.context_pool@ == old(pool).context_pool@,
                decreases nl - pos,
            {
                let ghost bsa = self.blocks@;
                let ghost opa = op@;
                let ghost sa = (self.blocks@, op@, pool.tmp_bb as int);
                let ghost pk = p as int;
                assert(self.blocks@[p as int].insts@[pos as int]@ == fixed[pos as int]);
                let is_branch = match self.blocks[p].insts[pos].inst_type {
                    InstrsType::Branch(_) => true,
                    _ => false,
                };
                if is_branch {
                    proof {
                        lemma_fix_branch(insts_view(ok.insts@), frame as int, ok.insts@.len() as int, pos as int);
                        let j = choose|j: int| 0 <= j < ok.insts@.len() && insts_view(ok.insts@)[j] == fixed[pos as int];
                        assert(insts_view(ok.insts@)[j] == ok.insts@[j]@);
                        assert(ok.insts@[j].inst_type is Branch);
                    }
                    let target: String = match self.blocks[p].insts[pos].get_label() {
                        Operand::Addr(t) => t.clone(),
                        _ => { proof { assert(false); } String::new() },
                    };
                    assert(Operand::Addr(target) == fixed[pos as int].operands[0]);
                    let me = self.blocks[p].label.clone();
                    let (start, end) = scan_labels(&self.blocks, &me, &target);
                    if start != end {
                        let st = if start < end { start } else { end };
                        let ed = if start < end { end } else { start };
                        let rev = start > end;
                        match overflow_point(&self.blocks, st, ed, rev) {
                            Some(idx) => {
                                let num = get_tmp_bb(pool);
                                let name = overflow_name(num);
                                let mut pad = BB::new(name.as_str(), self.label.as_str());
                                pad.insts.push(jump_to(Operand::Addr(target.clone())));
                                let ghost padv = pad;
                                let ghost addr = fixed[pos as int].operands[0];
                                assert(jump_pad(padv, num as int, fl, addr)) by {
                                    assert(insts_view(padv.insts@) =~= seq![new_inst(InstrsType::Jump, seq![addr])]);
                                }
                                self.blocks.insert(idx, pad);
                                let len1 = self.blocks.len();
                                let mut w: usize = 0;
                                while w < n0
                                    invariant
                                        n0 == op@.len(),
                                        opa.len() == n0,
                                        w <= n0,
                                        len1 == bsa.len() + 1,
                                        forall|x: int| 0 <= x < w ==> #[trigger] op@[x] == shifted(opa, idx as int)[x],
                                        forall|x: int| w <= x < n0 ==> #[trigger] op@[x] == opa[x],
                                        forall|kk: int| 0 <= kk < n0 ==> (#[trigger] opa[kk]) < bsa.len(),
                                    decreases n0 - w,
                                {
                                    if op[w] >= idx {
                                        let v = op[w] + 1;
                                        op.set(w, v);
                                    }
                                    w += 1;
                                }
                                if idx <= p {
                                    p = p + 1;
                                }
                                let ghost bs1 = self.blocks@;
                                let ghost q1 = op@;
                                proof {
                                    assert forall|kk: int| 0 <= kk < n0 implies (#[trigger] opa[kk]) < usize::MAX by {}
                                    assert(q1 =~= shifted(opa, idx as int));
                                    assert(bs1 =~= bsa.insert(idx as int, padv));
                                    assert forall|kk: int| 0 <= kk < n0 implies bs1[#[trigger] q1[kk] as int] == bsa[opa[kk] as int] by {}
                                    assert(p == q1[k as int]);
                                    lemma_prefix_insert(bsa[p as int - (if idx <= opa[k as int] { 1int } else { 0int })], ok, frame as int,
                                        bsa, opa, fl, pos as int, idx as int, padv);
                                    assert forall|kk: int| 0 <= kk < k implies overflow_fixed(bs1[#[trigger] q1[kk] as int], ob[kk], frame as int, bs1, q1, fl) by {
                                        lemma_prefix_insert(bsa[opa[kk] as int], ob[kk], frame as int, bsa, opa, fl,
                                            bsa[opa[kk] as int].insts@.len() as int, idx as int, padv);
                                    }
                                    lemma_pads_insert(bsa, opa, fl, t0, num - 1, idx as int, padv, addr);
                                    lemma_shift_fresh(opa, idx as int);
                                }
                                let ghost bs1p = self.blocks@[p as int];
                                self.blocks[p].insts[pos].replace_label(name);
                                proof {
                                    let bs2 = self.blocks@;
                                    assert(is_orig(q1, p as int));
                                    assert forall|j: int| 0 <= j < bs1.len() && !#[trigger] is_orig(q1, j) implies bs2[j] == bs1[j] by {}
                                    lemma_pads_change(bs1, bs2, q1, fl, t0, pool.tmp_bb as int);
                                    assert forall|kk: int| 0 <= kk < k implies overflow_fixed(bs2[#[trigger] q1[kk] as int], ob[kk], frame as int, bs2, q1, fl) by {
                                        assert(q1[kk] != p) by { assert(q1[kk] < q1[k as int]); }
                                        lemma_prefix_change(bs1[q1[kk] as int], ob[kk], frame as int, bs1, bs2, q1, fl, bs1[q1[kk] as int].insts@.len() as int);
                                    }
                                    assert forall|kk: int| k < kk < n0 implies bs2[#[trigger] q1[kk] as int] == ob[kk] by {
                                        assert(q1[k as int] < q1[kk]);
                                    }
                                    // the redirected branch
                                    let a = fixed[pos as int];
                                    let b = bs2[p as int].insts@[pos as int]@;
                                    assert(!is_orig(q1, idx as int));
                                    assert(bs2[idx as int] == padv) by {
                                        assert(idx != p) by { assert(is_orig(q1, p as int)); }
                                    }
                                    assert(b == InstView { operands: a.operands.update(0, b.operands[0]), ..a });
                                    assert(redirected(a, b, bs2, q1, fl));
                                    lemma_prefix_change(bs1p, ok, frame as int, bs1, bs2, q1, fl, pos as int);
                                    let fixedv = fix_accesses(insts_view(ok.insts@), frame as int, ok.insts@.len() as int);
                                    assert forall|i: int| 0 <= i < bs2[p as int].insts@.len() implies ((#[trigger] bs2[p as int].insts@[i])@ == fixedv[i]
                                        || (i < pos + 1 && redirected(fixedv[i], bs2[p as int].insts@[i]@, bs2, q1, fl))) by {
                                        if i != pos {
                                            assert(bs2[p as int].insts@[i] == bs1p.insts@[i]);
                                        }
                                    }
                                    assert forall|j: int| 0 <= j < bs2.len() implies (#[trigger] bs2[j]).insts@.len() <= overflow_max_block() by {
                                        if j != p {
                                            assert(bs2[j] == bs1[j]);
                                            if j != idx {
                                                let jj = if j < idx { j } else { j - 1 };
                                                assert(bs1[j] == bsa[jj]);
                                            }
                                        }
                                    }
                                    // the step, as the decision gives it
                                    assert(overflow_decision(bsa, pk, pos as int) == Some(idx as int));
                                    assert forall|j: int| 0 <= j < bsa.len() && j != pk implies
                                        bs2[if j < idx { j } else { j + 1 }] == #[trigger] bsa[j] by {
                                        let j2 = if j < idx { j } else { j + 1 };
                                        assert(j2 != p);
                                        assert(bs2[j2] == bs1[j2]);
                                    }
                                    assert(bs1p == bsa[pk]);
                                    assert(relabelled(bs2[p as int], bsa[pk], pos as int, overflow_label(sa.2 + 1))) by {
                                        assert forall|x: int| 0 <= x < bsa[pk].insts@.len() && x != pos implies
                                            #[trigger] bs2[p as int].insts@[x] == bsa[pk].insts@[x] by {}
                                    }
                                    assert(branch_step(sa, (bs2, q1, pool.tmp_bb as int), k as int, pos as int, fl));
                                }
                            },
                            None => {
                                assert(overflow_decision(bsa, pk, pos as int) is None);
                            },
                        }
                    } else {
                        assert(overflow_decision(bsa, pk, pos as int) is None);
                    }
                } else {
                    assert(overflow_decision(bsa, pk, pos as int) is None);
                }
                proof {
                    assert(branch_step(sa, (self.blocks@, op@, pool.tmp_bb as int), k as int, pos as int, fl));
                    cur = cur.push((self.blocks@, op@, pool.tmp_bb as int));
                }
                pos += 1;
            }
            proof {
                lemma_chain_push(ch, ob, frame as int, fl, t0, cur);
                ch = ch.push(cur);
                assert(overflow_fixed(self.blocks@[p as int], ok, frame as int, self.blocks@, op@, fl));
                assert forall|kk: int| 0 <= kk < k + 1 implies overflow_fixed(self.blocks@[#[trigger] op@[kk] as int], ob[kk], frame as int, self.blocks@, op@, fl) by {}
            }
            k += 1;
        }
        proof {
            assert(overflow_layout(self.blocks@, ob, op@, frame as int, fl, t0, pool.tmp_bb as int));
        }
    }
}

/// The instructions of the functions with a body from the `i`th on.
pub open spec fn module_insts_from(fs: Seq<Func>, i: int) -> int
    decreases fs.len() - i,
{
    if i >= fs.len() || i < 0 {
        0
    } else {
        (if fs[i].is_extern { 0 } else { insts_from(fs[i].blocks@, 0) }) + module_insts_from(fs, i + 1)
    }
}

proof fn lemma_module_insts_nonneg(fs: Seq<Func>, i: int)
    ensures
        module_insts_from(fs, i) >= 0,
    decreases fs.len() - i,
{
    if 0 <= i < fs.len() {
        lemma_module_insts_nonneg(fs, i + 1);
        lemma_insts_from_nonneg(fs[i].blocks@, 0);
    }
}

proof fn lemma_module_step(fs: Seq<Func>, i: int)
    requires
        0 <= i < fs.len(),
    ensures
        module_insts_from(fs, i) == (if fs[i].is_extern { 0 } else { insts_from(fs[i].blocks@, 0) }) + module_insts_from(fs, i + 1),
{
}

/// `new` is the function `old` after the overflow pass, its new blocks
/// numbered between `t0` and `t1`.
pub open spec fn overflow_handled(new: Func, old: Func, t0: int, t1: int) -> bool {
    &&& new.same_but_blocks(&old)
    &&& exists|q: Seq<usize>, a: int, b: int| t0 <= a <= b <= t1
        && #[trigger] overflow_layout(new.blocks@, old.blocks@, q, old.context.offset as int, old.label@, a, b)
    &&& exists|ch: Seq<Seq<OverflowState>>, a: int| t0 <= a
        && #[trigger] overflow_chain(ch, old.blocks@, old.context.offset as int, old.label@, a)
        && ch.len() == old.blocks@.len()
        && chain_start(ch, old.blocks@, a, ch.len() as int).0 == new.blocks@
        && chain_start(ch, old.blocks@, a, ch.len() as int).2 <= t1
}

impl AsmModule {
    /// Removes offset overflows from every function with a body.
    pub fn handle_overflow(&mut self, pool: &mut BackendPool)
        requires
            forall|i: int, b: int| 0 <= i < old(self).name_func@.len() && !old(self).name_func@[i].is_extern
                && 0 <= b < old(self).name_func@[i].blocks@.len()
                ==> overflow_block_ready(#[trigger] old(self).name_func@[i].blocks@[b], old(self).name_func@[i].context.offset as int),
            old(pool).tmp_bb + 3 * module_insts_from(old(self).name_func@, 0) <= i32::MAX,
        ensures
            final(self).name_func@.len() == old(self).name_func@.len(),
            final(self).call_map@ == old(self).call_map@,
            final(self).callee_regs_to_saveds@ == old(self).callee_regs_to_saveds@,
            final(self).caller_regs_to_saveds@ == old(self).caller_regs_to_saveds@,
            old(pool).tmp_bb <= final(pool).tmp_bb,
            final(pool).next_reg_id == old(pool).next_reg_id,
            forall|i: int| 0 <= i < final(self).name_func@.len() ==> (if old(self).name_func@[i].is_extern {
                #[trigger] final(self).name_func@[i] == old(self).name_func@[i]
            } else {
                overflow_handled(final(self).name_func@[i], old(self).name_func@[i], old(pool).tmp_bb as int, final(pool).tmp_bb as int)
            }),
    {
        let ghost t0 = pool.tmp_bb as int;
        let n = self.name_func.len();
        let mut i: usize = 0;
        while i < n
            invariant
                n == self.name_func@.len(),
                n == old(self).name_func@.len(),
                i <= n,
                t0 == old(pool).tmp_bb,
                t0 <= pool.tmp_bb,
                pool.next_reg_id == old(pool).next_reg_id,
                self.call_map@ == old(self).call_map@,
                self.callee_regs_to_saveds@ == old(self).callee_regs_to_saveds@,
                self.caller_regs_to_saveds@ == old(self).caller_regs_to_saveds@,
                forall|k: int, b: int| 0 <= k < n && !old(self).name_func@[k].is_extern
                    && 0 <= b < old(self).name_func@[k].blocks@.len()
                    ==> overflow_block_ready(#[trigger] old(self).name_func@[k].blocks@[b], old(self).name_func@[k].context.offset as int),
                pool.tmp_bb + 3 * module_insts_from(old(self).name_func@, i as int) <= i32::MAX,
                forall|k: int| i <= k < n ==> #[trigger] self.name_func@[k] == old(self).name_func@[k],
                forall|k: int| 0 <= k < i ==> (if old(self).name_func@[k].is_extern {
                    #[trigger] self.name_func@[k] == old(self).name_func@[k]
                } else {
                    overflow_handled(self.name_func@[k], old(self).name_func@[k], t0, pool.tmp_bb as int)
                }),
            decreases n - i,
        {
            let ghost tb = pool.tmp_bb as int;
            proof {
                lemma_module_insts_nonneg(old(self).name_func@, i + 1);
                lemma_module_step(old(self).name_func@, i as int);
                lemma_insts_from_nonneg(old(self).name_func@[i as int].blocks@, 0);
            }
            if !self.name_func[i].is_extern {
                assert(self.name_func@[i as int] == old(self).name_func@[i as int]);
                self.name_func[i].handle_overflow(pool);
                proof {
                    let q = choose|q: Seq<usize>| overflow_layout(self.name_func@[i as int].blocks@, old(self).name_func@[i as int].blocks@, q,
                        old(self).name_func@[i as int].context.offset as int, old(self).name_func@[i as int].label@, tb, pool.tmp_bb as int);
                    assert(overflow_layout(self.name_func@[i as int].blocks@, old(self).name_func@[i as int].blocks@, q,
                        old(self).name_func@[i as int].context.offset as int, old(self).name_func@[i as int].label@, tb, pool.tmp_bb as int));
                    let ch = choose|ch: Seq<Seq<OverflowState>>| #[trigger] overflow_chain(ch, old(self).name_func@[i as int].blocks@,
                        old(self).name_func@[i as int].context.offset as int, old(self).name_func@[i as int].label@, tb)
                        && ch.len() == old(self).name_func@[i as int].blocks@.len()
                        && chain_start(ch, old(self).name_func@[i as int].blocks@, tb, ch.len() as int).0 == self.name_func@[i as int].blocks@
                        && chain_start(ch, old(self).name_func@[i as int].blocks@, tb, ch.len() as int).2 == pool.tmp_bb;
                    assert(overflow_chain(ch, old(self).name_func@[i as int].blocks@,
                        old(self).name_func@[i as int].context.offset as int, old(self).name_func@[i as int].label@, tb));
                    assert forall|k: int| 0 <= k < i implies (if old(self).name_func@[k].is_extern {
                        #[trigger] self.name_func@[k] == old(self).name_func@[k]
                    } else {
                        overflow_handled(self.name_func@[k], old(self).name_func@[k], t0, pool.tmp_bb as int)
                    }) by {
                        if !old(self).name_func@[k].is_extern {
                            let (q2, a, b) = choose|q2: Seq<usize>, a: int, b: int| t0 <= a <= b <= tb
                                && #[trigger] overflow_layout(self.name_func@[k].blocks@, old(self).name_func@[k].blocks@, q2,
                                    old(self).name_func@[k].context.offset as int, old(self).name_func@[k].label@, a, b);
                            let (c2, a2) = choose|c2: Seq<Seq<OverflowState>>, a2: int| t0 <= a2
                                && #[trigger] overflow_chain(c2, old(self).name_func@[k].blocks@, old(self).name_func@[k].context.offset as int,
                                    old(self).name_func@[k].label@, a2)
                                && c2.len() == old(self).name_func@[k].blocks@.len()
                                && chain_start(c2, old(self).name_func@[k].blocks@, a2, c2.len() as int).0 == self.name_func@[k].blocks@
                                && chain_start(c2, old(self).name_func@[k].blocks@, a2, c2.len() as int).2 <= tb;
                        }
                    }
                }
            }
            i += 1;
        }
    }
}

} // verus!
