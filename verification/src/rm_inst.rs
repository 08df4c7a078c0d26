use vstd::prelude::*;
use crate::analysis::live_at;
use crate::block::BB;
use crate::func::{Func, blocks_ok, total_insts};
use crate::instrs::{InstrsType, LIRInst, Operand, SingleOp, contains_reg, defines_dst};
use crate::liveness::{live_sets_exact, same_but_live};
use crate::operand::Reg;
use crate::slot_live::{member, inst_slot, slot_live_at, slot_ready, slots_ready, block_live_out, in_edges_ok};
use crate::slotset::{is_slot_set, slot_contains, slot_insert, slot_remove, copy_slots};
use crate::structs::StackSlot;

verus! {

/// A move of a register into itself.
pub open spec fn is_self_mv(i: LIRInst) -> bool {
    &&& i.inst_type == InstrsType::OpReg(SingleOp::Mv)
    &&& i.operands@.len() >= 2
    &&& i.operands@[0] is Reg
    &&& i.operands@[1] is Reg
    &&& i.operands@[0]->Reg_0 == i.operands@[1]->Reg_0
}

/// A move names a register as its destination and as its source.
pub open spec fn mv_ok(i: LIRInst) -> bool {
    i.inst_type == InstrsType::OpReg(SingleOp::Mv) ==> {
        &&& i.operands@.len() >= 2
        &&& i.operands@[0] is Reg
        &&& i.operands@[1] is Reg
    }
}

pub open spec fn not_self_mv() -> spec_fn(LIRInst) -> bool {
    |i: LIRInst| !is_self_mv(i)
}

/// Instruction `i` of `insts` writes a register (and is no call) whose
/// value is read by no later instruction nor live out of the block.
pub open spec fn dead_def(insts: Seq<LIRInst>, out: Seq<Reg>, i: int) -> bool {
    &&& defines_dst(insts[i].inst_type)
    &&& !live_at(insts, out, i + 1, insts[i].operands@[0]->Reg_0)
}

/// The instructions of `insts[..k]` that are not dead definitions, in order.
pub open spec fn drop_dead(insts: Seq<LIRInst>, out: Seq<Reg>, k: int) -> Seq<LIRInst>
    decreases k,
{
    if k <= 0 {
        Seq::empty()
    } else if dead_def(insts, out, k - 1) {
        drop_dead(insts, out, k - 1)
    } else {
        drop_dead(insts, out, k - 1).push(insts[k - 1])
    }
}

/// One round of dead-definition removal turns `a` into `b`: each block
/// keeps its instructions but the dead definitions (with respect to the
/// exit sets of `a`), and nothing else of the flow changes.
pub open spec fn dead_round(a: Seq<BB>, b: Seq<BB>) -> bool {
    &&& a.len() == b.len()
    &&& forall|k: int| 0 <= k < a.len() ==> {
        &&& (#[trigger] b[k]).insts@ == drop_dead(a[k].insts@, a[k].live_out@, a[k].insts@.len() as int)
        &&& b[k].in_edge@ == a[k].in_edge@
        &&& b[k].out_edge@ == a[k].out_edge@
    }
}

/// No block of `blocks` holds a dead definition.
pub open spec fn no_dead_def(blocks: Seq<BB>) -> bool {
    forall|k: int, i: int| 0 <= k < blocks.len() && 0 <= i < blocks[k].insts@.len()
        ==> !dead_def(blocks[k].insts@, blocks[k].live_out@, i)
}

/// The block fields that no instruction removal touches.
pub open spec fn same_frame(a: BB, b: BB) -> bool {
    &&& a.label == b.label
    &&& a.func_label == b.func_label
    &&& a.showed == b.showed
    &&& a.in_edge@ == b.in_edge@
    &&& a.out_edge@ == b.out_edge@
    &&& a.reg_intervals@ == b.reg_intervals@
    &&& a.phis@ == b.phis@
}

pub proof fn lemma_total_insts_le(a: Seq<BB>, b: Seq<BB>)
    requires
        a.len() == b.len(),
        forall|k: int| 0 <= k < a.len() ==> (#[trigger] a[k]).insts@.len() <= b[k].insts@.len(),
    ensures
        total_insts(a) <= total_insts(b),
        (exists|k: int| 0 <= k < a.len() && (#[trigger] a[k]).insts@.len() < b[k].insts@.len())
            ==> total_insts(a) < total_insts(b),
        (forall|k: int| 0 <= k < a.len() ==> (#[trigger] a[k]).insts@.len() == b[k].insts@.len())
            ==> total_insts(a) == total_insts(b),
    decreases a.len(),
{
    if a.len() > 0 {
        let a2 = a.drop_last();
        let b2 = b.drop_last();
        assert forall|k: int| 0 <= k < a2.len() implies (#[trigger] a2[k]).insts@.len() <= b2[k].insts@.len() by {
            assert(a2[k] == a[k]);
            assert(b2[k] == b[k]);
        }
        lemma_total_insts_le(a2, b2);
        if exists|k: int| 0 <= k < a.len() && (#[trigger] a[k]).insts@.len() < b[k].insts@.len() {
            let k = choose|k: int| 0 <= k < a.len() && (#[trigger] a[k]).insts@.len() < b[k].insts@.len();
            if k < a.len() - 1 {
                assert(a2[k] == a[k]);
                assert(b2[k] == b[k]);
            }
        }
        if forall|k: int| 0 <= k < a.len() ==> (#[trigger] a[k]).insts@.len() == b[k].insts@.len() {
            assert forall|k: int| 0 <= k < a2.len() implies (#[trigger] a2[k]).insts@.len() == b2[k].insts@.len() by {
                assert(a2[k] == a[k]);
                assert(b2[k] == b[k]);
            }
            assert(a[a.len() - 1].insts@.len() == b[a.len() - 1].insts@.len());
        }
    }
}

impl Func {
    /// Drops every move of a register into itself; tells whether one was found.
    pub fn remove_self_mv(&mut self) -> (r: bool)
        requires
            forall|k: int, i: int| 0 <= k < old(self).blocks@.len() && 0 <= i < old(self).blocks@[k].insts@.len()
                ==> mv_ok(#[trigger] old(self).blocks@[k].insts@[i]),
        ensures
            final(self).same_but_blocks(old(self)),
            final(self).blocks@.len() == old(self).blocks@.len(),
            forall|k: int| 0 <= k < final(self).blocks@.len() ==> {
                &&& (#[trigger] final(self).blocks@[k]).same_but_insts(&old(self).blocks@[k])
                &&& final(self).blocks@[k].insts@ == old(self).blocks@[k].insts@.filter(not_self_mv())
            },
            r == exists|k: int, i: int| 0 <= k < old(self).blocks@.len() && 0 <= i < old(self).blocks@[k].insts@.len()
                && #[trigger] is_self_mv(old(self).blocks@[k].insts@[i]),
    {
        let mut if_rm = false;
        let mut b: usize = 0;
        while b < self.blocks.len()
            invariant
                b <= self.blocks@.len(),
                self.same_but_blocks(old(self)),
                self.blocks@.len() == old(self).blocks@.len(),
                forall|k: int, i: int| 0 <= k < old(self).blocks@.len() && 0 <= i < old(self).blocks@[k].insts@.len()
                    ==> mv_ok(#[trigger] old(self).blocks@[k].insts@[i]),
                forall|k: int| b <= k < self.blocks@.len() ==> #[trigger] self.blocks@[k] == old(self).blocks@[k],
                forall|k: int| 0 <= k < b ==> {
                    &&& (#[trigger] self.blocks@[k]).same_but_insts(&old(self).blocks@[k])
                    &&& self.blocks@[k].insts@ == old(self).blocks@[k].insts@.filter(not_self_mv())
                },
                if_rm == exists|k: int, i: int| 0 <= k < b && 0 <= i < old(self).blocks@[k].insts@.len()
                    && #[trigger] is_self_mv(old(self).blocks@[k].insts@[i]),
            decreases self.blocks@.len() - b,
        {
            let ghost orig = old(self).blocks@[b as int].insts@;
            let ghost n = orig.len();
            let mut w: usize = 0;
            let ghost mut k: int = 0;
            let mut found = false;
            while w < self.blocks[b].insts.len()
                invariant
                    b < self.blocks@.len(),
                    self.same_but_blocks(old(self)),
                    self.blocks@.len() == old(self).blocks@.len(),
                    orig == old(self).blocks@[b as int].insts@,
                    n == orig.len(),
                    forall|i: int| 0 <= i < n ==> mv_ok(#[trigger] orig[i]),
                    forall|kk: int| b < kk < self.blocks@.len() ==> #[trigger] self.blocks@[kk] == old(self).blocks@[kk],
                    forall|kk: int| 0 <= kk < b ==> {
                        &&& (#[trigger] self.blocks@[kk]).same_but_insts(&old(self).blocks@[kk])
                        &&& self.blocks@[kk].insts@ == old(self).blocks@[kk].insts@.filter(not_self_mv())
                    },
                    self.blocks@[b as int].same_but_insts(&old(self).blocks@[b as int]),
                    0 <= k <= n,
                    w <= self.blocks@[b as int].insts@.len(),
                    self.blocks@[b as int].insts@ == orig.subrange(0, k).filter(not_self_mv()) + orig.subrange(k, n as int),
                    w == orig.subrange(0, k).filter(not_self_mv()).len(),
                    found == exists|i: int| 0 <= i < k && #[trigger] is_self_mv(orig[i]),
                decreases n - k,
            {
                proof {
                    assert(self.blocks@[b as int].insts@[w as int] == orig[k]);
                    reveal(Seq::filter);
                    assert(orig.subrange(0, k + 1).drop_last() =~= orig.subrange(0, k));
                    assert(orig.subrange(0, k + 1).last() == orig[k]);
                }
                let is_mv = match self.blocks[b].insts[w].get_type() {
                    InstrsType::OpReg(SingleOp::Mv) => {
                        assert(mv_ok(orig[k]));
                        let to_reg = self.blocks[b].insts[w].get_dst().drop_reg();
                        let from_reg = self.blocks[b].insts[w].get_lhs().drop_reg();
                        to_reg == from_reg
                    },
                    _ => false,
                };
                assert(is_mv == is_self_mv(orig[k]));
                if is_mv {
                    self.blocks[b].insts.remove(w);
                    found = true;
                    proof {
                        assert(self.blocks@[b as int].insts@ =~= orig.subrange(0, k + 1).filter(not_self_mv()) + orig.subrange(k + 1, n as int));
                    }
                } else {
                    w += 1;
                    proof {
                        assert(self.blocks@[b as int].insts@ =~= orig.subrange(0, k + 1).filter(not_self_mv()) + orig.subrange(k + 1, n as int));
                    }
                }
                proof {
                    k = k + 1;
                    if found {
                        if is_mv {
                            assert(is_self_mv(orig[k - 1]));
                        } else {
                            let i = choose|i: int| 0 <= i < k - 1 && #[trigger] is_self_mv(orig[i]);
                        }
                    }
                    if exists|i: int| 0 <= i < k && #[trigger] is_self_mv(orig[i]) {
                        let i = choose|i: int| 0 <= i < k && #[trigger] is_self_mv(orig[i]);
                        if i < k - 1 {
                        }
                    }
                }
            }
            proof {
                if k < n {
                    assert(self.blocks@[b as int].insts@.len() == w + (n - k));
                }
                assert(k == n);
                assert(orig.subrange(0, n as int) =~= orig);
                assert(orig.subrange(n as int, n as int) =~= Seq::<LIRInst>::empty());
                assert(self.blocks@[b as int].insts@ =~= orig.filter(not_self_mv()));
            }
            if found {
                if_rm = true;
            }
            proof {
                if if_rm {
                    if found {
                        let i = choose|i: int| 0 <= i < k && #[trigger] is_self_mv(orig[i]);
                        assert(is_self_mv(old(self).blocks@[b as int].insts@[i]));
                    }
                }
                if exists|kk: int, i: int| 0 <= kk < b + 1 && 0 <= i < old(self).blocks@[kk].insts@.len()
                    && #[trigger] is_self_mv(old(self).blocks@[kk].insts@[i]) {
                    let (kk, i) = choose|kk: int, i: int| 0 <= kk < b + 1 && 0 <= i < old(self).blocks@[kk].insts@.len()
                        && #[trigger] is_self_mv(old(self).blocks@[kk].insts@[i]);
                    if kk == b {
                        assert(is_self_mv(orig[i]));
                    }
                }
            }
            b += 1;
        }
        if_rm
    }
}

pub proof fn lemma_drop_dead_len(insts: Seq<LIRInst>, out: Seq<Reg>, k: int)
    requires
        0 <= k <= insts.len(),
    ensures
        drop_dead(insts, out, k).len() <= k,
        drop_dead(insts, out, k).len() == k ==> forall|i: int| 0 <= i < k ==> !#[trigger] dead_def(insts, out, i),
    decreases k,
{
    if k > 0 {
        lemma_drop_dead_len(insts, out, k - 1);
    }
}

proof fn lemma_total_nonneg(blocks: Seq<BB>)
    ensures
        total_insts(blocks) >= 0,
    decreases blocks.len(),
{
    if blocks.len() > 0 {
        lemma_total_nonneg(blocks.drop_last());
    }
}

/// The chain of states of dead-definition removal: the first differs from
/// `start` only in liveness, each next one is a round of the one before,
/// and every state has exact liveness.
pub open spec fn dead_chain(states: Seq<Seq<BB>>, start: Seq<BB>) -> bool {
    &&& states.len() >= 1
    &&& states[0].len() == start.len()
    &&& forall|k: int| 0 <= k < start.len() ==> same_but_live(#[trigger] states[0][k], start[k])
    &&& forall|j: int| 0 <= j < states.len() ==> live_sets_exact(#[trigger] states[j])
    &&& forall|j: int| 0 <= j < states.len() - 1 ==> dead_round(#[trigger] states[j], states[j + 1])
}

impl Func {
    /// Removes, in every block, the instructions that define a register no
    /// later instruction reads and that is not live out (calls are kept).
    fn remove_dead_round(&mut self) -> (changed: bool)
        requires
            old(self).wf(),
            live_sets_exact(old(self).blocks@),
        ensures
            final(self).wf(),
            final(self).same_but_blocks(old(self)),
            dead_round(old(self).blocks@, final(self).blocks@),
            forall|k: int| 0 <= k < final(self).blocks@.len() ==> same_frame(#[trigger] final(self).blocks@[k], old(self).blocks@[k]),
            forall|k: int| 0 <= k < final(self).blocks@.len() ==> (#[trigger] final(self).blocks@[k]).insts@.len() <= old(self).blocks@[k].insts@.len(),
            changed == exists|k: int| 0 <= k < final(self).blocks@.len() && (#[trigger] final(self).blocks@[k]).insts@.len() < old(self).blocks@[k].insts@.len(),
            !changed ==> final(self).blocks@ == old(self).blocks@,
    {
        let ghost start = self.blocks@;
        let mut changed = false;
        let mut b: usize = 0;
        while b < self.blocks.len()
            invariant
                b <= self.blocks@.len(),
                start == old(self).blocks@,
                self.same_but_blocks(old(self)),
                self.blocks@.len() == start.len(),
                blocks_ok(start),
                live_sets_exact(start),
                forall|k: int| b <= k < self.blocks@.len() ==> #[trigger] self.blocks@[k] == start[k],
                forall|k: int| 0 <= k < b ==> {
                    &&& same_frame(#[trigger] self.blocks@[k], start[k])
                    &&& self.blocks@[k].live_out@ == start[k].live_out@
                    &&& self.blocks@[k].insts@ == drop_dead(start[k].insts@, start[k].live_out@, start[k].insts@.len() as int)
                    &&& self.blocks@[k].insts@.len() <= start[k].insts@.len()
                },
                changed == exists|k: int| 0 <= k < b && (#[trigger] self.blocks@[k]).insts@.len() < start[k].insts@.len(),
                !changed ==> self.blocks@ == start,
            decreases self.blocks@.len() - b,
        {
            let ghost orig = start[b as int].insts@;
            let ghost out = start[b as int].live_out@;
            let ghost n = orig.len();
            proof {
                assert(live_sets_exact(start));
                assert forall|i: int| 0 <= i < orig.len() implies #[trigger] orig[i].def_well_formed() by {
                    assert(start[b as int].insts@[i].def_well_formed());
                }
            }
            let live = Func::analyse_inst_with_live_now_backorder(&self.blocks[b]);
            let ghost before_block = self.blocks@;
            let mut w: usize = 0;
            let mut idx: usize = 0;
            while idx < live.len()
                invariant
                    b < self.blocks@.len(),
                    start == old(self).blocks@,
                    self.same_but_blocks(old(self)),
                    self.blocks@.len() == start.len(),
                    orig == start[b as int].insts@,
                    out == start[b as int].live_out@,
                    n == orig.len(),
                    live@.len() == n,
                    forall|i: int| 0 <= i < n ==> #[trigger] orig[i].def_well_formed(),
                    forall|i: int, x: Reg| 0 <= i < n ==> (#[trigger] live@[i]@.contains(x) <==> live_at(orig, out, i + 1, x)),
                    forall|k: int| 0 <= k < self.blocks@.len() && k != b ==> #[trigger] self.blocks@[k] == before_block[k],
                    same_frame(self.blocks@[b as int], start[b as int]),
                    self.blocks@[b as int].live_out@ == out,
                    0 <= idx <= n,
                    self.blocks@[b as int].insts@ == drop_dead(orig, out, idx as int) + orig.subrange(idx as int, n as int),
                    w == drop_dead(orig, out, idx as int).len(),
                    w == idx ==> self.blocks@ == before_block,
                decreases n - idx,
            {
                proof {
                    lemma_drop_dead_len(orig, out, idx as int);
                    assert(self.blocks@[b as int].insts@[w as int] == orig[idx as int]);
                }
                let dead = match self.blocks[b].insts[w].get_type() {
                    InstrsType::Binary(..) | InstrsType::OpReg(..) | InstrsType::Load
                    | InstrsType::LoadFromStack | InstrsType::LoadParamFromStack => {
                        assert(orig[idx as int].def_well_formed());
                        let d = self.blocks[b].insts[w].get_dst().drop_reg();
                        !contains_reg(&live[idx], &d)
                    },
                    _ => false,
                };
                assert(dead == dead_def(orig, out, idx as int));
                if dead {
                    self.blocks[b].insts.remove(w);
                    proof {
                        assert(self.blocks@[b as int].insts@ =~= drop_dead(orig, out, idx + 1) + orig.subrange(idx + 1, n as int));
                    }
                } else {
                    w += 1;
                    proof {
                        assert(self.blocks@[b as int].insts@ =~= drop_dead(orig, out, idx + 1) + orig.subrange(idx + 1, n as int));
                    }
                }
                idx += 1;
            }
            proof {
                assert(orig.subrange(n as int, n as int) =~= Seq::<LIRInst>::empty());
                assert(self.blocks@[b as int].insts@ =~= drop_dead(orig, out, n as int));
                lemma_drop_dead_len(orig, out, n as int);
            }
            if w < idx {
                changed = true;
            }
            proof {
                if exists|k: int| 0 <= k < b + 1 && (#[trigger] self.blocks@[k]).insts@.len() < start[k].insts@.len() {
                    let k = choose|k: int| 0 <= k < b + 1 && (#[trigger] self.blocks@[k]).insts@.len() < start[k].insts@.len();
                    if k < b {
                        assert(self.blocks@[k] == before_block[k]);
                    }
                }
                if changed && w == idx {
                    let k = choose|k: int| 0 <= k < b && (#[trigger] before_block[k]).insts@.len() < start[k].insts@.len();
                    assert(self.blocks@[k] == before_block[k]);
                }
            }
            b += 1;
        }
        proof {
            assert forall|k: int, i: int| 0 <= k < self.blocks@.len() && 0 <= i < self.blocks@[k].insts@.len()
                implies #[trigger] self.blocks@[k].insts@[i].def_well_formed() by {
                let orig = start[k].insts@;
                let out = start[k].live_out@;
                lemma_drop_dead_subseq_wf(orig, out, orig.len() as int);
            }
            assert forall|k: int, j: int| 0 <= k < self.blocks@.len() && 0 <= j < self.blocks@[k].in_edge@.len()
                implies #[trigger] self.blocks@[k].in_edge@[j] < self.blocks@.len() by {
                assert(start[k].in_edge@[j] < start.len());
            }
            assert forall|k: int, j: int| 0 <= k < self.blocks@.len() && 0 <= j < self.blocks@[k].out_edge@.len()
                implies #[trigger] self.blocks@[k].out_edge@[j] < self.blocks@.len() by {
                assert(start[k].out_edge@[j] < start.len());
            }
        }
        changed
    }
}

proof fn lemma_drop_dead_subseq_wf(insts: Seq<LIRInst>, out: Seq<Reg>, k: int)
    requires
        0 <= k <= insts.len(),
        forall|i: int| 0 <= i < insts.len() ==> #[trigger] insts[i].def_well_formed(),
    ensures
        forall|i: int| 0 <= i < drop_dead(insts, out, k).len() ==> #[trigger] drop_dead(insts, out, k)[i].def_well_formed(),
    decreases k,
{
    if k > 0 {
        lemma_drop_dead_subseq_wf(insts, out, k - 1);
        let p = drop_dead(insts, out, k - 1);
        if !dead_def(insts, out, k - 1) {
            assert forall|i: int| 0 <= i < p.push(insts[k - 1]).len() implies #[trigger] p.push(insts[k - 1])[i].def_well_formed() by {
                if i < p.len() {
                    assert(p.push(insts[k - 1])[i] == p[i]);
                }
            }
        }
    }
}

impl Func {
    /// Removes dead definitions until none is left: each round recomputes
    /// liveness and drops, in every block, the non-call instructions whose
    /// defined register is not live after them. Tells whether anything was
    /// removed.
    pub fn remove_unuse_def(&mut self) -> (r: bool)
        requires
            old(self).wf(),
        ensures
            final(self).wf(),
            final(self).same_but_blocks(old(self)),
            final(self).blocks@.len() == old(self).blocks@.len(),
            forall|k: int| 0 <= k < final(self).blocks@.len() ==> same_frame(#[trigger] final(self).blocks@[k], old(self).blocks@[k]),
            live_sets_exact(final(self).blocks@),
            no_dead_def(final(self).blocks@),
            exists|states: Seq<Seq<BB>>| #[trigger] dead_chain(states, old(self).blocks@) && states.last() == final(self).blocks@,
            r == (total_insts(final(self).blocks@) < total_insts(old(self).blocks@)),
    {
        let mut out = false;
        let ghost mut states: Seq<Seq<BB>> = Seq::empty();
        loop
            invariant
                self.wf(),
                self.same_but_blocks(old(self)),
                self.blocks@.len() == old(self).blocks@.len(),
                forall|k: int| 0 <= k < self.blocks@.len() ==> same_frame(#[trigger] self.blocks@[k], old(self).blocks@[k]),
                states.len() == 0 ==> self.blocks@ == old(self).blocks@,
                states.len() >= 1 ==> dead_chain(states, old(self).blocks@) && dead_round(states.last(), self.blocks@),
                out == (total_insts(self.blocks@) < total_insts(old(self).blocks@)),
                total_insts(self.blocks@) <= total_insts(old(self).blocks@),
            ensures
                self.wf(),
                self.same_but_blocks(old(self)),
                self.blocks@.len() == old(self).blocks@.len(),
                forall|k: int| 0 <= k < self.blocks@.len() ==> same_frame(#[trigger] self.blocks@[k], old(self).blocks@[k]),
                live_sets_exact(self.blocks@),
                no_dead_def(self.blocks@),
                dead_chain(states, old(self).blocks@),
                states.last() == self.blocks@,
                out == (total_insts(self.blocks@) < total_insts(old(self).blocks@)),
            decreases total_insts(self.blocks@),
        {
            let ghost before_live = self.blocks@;
            self.calc_live_base();
            proof {
                lemma_total_insts_le(self.blocks@, before_live);
                let prev = states;
                states = states.push(self.blocks@);
                assert(states.last() == self.blocks@);
                if prev.len() == 0 {
                    assert forall|k: int| 0 <= k < old(self).blocks@.len() implies same_but_live(#[trigger] states[0][k], old(self).blocks@[k]) by {
                        assert(states[0] == self.blocks@);
                    }
                } else {
                    assert(states[0] == prev[0]);
                    assert forall|j: int| 0 <= j < states.len() - 1 implies dead_round(#[trigger] states[j], states[j + 1]) by {
                        if j < prev.len() - 1 {
                            assert(states[j] == prev[j]);
                            assert(states[j + 1] == prev[j + 1]);
                        } else {
                            assert(states[j] == prev.last());
                            assert forall|k: int| 0 <= k < states[j].len() implies {
                                &&& (#[trigger] states[j + 1][k]).insts@ == drop_dead(states[j][k].insts@, states[j][k].live_out@, states[j][k].insts@.len() as int)
                                &&& states[j + 1][k].in_edge@ == states[j][k].in_edge@
                                &&& states[j + 1][k].out_edge@ == states[j][k].out_edge@
                            } by {
                                assert(same_but_live(self.blocks@[k], before_live[k]));
                            }
                        }
                    }
                }
                assert forall|j: int| 0 <= j < states.len() implies live_sets_exact(#[trigger] states[j]) by {
                    if j < prev.len() {
                        assert(states[j] == prev[j]);
                    }
                }
                assert forall|k: int| 0 <= k < self.blocks@.len() implies same_frame(#[trigger] self.blocks@[k], old(self).blocks@[k]) by {
                    assert(same_but_live(self.blocks@[k], before_live[k]));
                    assert(same_frame(before_live[k], old(self).blocks@[k]));
                }
                assert forall|k: int| 0 <= k < self.blocks@.len() implies (#[trigger] self.blocks@[k]).insts@.len() == before_live[k].insts@.len() by {
                    assert(same_but_live(self.blocks@[k], before_live[k]));
                }
                lemma_total_insts_le(self.blocks@, before_live);
            }
            let ghost after_live = self.blocks@;
            let changed = self.remove_dead_round();
            proof {
                lemma_total_insts_le(self.blocks@, after_live);
                assert forall|k: int| 0 <= k < self.blocks@.len() implies same_frame(#[trigger] self.blocks@[k], old(self).blocks@[k]) by {
                    assert(same_frame(self.blocks@[k], after_live[k]));
                    assert(same_frame(after_live[k], old(self).blocks@[k]));
                }
            }
            proof {
                lemma_total_nonneg(self.blocks@);
            }
            if !changed {
                proof {
                    assert forall|k: int, i: int| 0 <= k < self.blocks@.len() && 0 <= i < self.blocks@[k].insts@.len()
                        implies !dead_def(self.blocks@[k].insts@, self.blocks@[k].live_out@, i) by {
                        assert(self.blocks@[k].insts@ == drop_dead(after_live[k].insts@, after_live[k].live_out@, after_live[k].insts@.len() as int));
                        lemma_drop_dead_len(after_live[k].insts@, after_live[k].live_out@, after_live[k].insts@.len() as int);
                        assert(!dead_def(after_live[k].insts@, after_live[k].live_out@, i));
                    }
                }
                break;
            }
            out = true;
        }
        out
    }

    /// Drops the moves of a register into itself, then the dead definitions.
    pub fn remove_unuse_inst(&mut self)
        requires
            old(self).wf(),
            forall|k: int, i: int| 0 <= k < old(self).blocks@.len() && 0 <= i < old(self).blocks@[k].insts@.len()
                ==> mv_ok(#[trigger] old(self).blocks@[k].insts@[i]),
        ensures
            final(self).wf(),
            final(self).same_but_blocks(old(self)),
            final(self).blocks@.len() == old(self).blocks@.len(),
            live_sets_exact(final(self).blocks@),
            no_dead_def(final(self).blocks@),
            exists|mid: Seq<BB>, states: Seq<Seq<BB>>| {
                &&& mid.len() == old(self).blocks@.len()
                &&& forall|k: int| 0 <= k < mid.len() ==> (#[trigger] mid[k]).same_but_insts(&old(self).blocks@[k])
                    && mid[k].insts@ == old(self).blocks@[k].insts@.filter(not_self_mv())
                &&& #[trigger] dead_chain(states, mid)
                &&& states.last() == final(self).blocks@
            },
    {
        self.remove_self_mv();
        let ghost mid = self.blocks@;
        proof {
            assert forall|k: int, i: int| 0 <= k < self.blocks@.len() && 0 <= i < self.blocks@[k].insts@.len()
                implies #[trigger] self.blocks@[k].insts@[i].def_well_formed() by {
                let s = old(self).blocks@[k].insts@;
                assert(self.blocks@[k].insts@ == s.filter(not_self_mv()));
                assert(s.filter(not_self_mv()).contains(self.blocks@[k].insts@[i]));
                s.lemma_filter_contains_rev(not_self_mv(), self.blocks@[k].insts@[i]);
                let j = choose|j: int| 0 <= j < s.len() && s[j] == self.blocks@[k].insts@[i];
                assert(old(self).blocks@[k].insts@[j].def_well_formed());
            }
            assert forall|k: int, j: int| 0 <= k < self.blocks@.len() && 0 <= j < self.blocks@[k].in_edge@.len()
                implies #[trigger] self.blocks@[k].in_edge@[j] < self.blocks@.len() by {
                assert(old(self).blocks@[k].in_edge@[j] < old(self).blocks@.len());
            }
            assert forall|k: int, j: int| 0 <= k < self.blocks@.len() && 0 <= j < self.blocks@[k].out_edge@.len()
                implies #[trigger] self.blocks@[k].out_edge@[j] < self.blocks@.len() by {
                assert(old(self).blocks@[k].out_edge@[j] < old(self).blocks@.len());
            }
        }
        self.remove_unuse_def();
    }
}

/// Instruction `i` of `insts` stores to a word of the frame at a
/// non-negative offset that no later load reads before it is written again
/// and that is not live on exit (`out`).
pub open spec fn dead_store(insts: Seq<LIRInst>, out: spec_fn(StackSlot) -> bool, i: int) -> bool {
    &&& insts[i].inst_type == InstrsType::StoreToStack
    &&& inst_slot(insts[i]).pos >= 0
    &&& !slot_live_at(insts, out, i + 1, inst_slot(insts[i]))
}

/// The instructions of `insts[..k]` that are not dead stores, in order.
pub open spec fn drop_dead_stores(insts: Seq<LIRInst>, out: spec_fn(StackSlot) -> bool, k: int) -> Seq<LIRInst>
    decreases k,
{
    if k <= 0 {
        Seq::empty()
    } else if dead_store(insts, out, k - 1) {
        drop_dead_stores(insts, out, k - 1)
    } else {
        drop_dead_stores(insts, out, k - 1).push(insts[k - 1])
    }
}

pub proof fn lemma_drop_dead_stores(insts: Seq<LIRInst>, out: spec_fn(StackSlot) -> bool, k: int)
    requires
        0 <= k <= insts.len(),
    ensures
        drop_dead_stores(insts, out, k).len() <= k,
        drop_dead_stores(insts, out, k).len() == k <==> forall|i: int| 0 <= i < k ==> !#[trigger] dead_store(insts, out, i),
        forall|j: int| 0 <= j < drop_dead_stores(insts, out, k).len() ==>
            exists|i: int| 0 <= i < k && #[trigger] drop_dead_stores(insts, out, k)[j] == #[trigger] insts[i],
    decreases k,
{
    if k > 0 {
        lemma_drop_dead_stores(insts, out, k - 1);
        let p = drop_dead_stores(insts, out, k - 1);
        assert forall|j: int| 0 <= j < p.len() implies exists|i: int| 0 <= i < k && #[trigger] p[j] == #[trigger] insts[i] by {
            let i = choose|i: int| 0 <= i < k - 1 && #[trigger] p[j] == #[trigger] insts[i];
        }
        if !dead_store(insts, out, k - 1) {
            assert forall|j: int| 0 <= j < p.push(insts[k - 1]).len() implies
                exists|i: int| 0 <= i < k && #[trigger] p.push(insts[k - 1])[j] == #[trigger] insts[i] by {
                if j < p.len() {
                    assert(p.push(insts[k - 1])[j] == p[j]);
                } else {
                    assert(p.push(insts[k - 1])[j] == insts[k - 1]);
                }
            }
        }
    }
}

/// For each instruction of `insts`, whether it is a dead store with
/// respect to what `live_out` holds on exit.
fn find_dead_stores(insts: &Vec<LIRInst>, live_out: &Vec<StackSlot>) -> (r: Vec<bool>)
    requires
        forall|i: int| 0 <= i < insts@.len() ==> slot_ready(#[trigger] insts@[i]),
        is_slot_set(live_out@),
    ensures
        r@.len() == insts@.len(),
        forall|i: int| 0 <= i < insts@.len() ==> r@[i] == dead_store(insts@, member(live_out@), i),
{
    let ghost out = member(live_out@);
    let n = insts.len();
    let mut live_now = copy_slots(live_out);
    let mut rev: Vec<bool> = Vec::new();
    let mut idx: usize = n;
    while idx > 0
        invariant
            n == insts@.len(),
            out == member(live_out@),
            idx <= n,
            forall|i: int| 0 <= i < insts@.len() ==> slot_ready(#[trigger] insts@[i]),
            is_slot_set(live_now@),
            forall|x: StackSlot| #[trigger] live_now@.contains(x) <==> slot_live_at(insts@, out, idx as int, x),
            rev@.len() == n - idx,
            forall|j: int| 0 <= j < rev@.len() ==> #[trigger] rev@[j] == dead_store(insts@, out, n - 1 - j),
        decreases idx,
    {
        let i = idx - 1;
        assert(slot_ready(insts@[i as int]));
        let t = insts[i].inst_type;
        let mut dead = false;
        if t == InstrsType::StoreToStack {
            let s = insts[i].get_stackslot_with_addr_size();
            if !slot_contains(&live_now, &s) && s.pos >= 0 {
                dead = true;
            } else {
                slot_remove(&mut live_now, s);
            }
        } else if t == InstrsType::LoadFromStack {
            let s = insts[i].get_stackslot_with_addr_size();
            slot_insert(&mut live_now, s);
        }
        assert(dead == dead_store(insts@, out, i as int));
        rev.push(dead);
        proof {
            assert forall|x: StackSlot| #[trigger] live_now@.contains(x) <==> slot_live_at(insts@, out, i as int, x) by {
                assert(slot_live_at(insts@, out, i as int, x) == if crate::slot_live::loads_slot(insts@[i as int], x) {
                    true
                } else if crate::slot_live::stores_slot(insts@[i as int], x) {
                    false
                } else {
                    slot_live_at(insts@, out, i + 1, x)
                });
            }
            assert forall|j: int| 0 <= j < rev@.len() implies #[trigger] rev@[j] == dead_store(insts@, out, n - 1 - j) by {
                if j < rev@.len() - 1 {
                }
            }
        }
        idx = i;
    }
    let mut r: Vec<bool> = Vec::new();
    let mut k: usize = 0;
    while k < n
        invariant
            n == insts@.len(),
            rev@.len() == n,
            forall|j: int| 0 <= j < rev@.len() ==> #[trigger] rev@[j] == dead_store(insts@, out, n - 1 - j),
            k <= n,
            r@.len() == k,
            forall|i: int| 0 <= i < k ==> #[trigger] r@[i] == dead_store(insts@, out, i),
        decreases n - k,
    {
        let d = rev[n - 1 - k];
        r.push(d);
        k += 1;
    }
    r
}

impl Func {
    /// Removes, in every block, the stores to the frame (at non-negative
    /// offsets) whose word no later load reads before it is written again
    /// and that is not live on exit; tells whether any was removed.
    pub fn remove_unuse_store(&mut self) -> (r: bool)
        requires
            old(self).wf(),
            slots_ready(old(self).blocks@),
        ensures
            final(self).wf(),
            slots_ready(final(self).blocks@),
            final(self).same_but_blocks(old(self)),
            final(self).blocks@.len() == old(self).blocks@.len(),
            forall|k: int| 0 <= k < final(self).blocks@.len() ==> (#[trigger] final(self).blocks@[k]).same_but_insts(&old(self).blocks@[k]),
            forall|k: int| 0 <= k < final(self).blocks@.len() ==> (#[trigger] final(self).blocks@[k]).insts@
                == drop_dead_stores(old(self).blocks@[k].insts@, block_live_out(old(self).blocks@, k), old(self).blocks@[k].insts@.len() as int),
            r == exists|k: int, i: int| 0 <= k < old(self).blocks@.len() && 0 <= i < old(self).blocks@[k].insts@.len()
                && #[trigger] dead_store(old(self).blocks@[k].insts@, block_live_out(old(self).blocks@, k), i),
    {
        let ghost start = self.blocks@;
        let (_, _, _, live_outs) = Func::calc_stackslot_interval(self);
        let mut changed = false;
        let mut b: usize = 0;
        while b < self.blocks.len()
            invariant
                b <= self.blocks@.len(),
                start == old(self).blocks@,
                self.same_but_blocks(old(self)),
                self.blocks@.len() == start.len(),
                blocks_ok(start),
                slots_ready(start),
                live_outs@.len() == start.len(),
                forall|k: int| 0 <= k < start.len() ==> is_slot_set(#[trigger] live_outs@[k]@),
                forall|k: int, x: StackSlot| 0 <= k < start.len() ==>
                    (#[trigger] live_outs@[k]@.contains(x) <==> block_live_out(start, k)(x)),
                forall|k: int| b <= k < self.blocks@.len() ==> #[trigger] self.blocks@[k] == start[k],
                forall|k: int| 0 <= k < b ==> {
                    &&& (#[trigger] self.blocks@[k]).same_but_insts(&start[k])
                    &&& self.blocks@[k].insts@ == drop_dead_stores(start[k].insts@, block_live_out(start, k), start[k].insts@.len() as int)
                },
                changed == exists|k: int, i: int| 0 <= k < b && 0 <= i < start[k].insts@.len()
                    && #[trigger] dead_store(start[k].insts@, block_live_out(start, k), i),
            decreases self.blocks@.len() - b,
        {
            let ghost orig = start[b as int].insts@;
            let ghost out = block_live_out(start, b as int);
            let ghost n = orig.len();
            proof {
                assert forall|i: int| 0 <= i < orig.len() implies slot_ready(#[trigger] orig[i]) by {
                    assert(slot_ready(start[b as int].insts@[i]));
                }
                assert(member(live_outs@[b as int]@) =~= out) by {
                    assert forall|x: StackSlot| #[trigger] member(live_outs@[b as int]@)(x) == out(x) by {
                        assert(live_outs@[b as int]@.contains(x) <==> block_live_out(start, b as int)(x));
                    }
                }
            }
            let dead = find_dead_stores(&self.blocks[b].insts, &live_outs[b]);
            let ghost before_block = self.blocks@;
            let mut w: usize = 0;
            let mut idx: usize = 0;
            while idx < dead.len()
                invariant
                    b < self.blocks@.len(),
                    start == old(self).blocks@,
                    self.same_but_blocks(old(self)),
                    self.blocks@.len() == start.len(),
                    orig == start[b as int].insts@,
                    n == orig.len(),
                    dead@.len() == n,
                    forall|i: int| 0 <= i < n ==> #[trigger] dead@[i] == dead_store(orig, out, i),
                    forall|k: int| 0 <= k < self.blocks@.len() && k != b ==> #[trigger] self.blocks@[k] == before_block[k],
                    self.blocks@[b as int].same_but_insts(&start[b as int]),
                    0 <= idx <= n,
                    self.blocks@[b as int].insts@ == drop_dead_stores(orig, out, idx as int) + orig.subrange(idx as int, n as int),
                    w == drop_dead_stores(orig, out, idx as int).len(),
                decreases n - idx,
            {
                proof {
                    lemma_drop_dead_stores(orig, out, idx as int);
                    assert(self.blocks@[b as int].insts@[w as int] == orig[idx as int]);
                }
                if dead[idx] {
                    self.blocks[b].insts.remove(w);
                    proof {
                        assert(self.blocks@[b as int].insts@ =~= drop_dead_stores(orig, out, idx + 1) + orig.subrange(idx + 1, n as int));
                    }
                } else {
                    w += 1;
                    proof {
                        assert(self.blocks@[b as int].insts@ =~= drop_dead_stores(orig, out, idx + 1) + orig.subrange(idx + 1, n as int));
                    }
                }
                idx += 1;
            }
            proof {
                assert(orig.subrange(n as int, n as int) =~= Seq::<LIRInst>::empty());
                assert(self.blocks@[b as int].insts@ =~= drop_dead_stores(orig, out, n as int));
                lemma_drop_dead_stores(orig, out, n as int);
            }
            if w < idx {
                changed = true;
            }
            proof {
                if w < idx {
                    let i = choose|i: int| 0 <= i < n && #[trigger] dead_store(orig, out, i);
                    assert(dead_store(start[b as int].insts@, block_live_out(start, b as int), i));
                }
                if exists|k: int, i: int| 0 <= k < b + 1 && 0 <= i < start[k].insts@.len()
                    && #[trigger] dead_store(start[k].insts@, block_live_out(start, k), i) {
                    let (k, i) = choose|k: int, i: int| 0 <= k < b + 1 && 0 <= i < start[k].insts@.len()
                        && #[trigger] dead_store(start[k].insts@, block_live_out(start, k), i);
                    if k == b {
                        assert(dead_store(orig, out, i));
                        assert(w < idx);
                    }
                }
                assert forall|k: int| 0 <= k < b + 1 implies {
                    &&& (#[trigger] self.blocks@[k]).same_but_insts(&start[k])
                    &&& self.blocks@[k].insts@ == drop_dead_stores(start[k].insts@, block_live_out(start, k), start[k].insts@.len() as int)
                } by {
                    if k < b {
                        assert(self.blocks@[k] == before_block[k]);
                    }
                }
            }
            b += 1;
        }
        proof {
            assert forall|k: int, i: int| 0 <= k < self.blocks@.len() && 0 <= i < self.blocks@[k].insts@.len()
                implies exists|j: int| 0 <= j < start[k].insts@.len() && #[trigger] self.blocks@[k].insts@[i] == #[trigger] start[k].insts@[j] by {
                let orig = start[k].insts@;
                lemma_drop_dead_stores(orig, block_live_out(start, k), orig.len() as int);
            }
            assert forall|k: int, i: int| 0 <= k < self.blocks@.len() && 0 <= i < self.blocks@[k].insts@.len()
                implies #[trigger] self.blocks@[k].insts@[i].def_well_formed() by {
                let j = choose|j: int| 0 <= j < start[k].insts@.len() && #[trigger] self.blocks@[k].insts@[i] == #[trigger] start[k].insts@[j];
                assert(start[k].insts@[j].def_well_formed());
            }
            assert forall|k: int, i: int| 0 <= k < self.blocks@.len() && 0 <= i < self.blocks@[k].insts@.len()
                implies slot_ready(#[trigger] self.blocks@[k].insts@[i]) by {
                let j = choose|j: int| 0 <= j < start[k].insts@.len() && #[trigger] self.blocks@[k].insts@[i] == #[trigger] start[k].insts@[j];
                assert(slot_ready(start[k].insts@[j]));
            }
            assert forall|k: int, j: int| 0 <= k < self.blocks@.len() && 0 <= j < self.blocks@[k].in_edge@.len()
                implies #[trigger] self.blocks@[k].in_edge@[j] < self.blocks@.len() by {
                assert(start[k].in_edge@[j] < start.len());
            }
            assert forall|k: int, j: int| 0 <= k < self.blocks@.len() && 0 <= j < self.blocks@[k].out_edge@.len()
                implies #[trigger] self.blocks@[k].out_edge@[j] < self.blocks@.len() by {
                assert(start[k].out_edge@[j] < start.len());
            }
        }
        changed
    }
}

} // verus!
