use vstd::prelude::*;
use crate::block::BB;
use crate::func::Func;
use crate::instrs::LIRInst;
use crate::liveness::{exposed_from, lemma_use_def_step};
use crate::operand::Reg;
use crate::regset::{is_set, set_insert_all, set_remove_all, copy_regs};

verus! {

/// `r` holds a value that may still be read at position `k` of `insts`
/// (before instruction `k`), when `out` is live on exit.
pub open spec fn live_at(insts: Seq<LIRInst>, out: Seq<Reg>, k: int, r: Reg) -> bool {
    ||| exposed_from(insts, k, r)
    ||| (out.contains(r) && forall|j: int| k <= j < insts.len() ==> !(#[trigger] insts[j].spec_reg_def().contains(r)))
}

pub proof fn lemma_live_at_step(insts: Seq<LIRInst>, out: Seq<Reg>, i: int, r: Reg)
    requires
        0 <= i < insts.len(),
    ensures
        live_at(insts, out, i, r) <==> (insts[i].spec_reg_use().contains(r)
            || (!insts[i].spec_reg_def().contains(r) && live_at(insts, out, i + 1, r))),
{
    lemma_use_def_step(insts, i, r);
    if out.contains(r) && forall|j: int| i + 1 <= j < insts.len() ==> !(#[trigger] insts[j].spec_reg_def().contains(r)) {
        if !insts[i].spec_reg_def().contains(r) {
            assert forall|j: int| i <= j < insts.len() implies !(#[trigger] insts[j].spec_reg_def().contains(r)) by {
                if j > i {
                }
            }
        }
    }
    if out.contains(r) && forall|j: int| i <= j < insts.len() ==> !(#[trigger] insts[j].spec_reg_def().contains(r)) {
        assert(!insts[i].spec_reg_def().contains(r));
        assert forall|j: int| i + 1 <= j < insts.len() implies !(#[trigger] insts[j].spec_reg_def().contains(r)) by {
            assert(i <= j);
        }
    }
}

impl Func {
    /// For each instruction of `bb`, the registers live just after it
    /// (entry `i` is for instruction `i`), found by walking the block
    /// backwards from its exit set.
    pub fn analyse_inst_with_live_now_backorder(bb: &BB) -> (r: Vec<Vec<Reg>>)
        requires
            is_set(bb.live_out@),
            forall|i: int| 0 <= i < bb.insts@.len() ==> #[trigger] bb.insts@[i].def_well_formed(),
        ensures
            r@.len() == bb.insts@.len(),
            forall|i: int| 0 <= i < r@.len() ==> is_set(#[trigger] r@[i]@),
            forall|i: int, x: Reg| 0 <= i < r@.len() ==>
                (#[trigger] r@[i]@.contains(x) <==> live_at(bb.insts@, bb.live_out@, i + 1, x)),
    {
        let steps = Func::analyse_inst_with_live_now_and_index_backorder(bb);
        let n = bb.insts.len();
        let mut out: Vec<Vec<Reg>> = Vec::new();
        let mut i: usize = 0;
        while i < n
            invariant
                n == bb.insts@.len(),
                steps@.len() == n,
                forall|k: int| 0 <= k < n ==> (#[trigger] steps@[k]).0 == n - 1 - k,
                forall|k: int| 0 <= k < n ==> is_set(#[trigger] steps@[k].1@),
                forall|k: int, x: Reg| 0 <= k < n ==>
                    (#[trigger] steps@[k].1@.contains(x) <==> live_at(bb.insts@, bb.live_out@, n - k, x)),
                i <= n,
                out@.len() == i,
                forall|k: int| 0 <= k < i ==> #[trigger] out@[k]@ == steps@[n - 1 - k].1@,
            decreases n - i,
        {
            out.push(copy_regs(&steps[n - 1 - i].1));
            i += 1;
        }
        proof {
            assert forall|k: int| 0 <= k < out@.len() implies is_set(#[trigger] out@[k]@) by {
                assert(is_set(steps@[n - 1 - k].1@));
            }
            assert forall|k: int, x: Reg| 0 <= k < out@.len() implies
                (#[trigger] out@[k]@.contains(x) <==> live_at(bb.insts@, bb.live_out@, k + 1, x)) by {
                assert(steps@[n - 1 - k].1@.contains(x) <==> live_at(bb.insts@, bb.live_out@, n - (n - 1 - k), x));
            }
        }
        out
    }

    /// The instructions of `bb` from the last to the first, each with its
    /// index and the registers live just after it.
    pub fn analyse_inst_with_live_now_and_index_backorder(bb: &BB) -> (r: Vec<(usize, Vec<Reg>)>)
        requires
            is_set(bb.live_out@),
            forall|i: int| 0 <= i < bb.insts@.len() ==> #[trigger] bb.insts@[i].def_well_formed(),
        ensures
            r@.len() == bb.insts@.len(),
            forall|k: int| 0 <= k < r@.len() ==> (#[trigger] r@[k]).0 == bb.insts@.len() - 1 - k,
            forall|k: int| 0 <= k < r@.len() ==> is_set(#[trigger] r@[k].1@),
            forall|k: int, x: Reg| 0 <= k < r@.len() ==>
                (#[trigger] r@[k].1@.contains(x) <==> live_at(bb.insts@, bb.live_out@, bb.insts@.len() - k, x)),
    {
        let n = bb.insts.len();
        let mut live_now = copy_regs(&bb.live_out);
        let mut out: Vec<(usize, Vec<Reg>)> = Vec::new();
        let mut idx: usize = n;
        proof {
            assert forall|x: Reg| #[trigger] live_now@.contains(x) <==> live_at(bb.insts@, bb.live_out@, n as int, x) by {
            }
        }
        while idx > 0
            invariant
                n == bb.insts@.len(),
                idx <= n,
                forall|i: int| 0 <= i < bb.insts@.len() ==> #[trigger] bb.insts@[i].def_well_formed(),
                is_set(live_now@),
                forall|x: Reg| #[trigger] live_now@.contains(x) <==> live_at(bb.insts@, bb.live_out@, idx as int, x),
                out@.len() == n - idx,
                forall|k: int| 0 <= k < out@.len() ==> (#[trigger] out@[k]).0 == n - 1 - k,
                forall|k: int| 0 <= k < out@.len() ==> is_set(#[trigger] out@[k].1@),
                forall|k: int, x: Reg| 0 <= k < out@.len() ==>
                    (#[trigger] out@[k].1@.contains(x) <==> live_at(bb.insts@, bb.live_out@, n - k, x)),
            decreases idx,
        {
            let i = idx - 1;
            out.push((i, copy_regs(&live_now)));
            assert(bb.insts@[i as int].def_well_formed());
            let defs = bb.insts[i].get_reg_def();
            let uses = bb.insts[i].get_reg_use();
            set_remove_all(&mut live_now, &defs);
            set_insert_all(&mut live_now, &uses);
            proof {
                assert forall|x: Reg| #[trigger] live_now@.contains(x) <==> live_at(bb.insts@, bb.live_out@, i as int, x) by {
                    lemma_live_at_step(bb.insts@, bb.live_out@, i as int, x);
                }
            }
            idx = i;
        }
        out
    }
}

impl Func {
    /// For each block and each of its instructions, the registers live just
    /// after the instruction (from the exit sets of the blocks).
    pub fn build_live_out_for_insts(&self) -> (r: Vec<Vec<Vec<Reg>>>)
        requires
            self.wf(),
            forall|b: int| 0 <= b < self.blocks@.len() ==> is_set(#[trigger] self.blocks@[b].live_out@),
        ensures
            r@.len() == self.blocks@.len(),
            forall|b: int| 0 <= b < r@.len() ==> (#[trigger] r@[b])@.len() == self.blocks@[b].insts@.len(),
            forall|b: int, i: int| 0 <= b < r@.len() && 0 <= i < r@[b]@.len() ==> is_set(#[trigger] r@[b]@[i]@),
            forall|b: int, i: int, x: Reg| 0 <= b < r@.len() && 0 <= i < r@[b]@.len() ==>
                (#[trigger] r@[b]@[i]@.contains(x) <==> live_at(self.blocks@[b].insts@, self.blocks@[b].live_out@, i + 1, x)),
    {
        let mut r: Vec<Vec<Vec<Reg>>> = Vec::new();
        let mut b: usize = 0;
        while b < self.blocks.len()
            invariant
                self.wf(),
                forall|c: int| 0 <= c < self.blocks@.len() ==> is_set(#[trigger] self.blocks@[c].live_out@),
                b <= self.blocks@.len(),
                r@.len() == b,
                forall|c: int| 0 <= c < b ==> (#[trigger] r@[c])@.len() == self.blocks@[c].insts@.len(),
                forall|c: int, i: int| 0 <= c < b && 0 <= i < r@[c]@.len() ==> is_set(#[trigger] r@[c]@[i]@),
                forall|c: int, i: int, x: Reg| 0 <= c < b && 0 <= i < r@[c]@.len() ==>
                    (#[trigger] r@[c]@[i]@.contains(x) <==> live_at(self.blocks@[c].insts@, self.blocks@[c].live_out@, i + 1, x)),
            decreases self.blocks@.len() - b,
        {
            proof {
                assert forall|i: int| 0 <= i < self.blocks@[b as int].insts@.len() implies #[trigger] self.blocks@[b as int].insts@[i].def_well_formed() by {
                    assert(self.blocks@[b as int].insts@[i].def_well_formed());
                }
            }
            let lives = Func::analyse_inst_with_live_now_backorder(&self.blocks[b]);
            r.push(lives);
            b += 1;
        }
        r
    }
}

} // verus!
