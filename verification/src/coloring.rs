use std::collections::HashMap;
use vstd::prelude::*;
use crate::block::BB;
use crate::func::Func;
use crate::instrs::{LIRInst, Operand, replace_id_operand, replace_reg_operand};
use crate::operand::Reg;

verus! {

broadcast use vstd::std_specs::hash::group_hash_axioms;

/// What giving each register of `regs[..k]`, one after the other, its
/// colour makes of `ops`: a virtual register with a colour has every
/// operand with its id renamed to the colour.
pub open spec fn color_regs(ops: Seq<Operand>, regs: Seq<Reg>, colors: Map<i32, i32>, k: int) -> Seq<Operand>
    decreases k,
{
    if k <= 0 {
        ops
    } else {
        let prev = color_regs(ops, regs, colors, k - 1);
        let r = regs[k - 1];
        if !r.spec_is_physic() && colors.contains_key(r.id) {
            prev.map_values(|op: Operand| replace_id_operand(op, r.id, colors[r.id]))
        } else {
            prev
        }
    }
}

/// `new` is `old` with other operands and nothing else changed.
pub open spec fn same_but_operands(new: LIRInst, old: LIRInst) -> bool {
    &&& new.inst_type == old.inst_type
    &&& new.param_cnt == old.param_cnt
    &&& new.double == old.double
    &&& new.float == old.float
    &&& new.func_type == old.func_type
}

/// `new` holds the blocks of `old`, each with as many instructions, and
/// `step` relates each new instruction to the old one.
pub open spec fn each_inst(new: Seq<BB>, old: Seq<BB>, step: spec_fn(LIRInst, LIRInst) -> bool) -> bool {
    &&& new.len() == old.len()
    &&& forall|b: int| 0 <= b < new.len() ==> (#[trigger] new[b]).same_but_insts(&old[b])
        && new[b].insts@.len() == old[b].insts@.len()
    &&& forall|b: int, i: int| 0 <= b < new.len() && 0 <= i < new[b].insts@.len()
        ==> step(#[trigger] new[b].insts@[i], old[b].insts@[i])
}

/// The colouring of an instruction by `colors`.
pub open spec fn colored(colors: Map<i32, i32>) -> spec_fn(LIRInst, LIRInst) -> bool {
    |new: LIRInst, old: LIRInst| same_but_operands(new, old)
        && new.operands@ == color_regs(old.operands@, old.spec_regs(), colors, old.spec_regs().len() as int)
}

/// The renaming of `old_reg` to `new_reg` in an instruction.
pub open spec fn renamed(old_reg: Reg, new_reg: Reg) -> spec_fn(LIRInst, LIRInst) -> bool {
    |new: LIRInst, old: LIRInst| same_but_operands(new, old)
        && new.operands@ == old.operands@.map_values(|op: Operand| replace_reg_operand(op, old_reg, new_reg))
}

impl Func {
    /// Gives every virtual register that `colors` colours (by id) its
    /// colour, instruction by instruction, one register after the other.
    pub fn v2p(&mut self, colors: &HashMap<i32, i32>)
        requires
            old(self).wf(),
        ensures
            final(self).same_but_blocks(old(self)),
            each_inst(final(self).blocks@, old(self).blocks@, colored(colors@)),
    {
        let ghost blocks = self.blocks@;
        let nb = self.blocks.len();
        let mut b: usize = 0;
        while b < nb
            invariant
                blocks == old(self).blocks@,
                old(self).wf(),
                nb == blocks.len(),
                self.blocks@.len() == nb,
                self.same_but_blocks(old(self)),
                b <= nb,
                forall|c: int| b <= c < nb ==> #[trigger] self.blocks@[c] == blocks[c],
                forall|c: int| 0 <= c < b ==> (#[trigger] self.blocks@[c]).same_but_insts(&blocks[c])
                    && self.blocks@[c].insts@.len() == blocks[c].insts@.len(),
                forall|c: int, i: int| 0 <= c < b && 0 <= i < self.blocks@[c].insts@.len()
                    ==> colored(colors@)(#[trigger] self.blocks@[c].insts@[i], blocks[c].insts@[i]),
            decreases nb - b,
        {
            let ghost before = self.blocks@;
            let mut i: usize = 0;
            while i < self.blocks[b].insts.len()
                invariant
                    blocks == old(self).blocks@,
                    old(self).wf(),
                    nb == blocks.len(),
                    b < nb,
                    self.blocks@.len() == nb,
                    self.same_but_blocks(old(self)),
                    forall|c: int| 0 <= c < nb && c != b ==> #[trigger] self.blocks@[c] == before[c],
                    self.blocks@[b as int].same_but_insts(&blocks[b as int]),
                    self.blocks@[b as int].insts@.len() == blocks[b as int].insts@.len(),
                    i <= blocks[b as int].insts@.len(),
                    forall|j: int| i <= j < blocks[b as int].insts@.len() ==> #[trigger] self.blocks@[b as int].insts@[j] == blocks[b as int].insts@[j],
                    forall|j: int| 0 <= j < i ==> colored(colors@)(#[trigger] self.blocks@[b as int].insts@[j], blocks[b as int].insts@[j]),
                decreases blocks[b as int].insts@.len() - i,
            {
                let ghost orig = blocks[b as int].insts@[i as int];
                assert(orig.def_well_formed());
                let regs = self.blocks[b].insts[i].get_regs();
                let mut k: usize = 0;
                while k < regs.len()
                    invariant
                        blocks == old(self).blocks@,
                        nb == blocks.len(),
                        b < nb,
                        i < blocks[b as int].insts@.len(),
                        orig == blocks[b as int].insts@[i as int],
                        regs@ == orig.spec_regs(),
                        k <= regs@.len(),
                        self.blocks@.len() == nb,
                        self.same_but_blocks(old(self)),
                        forall|c: int| 0 <= c < nb && c != b ==> #[trigger] self.blocks@[c] == before[c],
                        self.blocks@[b as int].same_but_insts(&blocks[b as int]),
                        self.blocks@[b as int].insts@.len() == blocks[b as int].insts@.len(),
                        forall|j: int| i < j < blocks[b as int].insts@.len() ==> #[trigger] self.blocks@[b as int].insts@[j] == blocks[b as int].insts@[j],
                        forall|j: int| 0 <= j < i ==> colored(colors@)(#[trigger] self.blocks@[b as int].insts@[j], blocks[b as int].insts@[j]),
                        same_but_operands(self.blocks@[b as int].insts@[i as int], orig),
                        self.blocks@[b as int].insts@[i as int].operands@ == color_regs(orig.operands@, regs@, colors@, k as int),
                    decreases regs@.len() - k,
                {
                    let reg = regs[k];
                    if !reg.is_physic() {
                        match colors.get(&reg.get_id()) {
                            Some(color) => {
                                let c = *color;
                                self.blocks[b].insts[i].replace(reg.get_id(), c);
                            },
                            None => {},
                        }
                    }
                    proof {
                        assert(self.blocks@[b as int].insts@[i as int].operands@ =~= color_regs(orig.operands@, regs@, colors@, k + 1));
                    }
                    k += 1;
                }
                i += 1;
            }
            b += 1;
        }
    }

    /// Renames the register `old_reg` to `new_reg` in every instruction.
    pub fn replace_v_reg(&mut self, old_reg: &Reg, new_reg: &Reg)
        ensures
            final(self).same_but_blocks(old(self)),
            each_inst(final(self).blocks@, old(self).blocks@, renamed(*old_reg, *new_reg)),
    {
        let ghost blocks = self.blocks@;
        let nb = self.blocks.len();
        let mut b: usize = 0;
        while b < nb
            invariant
                blocks == old(self).blocks@,
                nb == blocks.len(),
                self.blocks@.len() == nb,
                self.same_but_blocks(old(self)),
                b <= nb,
                forall|c: int| b <= c < nb ==> #[trigger] self.blocks@[c] == blocks[c],
                forall|c: int| 0 <= c < b ==> (#[trigger] self.blocks@[c]).same_but_insts(&blocks[c])
                    && self.blocks@[c].insts@.len() == blocks[c].insts@.len(),
                forall|c: int, i: int| 0 <= c < b && 0 <= i < self.blocks@[c].insts@.len()
                    ==> renamed(*old_reg, *new_reg)(#[trigger] self.blocks@[c].insts@[i], blocks[c].insts@[i]),
            decreases nb - b,
        {
            let ghost before = self.blocks@;
            let mut i: usize = 0;
            while i < self.blocks[b].insts.len()
                invariant
                    blocks == old(self).blocks@,
                    nb == blocks.len(),
                    b < nb,
                    self.blocks@.len() == nb,
                    self.same_but_blocks(old(self)),
                    forall|c: int| 0 <= c < nb && c != b ==> #[trigger] self.blocks@[c] == before[c],
                    self.blocks@[b as int].same_but_insts(&blocks[b as int]),
                    self.blocks@[b as int].insts@.len() == blocks[b as int].insts@.len(),
                    i <= blocks[b as int].insts@.len(),
                    forall|j: int| i <= j < blocks[b as int].insts@.len() ==> #[trigger] self.blocks@[b as int].insts@[j] == blocks[b as int].insts@[j],
                    forall|j: int| 0 <= j < i ==> renamed(*old_reg, *new_reg)(#[trigger] self.blocks@[b as int].insts@[j], blocks[b as int].insts@[j]),
                decreases blocks[b as int].insts@.len() - i,
            {
                self.blocks[b].insts[i].replace_reg(old_reg, new_reg);
                i += 1;
            }
            b += 1;
        }
    }
}

} // verus!
