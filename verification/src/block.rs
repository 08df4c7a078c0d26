use std::collections::HashSet;
use vstd::prelude::*;
use vstd::string::StringExecFns;
use crate::instrs::{
    InstView, InstrsType, LIRInst, Operand, SingleOp, BinaryOp, insts_view, is_store_kind,
    new_inst, replace_id_operand, spilled_regs, with_double,
};
use crate::operand::{IImm, Reg, ScalarType, FLOAT_BASE, is_imm_12bs, spec_is_imm_12bs};
use crate::pool::BackendPool;
use crate::structs::StackSlot;
use crate::semantics::{exec_inst, exec_seq, wrap32, lemma_wrap32_add, lemma_wrap32_small, half32, mod32, low32, operand_val, half64, mod64, writes_within, lemma_writes_within_append};
use vstd::arithmetic::power2::{pow2, lemma_pow2_unfold, lemma_pow2_strictly_increases, lemma2_to64};

verus! {

broadcast use vstd::std_specs::hash::group_hash_axioms;

pub const ADDR_SIZE: i32 = 8;
pub const NUM_SIZE: i32 = 4;

/// A basic block of low-level instructions.
pub struct BB {
    pub label: String,
    pub func_label: String,
    pub showed: bool,
    pub insts: Vec<LIRInst>,
    /// Indices (in the function) of the predecessors.
    pub in_edge: Vec<usize>,
    /// Indices (in the function) of the successors.
    pub out_edge: Vec<usize>,
    pub live_use: Vec<Reg>,
    pub live_def: Vec<Reg>,
    pub live_in: Vec<Reg>,
    pub live_out: Vec<Reg>,
    /// (reg, born) -> (reg, die): born is -1 for a register live on entry,
    /// else the index of its definition; die is the index of its last use
    /// (the number of instructions when it is live on exit).
    pub reg_intervals: Vec<((Reg, i32), (Reg, i32))>,
    pub phis: Vec<LIRInst>,
}

/// The temporary register that the `i`th spilled register of an
/// instruction is loaded into: t0.. for ints, fs2.. for floats.
pub open spec fn spill_temp(r: Reg, i: int) -> Reg {
    if r.r_type == ScalarType::Int {
        Reg { id: (5 + i) as i32, r_type: ScalarType::Int }
    } else {
        Reg { id: (18 + FLOAT_BASE + i) as i32, r_type: ScalarType::Float }
    }
}

/// Whether `map` gives a slot to `r`.
pub open spec fn has_slot(map: Seq<(Reg, StackSlot)>, r: Reg) -> bool {
    exists|k: int| 0 <= k < map.len() && map[k].0 == r
}

/// The slot that `map` gives to `r` (the first entry for it).
pub open spec fn slot_of(map: Seq<(Reg, StackSlot)>, r: Reg) -> StackSlot
    decreases map.len(),
{
    if map.len() == 0 {
        StackSlot { pos: 0, size: 0 }
    } else if map[0].0 == r {
        map[0].1
    } else {
        slot_of(map.drop_first(), r)
    }
}

/// Load of the `i`th spilled register `r` into its temporary.
pub open spec fn spill_load(map: Seq<(Reg, StackSlot)>, r: Reg, i: int) -> InstView {
    with_double(new_inst(InstrsType::LoadFromStack, seq![Operand::Reg(spill_temp(r, i)), Operand::IImm(IImm { data: slot_of(map, r).pos })]))
}

/// Store of the temporary of the `i`th spilled register `r` back to its slot.
pub open spec fn spill_store(map: Seq<(Reg, StackSlot)>, r: Reg, i: int) -> InstView {
    with_double(new_inst(InstrsType::StoreToStack, seq![Operand::Reg(spill_temp(r, i)), Operand::IImm(IImm { data: slot_of(map, r).pos })]))
}

/// The loads of the first `k` spilled registers.
pub open spec fn spill_loads(map: Seq<(Reg, StackSlot)>, spills: Seq<Reg>, k: int) -> Seq<InstView>
    decreases k,
{
    if k <= 0 {
        Seq::empty()
    } else {
        spill_loads(map, spills, k - 1).push(spill_load(map, spills[k - 1], k - 1))
    }
}

/// The instruction with the ids of its first `k` spilled registers replaced
/// by those of their temporaries.
pub open spec fn spill_rename(inst: InstView, spills: Seq<Reg>, k: int) -> InstView
    decreases k,
{
    if k <= 0 {
        inst
    } else {
        let p = spill_rename(inst, spills, k - 1);
        InstView {
            operands: p.operands.map_values(
                |op: Operand| replace_id_operand(op, spills[k - 1].id, spill_temp(spills[k - 1], k - 1).id),
            ),
            ..p
        }
    }
}

/// Whether the `i`th spilled register is written back after `inst` (whose
/// destination is a register): unless that destination is a temporary other
/// than the `i`th one.
pub open spec fn spill_keeps_store(inst: InstView, i: int) -> bool {
    match inst.operands[0] {
        Operand::Reg(ireg) => !((ireg.r_type == ScalarType::Int && ireg.id != 5 + i) || (ireg.r_type
            == ScalarType::Float && ireg.id != 18 + FLOAT_BASE + i)),
        _ => true,
    }
}

/// The write-backs for the first `k` spilled registers.
pub open spec fn spill_stores(map: Seq<(Reg, StackSlot)>, inst: InstView, spills: Seq<Reg>, k: int) -> Seq<InstView>
    decreases k,
{
    if k <= 0 {
        Seq::empty()
    } else {
        let p = spill_stores(map, inst, spills, k - 1);
        if spill_keeps_store(inst, k - 1) {
            p.push(spill_store(map, spills[k - 1], k - 1))
        } else {
            p
        }
    }
}

/// What spill handling makes of one instruction: loads of the spilled
/// registers it names, the instruction over their temporaries, and, when it
/// defines a register, the write-backs.
pub open spec fn spill_expand(map: Seq<(Reg, StackSlot)>, ids: Set<i32>, inst: InstView) -> Seq<InstView> {
    let spills = spilled_regs(inst.operands, ids);
    if spills.len() == 0 {
        seq![inst]
    } else {
        let renamed = spill_rename(inst, spills, spills.len() as int);
        let tail = if renamed.operands[0] is Reg && !is_store_kind(renamed.inst_type) {
            spill_stores(map, renamed, spills, spills.len() as int)
        } else {
            Seq::empty()
        };
        spill_loads(map, spills, spills.len() as int) + seq![renamed] + tail
    }
}

/// Spill handling of the first `k` instructions.
pub open spec fn spill_block(map: Seq<(Reg, StackSlot)>, ids: Set<i32>, insts: Seq<InstView>, k: int) -> Seq<InstView>
    decreases k,
{
    if k <= 0 {
        Seq::empty()
    } else {
        spill_block(map, ids, insts, k - 1) + spill_expand(map, ids, insts[k - 1])
    }
}

proof fn lemma_spill_rename_len(inst: InstView, spills: Seq<Reg>, k: int)
    ensures
        spill_rename(inst, spills, k).operands.len() == inst.operands.len(),
    decreases k,
{
    if k > 0 {
        lemma_spill_rename_len(inst, spills, k - 1);
    }
}

proof fn lemma_spilled_first(ops: Seq<Operand>, ids: Set<i32>, r: Reg)
    requires
        ops.len() > 0,
        ops[0] == Operand::Reg(r),
        ids.contains(r.id),
    ensures
        spilled_regs(ops, ids).len() > 0,
        spilled_regs(ops, ids)[0] == r,
    decreases ops.len(),
{
    let p = spilled_regs(ops.drop_last(), ids);
    if ops.len() > 1 {
        assert(ops.drop_last()[0] == ops[0]);
        lemma_spilled_first(ops.drop_last(), ids, r);
        assert(p[0] == r);
        match ops.last() {
            Operand::Reg(x) => {
                if ids.contains(x.id) && !p.contains(x) {
                    assert(p.push(x)[0] == r);
                }
            },
            _ => {},
        }
    } else {
        assert(ops.drop_last().len() == 0);
        assert(p.len() == 0);
        assert(!p.contains(r));
        assert(ops.last() == Operand::Reg(r));
        assert(spilled_regs(ops, ids) == p.push(r));
    }
}

proof fn lemma_spilled_ids(ops: Seq<Operand>, ids: Set<i32>, k: int)
    requires
        0 <= k < spilled_regs(ops, ids).len(),
    ensures
        ids.contains(spilled_regs(ops, ids)[k].id),
    decreases ops.len(),
{
    let p = spilled_regs(ops.drop_last(), ids);
    if k < p.len() {
        lemma_spilled_ids(ops.drop_last(), ids, k);
    }
}

proof fn lemma_rename_first(inst: InstView, spills: Seq<Reg>, k: int)
    requires
        1 <= k <= spills.len(),
        inst.operands.len() > 0,
        inst.operands[0] == Operand::Reg(spills[0]),
        spills[0].r_type != ScalarType::Void,
        forall|j: int| 0 <= j < k ==> (#[trigger] spills[j]).id >= 64,
    ensures
        spill_rename(inst, spills, k).operands[0] == Operand::Reg(spill_temp(spills[0], 0)),
        spill_rename(inst, spills, k).inst_type == inst.inst_type,
    decreases k,
{
    lemma_spill_rename_len(inst, spills, k);
    lemma_spill_rename_len(inst, spills, k - 1);
    if k > 1 {
        lemma_rename_first(inst, spills, k - 1);
        assert(spills[k - 1].id >= 64);
    } else {
        assert(spill_rename(inst, spills, 0) == inst);
    }
}

proof fn lemma_stores_first(map: Seq<(Reg, StackSlot)>, inst: InstView, spills: Seq<Reg>, k: int)
    requires
        k >= 1,
        spill_keeps_store(inst, 0),
    ensures
        spill_stores(map, inst, spills, k).len() >= 1,
        spill_stores(map, inst, spills, k)[0] == spill_store(map, spills[0], 0),
    decreases k,
{
    if k > 1 {
        lemma_stores_first(map, inst, spills, k - 1);
    } else {
        assert(spill_stores(map, inst, spills, 0).len() == 0);
    }
}

proof fn lemma_loads_len(map: Seq<(Reg, StackSlot)>, spills: Seq<Reg>, k: int)
    requires
        k >= 0,
    ensures
        spill_loads(map, spills, k).len() == k,
    decreases k,
{
    if k > 0 {
        lemma_loads_len(map, spills, k - 1);
    }
}

proof fn lemma_spill_block_prefix(map: Seq<(Reg, StackSlot)>, ids: Set<i32>, insts: Seq<InstView>, i: int, n: int)
    requires
        0 <= i <= n,
    ensures
        spill_block(map, ids, insts, n).len() >= spill_block(map, ids, insts, i).len(),
        forall|p: int| 0 <= p < spill_block(map, ids, insts, i).len() ==>
            #[trigger] spill_block(map, ids, insts, n)[p] == spill_block(map, ids, insts, i)[p],
    decreases n,
{
    if n > i {
        lemma_spill_block_prefix(map, ids, insts, i, n - 1);
    }
}

proof fn lemma_expand_writes_back(map: Seq<(Reg, StackSlot)>, ids: Set<i32>, inst: InstView)
    requires
        forall|id: i32| #[trigger] ids.contains(id) ==> id >= 64,
        inst.operands.len() > 0,
        inst.operands[0] is Reg,
        ids.contains(inst.operands[0]->Reg_0.id),
        inst.operands[0]->Reg_0.r_type != ScalarType::Void,
        !is_store_kind(inst.inst_type),
    ensures
        ({
            let n = spilled_regs(inst.operands, ids).len() as int;
            let ex = spill_expand(map, ids, inst);
            &&& n >= 1
            &&& ex.len() >= n + 2
            &&& ex[n].inst_type == inst.inst_type
            &&& ex[n].operands.len() > 0
            &&& ex[n].operands[0] == Operand::Reg(spill_temp(inst.operands[0]->Reg_0, 0))
            &&& ex[n + 1] == spill_store(map, inst.operands[0]->Reg_0, 0)
        }),
{
    let r = inst.operands[0]->Reg_0;
    let spills = spilled_regs(inst.operands, ids);
    lemma_spilled_first(inst.operands, ids, r);
    let n = spills.len() as int;
    assert forall|j: int| 0 <= j < n implies (#[trigger] spills[j]).id >= 64 by {
        lemma_spilled_ids(inst.operands, ids, j);
    }
    lemma_rename_first(inst, spills, n);
    lemma_spill_rename_len(inst, spills, n);
    let renamed = spill_rename(inst, spills, n);
    assert(spill_keeps_store(renamed, 0));
    lemma_stores_first(map, renamed, spills, n);
    lemma_loads_len(map, spills, n);
    let loads = spill_loads(map, spills, n);
    let tail = spill_stores(map, renamed, spills, n);
    let ex = spill_expand(map, ids, inst);
    assert(ex == loads + seq![renamed] + tail);
    assert(ex[n] == renamed);
    assert(ex[n + 1] == tail[0]);
}

/// Law: after spill handling, every instruction that writes a spilled
/// register (any instruction other than a store whose destination is a
/// register) is rewritten to write a temporary, and is followed at once by
/// the store of that temporary (at full width) to the register's slot.
pub proof fn lemma_spilled_definition_is_written_back(map: Seq<(Reg, StackSlot)>, ids: Set<i32>, old: Seq<InstView>,
    new: Seq<InstView>, i: int)
    requires
        new == spill_block(map, ids, old, old.len() as int),
        forall|id: i32| #[trigger] ids.contains(id) ==> id >= 64,
        0 <= i < old.len(),
        old[i].operands.len() > 0,
        old[i].operands[0] is Reg,
        ids.contains(old[i].operands[0]->Reg_0.id),
        old[i].operands[0]->Reg_0.r_type != ScalarType::Void,
        old[i].inst_type != InstrsType::Store,
        old[i].inst_type != InstrsType::StoreToStack,
        old[i].inst_type != InstrsType::StoreParamToStack,
    ensures
        exists|p: int| 0 <= p && p + 1 < new.len()
            && (#[trigger] new[p]).inst_type == old[i].inst_type
            && new[p].operands.len() > 0
            && new[p].operands[0] is Reg
            && new[p + 1].inst_type == InstrsType::StoreToStack
            && new[p + 1].operands == seq![new[p].operands[0], Operand::IImm(IImm { data: slot_of(map, old[i].operands[0]->Reg_0).pos })]
            && new[p + 1].double,
{
    let inst = old[i];
    let r = inst.operands[0]->Reg_0;
    let n = spilled_regs(inst.operands, ids).len() as int;
    lemma_expand_writes_back(map, ids, inst);
    let ex = spill_expand(map, ids, inst);
    let t = spill_temp(r, 0);
    let pre = spill_block(map, ids, old, i);
    let upto = spill_block(map, ids, old, i + 1);
    assert(upto == pre + ex);
    lemma_spill_block_prefix(map, ids, old, i + 1, old.len() as int);
    let p = pre.len() + n;
    assert(new[p] == upto[p]);
    assert(new[p + 1] == upto[p + 1]);
    assert(upto[p] == ex[n]);
    assert(upto[p + 1] == ex[n + 1]);
    assert(new[p + 1].operands =~= seq![new[p].operands[0], Operand::IImm(IImm { data: slot_of(map, r).pos })]);
}

proof fn lemma_spilled_facts(ops: Seq<Operand>, ids: Set<i32>)
    ensures
        spilled_regs(ops, ids).len() <= ops.len(),
        spilled_regs(ops, ids).no_duplicates(),
        forall|j: int| 0 <= j < spilled_regs(ops, ids).len() ==>
            exists|k: int| 0 <= k < ops.len() && ops[k] == Operand::Reg(#[trigger] spilled_regs(ops, ids)[j]),
        forall|k: int| 0 <= k < ops.len() && ops[k] is Reg && ids.contains(ops[k]->Reg_0.id) ==>
            spilled_regs(ops, ids).contains(#[trigger] ops[k]->Reg_0),
    decreases ops.len(),
{
    if ops.len() > 0 {
        let d = ops.drop_last();
        lemma_spilled_facts(d, ids);
        let p = spilled_regs(d, ids);
        let s = spilled_regs(ops, ids);
        assert(ops[ops.len() - 1] == ops.last());
        assert forall|j: int| 0 <= j < s.len() implies
            exists|k: int| 0 <= k < ops.len() && ops[k] == Operand::Reg(#[trigger] s[j]) by {
            if j < p.len() {
                assert(s[j] == p[j]);
                let k = choose|k: int| 0 <= k < d.len() && d[k] == Operand::Reg(p[j]);
                assert(ops[k] == Operand::Reg(s[j]));
            } else {
                assert(ops[ops.len() - 1] == Operand::Reg(s[j]));
            }
        }
        assert forall|k: int| 0 <= k < ops.len() && ops[k] is Reg && ids.contains(ops[k]->Reg_0.id) implies
            s.contains(#[trigger] ops[k]->Reg_0) by {
            if k < d.len() {
                assert(d[k] == ops[k]);
                assert(p.contains(ops[k]->Reg_0));
                let j = choose|j: int| 0 <= j < p.len() && p[j] == ops[k]->Reg_0;
                assert(s[j] == p[j]);
            } else {
                if !p.contains(ops[k]->Reg_0) {
                    assert(s[p.len() as int] == ops[k]->Reg_0);
                } else {
                    assert(s == p);
                }
            }
        }
        match ops.last() {
            Operand::Reg(x) => {
                if ids.contains(x.id) && !p.contains(x) {
                    assert forall|a: int, b: int| 0 <= a < s.len() && 0 <= b < s.len() && a != b implies s[a] != s[b] by {
                        if a == p.len() {
                            assert(p.contains(s[b]) || b == a);
                        } else if b == p.len() {
                            assert(p.contains(s[a]) || b == a);
                        }
                    }
                }
            },
            _ => {},
        }
    }
}

proof fn lemma_loads_at(map: Seq<(Reg, StackSlot)>, spills: Seq<Reg>, k: int, j: int)
    requires
        0 <= j < k,
    ensures
        spill_loads(map, spills, k).len() == k,
        spill_loads(map, spills, k)[j] == spill_load(map, spills[j], j),
    decreases k,
{
    lemma_loads_len(map, spills, k);
    if j < k - 1 {
        lemma_loads_at(map, spills, k - 1, j);
    }
}

proof fn lemma_rename_operand(inst: InstView, spills: Seq<Reg>, m: int, k: int, j: int)
    requires
        0 <= m <= spills.len(),
        0 <= j < spills.len(),
        0 <= k < inst.operands.len(),
        inst.operands[k] == Operand::Reg(spills[j]),
        spills[j].r_type != ScalarType::Void,
        spills.len() <= 14,
        forall|a: int| 0 <= a < spills.len() ==> (#[trigger] spills[a]).id >= 64,
        forall|a: int| 0 <= a < spills.len() && a != j ==> (#[trigger] spills[a]).id != spills[j].id,
    ensures
        spill_rename(inst, spills, m).operands[k]
            == (if m <= j { Operand::Reg(spills[j]) } else { Operand::Reg(spill_temp(spills[j], j)) }),
        spill_rename(inst, spills, m).inst_type == inst.inst_type,
    decreases m,
{
    lemma_spill_rename_len(inst, spills, m);
    if m > 0 {
        lemma_rename_operand(inst, spills, m - 1, k, j);
        lemma_spill_rename_len(inst, spills, m - 1);
        assert(spills[m - 1].id >= 64);
    }
}

/// Law: after spill handling, every spilled register an instruction names
/// is read from its slot first: before the rewritten instruction stands a
/// full-width load, from the register's slot, of the very register that
/// the rewritten instruction names in its place.
pub proof fn lemma_spilled_operands_are_loaded(map: Seq<(Reg, StackSlot)>, ids: Set<i32>, old: Seq<InstView>,
    new: Seq<InstView>, i: int, k: int)
    requires
        new == spill_block(map, ids, old, old.len() as int),
        forall|id: i32| #[trigger] ids.contains(id) ==> id >= 64,
        0 <= i < old.len(),
        old[i].operands.len() <= 14,
        0 <= k < old[i].operands.len(),
        old[i].operands[k] is Reg,
        ids.contains(old[i].operands[k]->Reg_0.id),
        old[i].operands[k]->Reg_0.r_type != ScalarType::Void,
        forall|k1: int, k2: int| 0 <= k1 < old[i].operands.len() && 0 <= k2 < old[i].operands.len()
            && (#[trigger] old[i].operands[k1]) is Reg && (#[trigger] old[i].operands[k2]) is Reg
            && ids.contains(old[i].operands[k1]->Reg_0.id)
            && old[i].operands[k1]->Reg_0.id == old[i].operands[k2]->Reg_0.id
            ==> old[i].operands[k1] == old[i].operands[k2],
    ensures
        exists|q: int, p: int| 0 <= q < p < new.len()
            && (#[trigger] new[p]).inst_type == old[i].inst_type
            && new[p].operands.len() == old[i].operands.len()
            && (#[trigger] new[q]).inst_type == InstrsType::LoadFromStack
            && new[q].double
            && new[q].operands == seq![new[p].operands[k], Operand::IImm(IImm { data: slot_of(map, old[i].operands[k]->Reg_0).pos })],
{
    let inst = old[i];
    let r = inst.operands[k]->Reg_0;
    let spills = spilled_regs(inst.operands, ids);
    lemma_spilled_facts(inst.operands, ids);
    let n = spills.len() as int;
    assert(spills.contains(r));
    let j = choose|j: int| 0 <= j < n && spills[j] == r;
    assert forall|a: int| 0 <= a < n implies (#[trigger] spills[a]).id >= 64 by {
        lemma_spilled_ids(inst.operands, ids, a);
    }
    assert forall|a: int| 0 <= a < n && a != j implies (#[trigger] spills[a]).id != spills[j].id by {
        let ka = choose|ka: int| 0 <= ka < inst.operands.len() && inst.operands[ka] == Operand::Reg(spills[a]);
        lemma_spilled_ids(inst.operands, ids, a);
        if spills[a].id == spills[j].id {
            assert(inst.operands[ka] == inst.operands[k]);
        }
    }
    lemma_rename_operand(inst, spills, n, k, j);
    lemma_spill_rename_len(inst, spills, n);
    lemma_loads_at(map, spills, n, j);
    let renamed = spill_rename(inst, spills, n);
    let loads = spill_loads(map, spills, n);
    let tail = if renamed.operands[0] is Reg && !is_store_kind(renamed.inst_type) {
        spill_stores(map, renamed, spills, n)
    } else {
        Seq::empty()
    };
    let ex = spill_expand(map, ids, inst);
    assert(ex == loads + seq![renamed] + tail);
    assert(ex[j] == spill_load(map, r, j));
    assert(ex[n] == renamed);
    let pre = spill_block(map, ids, old, i);
    let upto = spill_block(map, ids, old, i + 1);
    assert(upto == pre + ex);
    lemma_spill_block_prefix(map, ids, old, i + 1, old.len() as int);
    let p = pre.len() + n;
    let q = pre.len() + j;
    assert(new[p] == upto[p]);
    assert(new[q] == upto[q]);
    assert(upto[p] == ex[n]);
    assert(upto[q] == ex[j]);
    assert(new[q].operands =~= seq![new[p].operands[k], Operand::IImm(IImm { data: slot_of(map, r).pos })]);
}

/// The spilled registers of `inst` all have a slot and an int or float type.
pub open spec fn spill_ready(map: Seq<(Reg, StackSlot)>, ids: Set<i32>, inst: InstView) -> bool {
    forall|k: int|
        0 <= k < spilled_regs(inst.operands, ids).len() ==> #[trigger] has_slot(map, spilled_regs(inst.operands, ids)[k])
            && spilled_regs(inst.operands, ids)[k].r_type != ScalarType::Void
}

/// The slot of `r` in `map`.
pub fn find_slot(map: &Vec<(Reg, StackSlot)>, r: &Reg) -> (s: Option<StackSlot>)
    ensures
        s is Some <==> has_slot(map@, *r),
        s matches Some(slot) ==> slot == slot_of(map@, *r),
{
    let mut i: usize = 0;
    assert(map@.subrange(0, map@.len() as int) =~= map@);
    while i < map.len()
        invariant
            i <= map@.len(),
            forall|k: int| 0 <= k < i ==> map@[k].0 != *r,
            slot_of(map@, *r) == slot_of(map@.subrange(i as int, map@.len() as int), *r),
        decreases map@.len() - i,
    {
        proof {
            assert(map@.subrange(i as int, map@.len() as int).drop_first() =~= map@.subrange(i + 1, map@.len() as int));
        }
        if map[i].0 == *r {
            return Some(map[i].1);
        }
        i += 1;
    }
    None
}

/// Whether `x` has at most one bit set: for `x > i32::MIN`, `x` is 0 or a
/// power of two.
pub open spec fn spec_is_opt_num(x: i32) -> bool {
    x & ((x - 1) as i32) == 0
}

/// `spec_is_opt_num` of an integer of the 32-bit range.
pub open spec fn opt_num_i(x: int) -> bool {
    spec_is_opt_num(x as i32)
}

/// The base-2 logarithm of `x`, rounded down (0 for `x <= 1`).
pub open spec fn ilog2(x: int) -> nat
    decreases x,
{
    if x <= 1 {
        0
    } else {
        1 + ilog2(x / 2)
    }
}

pub open spec fn abs_i(x: int) -> int {
    if x < 0 { -x } else { x }
}

proof fn lemma_opt_num_half_bv(x: i32)
    by (bit_vector)
    requires
        x > 1,
        x & ((x - 1) as i32) == 0,
    ensures
        (x >> 1) & (((x >> 1) - 1) as i32) == 0,
        (x >> 1) > 0,
        (x >> 1) + (x >> 1) == x,
{
}

proof fn lemma_opt_num_half(x: i32)
    requires
        x > 1,
        spec_is_opt_num(x),
    ensures
        spec_is_opt_num(x >> 1),
        x >> 1 > 0,
        x >> 1 == x / 2,
        (x >> 1) + (x >> 1) == x,
{
    lemma_opt_num_half_bv(x);
}

/// A positive `x` with at most one bit set is `2^ilog2(x)`.
pub proof fn lemma_opt_num_pow2(x: i32)
    requires
        x > 0,
        spec_is_opt_num(x),
    ensures
        pow2(ilog2(x as int)) == x,
        ilog2(x as int) < 31,
    decreases x,
{
    if x > 1 {
        lemma_opt_num_half(x);
        let h = x >> 1;
        lemma_opt_num_pow2(h);
        let k = ilog2(h as int);
        assert(ilog2(x as int) == k + 1);
        lemma_pow2_unfold(k + 1);
        lemma2_to64();
        if ilog2(x as int) >= 31 {
            assert(ilog2(h as int) == 30);
            assert(h == 0x4000_0000);
            assert(false);
        }
    } else {
        lemma2_to64();
    }
}

proof fn lemma_shl_pow2_opt_num(p: u32)
    by (bit_vector)
    requires
        p < 31,
    ensures
        ((1u32 << p) as i32) & ((((1u32 << p) as i32) - 1) as i32) == 0,
        ((1u32 << p) as i32) > 0,
{
}

/// `2^p` has one bit set.
pub proof fn lemma_pow2_opt_num(p: nat)
    requires
        p < 31,
    ensures
        opt_num_i(pow2(p) as int),
        0 < pow2(p) < 0x8000_0000,
{
    vstd::bits::lemma_u32_pow2_no_overflow(p);
    vstd::bits::lemma_u32_shl_is_mul(1u32, p as u32);
    lemma_shl_pow2_opt_num(p as u32);
    lemma_pow2_strictly_increases(p, 31);
    lemma2_to64();
}

pub fn is_opt_num(imm: i32) -> (r: bool)
    requires
        imm > i32::MIN,
    ensures
        r == spec_is_opt_num(imm),
{
    (imm & (imm - 1)) == 0
}

/// The base-2 logarithm of a power of two.
pub fn log2(imm: i32) -> (r: i32)
    requires
        imm > 0,
        spec_is_opt_num(imm),
    ensures
        r == ilog2(imm as int),
        pow2(r as nat) == imm,
        0 <= r < 31,
{
    proof { lemma_opt_num_pow2(imm); }
    let mut res: i32 = 0;
    let mut tmp: i32 = imm;
    while tmp != 1
        invariant
            tmp > 0,
            spec_is_opt_num(tmp),
            ilog2(imm as int) == res + ilog2(tmp as int),
            ilog2(imm as int) < 31,
            0 <= res,
        decreases tmp,
    {
        proof { lemma_opt_num_half(tmp); }
        tmp >>= 1;
        res += 1;
    }
    res
}

/// Whether multiplication by `imm` may be strength-reduced (it is not).
pub fn is_opt_mul(imm: i32) -> (r: bool)
    ensures
        !r,
{
    false
}

/// `2^31 - 1 - 2^31 mod d`: the largest value below 2^31 that is `d - 1` modulo `d`.
pub open spec fn magic_anc(d: int) -> int {
    0x8000_0000int - 1 - 0x8000_0000int % d
}

/// Whether the search of the magic number for division by `d` stops at `p`:
/// with `q1, r1` the quotient and remainder of `2^p` by `anc` and `r2` that
/// of `2^p` by `d`, unless `q1 < d - r2`, or `q1 == d - r2` with `r1 == 0`.
pub open spec fn magic_exit(d: int, p: nat) -> bool {
    let anc = magic_anc(d);
    let q1 = pow2(p) as int / anc;
    let r1 = pow2(p) as int % anc;
    let delta = d - pow2(p) as int % d;
    !(q1 < delta || (q1 == delta && r1 == 0))
}

/// The first `p` from `p0` at which the search stops.
pub open spec fn magic_p(d: int, p: nat) -> nat
    decreases 64 - p,
{
    if p >= 64 || magic_exit(d, p) {
        p
    } else {
        magic_p(d, p + 1)
    }
}

/// The magic number and shift of signed division by `abs` (negated for a
/// negative divisor): with `p` where the search stops,
/// `(±(2^p / abs + 1), p - 32)`.
pub open spec fn spec_magic(is_neg: bool, abs: int) -> (int, int) {
    let p = magic_p(abs, 32);
    let m = pow2(p) as int / abs + 1;
    (if is_neg { -m } else { m }, p - 32)
}

proof fn lemma_div_step(x: int, d: int, q: int, r: int)
    requires
        d > 0,
        x == q * d + r,
        0 <= r < d,
    ensures
        2 * x == (if 2 * r >= d { 2 * q + 1 } else { 2 * q }) * d + (if 2 * r >= d { 2 * r - d } else { 2 * r }),
        (2 * x) / d == (if 2 * r >= d { 2 * q + 1 } else { 2 * q }),
        (2 * x) % d == (if 2 * r >= d { 2 * r - d } else { 2 * r }),
{
    let q2 = if 2 * r >= d { 2 * q + 1 } else { 2 * q };
    let r2 = if 2 * r >= d { 2 * r - d } else { 2 * r };
    assert(2 * x == q2 * d + r2) by (nonlinear_arith)
        requires
            x == q * d + r,
            q2 == (if 2 * r >= d { 2 * q + 1 } else { 2 * q }),
            r2 == (if 2 * r >= d { 2 * r - d } else { 2 * r }),
    ;
    vstd::arithmetic::div_mod::lemma_fundamental_div_mod_converse(2 * x, d, q2, r2);
}

/// The magic number and shift for signed division by `abs` (Hacker's
/// Delight): the quotient of `n` by `abs` is `(n * magic) >> (32 + shift)`,
/// plus one for a negative `n`.
pub fn get_magic(is_neg: bool, abs: i32) -> (r: (i64, i32))
    requires
        abs >= 2,
    ensures
        magic_p(abs as int, 32) <= 62,
        r.0 as int == spec_magic(is_neg, abs as int).0,
        r.1 as int == spec_magic(is_neg, abs as int).1,
{
    let ghost d = abs as int;
    let two31: u32 = 0x8000_0000;
    let uabs: u32 = abs as u32;
    let mut p: i32 = 31;
    let mut delta: u32;
    proof {
        assert(uabs >> 31 == 0u32) by (bit_vector) requires uabs < 0x8000_0000u32;
    }
    let t: u32 = two31 + (uabs >> 31);
    proof {
        lemma2_to64();
        vstd::arithmetic::div_mod::lemma_fundamental_div_mod(0x8000_0000int, d);
        assert(0x8000_0000int % d < d);
        assert(magic_anc(d) >= 1);
    }
    let anc: u32 = t - 1 - t % uabs;
    let ghost a = anc as int;
    assert(a == magic_anc(d));
    let mut q1: u32 = two31 / anc;
    let mut q2: u32 = two31 / uabs;
    proof {
        vstd::arithmetic::div_mod::lemma_fundamental_div_mod(0x8000_0000int, a);
        vstd::arithmetic::div_mod::lemma_fundamental_div_mod(0x8000_0000int, d);
        assert(q1 * a <= 0x8000_0000) by (nonlinear_arith) requires q1 == 0x8000_0000int / a, a >= 1;
        assert(q2 * d <= 0x8000_0000) by (nonlinear_arith) requires q2 == 0x8000_0000int / d, d >= 2;
        assert(q2 <= 0x4000_0000) by (nonlinear_arith) requires q2 == 0x8000_0000int / d, d >= 2;
        assert(a >= 0x3fff_ffff) by (nonlinear_arith)
            requires
                a == 0x8000_0000int - 1 - 0x8000_0000int % d,
                0x8000_0000int == d * (0x8000_0000int / d) + 0x8000_0000int % d,
                0 <= 0x8000_0000int % d < d,
                2 <= d < 0x8000_0000,
        {
            if d <= 0x4000_0000 {
            } else {
                assert(0x8000_0000int / d >= 1);
                assert(d * (0x8000_0000int / d) >= d);
            }
        }
        assert(q1 <= 2) by (nonlinear_arith) requires q1 == 0x8000_0000int / a, a >= 0x3fff_ffff;
    }
    let mut r1: u32 = two31 - q1 * anc;
    let mut r2: u32 = two31 - q2 * uabs;
    proof {
        lemma2_to64();
        vstd::arithmetic::div_mod::lemma_fundamental_div_mod(0x8000_0000int, a);
        vstd::arithmetic::div_mod::lemma_fundamental_div_mod(0x8000_0000int, d);
        assert(r1 as int == 0x8000_0000int % a) by (nonlinear_arith)
            requires r1 == 0x8000_0000int - q1 * a, q1 == 0x8000_0000int / a, 0x8000_0000int == a * (0x8000_0000int / a) + 0x8000_0000int % a;
        assert(r2 as int == 0x8000_0000int % d) by (nonlinear_arith)
            requires r2 == 0x8000_0000int - q2 * d, q2 == 0x8000_0000int / d, 0x8000_0000int == d * (0x8000_0000int / d) + 0x8000_0000int % d;
        vstd::arithmetic::div_mod::lemma_mod_bound(0x8000_0000int, a);
        vstd::arithmetic::div_mod::lemma_mod_bound(0x8000_0000int, d);
        if d == 2 {
            assert(q2 == 0x4000_0000);
            assert(a == 0x7fff_ffff);
        } else {
            assert(q2 <= 0x2aaa_aaaa) by (nonlinear_arith) requires q2 == 0x8000_0000int / d, d >= 3;
        }
    }
    loop
        invariant_except_break
            q1 as int == pow2(p as nat) as int / a,
            r1 as int == pow2(p as nat) as int % a,
            q2 as int == pow2(p as nat) as int / d,
            r2 as int == pow2(p as nat) as int % d,
            31 <= p <= 61,
            q2 as int <= a,
            a == 0x7fff_ffff ==> r2 == 0,
            q1 < 0x8000_0000,
            p == 31 || !magic_exit(d, p as nat),
            magic_p(d, 32) == magic_p(d, (p + 1) as nat),
        invariant
            a == magic_anc(d),
            1 <= a < 0x8000_0000,
            2 <= d < 0x8000_0000,
            uabs == d,
            anc == a,
        ensures
            32 <= p <= 62,
            magic_exit(d, p as nat),
            magic_p(d, 32) == p,
            q2 as int == pow2(p as nat) as int / d,
            q2 < 0xffff_ffff,
        decreases 62 - p,
    {
        proof {
            vstd::arithmetic::power2::lemma_pow2_unfold((p + 1) as nat);
            vstd::arithmetic::div_mod::lemma_fundamental_div_mod(pow2(p as nat) as int, a);
            vstd::arithmetic::div_mod::lemma_fundamental_div_mod(pow2(p as nat) as int, d);
            lemma_div_step(pow2(p as nat) as int, a, q1 as int, r1 as int);
            lemma_div_step(pow2(p as nat) as int, d, q2 as int, r2 as int);
        }
        let ghost q2_old = q2 as int;
        let ghost r2_old = r2 as int;
        p += 1;
        q1 *= 2;
        r1 *= 2;
        if r1 >= anc {
            q1 += 1;
            r1 -= anc;
        }
        q2 *= 2;
        r2 *= 2;
        if r2 >= uabs {
            q2 += 1;
            r2 -= uabs;
        }
        delta = uabs - r2;
        assert(q2 < 0xffff_ffff) by {
            if a == 0x7fff_ffff {
                assert(r2_old == 0);
            }
        }
        assert(magic_exit(d, p as nat) == !(q1 < delta || (q1 == delta && r1 == 0)));
        if !(q1 < delta || (q1 == delta && r1 == 0)) {
            break;
        }
        proof {
            let x = pow2(p as nat) as int;
            vstd::arithmetic::div_mod::lemma_fundamental_div_mod(x, a);
            vstd::arithmetic::div_mod::lemma_fundamental_div_mod(x, d);
            if q1 < delta {
                assert(x <= d * a) by (nonlinear_arith)
                    requires x == q1 * a + r1, r1 < a, q1 + 1 <= d, a >= 1;
                assert(q2 < a) by (nonlinear_arith)
                    requires x == q2 * d + r2, 0 <= r2 < d, x == q1 * a + r1, 0 <= r1 < a, q1 + 1 <= d - r2, d >= 2, a >= 1, q1 >= 0, q2 >= 0;
            } else {
                assert(x <= d * a) by (nonlinear_arith)
                    requires x == q1 * a, q1 == d - r2, r2 >= 0, a >= 1;
                assert(q2 <= a) by (nonlinear_arith)
                    requires x == q2 * d + r2, r2 >= 0, x == q1 * a, q1 == d - r2, d >= 2, a >= 1;
            }
            assert(d * a < 0x4000_0000_0000_0000) by (nonlinear_arith)
                requires d < 0x8000_0000, a < 0x8000_0000, d >= 0, a >= 0;
            if p >= 62 {
                if p > 62 {
                    vstd::arithmetic::power2::lemma_pow2_strictly_increases(62, p as nat);
                }
                vstd::arithmetic::power2::lemma2_to64_rest();
                assert(false);
            }
            assert(magic_p(d, p as nat) == magic_p(d, (p + 1) as nat));
        }
    }
    let mut magic = (q2 + 1) as i64;
    if is_neg {
        magic = -magic;
    }
    let shift = p - 32;
    (magic, shift)
}

/// The decimal digits of `n`.
pub open spec fn dec_digits(n: nat) -> Seq<char>
    decreases n,
{
    let c = (('0' as int) + n % 10) as char;
    if n < 10 {
        seq![c]
    } else {
        dec_digits(n / 10).push(c)
    }
}

/// The decimal text of `v`.
pub open spec fn decimal(v: int) -> Seq<char> {
    if v < 0 {
        seq!['-'] + dec_digits((-v) as nat)
    } else {
        dec_digits(v as nat)
    }
}

/// The text of the digit `d`.
fn digit_text(d: u64) -> (r: &'static str)
    requires
        d < 10,
    ensures
        r@ == seq![(('0' as int) + d) as char],
{
    proof {
        reveal_strlit("0");
        reveal_strlit("1");
        reveal_strlit("2");
        reveal_strlit("3");
        reveal_strlit("4");
        reveal_strlit("5");
        reveal_strlit("6");
        reveal_strlit("7");
        reveal_strlit("8");
        reveal_strlit("9");
    }
    match d {
        0 => "0",
        1 => "1",
        2 => "2",
        3 => "3",
        4 => "4",
        5 => "5",
        6 => "6",
        7 => "7",
        8 => "8",
        _ => "9",
    }
}

/// Appends the decimal digits of `n` to `s`.
fn push_digits(s: &mut String, n: u64)
    ensures
        final(s)@ == old(s)@ + dec_digits(n as nat),
    decreases n,
{
    if n >= 10 {
        push_digits(s, n / 10);
    }
    let ghost mid = s@;
    s.append(digit_text(n % 10));
    proof {
        if n >= 10 {
            assert(dec_digits(n as nat) == dec_digits((n / 10) as nat).push((('0' as int) + n % 10) as char));
            assert(s@ =~= old(s)@ + dec_digits(n as nat));
        } else {
            assert(s@ =~= old(s)@ + dec_digits(n as nat));
        }
    }
}

/// `v` in decimal, with a leading `-` when negative.
pub(crate) fn i64_to_string(v: i64) -> (s: String)
    ensures
        s@ == decimal(v as int),
{
    let n: u64 = if v < 0 { (-(v as i128)) as u64 } else { v as u64 };
    let mut s = if v < 0 { String::from_str("-") } else { String::new() };
    proof {
        reveal_strlit("-");
    }
    push_digits(&mut s, n);
    proof {
        if v < 0 {
            assert(s@ =~= seq!['-'] + dec_digits((-v) as nat));
        } else {
            assert(s@ =~= dec_digits(v as nat));
        }
    }
    s
}

/// What `resolve_opt_div` emits for `dst = src / imm` (signed, truncating),
/// fresh registers from `f`; the magic number is loaded from `magic_label`.
/// For `|imm| >= 2` the quotient by `|imm|` is computed, then negated when
/// `imm` is negative.
pub open spec fn div_seq(dst: Operand, src: Operand, imm: int, f: int, magic_label: Operand) -> Seq<InstView> {
    let abs = abs_i(imm);
    if abs == 1 {
        if imm < 0 {
            seq![new_inst(InstrsType::OpReg(SingleOp::Neg), seq![dst, src])]
        } else {
            seq![new_inst(InstrsType::OpReg(SingleOp::Mv), seq![dst, src])]
        }
    } else if opt_num_i(abs) {
        div_pow2_seq(dst, src, ilog2(abs) as int, f) + neg_tail(dst, imm < 0)
    } else {
        div_magic_seq(dst, src, abs, f, magic_label) + neg_tail(dst, imm < 0)
    }
}

/// `dst = src / 2^bits` (signed, truncating, `bits >= 1`): the dividend is
/// biased by `2^bits - 1` when negative, then shifted.
pub open spec fn div_pow2_seq(dst: Operand, src: Operand, bits: int, f: int) -> Seq<InstView> {
    let tmp = op_reg(int_reg(f));
    let tmp2 = op_reg(int_reg(f + 1));
    let tmp3 = op_reg(int_reg(f + 2));
    seq![
        new_inst(InstrsType::Binary(BinaryOp::Sar), seq![tmp, src, op_imm(bits - 1)]),
        new_inst(InstrsType::Binary(BinaryOp::Shr), seq![tmp2, tmp, op_imm(32 - bits)]),
        new_inst(InstrsType::Binary(BinaryOp::Add), seq![tmp3, tmp2, src]),
        new_inst(InstrsType::Binary(BinaryOp::Sar), seq![dst, tmp3, op_imm(bits)]),
    ]
}

/// `dst = src / abs` (signed, truncating, `abs >= 2` not a power of two)
/// through the magic number of `abs`: the high half of the 64-bit product,
/// shifted, plus one for a negative dividend.
pub open spec fn div_magic_seq(dst: Operand, src: Operand, abs: int, f: int, magic_label: Operand) -> Seq<InstView> {
    let shift = spec_magic(false, abs).1;
    let tmp = op_reg(int_reg(f));
    let tmp2 = op_reg(int_reg(f + 1));
    let tmp3 = op_reg(int_reg(f + 2));
    let tmp4 = op_reg(int_reg(f + 3));
    let tmp5 = op_reg(int_reg(f + 4));
    seq![
        new_inst(InstrsType::OpReg(SingleOp::Li), seq![tmp, magic_label]),
        with_double(new_inst(InstrsType::Binary(BinaryOp::Mul), seq![tmp2, tmp, src])),
        with_double(new_inst(InstrsType::Binary(BinaryOp::Shr), seq![tmp3, tmp2, op_imm(32)])),
        new_inst(InstrsType::Binary(BinaryOp::Sar), seq![tmp4, tmp3, op_imm(shift)]),
        new_inst(InstrsType::Binary(BinaryOp::Shr), seq![tmp5, src, op_imm(31)]),
        new_inst(InstrsType::Binary(BinaryOp::Add), seq![dst, tmp5, tmp4]),
    ]
}

/// Whether division by `imm` goes through a magic number.
pub open spec fn uses_magic(imm: int) -> bool {
    abs_i(imm) != 1 && !opt_num_i(abs_i(imm))
}

/// How many fresh registers `resolve_opt_div` takes.
pub open spec fn div_fresh(imm: int) -> int {
    let abs = abs_i(imm);
    if abs == 1 { 0 } else if opt_num_i(abs) { 3 } else { 5 }
}

/// The label that holds the magic number of division by `imm`, in decimal.
pub open spec fn is_magic_label(imm: int, op: Operand) -> bool {
    op is Addr && op->Addr_0@ == decimal(spec_magic(false, abs_i(imm)).0)
}

/// What `resolve_iimm` gives and emits for `imm`, fresh registers from `f`:
/// the immediate itself when it fits 12 bits, else a register loaded with it.
pub open spec fn iimm_operand(imm: int, f: int) -> Operand {
    if spec_is_imm_12bs(imm) { op_imm(imm) } else { op_reg(int_reg(f)) }
}

pub open spec fn iimm_seq(imm: int, f: int) -> Seq<InstView> {
    if spec_is_imm_12bs(imm) {
        Seq::empty()
    } else {
        seq![new_inst(InstrsType::OpReg(SingleOp::Li), seq![op_reg(int_reg(f)), op_imm(imm)])]
    }
}

pub open spec fn iimm_fresh(imm: int) -> int {
    if spec_is_imm_12bs(imm) { 0 } else { 1 }
}

/// What `resolve_opt_rem` emits for `dst = lhs % imm` (signed), fresh
/// registers from `f`, the magic number (if any) from `magic_label`.
pub open spec fn rem_seq(dst: Operand, lhs: Operand, imm: int, f: int, magic_label: Operand) -> Seq<InstView> {
    let abs = abs_i(imm);
    if opt_num_i(abs) {
        let k = ilog2(abs) as int;
        let tmp = op_reg(int_reg(f));
        let (head, g) = if k == 1 {
            (seq![new_inst(InstrsType::Binary(BinaryOp::Shr), seq![tmp, lhs, op_imm(32 - k)])], f + 1)
        } else {
            let tmp2 = op_reg(int_reg(f + 1));
            (seq![
                new_inst(InstrsType::Binary(BinaryOp::Sar), seq![tmp2, lhs, op_imm(k - 1)]),
                new_inst(InstrsType::Binary(BinaryOp::Shr), seq![tmp, tmp2, op_imm(32 - k)]),
            ], f + 2)
        };
        let tmp3 = op_reg(int_reg(g));
        let abs_reg = iimm_operand(abs - 1, g + 1);
        let h = g + 1 + iimm_fresh(abs - 1);
        let tmp4 = op_reg(int_reg(h));
        head + seq![new_inst(InstrsType::Binary(BinaryOp::Add), seq![tmp3, lhs, tmp])] + iimm_seq(abs - 1, g + 1) + seq![
            new_inst(InstrsType::Binary(BinaryOp::And), seq![tmp4, tmp3, abs_reg]),
            new_inst(InstrsType::Binary(BinaryOp::Sub), seq![dst, tmp4, tmp]),
        ]
    } else {
        let tmp1 = op_reg(int_reg(f));
        let tmp2 = op_reg(int_reg(f + 1));
        div_seq(tmp1, lhs, imm, f + 2, magic_label) + mul_seq(tmp2, tmp1, imm, f + 2 + div_fresh(imm)) + seq![
            new_inst(InstrsType::Binary(BinaryOp::Sub), seq![dst, lhs, tmp2]),
        ]
    }
}

pub open spec fn rem_fresh(imm: int) -> int {
    let abs = abs_i(imm);
    if opt_num_i(abs) {
        (if ilog2(abs) == 1 { 1int } else { 2int }) + 1 + iimm_fresh(abs - 1) + 1
    } else {
        2 + div_fresh(imm) + mul_fresh(imm)
    }
}

/// The search of `find_opt_mul` from power `p`: the first power `p` with
/// `2^p <= abs` (and `abs + 2^p` in range) such that `abs + 2^p` or
/// `abs - 2^p` is a power of two. Gives (power, that power of two, whether it
/// is `abs + 2^p`, whether one was found).
pub open spec fn opt_mul_search(abs: int, p: nat) -> (nat, int, bool, bool)
    decreases 31 - p,
{
    if p >= 31 || pow2(p) > abs || abs + pow2(p) > 0x7fff_ffff {
        (p, 0, false, false)
    } else if opt_num_i(abs + pow2(p)) {
        (p, abs + pow2(p), true, true)
    } else if opt_num_i(abs - pow2(p)) {
        (p, abs - pow2(p), false, true)
    } else {
        opt_mul_search(abs, p + 1)
    }
}

/// What a successful search found.
pub proof fn lemma_opt_mul_search_found(abs: int, p: nat)
    requires
        opt_mul_search(abs, p).3,
    ensures
        ({
            let (power, opt_abs, do_add, _) = opt_mul_search(abs, p);
            &&& power < 31
            &&& pow2(power) <= abs
            &&& abs + pow2(power) <= 0x7fff_ffff
            &&& opt_abs == if do_add { abs + pow2(power) } else { abs - pow2(power) }
            &&& opt_num_i(opt_abs)
        }),
    decreases 31 - p,
{
    if !(p >= 31 || pow2(p) > abs || abs + pow2(p) > 0x7fff_ffff) && !opt_num_i(abs + pow2(p)) && !opt_num_i(abs - pow2(p)) {
        lemma_opt_mul_search_found(abs, p + 1);
    }
}

pub open spec fn op_reg(r: Reg) -> Operand {
    Operand::Reg(r)
}

pub open spec fn op_imm(v: int) -> Operand {
    Operand::IImm(IImm { data: v as i32 })
}

pub open spec fn int_reg(id: int) -> Reg {
    Reg { id: id as i32, r_type: ScalarType::Int }
}

pub open spec fn neg_tail(dst: Operand, neg: bool) -> Seq<InstView> {
    if neg {
        seq![new_inst(InstrsType::OpReg(SingleOp::Neg), seq![dst, dst])]
    } else {
        Seq::empty()
    }
}

/// What `find_opt_mul` emits for `dst = src * imm`, fresh registers from `f`.
pub open spec fn find_mul_seq(imm: int, dst: Operand, src: Operand, f: int) -> Seq<InstView> {
    let abs = abs_i(imm);
    let (power, opt_abs, do_add, can_opt) = opt_mul_search(abs, 0);
    let temp = op_reg(int_reg(f));
    if !can_opt {
        seq![
            new_inst(InstrsType::OpReg(SingleOp::Li), seq![temp, op_imm(imm)]),
            new_inst(InstrsType::Binary(BinaryOp::Mul), seq![dst, src, temp]),
        ]
    } else {
        let tmp2 = op_reg(int_reg(f + 1));
        let kind = if do_add { InstrsType::Binary(BinaryOp::Sub) } else { InstrsType::Binary(BinaryOp::Add) };
        seq![
            new_inst(InstrsType::Binary(BinaryOp::Shl), seq![temp, src, op_imm(power as int)]),
            new_inst(InstrsType::Binary(BinaryOp::Shl), seq![tmp2, src, op_imm(ilog2(opt_abs) as int)]),
            new_inst(kind, seq![dst, tmp2, temp]),
        ] + neg_tail(dst, imm < 0)
    }
}

/// How many fresh registers `find_opt_mul` takes.
pub open spec fn find_mul_fresh(imm: int) -> int {
    if opt_mul_search(abs_i(imm), 0).3 { 2 } else { 1 }
}

/// What `resolve_opt_mul` emits for `dst = src * imm`, fresh registers from `f`.
pub open spec fn mul_seq(dst: Operand, src: Operand, imm: int, f: int) -> Seq<InstView> {
    let abs = abs_i(imm);
    let neg = imm < 0;
    if abs == 0 {
        seq![new_inst(InstrsType::OpReg(SingleOp::Mv), seq![dst, op_imm(0)])]
    } else if abs == 1 {
        if neg {
            seq![new_inst(InstrsType::OpReg(SingleOp::Neg), seq![dst, src])]
        } else {
            seq![new_inst(InstrsType::OpReg(SingleOp::Mv), seq![dst, src])]
        }
    } else if opt_num_i(abs) {
        seq![new_inst(InstrsType::Binary(BinaryOp::Shl), seq![dst, src, op_imm(ilog2(abs) as int)])] + neg_tail(dst, neg)
    } else if opt_num_i(abs - 1) {
        let tmp = op_reg(int_reg(f));
        seq![
            new_inst(InstrsType::Binary(BinaryOp::Shl), seq![tmp, src, op_imm(ilog2(abs - 1) as int)]),
            new_inst(InstrsType::Binary(BinaryOp::Add), seq![dst, tmp, src]),
        ] + neg_tail(dst, neg)
    } else if opt_num_i(abs + 1) {
        let tmp = op_reg(int_reg(f));
        seq![
            new_inst(InstrsType::Binary(BinaryOp::Shl), seq![tmp, src, op_imm(ilog2(abs + 1) as int)]),
            new_inst(InstrsType::Binary(BinaryOp::Sub), seq![dst, tmp, src]),
        ] + neg_tail(dst, neg)
    } else {
        find_mul_seq(imm, dst, src, f)
    }
}

/// How many fresh registers `resolve_opt_mul` takes.
pub open spec fn mul_fresh(imm: int) -> int {
    let abs = abs_i(imm);
    if abs <= 1 || opt_num_i(abs) {
        0
    } else if opt_num_i(abs - 1) || opt_num_i(abs + 1) {
        1
    } else {
        find_mul_fresh(imm)
    }
}

/// The pool is the same but for its register counter.
pub open spec fn pool_same_but_regs(a: &BackendPool, b: &BackendPool) -> bool {
    &&& a.func_pool@ == b.func_pool@
    &&& a.block_pool@ == b.block_pool@
    &&& a.inst_pool@ == b.inst_pool@
    &&& a.context_pool@ == b.context_pool@
    &&& a.tmp_bb == b.tmp_bb
}

pub fn inst2(t: InstrsType, a: Operand, b: Operand) -> (r: LIRInst)
    ensures
        r@ == new_inst(t, seq![a, b]),
{
    let mut v = Vec::new();
    v.push(a);
    v.push(b);
    let r = LIRInst::new(t, v);
    assert(r@.operands =~= seq![a, b]);
    r
}

pub fn inst3(t: InstrsType, a: Operand, b: Operand, c: Operand) -> (r: LIRInst)
    ensures
        r@ == new_inst(t, seq![a, b, c]),
{
    let mut v = Vec::new();
    v.push(a);
    v.push(b);
    v.push(c);
    let r = LIRInst::new(t, v);
    assert(r@.operands =~= seq![a, b, c]);
    r
}

proof fn lemma_exec_push(env: Map<Reg, int>, s: Seq<InstView>, x: InstView)
    ensures
        exec_seq(env, s.push(x)) == exec_inst(exec_seq(env, s), x),
{
    assert(s.push(x).drop_last() =~= s);
}

proof fn lemma_exec_one(env: Map<Reg, int>, x: InstView)
    ensures
        exec_seq(env, seq![x]) == exec_inst(env, x),
{
    assert(seq![x].drop_last() =~= Seq::<InstView>::empty());
    assert(seq![x].last() == x);
    assert(exec_seq(env, Seq::<InstView>::empty()) == env);
    assert(exec_seq(env, seq![x]) == exec_inst(exec_seq(env, seq![x].drop_last()), seq![x].last()));
}

proof fn lemma_exec_two(env: Map<Reg, int>, x: InstView, y: InstView)
    ensures
        exec_seq(env, seq![x, y]) == exec_inst(exec_inst(env, x), y),
{
    lemma_exec_one(env, x);
    assert(seq![x, y] =~= seq![x].push(y));
    lemma_exec_push(env, seq![x], y);
}

proof fn lemma_exec_three(env: Map<Reg, int>, x: InstView, y: InstView, z: InstView)
    ensures
        exec_seq(env, seq![x, y, z]) == exec_inst(exec_inst(exec_inst(env, x), y), z),
{
    lemma_exec_two(env, x, y);
    assert(seq![x, y, z] =~= seq![x, y].push(z));
    lemma_exec_push(env, seq![x, y], z);
}

/// The negation that ends a sequence for a negative factor.
proof fn lemma_neg_tail(env: Map<Reg, int>, s: Seq<InstView>, dst: Reg, neg: bool, y: int)
    requires
        exec_seq(env, s)[dst] == y,
    ensures
        exec_seq(env, s + neg_tail(op_reg(dst), neg))[dst] == if neg { wrap32(-y) } else { y },
{
    if neg {
        assert(s + neg_tail(op_reg(dst), neg) =~= s.push(new_inst(InstrsType::OpReg(SingleOp::Neg), seq![op_reg(dst), op_reg(dst)])));
        lemma_exec_push(env, s, new_inst(InstrsType::OpReg(SingleOp::Neg), seq![op_reg(dst), op_reg(dst)]));
    } else {
        assert(s + neg_tail(op_reg(dst), neg) =~= s);
    }
}

/// Multiplying by `abs` and negating for a negative `imm` is multiplying by `imm`.
proof fn lemma_signed_product(x: int, abs: int, imm: int, y: int)
    requires
        abs == abs_i(imm),
        y == wrap32(x * abs),
    ensures
        (if imm < 0 { wrap32(-y) } else { y }) == wrap32(x * imm),
{
    if imm < 0 {
        lemma_wrap32_add(x * abs, 0);
        assert(-(x * abs) == x * imm) by (nonlinear_arith)
            requires
                abs == -imm,
        ;
    }
}


/// Division truncating toward zero.
pub open spec fn tdiv(x: int, d: int) -> int {
    let q = abs_i(x) / abs_i(d);
    if (x < 0) != (d < 0) { -q } else { q }
}

/// The remainder of truncating division (it takes the sign of `x`).
pub open spec fn trem(x: int, d: int) -> int {
    x - d * tdiv(x, d)
}

/// The bias of the power-of-two division: `x` shifted right arithmetically
/// by `k - 1`, then logically by `32 - k`, is `2^k - 1` for a negative `x`,
/// else 0.
proof fn lemma_pow2_bias(x: int, k: nat)
    requires
        1 <= k <= 30,
        -half32() <= x < half32(),
    ensures
        -half32() <= x / (pow2((k - 1) as nat) as int) < half32(),
        low32(x / (pow2((k - 1) as nat) as int)) / (pow2((32 - k) as nat) as int)
            == if x < 0 { pow2(k) - 1 } else { 0 },
{
    let p = pow2((k - 1) as nat) as int;
    let q = pow2((32 - k) as nat) as int;
    let pk = pow2(k) as int;
    vstd::arithmetic::power2::lemma_pow2_adds((k - 1) as nat, (32 - k) as nat);
    vstd::arithmetic::power2::lemma_pow2_adds((k - 1) as nat, 1);
    vstd::arithmetic::power2::lemma_pow2_adds((32 - k) as nat, k);
    vstd::arithmetic::power2::lemma_pow2_pos((k - 1) as nat);
    vstd::arithmetic::power2::lemma_pow2_pos((32 - k) as nat);
    lemma2_to64();
    assert(((k - 1) as nat + (32 - k) as nat) as nat == 31);
    assert(((32 - k) as nat + k) as nat == 32);
    assert(((k - 1) as nat + 1) as nat == k);
    assert(p * q == half32());
    assert(q * pk == mod32());
    let t = x / p;
    vstd::arithmetic::div_mod::lemma_fundamental_div_mod(x, p);
    let r = x % p;
    assert(x == p * t + r && 0 <= r < p);
    assert(-q <= t < q) by (nonlinear_arith)
        requires
            x == p * t + r,
            0 <= r < p,
            p * q == half32(),
            -half32() <= x < half32(),
            p > 0,
            q > 0,
    ;
    assert(q <= half32()) by (nonlinear_arith)
        requires p * q == half32(), p > 0, q > 0;
    assert(x < 0 <==> t < 0) by (nonlinear_arith)
        requires x == p * t + r, 0 <= r < p;
    if t >= 0 {
        vstd::arithmetic::div_mod::lemma_small_mod(t as nat, mod32() as nat);
        assert(low32(t) == t);
        vstd::arithmetic::div_mod::lemma_fundamental_div_mod_converse(t, q, 0, t);
    } else {
        vstd::arithmetic::div_mod::lemma_fundamental_div_mod_converse(t, mod32(), -1, t + mod32());
        assert(low32(t) == t + mod32());
        assert(t + mod32() == q * (pk - 1) + (t + q)) by (nonlinear_arith)
            requires q * pk == mod32();
        vstd::arithmetic::div_mod::lemma_fundamental_div_mod_converse(t + mod32(), q, pk - 1, t + q);
    }
}

/// Adding the bias `2^k - 1` to a negative `x` before dividing by `2^k`
/// rounds the quotient toward zero.
proof fn lemma_biased_quotient(x: int, d: int)
    requires
        d > 0,
    ensures
        (x + (if x < 0 { d - 1 } else { 0 })) / d == tdiv(x, d),
{
    if x >= 0 {
    } else {
        let q = (-x) / d;
        let r = (-x) % d;
        vstd::arithmetic::div_mod::lemma_fundamental_div_mod(-x, d);
        assert(x + d - 1 == d * (-q) + (d - 1 - r)) by (nonlinear_arith)
            requires -x == d * q + r;
        vstd::arithmetic::div_mod::lemma_fundamental_div_mod_converse(x + d - 1, d, -q, d - 1 - r);
    }
}

/// What the power-of-two division sequence leaves in `dst`.
proof fn lemma_div_pow2_seq(dst: Reg, src: Reg, k: nat, f: int, env: Map<Reg, int>)
    requires
        1 <= k <= 30,
        dst.id < f,
        src.id < f,
        f < i32::MAX - 3,
        env.contains_key(src),
        -half32() <= env[src] < half32(),
    ensures
        exec_seq(env, div_pow2_seq(op_reg(dst), op_reg(src), k as int, f))[dst] == tdiv(env[src], pow2(k) as int),
{
    let x = env[src];
    let d = op_reg(dst);
    let sr = op_reg(src);
    let t1 = int_reg(f);
    let t2 = int_reg(f + 1);
    let t3 = int_reg(f + 2);
    let i1 = new_inst(InstrsType::Binary(BinaryOp::Sar), seq![op_reg(t1), sr, op_imm(k - 1)]);
    let i2 = new_inst(InstrsType::Binary(BinaryOp::Shr), seq![op_reg(t2), op_reg(t1), op_imm(32 - k)]);
    let i3 = new_inst(InstrsType::Binary(BinaryOp::Add), seq![op_reg(t3), op_reg(t2), sr]);
    let i4 = new_inst(InstrsType::Binary(BinaryOp::Sar), seq![d, op_reg(t3), op_imm(k as int)]);
    assert(div_pow2_seq(d, sr, k as int, f) =~= seq![i1, i2, i3].push(i4));
    lemma_exec_three(env, i1, i2, i3);
    lemma_exec_push(env, seq![i1, i2, i3], i4);
    lemma_wrap32_small(x);
    lemma_pow2_bias(x, k);
    vstd::arithmetic::power2::lemma_pow2_pos(k);
    lemma2_to64();
    vstd::arithmetic::power2::lemma_pow2_strictly_increases(k, 31);
    let p = pow2((k - 1) as nat) as int;
    let t = x / p;
    let e1 = exec_inst(env, i1);
    assert((k - 1) % 32 == k - 1);
    assert(e1[t1] == t) by {
        lemma_wrap32_small(x);
    }
    let bias = if x < 0 { pow2(k) - 1 } else { 0 };
    let e2 = exec_inst(e1, i2);
    assert((32 - k) % 32 == 32 - k);
    lemma_wrap32_small(t);
    lemma_wrap32_small(bias);
    assert(e2[t2] == bias);
    assert(e2[src] == x);
    let e3 = exec_inst(e2, i3);
    lemma_wrap32_small(bias + x);
    assert(e3[t3] == bias + x);
    let e4 = exec_inst(e3, i4);
    assert((k as int) % 32 == k);
    assert(e4[dst] == (bias + x) / (pow2(k) as int));
    lemma_biased_quotient(x, pow2(k) as int);
}

/// The division law for a divisor that is 1, -1 or a power of two (or its
/// negation).
proof fn lemma_div_by_power_of_two_computes_quotient(dst: Reg, src: Reg, imm: i32, f: i32, m: Operand, env: Map<Reg, int>)
    requires
        imm != 0,
        imm != i32::MIN,
        !uses_magic(imm as int),
        dst.id < f,
        src.id < f,
        f < i32::MAX - 3,
        env.contains_key(src),
        -half32() <= env[src] < half32(),
    ensures
        exec_seq(env, div_seq(op_reg(dst), op_reg(src), imm as int, f as int, m))[dst] == wrap32(tdiv(env[src], imm as int)),
{
    let x = env[src];
    let abs = abs_i(imm as int);
    let d = op_reg(dst);
    let sr = op_reg(src);
    lemma_wrap32_small(x);
    if abs == 1 {
        if imm < 0 {
            lemma_exec_one(env, new_inst(InstrsType::OpReg(SingleOp::Neg), seq![d, sr]));
        } else {
            lemma_exec_one(env, new_inst(InstrsType::OpReg(SingleOp::Mv), seq![d, sr]));
        }
        assert(abs_i(x) / 1 == abs_i(x));
    } else {
        lemma_opt_num_pow2(abs as i32);
        let k = ilog2(abs);
        if k == 0 {
            assert(false);
        }
        let s1 = div_pow2_seq(d, sr, k as int, f as int);
        lemma_div_pow2_seq(dst, src, k, f as int, env);
        lemma_neg_tail(env, s1, dst, imm < 0, tdiv(x, abs));
        let q = tdiv(x, abs);
        assert(abs_i(x) / abs >= 0);
        assert(abs_i(x) / abs <= abs_i(x)) by {
            vstd::arithmetic::div_mod::lemma_div_is_ordered_by_denominator(abs_i(x), 1, abs);
        }
        assert(abs_i(x) / abs < half32()) by {
            vstd::arithmetic::div_mod::lemma_div_is_ordered_by_denominator(abs_i(x), 2, abs);
        }
        lemma_wrap32_small(q);
        if imm < 0 {
            lemma_wrap32_small(-q);
            assert(tdiv(x, imm as int) == -q);
        } else {
            assert(tdiv(x, imm as int) == q);
        }
    }
}


/// Masking with `2^k - 1` the low 32 bits of `v` leaves `v` modulo `2^k`.
proof fn lemma_mask_low32(v: int, k: nat)
    requires
        1 <= k <= 30,
    ensures
        ((low32(v) as u32) & (low32(pow2(k) - 1) as u32)) as int == v % (pow2(k) as int),
{
    let pk = pow2(k) as int;
    vstd::arithmetic::power2::lemma_pow2_pos(k);
    lemma2_to64();
    vstd::arithmetic::power2::lemma_pow2_strictly_increases(k, 31);
    vstd::arithmetic::power2::lemma_pow2_adds(k, (32 - k) as nat);
    assert((k + (32 - k) as nat) as nat == 32);
    let q = pow2((32 - k) as nat) as int;
    vstd::arithmetic::power2::lemma_pow2_pos((32 - k) as nat);
    assert(pk * q == mod32());
    vstd::arithmetic::div_mod::lemma_mod_bound(v, mod32());
    vstd::arithmetic::div_mod::lemma_small_mod((pk - 1) as nat, mod32() as nat);
    assert(low32(pk - 1) == pk - 1);
    let u = low32(v) as u32;
    vstd::bits::lemma_u32_low_bits_mask_is_mod(u, k);
    assert(vstd::bits::low_bits_mask(k) == pk - 1);
    vstd::arithmetic::div_mod::lemma_mod_mod(v, pk, q);
    assert((u % (pk as u32)) as int == (low32(v)) % pk);
}

/// The remainder law for a divisor whose absolute value is a power of two
/// (at least 2).
proof fn lemma_rem_by_power_of_two_computes_remainder(dst: Reg, src: Reg, imm: i32, f: i32, m: Operand, env: Map<Reg, int>)
    requires
        imm != i32::MIN,
        abs_i(imm as int) >= 2,
        opt_num_i(abs_i(imm as int)),
        dst.id < f,
        src.id < f,
        f < i32::MAX - 6,
        env.contains_key(src),
        -half32() <= env[src] < half32(),
    ensures
        exec_seq(env, rem_seq(op_reg(dst), op_reg(src), imm as int, f as int, m))[dst] == trem(env[src], imm as int),
{
    let x = env[src];
    let abs = abs_i(imm as int);
    let d = op_reg(dst);
    let sr = op_reg(src);
    lemma_opt_num_pow2(abs as i32);
    let k = ilog2(abs);
    if k == 0 {
        assert(false);
    }
    lemma_wrap32_small(x);
    lemma_pow2_bias(x, k);
    lemma2_to64();
    vstd::arithmetic::power2::lemma_pow2_strictly_increases(k, 31);
    let bias = if x < 0 { abs - 1 } else { 0 };
    let tmp = int_reg(f as int);
    // the head leaves the bias in tmp
    let (head, g) = if k == 1 {
        (seq![new_inst(InstrsType::Binary(BinaryOp::Shr), seq![op_reg(tmp), sr, op_imm(32 - k)])], f + 1)
    } else {
        let tmp2 = op_reg(int_reg(f + 1));
        (seq![
            new_inst(InstrsType::Binary(BinaryOp::Sar), seq![tmp2, sr, op_imm(k - 1)]),
            new_inst(InstrsType::Binary(BinaryOp::Shr), seq![op_reg(tmp), tmp2, op_imm(32 - k)]),
        ], f + 2)
    };
    let eh = exec_seq(env, head);
    if k == 1 {
        lemma_exec_one(env, head[0]);
        assert(x / (pow2(0) as int) == x) by {
            vstd::arithmetic::power2::lemma2_to64();
        }
        assert((32 - k) % 32 == 31);
    } else {
        lemma_exec_two(env, head[0], head[1]);
        assert((k - 1) % 32 == k - 1);
        assert((32 - k) % 32 == 32 - k);
        lemma_wrap32_small(x / (pow2((k - 1) as nat) as int));
    }
    lemma_wrap32_small(bias);
    assert(eh[tmp] == bias);
    assert(eh[src] == x);
    let tmp3 = int_reg(g as int);
    let add = new_inst(InstrsType::Binary(BinaryOp::Add), seq![op_reg(tmp3), sr, op_reg(tmp)]);
    let e3 = exec_inst(eh, add);
    lemma_wrap32_small(x + bias);
    assert(e3[tmp3] == x + bias);
    let abs_reg = iimm_operand(abs - 1, g + 1);
    let iseq = iimm_seq(abs - 1, g + 1);
    let ei = exec_seq(e3, iseq);
    if spec_is_imm_12bs(abs - 1) {
        assert(iseq =~= Seq::<InstView>::empty());
    } else {
        lemma_exec_one(e3, iseq[0]);
        assert(iseq =~= seq![iseq[0]]);
    }
    assert(operand_val(ei, abs_reg) == abs - 1);
    assert(ei[tmp3] == x + bias);
    assert(ei[tmp] == bias);
    let h = g + 1 + iimm_fresh(abs - 1);
    let tmp4 = int_reg(h as int);
    let and = new_inst(InstrsType::Binary(BinaryOp::And), seq![op_reg(tmp4), op_reg(tmp3), abs_reg]);
    let sub = new_inst(InstrsType::Binary(BinaryOp::Sub), seq![d, op_reg(tmp4), op_reg(tmp)]);
    let e4 = exec_inst(ei, and);
    lemma_mask_low32(x + bias, k);
    lemma_wrap32_small(x + bias);
    let mv = (x + bias) % abs;
    vstd::arithmetic::div_mod::lemma_mod_bound(x + bias, abs);
    lemma_wrap32_small(mv);
    assert(e4[tmp4] == mv);
    let e5 = exec_inst(e4, sub);
    lemma_wrap32_small(mv - bias);
    assert(e5[dst] == mv - bias);
    let tail = seq![and, sub];
    assert(rem_seq(d, sr, imm as int, f as int, m) =~= head + seq![add] + iseq + tail);
    crate::semantics::lemma_exec_seq_append(env, head + seq![add] + iseq, tail);
    crate::semantics::lemma_exec_seq_append(env, head + seq![add], iseq);
    crate::semantics::lemma_exec_seq_append(env, head, seq![add]);
    lemma_exec_one(eh, add);
    lemma_exec_two(ei, and, sub);
    // the value
    if x >= 0 {
        vstd::arithmetic::div_mod::lemma_fundamental_div_mod(x, abs);
    } else {
        let q = (-x) / abs;
        let r = (-x) % abs;
        vstd::arithmetic::div_mod::lemma_fundamental_div_mod(-x, abs);
        assert(x + abs - 1 == abs * (-q) + (abs - 1 - r)) by (nonlinear_arith)
            requires -x == abs * q + r;
        vstd::arithmetic::div_mod::lemma_fundamental_div_mod_converse(x + abs - 1, abs, -q, abs - 1 - r);
    }
    if imm < 0 {
        assert(trem(x, imm as int) == x - abs * tdiv(x, abs)) by (nonlinear_arith)
            requires abs == -imm, tdiv(x, imm as int) == -tdiv(x, abs);
    }
}


/// The search of the magic number stops at `p` exactly when `2^p` exceeds
/// `anc * (d - 2^p mod d)`.
proof fn lemma_magic_exit_iff(d: int, p: nat)
    requires
        2 <= d < 0x8000_0000,
    ensures
        magic_anc(d) >= d - 1,
        magic_exit(d, p) <==> pow2(p) > magic_anc(d) * (d - pow2(p) as int % d),
{
    let big = pow2(p) as int;
    let anc = magic_anc(d);
    vstd::arithmetic::div_mod::lemma_fundamental_div_mod(0x8000_0000int, d);
    vstd::arithmetic::div_mod::lemma_mod_bound(0x8000_0000int, d);
    assert(anc == d * (0x8000_0000int / d) - 1);
    assert(0x8000_0000int / d >= 1) by {
        vstd::arithmetic::div_mod::lemma_div_is_ordered(d, 0x8000_0000int, d);
        vstd::arithmetic::div_mod::lemma_div_by_self(d);
    }
    assert(anc >= d - 1) by (nonlinear_arith)
        requires anc == d * (0x8000_0000int / d) - 1, 0x8000_0000int / d >= 1, d >= 2;
    vstd::arithmetic::power2::lemma_pow2_pos(p);
    vstd::arithmetic::div_mod::lemma_fundamental_div_mod(big, anc);
    vstd::arithmetic::div_mod::lemma_mod_bound(big, anc);
    vstd::arithmetic::div_mod::lemma_mod_bound(big, d);
    let q1 = big / anc;
    let r1 = big % anc;
    let delta = d - big % d;
    assert(big == anc * q1 + r1);
    assert(magic_exit(d, p) <==> big > anc * delta) by (nonlinear_arith)
        requires
            big == anc * q1 + r1,
            0 <= r1 < anc,
            anc >= 1,
            magic_exit(d, p) == !(q1 < delta || (q1 == delta && r1 == 0)),
    ;
}

/// The search from `p0` stops by 62, at a power past which it would
/// have stopped nowhere earlier.
proof fn lemma_magic_found(d: int, p0: nat)
    requires
        2 <= d < 0x8000_0000,
        32 <= p0 <= 62,
    ensures
        p0 <= magic_p(d, p0) <= 62,
        magic_exit(d, magic_p(d, p0)),
        forall|q: nat| p0 <= q < magic_p(d, p0) ==> !#[trigger] magic_exit(d, q),
    decreases 62 - p0,
{
    if magic_exit(d, p0) {
    } else {
        if p0 == 62 {
            lemma_magic_exit_iff(d, 62);
            lemma2_to64();
            let anc = magic_anc(d);
            vstd::arithmetic::power2::lemma2_to64_rest();
            let big = pow2(62) as int;
            assert(big == 0x4000_0000_0000_0000);
            vstd::arithmetic::div_mod::lemma_mod_bound(big, d);
            assert(anc < 0x8000_0000);
            let delta = d - big % d;
            assert(anc * delta < 0x4000_0000_0000_0000) by (nonlinear_arith)
                requires 0 <= anc < 0x8000_0000, 0 < delta <= d, d < 0x8000_0000;
            assert(magic_exit(d, 62));
            assert(false);
        }
        lemma_magic_found(d, p0 + 1);
    }
}

/// The facts about the magic number of `d` (not a power of two) that the
/// division law rests on: with `p` where the search stops, `m * d ==
/// 2^p + delta` for some `1 <= delta <= d` with `anc * delta < 2^p`, and
/// `m <= 2^32`.
proof fn lemma_magic_facts(d: int) -> (delta: int)
    requires
        2 <= d < 0x8000_0000,
    ensures
        32 <= magic_p(d, 32) <= 62,
        1 <= delta <= d,
        spec_magic(false, d).0 * d == pow2(magic_p(d, 32)) + delta,
        delta == d - pow2(magic_p(d, 32)) as int % d,
        magic_anc(d) * delta < pow2(magic_p(d, 32)),
        magic_anc(d) >= d - 1,
        magic_anc(d) + 1 == d * (0x8000_0000int / d),
        1 <= spec_magic(false, d).0 <= 0x1_0000_0000,
        spec_magic(false, d).1 == magic_p(d, 32) - 32,
{
    lemma_magic_found(d, 32);
    let p = magic_p(d, 32);
    let big = pow2(p) as int;
    lemma_magic_exit_iff(d, p);
    vstd::arithmetic::power2::lemma_pow2_pos(p);
    vstd::arithmetic::div_mod::lemma_fundamental_div_mod(big, d);
    vstd::arithmetic::div_mod::lemma_mod_bound(big, d);
    vstd::arithmetic::div_mod::lemma_fundamental_div_mod(0x8000_0000int, d);
    vstd::arithmetic::div_mod::lemma_mod_bound(0x8000_0000int, d);
    let delta = d - big % d;
    let m = big / d + 1;
    assert(m * d == big + delta) by (nonlinear_arith)
        requires big == d * (big / d) + big % d, m == big / d + 1, delta == d - big % d;
    lemma2_to64();
    if p == 32 {
        assert(big == 0x1_0000_0000);
        assert(big / d <= big / 2) by {
            vstd::arithmetic::div_mod::lemma_div_is_ordered_by_denominator(big, 2, d);
        }
    } else {
        let q = (p - 1) as nat;
        assert(!magic_exit(d, q));
        lemma_magic_exit_iff(d, q);
        vstd::arithmetic::power2::lemma_pow2_adds(q, 1);
        assert((q + 1) as nat == p);
        vstd::arithmetic::div_mod::lemma_mod_bound(pow2(q) as int, d);
        let anc = magic_anc(d);
        assert(anc < 0x8000_0000);
        assert(big < 0x1_0000_0000 * d) by (nonlinear_arith)
            requires
                big == pow2(q) * 2,
                pow2(q) <= anc * (d - pow2(q) as int % d),
                0 < d - pow2(q) as int % d <= d,
                0 <= anc < 0x8000_0000,
        ;
        assert(big / d < 0x1_0000_0000) by (nonlinear_arith)
            requires big == d * (big / d) + big % d, 0 <= big % d, big < 0x1_0000_0000 * d, d > 0;
    }
    assert(big / d >= 0) by {
        vstd::arithmetic::div_mod::lemma_div_pos_is_pos(big, d);
    }
    delta
}

/// The quotient bound that magic division rests on: for `0 <= x < 2^31`
/// with `x == q * d + r`, `delta * x < 2^p * (d - r)`.
proof fn lemma_magic_bound(d: int, big: int, delta: int, anc: int, x: int)
    requires
        2 <= d < 0x8000_0000,
        1 <= delta <= d,
        anc * delta < big,
        anc >= d - 1,
        anc + 1 == d * (0x8000_0000int / d),
        0 <= x < 0x8000_0000,
    ensures
        delta * x < big * (d - x % d),
{
    vstd::arithmetic::div_mod::lemma_fundamental_div_mod(x, d);
    vstd::arithmetic::div_mod::lemma_mod_bound(x, d);
    let r = x % d;
    if x <= anc {
        assert(delta * x <= delta * anc) by (nonlinear_arith) requires x <= anc, delta >= 1;
        assert(big <= big * (d - r)) by (nonlinear_arith) requires d - r >= 1, big > 0;
    } else {
        let k = 0x8000_0000int / d;
        let t = x - anc - 1;
        vstd::arithmetic::div_mod::lemma_fundamental_div_mod(0x8000_0000int, d);
        vstd::arithmetic::div_mod::lemma_mod_bound(0x8000_0000int, d);
        let m = 0x8000_0000int % d;
        assert(anc + 1 == 0x8000_0000int - m);
        assert(0 <= t < m);
        assert(x == k * d + t) by (nonlinear_arith) requires anc + 1 == d * k, t == x - anc - 1;
        vstd::arithmetic::div_mod::lemma_fundamental_div_mod_converse(x, d, k, t);
        assert(r == t);
        assert(r <= d - 2);
        assert(delta * (1 + r) <= delta * anc) by (nonlinear_arith) requires 1 + r <= anc, delta >= 1;
        assert(delta * x == delta * anc + delta * (1 + r)) by (nonlinear_arith) requires x == anc + 1 + r;
        assert(big * 2 <= big * (d - r)) by (nonlinear_arith) requires d - r >= 2, big > 0;
    }
}


/// The bound of `lemma_magic_bound` at the dividend `2^31` itself, not
/// strict: `delta * 2^31 <= 2^p * (d - 2^31 mod d)`.
proof fn lemma_magic_edge(d: int, p: nat, delta: int, anc: int)
    requires
        2 <= d < 0x8000_0000,
        32 <= p <= 62,
        delta == d - pow2(p) as int % d,
        anc == magic_anc(d),
        anc * delta < pow2(p),
    ensures
        delta * 0x8000_0000 <= pow2(p) * (d - 0x8000_0000int % d),
{
    let big = pow2(p) as int;
    let two31 = 0x8000_0000int;
    vstd::arithmetic::div_mod::lemma_fundamental_div_mod(two31, d);
    vstd::arithmetic::div_mod::lemma_mod_bound(two31, d);
    vstd::arithmetic::div_mod::lemma_mod_bound(big, d);
    vstd::arithmetic::power2::lemma_pow2_pos(p);
    let mm = two31 % d;
    let k = two31 / d;
    assert(two31 == d * k + mm);
    if mm <= d - 2 {
        if d <= 0x4000_0000 {
            assert(mm < 0x4000_0000);
        } else {
            if k >= 2 {
                assert(d * k >= d * 2) by (nonlinear_arith) requires k >= 2, d > 0;
            }
            if k <= 0 {
                assert(d * k <= 0) by (nonlinear_arith) requires k <= 0, d > 0;
            }
            assert(k == 1);
            assert(d * k == d) by (nonlinear_arith) requires k == 1;
            assert(mm == two31 - d);
            assert(mm < 0x4000_0000);
        }
        assert(delta * two31 <= 2 * anc * delta) by (nonlinear_arith)
            requires anc == two31 - 1 - mm, mm < 0x4000_0000, delta >= 0, two31 == 0x8000_0000int;
        assert(2 * anc * delta < 2 * big) by (nonlinear_arith) requires anc * delta < big;
        assert(2 * big <= big * (d - mm)) by (nonlinear_arith) requires d - mm >= 2, big > 0;
        assert(delta * two31 <= big * (d - mm));
    } else {
        assert(mm == d - 1);
        let j = (p - 31) as nat;
        let pj = pow2(j) as int;
        vstd::arithmetic::power2::lemma_pow2_adds(31, j);
        assert((31 + j) as nat == p);
        lemma2_to64();
        assert(big == two31 * pj);
        vstd::arithmetic::power2::lemma_pow2_pos(j);
        if pj >= d {
            assert(delta <= d);
            assert(delta * two31 <= pj * two31) by (nonlinear_arith)
                requires delta <= d, d <= pj, two31 == 0x8000_0000int;
        } else {
            assert(big == d * (pj * (k + 1) - 1) + (d - pj)) by (nonlinear_arith)
                requires big == two31 * pj, two31 == d * k + d - 1;
            vstd::arithmetic::div_mod::lemma_fundamental_div_mod_converse(big, d, pj * (k + 1) - 1, d - pj);
            assert(delta == pj);
            assert(delta * two31 == big) by (nonlinear_arith) requires delta == pj, big == two31 * pj;
        }
        assert(d - mm == 1);
        assert(big * (d - mm) == big) by (nonlinear_arith) requires d - mm == 1;
        assert(delta * two31 <= big * (d - mm));
    }
    assert(delta * 0x8000_0000 <= pow2(p) * (d - 0x8000_0000int % d));
}

/// Magic division of a value of 31 bits: `(m * x) / 2^p` is the quotient
/// of `x` by `d`, and for a negative `-x` one less than its negation.
proof fn lemma_magic_quotient(d: int, m: int, big: int, delta: int, anc: int, x: int)
    requires
        2 <= d < 0x8000_0000,
        big > 0,
        1 <= delta <= d,
        m * d == big + delta,
        anc * delta < big,
        anc >= d - 1,
        anc + 1 == d * (0x8000_0000int / d),
        0 <= x <= 0x8000_0000,
        x == 0x8000_0000 ==> delta * x <= big * (d - x % d),
    ensures
        x < 0x8000_0000 ==> (m * x) / big == x / d,
        x > 0 ==> (m * (-x)) / big + 1 == -(x / d),
{
    if x < 0x8000_0000 {
        lemma_magic_bound(d, big, delta, anc, x);
    }
    vstd::arithmetic::div_mod::lemma_fundamental_div_mod(x, d);
    vstd::arithmetic::div_mod::lemma_mod_bound(x, d);
    let q = x / d;
    let r = x % d;
    assert(q >= 0) by { vstd::arithmetic::div_mod::lemma_div_pos_is_pos(x, d); }
    assert(delta * x <= big * (d - r));
    // m * x * d == big * x + delta * x
    assert(q * big <= m * x <= (q + 1) * big) by (nonlinear_arith)
        requires
            m * d == big + delta,
            x == d * q + r,
            0 <= r < d,
            delta * x <= big * (d - r),
            delta >= 1,
            x >= 0,
            q >= 0,
            d > 0,
            big > 0,
    ;
    assert((q + 1) * big == q * big + big) by (nonlinear_arith);
    if x < 0x8000_0000 {
        assert(m * x < (q + 1) * big) by (nonlinear_arith)
            requires
                m * d == big + delta,
                x == d * q + r,
                0 <= r < d,
                delta * x < big * (d - r),
                d > 0,
                big > 0,
        ;
        vstd::arithmetic::div_mod::lemma_fundamental_div_mod_converse(m * x, big, q, m * x - q * big);
    }
    if x > 0 {
        assert(q * big < m * x) by (nonlinear_arith)
            requires
                m * d == big + delta,
                x == d * q + r,
                0 <= r < d,
                delta >= 1,
                x > 0,
                q >= 0,
                d > 0,
                big > 0,
        ;
        assert(m * (-x) == (-(q + 1)) * big + ((q + 1) * big - m * x)) by (nonlinear_arith);
        assert(0 <= (q + 1) * big - m * x < big);
        vstd::arithmetic::div_mod::lemma_fundamental_div_mod_converse(m * (-x), big, -(q + 1), (q + 1) * big - m * x);
    }
}

proof fn lemma_dec_digits_shape(n: nat)
    ensures
        dec_digits(n).len() >= 1,
        n < 10 <==> dec_digits(n).len() == 1,
        forall|i: int| 0 <= i < dec_digits(n).len() ==> '0' <= #[trigger] dec_digits(n)[i] <= '9',
    decreases n,
{
    if n >= 10 {
        lemma_dec_digits_shape(n / 10);
        let d = dec_digits(n / 10);
        let c = (('0' as int) + n % 10) as char;
        assert(dec_digits(n) == d.push(c));
        assert forall|i: int| 0 <= i < dec_digits(n).len() implies '0' <= #[trigger] dec_digits(n)[i] <= '9' by {
            if i < d.len() {
                assert(dec_digits(n)[i] == d[i]);
            }
        }
    }
}

proof fn lemma_dec_digits_injective(a: nat, b: nat)
    requires
        dec_digits(a) == dec_digits(b),
    ensures
        a == b,
    decreases a,
{
    lemma_dec_digits_shape(a);
    lemma_dec_digits_shape(b);
    let sa = dec_digits(a);
    let ca = (('0' as int) + a % 10) as char;
    let cb = (('0' as int) + b % 10) as char;
    assert(sa.last() == ca);
    assert(dec_digits(b).last() == cb);
    assert(ca == cb);
    assert(ca as int == ('0' as int) + a % 10);
    assert(cb as int == ('0' as int) + b % 10);
    assert(a % 10 == b % 10);
    if a >= 10 {
        assert(dec_digits(a).drop_last() =~= dec_digits(a / 10));
        assert(dec_digits(b).drop_last() =~= dec_digits(b / 10));
        lemma_dec_digits_injective(a / 10, b / 10);
        vstd::arithmetic::div_mod::lemma_fundamental_div_mod(a as int, 10);
        vstd::arithmetic::div_mod::lemma_fundamental_div_mod(b as int, 10);
    }
}

/// A label that writes a positive number in decimal stands for that number.
proof fn lemma_label_value(env: Map<Reg, int>, op: Operand, v: int)
    requires
        v > 0,
        op is Addr,
        op->Addr_0@ == decimal(v),
    ensures
        operand_val(env, op) == v,
{
    let w = choose|w: int| decimal(w) == op->Addr_0@;
    assert(decimal(v) == op->Addr_0@);
    lemma_dec_digits_shape(v as nat);
    if w < 0 {
        assert(decimal(w)[0] == '-');
        assert(decimal(v)[0] == dec_digits(v as nat)[0]);
        assert(false);
    }
    lemma_dec_digits_injective(w as nat, v as nat);
}

/// Flooring twice by positive divisors floors once by their product.
proof fn lemma_floor_floor(x: int, b: int, c: int)
    requires
        b > 0,
        c > 0,
    ensures
        (x / b) / c == x / (b * c),
{
    vstd::arithmetic::div_mod::lemma_fundamental_div_mod(x, b);
    vstd::arithmetic::div_mod::lemma_mod_bound(x, b);
    vstd::arithmetic::div_mod::lemma_fundamental_div_mod(x / b, c);
    vstd::arithmetic::div_mod::lemma_mod_bound(x / b, c);
    let q1 = x / b;
    let r1 = x % b;
    let q2 = q1 / c;
    let r2 = q1 % c;
    assert(x == q2 * (b * c) + (r2 * b + r1)) by (nonlinear_arith)
        requires x == b * q1 + r1, q1 == c * q2 + r2;
    assert(0 <= r2 * b + r1 < b * c) by (nonlinear_arith)
        requires 0 <= r1 < b, 0 <= r2 < c, b > 0;
    vstd::arithmetic::div_mod::lemma_fundamental_div_mod_converse(x, b * c, q2, r2 * b + r1);
}

/// What the magic division sequence leaves in `dst`: the truncating
/// quotient of `src` by `abs`.
proof fn lemma_div_magic_seq(dst: Reg, src: Reg, abs: int, f: int, label: Operand, env: Map<Reg, int>)
    requires
        3 <= abs < 0x8000_0000,
        label is Addr,
        label->Addr_0@ == decimal(spec_magic(false, abs).0),
        dst.id < f,
        src.id < f,
        f < i32::MAX - 5,
        env.contains_key(src),
        -half32() <= env[src] < half32(),
    ensures
        exec_seq(env, div_magic_seq(op_reg(dst), op_reg(src), abs, f, label))[dst] == tdiv(env[src], abs),
{
    let x = env[src];
    let delta = lemma_magic_facts(abs);
    let p = magic_p(abs, 32);
    let m = spec_magic(false, abs).0;
    let shift = spec_magic(false, abs).1;
    let big = pow2(p) as int;
    let anc = magic_anc(abs);
    lemma2_to64();
    vstd::arithmetic::power2::lemma2_to64_rest();
    vstd::arithmetic::power2::lemma_pow2_adds(32, shift as nat);
    assert((32 + shift as nat) as nat == p);
    let two32 = pow2(32) as int;
    let ps = pow2(shift as nat) as int;
    vstd::arithmetic::power2::lemma_pow2_pos(shift as nat);
    assert(big == two32 * ps);
    let d = op_reg(dst);
    let sr = op_reg(src);
    let t1 = int_reg(f);
    let t2 = int_reg(f + 1);
    let t3 = int_reg(f + 2);
    let t4 = int_reg(f + 3);
    let t5 = int_reg(f + 4);
    let i1 = new_inst(InstrsType::OpReg(SingleOp::Li), seq![op_reg(t1), label]);
    let i2 = with_double(new_inst(InstrsType::Binary(BinaryOp::Mul), seq![op_reg(t2), op_reg(t1), sr]));
    let i3 = with_double(new_inst(InstrsType::Binary(BinaryOp::Shr), seq![op_reg(t3), op_reg(t2), op_imm(32)]));
    let i4 = new_inst(InstrsType::Binary(BinaryOp::Sar), seq![op_reg(t4), op_reg(t3), op_imm(shift)]);
    let i5 = new_inst(InstrsType::Binary(BinaryOp::Shr), seq![op_reg(t5), sr, op_imm(31)]);
    let i6 = new_inst(InstrsType::Binary(BinaryOp::Add), seq![d, op_reg(t5), op_reg(t4)]);
    assert(div_magic_seq(d, sr, abs, f, label) =~= seq![i1, i2, i3].push(i4).push(i5).push(i6));
    lemma_exec_three(env, i1, i2, i3);
    lemma_exec_push(env, seq![i1, i2, i3], i4);
    lemma_exec_push(env, seq![i1, i2, i3].push(i4), i5);
    lemma_exec_push(env, seq![i1, i2, i3].push(i4).push(i5), i6);
    // Li
    lemma_label_value(env, label, m);
    let e1 = exec_inst(env, i1);
    assert(e1[t1] == m);
    assert(e1[src] == x);
    // 64-bit product
    let prod = m * x;
    assert(-0x8000_0000_0000_0000 <= prod < 0x8000_0000_0000_0000) by (nonlinear_arith)
        requires 1 <= m <= 0x1_0000_0000, -0x8000_0000 <= x < 0x8000_0000, prod == m * x;
    vstd::arithmetic::div_mod::lemma_small_mod((prod + half64()) as nat, mod64() as nat);
    let e2 = exec_inst(e1, i2);
    assert(e2[t2] == prod);
    // logical shift right by 32 of the 64-bit product
    let hi = prod / two32;
    vstd::arithmetic::div_mod::lemma_fundamental_div_mod(prod, two32);
    vstd::arithmetic::div_mod::lemma_mod_bound(prod, two32);
    assert(-half32() <= hi < half32()) by (nonlinear_arith)
        requires prod == two32 * hi + prod % two32, 0 <= prod % two32 < two32, two32 == 0x1_0000_0000,
            -half64() <= prod < half64();
    let e3 = exec_inst(e2, i3);
    assert(32int % 64 == 32);
    let v3 = if prod >= 0 { hi } else { hi + two32 };
    if prod >= 0 {
        vstd::arithmetic::div_mod::lemma_small_mod(prod as nat, mod64() as nat);
    } else {
        vstd::arithmetic::div_mod::lemma_fundamental_div_mod_converse(prod, mod64(), -1, prod + mod64());
        assert(prod + mod64() == (hi + two32) * two32 + prod % two32) by (nonlinear_arith)
            requires prod == two32 * hi + prod % two32, two32 == 0x1_0000_0000;
        vstd::arithmetic::div_mod::lemma_fundamental_div_mod_converse(prod + mod64(), two32, hi + two32, prod % two32);
    }
    vstd::arithmetic::div_mod::lemma_small_mod((v3 + half64()) as nat, mod64() as nat);
    assert(e3[t3] == v3);
    // arithmetic shift of the low 32 bits
    if prod < 0 {
        crate::semantics::lemma_wrap32_shift(hi, 1);
    }
    lemma_wrap32_small(hi);
    assert(crate::semantics::wrap32(v3) == hi);
    let e4 = exec_inst(e3, i4);
    assert(shift % 32 == shift);
    lemma_floor_floor(prod, two32, ps);
    let v4 = prod / big;
    assert(e4[t4] == v4);
    // the sign of the dividend
    let e5 = exec_inst(e4, i5);
    assert(31int % 32 == 31);
    lemma_wrap32_small(x);
    let sgn = if x < 0 { 1int } else { 0int };
    if x >= 0 {
        vstd::arithmetic::div_mod::lemma_small_mod(x as nat, mod32() as nat);
        vstd::arithmetic::div_mod::lemma_fundamental_div_mod_converse(x, pow2(31) as int, 0, x);
    } else {
        vstd::arithmetic::div_mod::lemma_fundamental_div_mod_converse(x, mod32(), -1, x + mod32());
        vstd::arithmetic::div_mod::lemma_fundamental_div_mod_converse(x + mod32(), pow2(31) as int, 1, x + half32());
    }
    lemma_wrap32_small(sgn);
    assert(e5[t5] == sgn);
    assert(e5[t4] == v4);
    // the quotient
    if x >= 0 {
        lemma_magic_quotient(abs, m, big, delta, anc, x);
        assert(v4 == x / abs);
    } else {
        if x == -half32() {
            lemma_magic_edge(abs, p, delta, anc);
        }
        lemma_magic_quotient(abs, m, big, delta, anc, -x);
        assert(m * (-(-x)) == prod);
        assert(v4 + 1 == -((-x) / abs));
    }
    let e6 = exec_inst(e5, i6);
    let q = tdiv(x, abs);
    assert(v4 + sgn == q);
    assert(abs_i(x) / abs <= abs_i(x)) by {
        vstd::arithmetic::div_mod::lemma_div_is_ordered_by_denominator(abs_i(x), 1, abs);
    }
    vstd::arithmetic::div_mod::lemma_div_pos_is_pos(abs_i(x), abs);
    lemma_wrap32_small(sgn + v4);
    assert(e6[dst] == q);
}

/// Law: the instructions that `resolve_opt_div` emits for `dst = src / imm`
/// leave in `dst` the truncating quotient of `src` by `imm`, taken to 32
/// bits, whatever the registers hold (the temporaries are fresh).
pub proof fn lemma_div_seq_computes_quotient(dst: Reg, src: Reg, imm: i32, f: i32, m: Operand, env: Map<Reg, int>)
    requires
        imm != 0,
        imm != i32::MIN,
        uses_magic(imm as int) ==> is_magic_label(imm as int, m),
        dst.id < f,
        src.id < f,
        f < i32::MAX - 5,
        env.contains_key(src),
        -half32() <= env[src] < half32(),
    ensures
        exec_seq(env, div_seq(op_reg(dst), op_reg(src), imm as int, f as int, m))[dst] == wrap32(tdiv(env[src], imm as int)),
{
    if !uses_magic(imm as int) {
        lemma_div_by_power_of_two_computes_quotient(dst, src, imm, f, m, env);
    } else {
        let x = env[src];
        let abs = abs_i(imm as int);
        let d = op_reg(dst);
        let sr = op_reg(src);
        if abs == 2 {
            assert(spec_is_opt_num(2i32)) by (bit_vector);
            assert(false);
        }
        let s1 = div_magic_seq(d, sr, abs, f as int, m);
        lemma_div_magic_seq(dst, src, abs, f as int, m, env);
        lemma_neg_tail(env, s1, dst, imm < 0, tdiv(x, abs));
        let q = tdiv(x, abs);
        assert(abs_i(x) / abs <= abs_i(x) / 2) by {
            vstd::arithmetic::div_mod::lemma_div_is_ordered_by_denominator(abs_i(x), 2, abs);
        }
        vstd::arithmetic::div_mod::lemma_div_pos_is_pos(abs_i(x), abs);
        lemma_wrap32_small(q);
        if imm < 0 {
            lemma_wrap32_small(-q);
            assert(tdiv(x, imm as int) == -q);
        } else {
            assert(tdiv(x, imm as int) == q);
        }
    }
}


proof fn lemma_neg_tail_writes(d: Operand, neg: bool, lo: int)
    ensures
        writes_within(neg_tail(d, neg), d, lo),
{
    if neg {
        assert(neg_tail(d, neg)[0].operands[0] == d);
    }
}

/// The division sequence writes only `dst` and its fresh temporaries.
proof fn lemma_div_seq_writes(d: Operand, src: Operand, imm: int, f: int, m: Operand)
    requires
        0 <= f < i32::MAX - 5,
    ensures
        writes_within(div_seq(d, src, imm, f, m), d, f),
{
    let abs = abs_i(imm);
    let s = div_seq(d, src, imm, f, m);
    if abs == 1 {
        assert(s[0].operands[0] == d);
    } else if opt_num_i(abs) {
        let a = div_pow2_seq(d, src, ilog2(abs) as int, f);
        assert(writes_within(a, d, f)) by {
            assert(a[0].operands[0] == op_reg(int_reg(f)));
            assert(a[1].operands[0] == op_reg(int_reg(f + 1)));
            assert(a[2].operands[0] == op_reg(int_reg(f + 2)));
            assert(a[3].operands[0] == d);
        }
        lemma_neg_tail_writes(d, imm < 0, f);
        lemma_writes_within_append(a, neg_tail(d, imm < 0), d, f);
    } else {
        let a = div_magic_seq(d, src, abs, f, m);
        assert(writes_within(a, d, f)) by {
            assert(a[0].operands[0] == op_reg(int_reg(f)));
            assert(a[1].operands[0] == op_reg(int_reg(f + 1)));
            assert(a[2].operands[0] == op_reg(int_reg(f + 2)));
            assert(a[3].operands[0] == op_reg(int_reg(f + 3)));
            assert(a[4].operands[0] == op_reg(int_reg(f + 4)));
            assert(a[5].operands[0] == d);
        }
        lemma_neg_tail_writes(d, imm < 0, f);
        lemma_writes_within_append(a, neg_tail(d, imm < 0), d, f);
    }
}

/// The multiplication sequence writes only `dst` and its fresh temporaries.
proof fn lemma_mul_seq_writes(d: Operand, src: Operand, imm: int, f: int)
    requires
        0 <= f < i32::MAX - 2,
    ensures
        writes_within(mul_seq(d, src, imm, f), d, f),
{
    let abs = abs_i(imm);
    let neg = imm < 0;
    let s = mul_seq(d, src, imm, f);
    lemma_neg_tail_writes(d, neg, f);
    if abs == 0 || abs == 1 {
        assert(s[0].operands[0] == d);
    } else if opt_num_i(abs) {
        let a = seq![new_inst(InstrsType::Binary(BinaryOp::Shl), seq![d, src, op_imm(ilog2(abs) as int)])];
        assert(a[0].operands[0] == d);
        lemma_writes_within_append(a, neg_tail(d, neg), d, f);
    } else if opt_num_i(abs - 1) || opt_num_i(abs + 1) {
        let k = if opt_num_i(abs - 1) { ilog2(abs - 1) } else { ilog2(abs + 1) };
        let kind = if opt_num_i(abs - 1) { InstrsType::Binary(BinaryOp::Add) } else { InstrsType::Binary(BinaryOp::Sub) };
        let tmp = op_reg(int_reg(f));
        let a = seq![
            new_inst(InstrsType::Binary(BinaryOp::Shl), seq![tmp, src, op_imm(k as int)]),
            new_inst(kind, seq![d, tmp, src]),
        ];
        assert(a[0].operands[0] == tmp && a[1].operands[0] == d);
        lemma_writes_within_append(a, neg_tail(d, neg), d, f);
        assert(s == a + neg_tail(d, neg));
    } else {
        let (power, opt_abs, do_add, can_opt) = opt_mul_search(abs, 0);
        let temp = op_reg(int_reg(f));
        if !can_opt {
            assert(s[0].operands[0] == temp && s[1].operands[0] == d);
        } else {
            let tmp2 = op_reg(int_reg(f + 1));
            let kind = if do_add { InstrsType::Binary(BinaryOp::Sub) } else { InstrsType::Binary(BinaryOp::Add) };
            let a = seq![
                new_inst(InstrsType::Binary(BinaryOp::Shl), seq![temp, src, op_imm(power as int)]),
                new_inst(InstrsType::Binary(BinaryOp::Shl), seq![tmp2, src, op_imm(ilog2(opt_abs) as int)]),
                new_inst(kind, seq![d, tmp2, temp]),
            ];
            assert(a[0].operands[0] == temp && a[1].operands[0] == tmp2 && a[2].operands[0] == d);
            lemma_writes_within_append(a, neg_tail(d, neg), d, f);
            assert(s == a + neg_tail(d, neg));
        }
    }
}

/// Law: the instructions that `resolve_opt_rem` emits for `dst = src % imm`
/// (`|imm| >= 2`) leave in `dst` the remainder of truncating division of
/// `src` by `imm`, whatever the registers hold (the temporaries are fresh).
pub proof fn lemma_rem_seq_computes_remainder(dst: Reg, src: Reg, imm: i32, f: i32, m: Operand, env: Map<Reg, int>)
    requires
        -i32::MAX < imm < i32::MAX,
        abs_i(imm as int) >= 2,
        uses_magic(imm as int) ==> is_magic_label(imm as int, m),
        dst.id < f,
        src.id < f,
        0 <= f < i32::MAX - 20,
        env.contains_key(src),
        -half32() <= env[src] < half32(),
    ensures
        exec_seq(env, rem_seq(op_reg(dst), op_reg(src), imm as int, f as int, m))[dst] == trem(env[src], imm as int),
{
    let abs = abs_i(imm as int);
    if opt_num_i(abs) {
        lemma_rem_by_power_of_two_computes_remainder(dst, src, imm, f, m, env);
    } else {
        let x = env[src];
        let t1 = int_reg(f as int);
        let t2 = int_reg(f + 1);
        let g = f + 2;
        let sd = div_seq(op_reg(t1), op_reg(src), imm as int, g as int, m);
        let h = f + 2 + div_fresh(imm as int);
        let sm = mul_seq(op_reg(t2), op_reg(t1), imm as int, h);
        let sub = new_inst(InstrsType::Binary(BinaryOp::Sub), seq![op_reg(dst), op_reg(src), op_reg(t2)]);
        assert(rem_seq(op_reg(dst), op_reg(src), imm as int, f as int, m) == sd + sm + seq![sub]);
        // the quotient
        lemma_div_seq_computes_quotient(t1, src, imm, g as i32, m, env);
        let e1 = exec_seq(env, sd);
        let q = tdiv(x, imm as int);
        assert(abs_i(x) / abs <= abs_i(x) / 2) by {
            vstd::arithmetic::div_mod::lemma_div_is_ordered_by_denominator(abs_i(x), 2, abs);
        }
        vstd::arithmetic::div_mod::lemma_div_pos_is_pos(abs_i(x), abs);
        lemma_wrap32_small(q);
        assert(e1[t1] == q);
        lemma_div_seq_writes(op_reg(t1), op_reg(src), imm as int, g as int, m);
        crate::semantics::lemma_exec_seq_keeps(env, sd, op_reg(t1), g as int, src);
        assert(e1.contains_key(t1)) by {
            lemma_div_seq_nonempty_writes_dst(op_reg(t1), op_reg(src), imm as int, g as int, m, env);
        }
        // the product
        lemma_mul_seq_computes_product(t2, t1, imm, h as i32, e1);
        let e2 = exec_seq(e1, sm);
        assert(e2[t2] == wrap32(q * imm));
        lemma_mul_seq_writes(op_reg(t2), op_reg(t1), imm as int, h);
        crate::semantics::lemma_exec_seq_keeps(e1, sm, op_reg(t2), h, src);
        crate::semantics::lemma_exec_seq_append(env, sd, sm);
        crate::semantics::lemma_exec_seq_append(env, sd + sm, seq![sub]);
        lemma_exec_one(e2, sub);
        // x - q * imm stays in range: |q * imm| <= |x|
        assert(-abs < x - q * imm < abs && -half32() <= q * imm < half32()) by {
            vstd::arithmetic::div_mod::lemma_fundamental_div_mod(abs_i(x), abs);
            vstd::arithmetic::div_mod::lemma_mod_bound(abs_i(x), abs);
            let k = abs_i(x) / abs;
            let r = abs_i(x) % abs;
            assert(abs_i(x) == abs * k + r);
            if x >= 0 {
                if imm < 0 {
                    assert(q * (imm as int) == abs * k) by (nonlinear_arith)
                        requires q == -k, imm == -abs;
                } else {
                    assert(q * (imm as int) == abs * k) by (nonlinear_arith)
                        requires q == k, imm == abs;
                }
            } else {
                if imm < 0 {
                    assert(q * (imm as int) == -(abs * k)) by (nonlinear_arith)
                        requires q == k, imm == -abs;
                } else {
                    assert(q * (imm as int) == -(abs * k)) by (nonlinear_arith)
                        requires q == -k, imm == abs;
                }
            }
        }
        lemma_wrap32_small(q * imm);
        lemma_wrap32_small(x - q * imm);
        assert(trem(x, imm as int) == x - q * imm) by (nonlinear_arith)
            requires q == tdiv(x, imm as int);
    }
}

/// The division sequence leaves a value in `dst`.
proof fn lemma_div_seq_nonempty_writes_dst(d: Operand, src: Operand, imm: int, f: int, m: Operand, env: Map<Reg, int>)
    requires
        d is Reg,
    ensures
        exec_seq(env, div_seq(d, src, imm, f, m)).contains_key(d->Reg_0),
{
    let s = div_seq(d, src, imm, f, m);
    let abs = abs_i(imm);
    // the last instruction that writes dst
    if abs == 1 {
        lemma_exec_one(env, s[0]);
        assert(s =~= seq![s[0]]);
    } else {
        let a = if opt_num_i(abs) { div_pow2_seq(d, src, ilog2(abs) as int, f) } else { div_magic_seq(d, src, abs, f, m) };
        assert(s == a + neg_tail(d, imm < 0));
        lemma_exec_push(env, a.drop_last(), a.last());
        assert(a.drop_last().push(a.last()) =~= a);
        assert(a.last().operands[0] == d);
        if imm < 0 {
            assert(a + neg_tail(d, imm < 0) =~= a.push(neg_tail(d, imm < 0)[0]));
            lemma_exec_push(env, a, neg_tail(d, imm < 0)[0]);
        } else {
            assert(a + neg_tail(d, imm < 0) =~= a);
        }
    }
}

/// Law: the instructions that `resolve_opt_mul` emits for `dst = src * imm`
/// leave in `dst` the 32-bit product of `src` and `imm`, whatever the
/// registers hold (the temporaries are fresh: above both operands' ids).
pub proof fn lemma_mul_seq_computes_product(dst: Reg, src: Reg, imm: i32, f: i32, env: Map<Reg, int>)
    requires
        -i32::MAX < imm < i32::MAX,
        dst.id < f,
        src.id < f,
        f < i32::MAX - 2,
        env.contains_key(src),
        -half32() <= env[src] < half32(),
    ensures
        exec_seq(env, mul_seq(op_reg(dst), op_reg(src), imm as int, f as int))[dst] == wrap32(env[src] * imm),
{
    let x = env[src];
    let abs = abs_i(imm as int);
    let neg = imm < 0;
    let d = op_reg(dst);
    let sr = op_reg(src);
    let s = mul_seq(d, sr, imm as int, f as int);
    crate::semantics::lemma_wrap32_small(x);
    if abs == 0 {
        lemma_exec_one(env, new_inst(InstrsType::OpReg(SingleOp::Mv), seq![d, op_imm(0)]));
        crate::semantics::lemma_wrap32_small(0);
        assert(x * imm == 0) by (nonlinear_arith) requires imm == 0;
    } else if abs == 1 {
        if neg {
            lemma_exec_one(env, new_inst(InstrsType::OpReg(SingleOp::Neg), seq![d, sr]));
            assert(x * imm == -x) by (nonlinear_arith) requires imm == -1;
        } else {
            lemma_exec_one(env, new_inst(InstrsType::OpReg(SingleOp::Mv), seq![d, sr]));
            assert(x * imm == x) by (nonlinear_arith) requires imm == 1;
        }
    } else if opt_num_i(abs) {
        lemma_opt_num_pow2(abs as i32);
        let k = ilog2(abs);
        let i1 = new_inst(InstrsType::Binary(BinaryOp::Shl), seq![d, sr, op_imm(k as int)]);
        lemma_exec_one(env, i1);
        assert(exec_seq(env, seq![i1])[dst] == wrap32(x * abs));
        assert(s == seq![i1] + neg_tail(d, neg));
        lemma_neg_tail(env, seq![i1], dst, neg, wrap32(x * abs));
        lemma_signed_product(x, abs, imm as int, wrap32(x * abs));
    } else if opt_num_i(abs - 1) {
        let tmp = int_reg(f as int);
        assert(abs - 1 > 0) by {
            if abs - 1 == 0 {
                let one: i32 = 1;
                assert(spec_is_opt_num(one)) by (bit_vector) requires one == 1i32;
            }
        }
        lemma_opt_num_pow2((abs - 1) as i32);
        let k = ilog2(abs - 1);
        let i1 = new_inst(InstrsType::Binary(BinaryOp::Shl), seq![op_reg(tmp), sr, op_imm(k as int)]);
        let i2 = new_inst(InstrsType::Binary(BinaryOp::Add), seq![d, op_reg(tmp), sr]);
        lemma_exec_two(env, i1, i2);
        let e1 = exec_inst(env, i1);
        assert(e1[tmp] == wrap32(x * (abs - 1)));
        assert(e1[src] == x);
        lemma_wrap32_add(x * (abs - 1), x);
        assert(x * (abs - 1) + x == x * abs) by (nonlinear_arith);
        assert(exec_seq(env, seq![i1, i2])[dst] == wrap32(x * abs));
        assert(s == seq![i1, i2] + neg_tail(d, neg));
        lemma_neg_tail(env, seq![i1, i2], dst, neg, wrap32(x * abs));
        lemma_signed_product(x, abs, imm as int, wrap32(x * abs));
    } else if opt_num_i(abs + 1) {
        let tmp = int_reg(f as int);
        lemma_opt_num_pow2((abs + 1) as i32);
        let k = ilog2(abs + 1);
        let i1 = new_inst(InstrsType::Binary(BinaryOp::Shl), seq![op_reg(tmp), sr, op_imm(k as int)]);
        let i2 = new_inst(InstrsType::Binary(BinaryOp::Sub), seq![d, op_reg(tmp), sr]);
        lemma_exec_two(env, i1, i2);
        let e1 = exec_inst(env, i1);
        assert(e1[tmp] == wrap32(x * (abs + 1)));
        assert(e1[src] == x);
        lemma_wrap32_add(x * (abs + 1), x);
        assert(x * (abs + 1) - x == x * abs) by (nonlinear_arith);
        assert(exec_seq(env, seq![i1, i2])[dst] == wrap32(x * abs));
        assert(s == seq![i1, i2] + neg_tail(d, neg));
        lemma_neg_tail(env, seq![i1, i2], dst, neg, wrap32(x * abs));
        lemma_signed_product(x, abs, imm as int, wrap32(x * abs));
    } else {
        lemma_find_mul_seq_computes_product(dst, src, imm, f, env);
    }
}

proof fn lemma_find_mul_seq_computes_product(dst: Reg, src: Reg, imm: i32, f: i32, env: Map<Reg, int>)
    requires
        -i32::MAX < imm < i32::MAX,
        !opt_num_i(abs_i(imm as int)),
        dst.id < f,
        src.id < f,
        f < i32::MAX - 2,
        env.contains_key(src),
        -half32() <= env[src] < half32(),
    ensures
        exec_seq(env, find_mul_seq(imm as int, op_reg(dst), op_reg(src), f as int))[dst] == wrap32(env[src] * imm),
{
    let x = env[src];
    let abs = abs_i(imm as int);
    let neg = imm < 0;
    let d = op_reg(dst);
    let sr = op_reg(src);
    let (power, opt_abs, do_add, can_opt) = opt_mul_search(abs, 0);
    let temp = int_reg(f as int);
    if !can_opt {
        let i1 = new_inst(InstrsType::OpReg(SingleOp::Li), seq![op_reg(temp), op_imm(imm as int)]);
        let i2 = new_inst(InstrsType::Binary(BinaryOp::Mul), seq![d, sr, op_reg(temp)]);
        lemma_exec_two(env, i1, i2);
        let e1 = exec_inst(env, i1);
        assert(e1[temp] == imm);
        assert(e1[src] == x);
    } else {
        lemma_opt_mul_search_found(abs, 0);
        if opt_abs <= 0 {
            lemma_pow2_opt_num(power);
            assert(false);
        }
        lemma_opt_num_pow2(opt_abs as i32);
        lemma_pow2_opt_num(power);
        let bits = ilog2(opt_abs);
        let tmp2 = int_reg(f + 1);
        let kind = if do_add { InstrsType::Binary(BinaryOp::Sub) } else { InstrsType::Binary(BinaryOp::Add) };
        let i1 = new_inst(InstrsType::Binary(BinaryOp::Shl), seq![op_reg(temp), sr, op_imm(power as int)]);
        let i2 = new_inst(InstrsType::Binary(BinaryOp::Shl), seq![op_reg(tmp2), sr, op_imm(bits as int)]);
        let i3 = new_inst(kind, seq![d, op_reg(tmp2), op_reg(temp)]);
        lemma_exec_three(env, i1, i2, i3);
        let e1 = exec_inst(env, i1);
        let e2 = exec_inst(e1, i2);
        let p2 = pow2(power) as int;
        assert(e1[temp] == wrap32(x * p2));
        assert(e2[tmp2] == wrap32(x * opt_abs));
        assert(e2[temp] == wrap32(x * p2));
        lemma_wrap32_add(x * opt_abs, wrap32(x * p2));
        lemma_wrap32_add(x * p2, x * opt_abs);
        if do_add {
            assert(x * opt_abs - x * p2 == x * abs) by (nonlinear_arith) requires opt_abs == abs + p2;
        } else {
            assert(x * opt_abs + x * p2 == x * abs) by (nonlinear_arith) requires opt_abs == abs - p2;
        }
        assert(exec_seq(env, seq![i1, i2, i3])[dst] == wrap32(x * abs));
        assert(find_mul_seq(imm as int, d, sr, f as int) == seq![i1, i2, i3] + neg_tail(d, neg));
        lemma_neg_tail(env, seq![i1, i2, i3], dst, neg, wrap32(x * abs));
        lemma_signed_product(x, abs, imm as int, wrap32(x * abs));
    }
}

impl BB {
    pub fn new(label: &str, func_label: &str) -> (r: Self)
        ensures
            r.label@ == label@,
            r.func_label@ == func_label@,
            r.showed,
            r.insts@.len() == 0,
            r.in_edge@.len() == 0,
            r.out_edge@.len() == 0,
            r.live_use@.len() == 0,
            r.live_def@.len() == 0,
            r.live_in@.len() == 0,
            r.live_out@.len() == 0,
            r.reg_intervals@.len() == 0,
            r.phis@.len() == 0,
    {
        Self {
            label: label.to_string(),
            func_label: func_label.to_string(),
            showed: true,
            insts: Vec::new(),
            in_edge: Vec::new(),
            out_edge: Vec::new(),
            live_use: Vec::new(),
            live_def: Vec::new(),
            live_in: Vec::new(),
            live_out: Vec::new(),
            reg_intervals: Vec::new(),
            phis: Vec::new(),
        }
    }

    /// Everything of the block but its instructions.
    pub open spec fn same_but_insts(&self, other: &BB) -> bool {
        &&& self.label == other.label
        &&& self.func_label == other.func_label
        &&& self.showed == other.showed
        &&& self.in_edge@ == other.in_edge@
        &&& self.out_edge@ == other.out_edge@
        &&& self.live_use@ == other.live_use@
        &&& self.live_def@ == other.live_def@
        &&& self.live_in@ == other.live_in@
        &&& self.live_out@ == other.live_out@
        &&& self.reg_intervals@ == other.reg_intervals@
        &&& self.phis@ == other.phis@
    }

    pub fn push_back(&mut self, inst: LIRInst)
        ensures
            final(self).insts@ == old(self).insts@.push(inst),
            final(self).same_but_insts(old(self)),
    {
        self.insts.push(inst);
    }

    /// Moves the instructions of `inst` to the end of the block.
    pub fn push_back_list(&mut self, inst: &mut Vec<LIRInst>)
        ensures
            final(self).insts@ == old(self).insts@ + old(inst)@,
            final(inst)@.len() == 0,
            final(self).same_but_insts(old(self)),
    {
        self.insts.append(inst);
    }

    /// Emits `dst = src * imm` with shifts, adds and subtractions where `|imm|`
    /// is 0, 1, a power of two or next to one, else through `find_opt_mul`.
    pub fn resolve_opt_mul(&mut self, dst: Operand, src: Operand, imm: i32, pool: &mut BackendPool)
        requires
            -i32::MAX < imm < i32::MAX,
            old(pool).next_reg_id < i32::MAX - 2,
        ensures
            insts_view(final(self).insts@) == insts_view(old(self).insts@) + mul_seq(dst, src, imm as int, old(pool).next_reg_id as int),
            final(pool).next_reg_id == old(pool).next_reg_id + mul_fresh(imm as int),
            pool_same_but_regs(final(pool), old(pool)),
            final(self).same_but_insts(old(self)),
    {
        let ghost old_insts = insts_view(self.insts@);
        let ghost f = pool.next_reg_id as int;
        let abs = if imm < 0 { -imm } else { imm };
        let is_neg = imm < 0;
        if abs == 0 {
            self.insts.push(inst2(InstrsType::OpReg(SingleOp::Mv), dst, Operand::IImm(IImm::new(0))));
            assert(insts_view(self.insts@) =~= old_insts + mul_seq(dst, src, imm as int, f));
        } else if abs == 1 {
            if !is_neg {
                self.insts.push(inst2(InstrsType::OpReg(SingleOp::Mv), dst, src));
            } else {
                self.insts.push(inst2(InstrsType::OpReg(SingleOp::Neg), dst, src));
            }
            assert(insts_view(self.insts@) =~= old_insts + mul_seq(dst, src, imm as int, f));
        } else if is_opt_num(abs) {
            let k = log2(abs);
            self.insts.push(inst3(InstrsType::Binary(BinaryOp::Shl), dst.clone(), src, Operand::IImm(IImm::new(k))));
            if is_neg {
                self.insts.push(inst2(InstrsType::OpReg(SingleOp::Neg), dst.clone(), dst));
            }
            assert(insts_view(self.insts@) =~= old_insts + mul_seq(dst, src, imm as int, f));
        } else if is_opt_num(abs - 1) {
            proof { assert(abs - 1 > 0) by { if abs - 1 == 0 { assert(spec_is_opt_num(abs)) by (bit_vector) requires abs == 1i32; } } }
            let tmp = Operand::Reg(pool.new_reg(ScalarType::Int));
            let k = log2(abs - 1);
            self.insts.push(inst3(InstrsType::Binary(BinaryOp::Shl), tmp.clone(), src.clone(), Operand::IImm(IImm::new(k))));
            self.insts.push(inst3(InstrsType::Binary(BinaryOp::Add), dst.clone(), tmp, src));
            if is_neg {
                self.insts.push(inst2(InstrsType::OpReg(SingleOp::Neg), dst.clone(), dst));
            }
            assert(insts_view(self.insts@) =~= old_insts + mul_seq(dst, src, imm as int, f));
        } else if is_opt_num(abs + 1) {
            let tmp = Operand::Reg(pool.new_reg(ScalarType::Int));
            let k = log2(abs + 1);
            self.insts.push(inst3(InstrsType::Binary(BinaryOp::Shl), tmp.clone(), src.clone(), Operand::IImm(IImm::new(k))));
            self.insts.push(inst3(InstrsType::Binary(BinaryOp::Sub), dst.clone(), tmp, src));
            if is_neg {
                self.insts.push(inst2(InstrsType::OpReg(SingleOp::Neg), dst.clone(), dst));
            }
            assert(insts_view(self.insts@) =~= old_insts + mul_seq(dst, src, imm as int, f));
        } else {
            self.find_opt_mul(imm, dst, src, pool);
        }
    }

    /// Emits `dst = src * imm` as `(src << a) ± (src << b)` when `|imm|` is a
    /// sum or a difference of two powers of two, else as a multiplication by
    /// the loaded constant; negated for a negative `imm`.
    fn find_opt_mul(&mut self, imm: i32, dst: Operand, src: Operand, pool: &mut BackendPool)
        requires
            -i32::MAX < imm < i32::MAX,
            !opt_num_i(abs_i(imm as int)),
            old(pool).next_reg_id < i32::MAX - 2,
        ensures
            insts_view(final(self).insts@) == insts_view(old(self).insts@) + find_mul_seq(imm as int, dst, src, old(pool).next_reg_id as int),
            final(pool).next_reg_id == old(pool).next_reg_id + find_mul_fresh(imm as int),
            pool_same_but_regs(final(pool), old(pool)),
            final(self).same_but_insts(old(self)),
    {
        let ghost old_insts = insts_view(self.insts@);
        let ghost f = pool.next_reg_id as int;
        let abs = if imm < 0 { -imm } else { imm };
        let is_neg = imm < 0;
        let mut power: u32 = 0;
        let mut opt_abs: i32 = 0;
        let mut do_add = false;
        let mut can_opt = false;
        loop
            invariant_except_break
                opt_mul_search(abs as int, 0) == opt_mul_search(abs as int, power as nat),
                !can_opt,
                !do_add,
                opt_abs == 0,
            invariant
                power <= 31,
                abs == abs_i(imm as int),
                0 <= abs < i32::MAX,
            ensures
                opt_mul_search(abs as int, 0) == (power as nat, opt_abs as int, do_add, can_opt),
            decreases 31 - power,
        {
            if power >= 31 {
                break;
            }
            proof {
                vstd::bits::lemma_u32_pow2_no_overflow(power as nat);
                vstd::bits::lemma_u32_shl_is_mul(1u32, power);
                lemma_pow2_strictly_increases(power as nat, 31);
                lemma2_to64();
            }
            let pw: u32 = 1u32 << power;
            if !(pw <= abs as u32 && (abs as u32 + pw) <= 2147483647) {
                break;
            }
            let pwi = pw as i32;
            if is_opt_num(abs + pwi) {
                do_add = true;
                opt_abs = abs + pwi;
                can_opt = true;
                break;
            }
            if is_opt_num(abs - pwi) {
                opt_abs = abs - pwi;
                can_opt = true;
                break;
            }
            power += 1;
        }
        let temp = Operand::Reg(pool.new_reg(ScalarType::Int));
        if !can_opt {
            self.insts.push(inst2(InstrsType::OpReg(SingleOp::Li), temp.clone(), Operand::IImm(IImm::new(imm))));
            self.insts.push(inst3(InstrsType::Binary(BinaryOp::Mul), dst, src, temp));
            assert(insts_view(self.insts@) =~= old_insts + find_mul_seq(imm as int, dst, src, f));
            return;
        }
        proof {
            lemma_opt_mul_search_found(abs as int, 0);
            if opt_abs <= 0 {
                assert(opt_abs == abs - pow2(power as nat));
                lemma_pow2_opt_num(power as nat);
                assert(abs == pow2(power as nat));
                assert(false);
            }
        }
        let bits = log2(opt_abs);
        let combine_inst_kind = if do_add {
            InstrsType::Binary(BinaryOp::Sub)
        } else {
            InstrsType::Binary(BinaryOp::Add)
        };
        self.insts.push(inst3(InstrsType::Binary(BinaryOp::Shl), temp.clone(), src.clone(), Operand::IImm(IImm::new(power as i32))));
        let tmp2 = Operand::Reg(pool.new_reg(ScalarType::Int));
        self.insts.push(inst3(InstrsType::Binary(BinaryOp::Shl), tmp2.clone(), src, Operand::IImm(IImm::new(bits))));
        self.insts.push(inst3(combine_inst_kind, dst.clone(), tmp2, temp));
        if is_neg {
            self.insts.push(inst2(InstrsType::OpReg(SingleOp::Neg), dst.clone(), dst));
        }
        assert(insts_view(self.insts@) =~= old_insts + find_mul_seq(imm as int, dst, src, f));
    }

    /// Emits `dst = src / imm` (signed, truncating): a move or negation for
    /// `|imm| == 1`; else the quotient by `|imm|` (a biased arithmetic shift
    /// for a power of two, a multiplication by the magic number of
    /// `get_magic` otherwise), negated when `imm` is negative.
    pub fn resolve_opt_div(&mut self, dst: Operand, src: Operand, imm: i32, pool: &mut BackendPool)
        requires
            imm != 0,
            imm != i32::MIN,
            old(pool).next_reg_id < i32::MAX - 5,
        ensures
            uses_magic(imm as int) ==> exists|m: Operand| is_magic_label(imm as int, m) && insts_view(final(self).insts@)
                == insts_view(old(self).insts@) + div_seq(dst, src, imm as int, old(pool).next_reg_id as int, m),
            !uses_magic(imm as int) ==> insts_view(final(self).insts@) == insts_view(old(self).insts@)
                + div_seq(dst, src, imm as int, old(pool).next_reg_id as int, op_imm(0)),
            final(pool).next_reg_id == old(pool).next_reg_id + div_fresh(imm as int),
            pool_same_but_regs(final(pool), old(pool)),
            final(self).same_but_insts(old(self)),
    {
        let ghost old_insts = insts_view(self.insts@);
        let ghost f = pool.next_reg_id as int;
        let abs = if imm < 0 { -imm } else { imm };
        let is_neg = imm < 0;
        if abs == 1 {
            if is_neg {
                self.insts.push(inst2(InstrsType::OpReg(SingleOp::Neg), dst, src));
            } else {
                self.insts.push(inst2(InstrsType::OpReg(SingleOp::Mv), dst, src));
            }
            assert(insts_view(self.insts@) =~= old_insts + div_seq(dst, src, imm as int, f, op_imm(0)));
        } else if is_opt_num(abs) {
            let bits = log2(abs);
            let tmp = Operand::Reg(pool.new_reg(ScalarType::Int));
            self.insts.push(inst3(InstrsType::Binary(BinaryOp::Sar), tmp.clone(), src.clone(), Operand::IImm(IImm::new(bits - 1))));
            let tmp2 = Operand::Reg(pool.new_reg(ScalarType::Int));
            self.insts.push(inst3(InstrsType::Binary(BinaryOp::Shr), tmp2.clone(), tmp, Operand::IImm(IImm::new(32 - bits))));
            let tmp3 = Operand::Reg(pool.new_reg(ScalarType::Int));
            self.insts.push(inst3(InstrsType::Binary(BinaryOp::Add), tmp3.clone(), tmp2, src));
            self.insts.push(inst3(InstrsType::Binary(BinaryOp::Sar), dst.clone(), tmp3, Operand::IImm(IImm::new(bits))));
            if is_neg {
                self.insts.push(inst2(InstrsType::OpReg(SingleOp::Neg), dst.clone(), dst));
            }
            assert(insts_view(self.insts@) =~= old_insts + div_seq(dst, src, imm as int, f, op_imm(0)));
        } else {
            let (magic, shift) = get_magic(false, abs);
            let m = Operand::Addr(i64_to_string(magic));
            let ghost gm = m;
            let tmp = Operand::Reg(pool.new_reg(ScalarType::Int));
            self.insts.push(inst2(InstrsType::OpReg(SingleOp::Li), tmp.clone(), m));
            let tmp2 = Operand::Reg(pool.new_reg(ScalarType::Int));
            let mut inst = inst3(InstrsType::Binary(BinaryOp::Mul), tmp2.clone(), tmp, src.clone());
            inst.set_double();
            self.insts.push(inst);
            let tmp3 = Operand::Reg(pool.new_reg(ScalarType::Int));
            let mut inst = inst3(InstrsType::Binary(BinaryOp::Shr), tmp3.clone(), tmp2, Operand::IImm(IImm::new(32)));
            inst.set_double();
            self.insts.push(inst);
            let tmp4 = Operand::Reg(pool.new_reg(ScalarType::Int));
            self.insts.push(inst3(InstrsType::Binary(BinaryOp::Sar), tmp4.clone(), tmp3, Operand::IImm(IImm::new(shift))));
            let tmp5 = Operand::Reg(pool.new_reg(ScalarType::Int));
            self.insts.push(inst3(InstrsType::Binary(BinaryOp::Shr), tmp5.clone(), src, Operand::IImm(IImm::new(31))));
            self.insts.push(inst3(InstrsType::Binary(BinaryOp::Add), dst.clone(), tmp5, tmp4));
            if is_neg {
                self.insts.push(inst2(InstrsType::OpReg(SingleOp::Neg), dst.clone(), dst));
            }
            assert(is_magic_label(imm as int, gm));
            assert(insts_view(self.insts@) =~= old_insts + div_seq(dst, src, imm as int, f, gm));
        }
    }

    /// Loads `imm` into a fresh integer register.
    pub fn load_iimm_to_ireg(&mut self, imm: i32, pool: &mut BackendPool) -> (r: Operand)
        requires
            old(pool).next_reg_id < i32::MAX,
        ensures
            r == op_reg(int_reg(old(pool).next_reg_id as int)),
            insts_view(final(self).insts@) == insts_view(old(self).insts@).push(
                new_inst(InstrsType::OpReg(SingleOp::Li), seq![r, op_imm(imm as int)]),
            ),
            final(pool).next_reg_id == old(pool).next_reg_id + 1,
            pool_same_but_regs(final(pool), old(pool)),
            final(self).same_but_insts(old(self)),
    {
        let reg = Operand::Reg(pool.new_reg(ScalarType::Int));
        self.insts.push(inst2(InstrsType::OpReg(SingleOp::Li), reg.clone(), Operand::IImm(IImm::new(imm))));
        proof {
            assert(insts_view(self.insts@) =~= insts_view(old(self).insts@).push(
                new_inst(InstrsType::OpReg(SingleOp::Li), seq![reg, op_imm(imm as int)]),
            ));
        }
        reg
    }

    /// The immediate `imm` itself when it fits 12 bits, else a fresh register
    /// loaded with it.
    pub fn resolve_iimm(&mut self, imm: i32, pool: &mut BackendPool) -> (r: Operand)
        requires
            old(pool).next_reg_id < i32::MAX,
        ensures
            r == iimm_operand(imm as int, old(pool).next_reg_id as int),
            insts_view(final(self).insts@) == insts_view(old(self).insts@) + iimm_seq(imm as int, old(pool).next_reg_id as int),
            final(pool).next_reg_id == old(pool).next_reg_id + iimm_fresh(imm as int),
            pool_same_but_regs(final(pool), old(pool)),
            final(self).same_but_insts(old(self)),
    {
        let res = IImm::new(imm);
        if is_imm_12bs(imm) {
            assert(insts_view(self.insts@) =~= insts_view(old(self).insts@) + iimm_seq(imm as int, old(pool).next_reg_id as int));
            Operand::IImm(res)
        } else {
            let r = self.load_iimm_to_ireg(imm, pool);
            assert(insts_view(self.insts@) =~= insts_view(old(self).insts@) + iimm_seq(imm as int, old(pool).next_reg_id as int));
            r
        }
    }

    /// Emits `dst = lhs % imm` (signed): for a power of two by masking the
    /// biased value, else as `lhs - (lhs / imm) * imm`.
    pub fn resolve_opt_rem(&mut self, dst: Operand, lhs_reg: Operand, imm: i32, pool: &mut BackendPool)
        requires
            imm != 0,
            -i32::MAX < imm < i32::MAX,
            old(pool).next_reg_id < i32::MAX - 20,
        ensures
            uses_magic(imm as int) ==> exists|m: Operand| is_magic_label(imm as int, m) && insts_view(final(self).insts@)
                == insts_view(old(self).insts@) + rem_seq(dst, lhs_reg, imm as int, old(pool).next_reg_id as int, m),
            !uses_magic(imm as int) ==> insts_view(final(self).insts@) == insts_view(old(self).insts@)
                + rem_seq(dst, lhs_reg, imm as int, old(pool).next_reg_id as int, op_imm(0)),
            final(pool).next_reg_id == old(pool).next_reg_id + rem_fresh(imm as int),
            pool_same_but_regs(final(pool), old(pool)),
            final(self).same_but_insts(old(self)),
    {
        let ghost old_insts = insts_view(self.insts@);
        let ghost f = pool.next_reg_id as int;
        let abs = if imm < 0 { -imm } else { imm };
        if is_opt_num(abs) {
            let k = log2(abs);
            let tmp = Operand::Reg(pool.new_reg(ScalarType::Int));
            let ghost head: Seq<InstView>;
            if k == 1 {
                self.insts.push(inst3(InstrsType::Binary(BinaryOp::Shr), tmp.clone(), lhs_reg.clone(), Operand::IImm(IImm::new(32 - k))));
                proof {
                    head = seq![new_inst(InstrsType::Binary(BinaryOp::Shr), seq![tmp, lhs_reg, op_imm(32 - k)])];
                }
            } else {
                let tmp2 = Operand::Reg(pool.new_reg(ScalarType::Int));
                self.insts.push(inst3(InstrsType::Binary(BinaryOp::Sar), tmp2.clone(), lhs_reg.clone(), Operand::IImm(IImm::new(k - 1))));
                self.insts.push(inst3(InstrsType::Binary(BinaryOp::Shr), tmp.clone(), tmp2, Operand::IImm(IImm::new(32 - k))));
                proof {
                    head = seq![
                        new_inst(InstrsType::Binary(BinaryOp::Sar), seq![tmp2, lhs_reg, op_imm(k - 1)]),
                        new_inst(InstrsType::Binary(BinaryOp::Shr), seq![tmp, tmp2, op_imm(32 - k)]),
                    ];
                }
            }
            assert(insts_view(self.insts@) =~= old_insts + head);
            let ghost g = pool.next_reg_id as int;
            let tmp3 = Operand::Reg(pool.new_reg(ScalarType::Int));
            self.insts.push(inst3(InstrsType::Binary(BinaryOp::Add), tmp3.clone(), lhs_reg, tmp.clone()));
            let ghost mid = insts_view(self.insts@);
            assert(mid =~= old_insts + head + seq![new_inst(InstrsType::Binary(BinaryOp::Add), seq![tmp3, lhs_reg, tmp])]);
            assert(g == (if k == 1 { f + 1 } else { f + 2 }));
            let abs_reg = self.resolve_iimm(abs - 1, pool);
            let ghost mid2 = insts_view(self.insts@);
            assert(mid2 == mid + iimm_seq(abs - 1, g + 1));
            assert(abs_reg == iimm_operand(abs - 1, g + 1));
            let tmp4 = Operand::Reg(pool.new_reg(ScalarType::Int));
            assert(tmp4 == op_reg(int_reg(g + 1 + iimm_fresh(abs - 1))));
            self.insts.push(inst3(InstrsType::Binary(BinaryOp::And), tmp4.clone(), tmp3, abs_reg));
            self.insts.push(inst3(InstrsType::Binary(BinaryOp::Sub), dst, tmp4, tmp));
            assert(insts_view(self.insts@) =~= mid2 + seq![
                new_inst(InstrsType::Binary(BinaryOp::And), seq![tmp4, tmp3, abs_reg]),
                new_inst(InstrsType::Binary(BinaryOp::Sub), seq![dst, tmp4, tmp]),
            ]);
            assert(insts_view(self.insts@) =~= old_insts + rem_seq(dst, lhs_reg, imm as int, f, op_imm(0)));
        } else {
            assert(abs != 1) by {
                if abs == 1 {
                    assert(spec_is_opt_num(abs)) by (bit_vector) requires abs == 1i32;
                }
            }
            assert(uses_magic(imm as int));
            let tmp1 = Operand::Reg(pool.new_reg(ScalarType::Int));
            let tmp2 = Operand::Reg(pool.new_reg(ScalarType::Int));
            let ghost g = pool.next_reg_id as int;
            self.resolve_opt_div(tmp1.clone(), lhs_reg.clone(), imm, pool);
            let ghost after_div = insts_view(self.insts@);
            let ghost h = pool.next_reg_id as int;
            self.resolve_opt_mul(tmp2.clone(), tmp1.clone(), imm, pool);
            let ghost after_mul = insts_view(self.insts@);
            self.insts.push(inst3(InstrsType::Binary(BinaryOp::Sub), dst, lhs_reg, tmp2));
            proof {
                assert(g == f + 2);
                assert(h == f + 2 + div_fresh(imm as int));
                assert(after_mul == after_div + mul_seq(tmp2, tmp1, imm as int, h));
                let m = choose|m: Operand| is_magic_label(imm as int, m) && after_div == old_insts + div_seq(tmp1, lhs_reg, imm as int, g, m);
                assert(tmp1 == op_reg(int_reg(f)));
                assert(tmp2 == op_reg(int_reg(f + 1)));
                assert(insts_view(self.insts@) =~= after_mul.push(new_inst(InstrsType::Binary(BinaryOp::Sub), seq![dst, lhs_reg, tmp2])));
                assert(rem_seq(dst, lhs_reg, imm as int, f, m) == div_seq(tmp1, lhs_reg, imm as int, f + 2, m) + mul_seq(tmp2, tmp1, imm as int, f + 2 + div_fresh(imm as int)) + seq![
                    new_inst(InstrsType::Binary(BinaryOp::Sub), seq![dst, lhs_reg, tmp2]),
                ]);
                assert(insts_view(self.insts@) =~= old_insts + rem_seq(dst, lhs_reg, imm as int, f, m));
            }
        }
    }

    /// Inserts at `*pos` a load of `offset` into `temp`, and moves `*pos` past it.
    pub fn resolve_overflow_sl(&mut self, temp: Operand, pos: &mut usize, offset: i32)
        requires
            *old(pos) <= old(self).insts@.len(),
        ensures
            insts_view(final(self).insts@) == insts_view(old(self).insts@).insert(
                *old(pos) as int,
                new_inst(InstrsType::OpReg(SingleOp::Li), seq![temp, op_imm(offset as int)]),
            ),
            *final(pos) == *old(pos) + 1,
            final(self).same_but_insts(old(self)),
    {
        self.insts.insert(*pos, inst2(InstrsType::OpReg(SingleOp::Li), temp, Operand::IImm(IImm::new(offset))));
        let n = self.insts.len();
        assert(n == old(self).insts@.len() + 1);
        proof {
            assert(insts_view(self.insts@) =~= insts_view(old(self).insts@).insert(
                *old(pos) as int,
                new_inst(InstrsType::OpReg(SingleOp::Li), seq![temp, op_imm(offset as int)]),
            ));
        }
        *pos += 1;
    }

    pub fn get_prev(&self) -> (r: &Vec<usize>)
        ensures
            r@ == self.in_edge@,
    {
        &self.in_edge
    }

    pub fn get_after(&self) -> (r: &Vec<usize>)
        ensures
            r@ == self.out_edge@,
    {
        &self.out_edge
    }

    pub fn get_last_not_tail_inst(&self) -> (r: &LIRInst)
        requires
            self.insts@.len() >= 2,
        ensures
            *r == self.insts@[self.insts@.len() - 2],
    {
        &self.insts[self.insts.len() - 2]
    }

    pub fn get_tail_inst(&self) -> (r: &LIRInst)
        requires
            self.insts@.len() >= 1,
        ensures
            *r == self.insts@[self.insts@.len() - 1],
    {
        &self.insts[self.insts.len() - 1]
    }

    /// Rewrites the block so that the spilled registers (those whose id is in
    /// `spill`) live on the stack: before each instruction that names some,
    /// their values are loaded from their slots into temporaries (t0.. for
    /// ints, fs2.. for floats), the instruction is made to use the
    /// temporaries, and a defined value is stored back to its slot.
    pub fn handle_spill_v2(&mut self, spill_stack_map: &Vec<(Reg, StackSlot)>, spill: &HashSet<i32>)
        requires
            forall|k: int| 0 <= k < old(self).insts@.len() ==> spill_ready(spill_stack_map@, spill@, #[trigger] old(self).insts@[k]@),
            forall|k: int| 0 <= k < old(self).insts@.len() ==> spilled_regs(#[trigger] old(self).insts@[k]@.operands, spill@).len() <= i32::MAX - 50,
        ensures
            insts_view(final(self).insts@) == spill_block(spill_stack_map@, spill@, insts_view(old(self).insts@), old(self).insts@.len() as int),
            final(self).same_but_insts(old(self)),
    {
        let mut new_insts: Vec<LIRInst> = Vec::new();
        let mut index: usize = 0;
        while index < self.insts.len()
            invariant
                self == old(self),
                index <= self.insts@.len(),
                forall|k: int| 0 <= k < old(self).insts@.len() ==> spill_ready(spill_stack_map@, spill@, #[trigger] old(self).insts@[k]@),
                forall|k: int| 0 <= k < old(self).insts@.len() ==> spilled_regs(#[trigger] old(self).insts@[k]@.operands, spill@).len() <= i32::MAX - 50,
                insts_view(new_insts@) == spill_block(spill_stack_map@, spill@, insts_view(old(self).insts@), index as int),
            decreases self.insts@.len() - index,
        {
            let ghost before = new_insts@;
            let mut inst = self.insts[index].clone();
            let ghost iv = inst@;
            assert(iv == insts_view(old(self).insts@)[index as int]);
            let spills = inst.is_spill(spill);
            assert(spill_ready(spill_stack_map@, spill@, old(self).insts@[index as int]@));
            if spills.len() == 0 {
                new_insts.push(inst);
                proof {
                    assert(insts_view(new_insts@) =~= insts_view(before).push(iv));
                }
            } else {
                let n = spills.len();
                let mut i: usize = 0;
                while i < n
                    invariant
                        n == spills@.len(),
                        n <= i32::MAX - 50,
                        spills@ == spilled_regs(iv.operands, spill@),
                        spill_ready(spill_stack_map@, spill@, iv),
                        i <= n,
                        insts_view(new_insts@) == insts_view(before) + spill_loads(spill_stack_map@, spills@, i as int),
                    decreases n - i,
                {
                    let r = spills[i];
                    assert(has_slot(spill_stack_map@, spills@[i as int]));
                    let reg = if r.get_type() == ScalarType::Int {
                        Operand::Reg(Reg::new(5 + (i as i32), ScalarType::Int))
                    } else {
                        Operand::Reg(Reg::new(18 + FLOAT_BASE + (i as i32), ScalarType::Float))
                    };
                    let stack_slot = find_slot(spill_stack_map, &r).unwrap();
                    let mut ops: Vec<Operand> = Vec::new();
                    ops.push(reg);
                    ops.push(Operand::IImm(IImm::new(stack_slot.get_pos())));
                    let mut ins = LIRInst::new(InstrsType::LoadFromStack, ops);
                    ins.set_double();
                    proof {
                        assert(ins@.operands =~= seq![Operand::Reg(spill_temp(r, i as int)), Operand::IImm(IImm { data: slot_of(spill_stack_map@, r).pos })]);
                        assert(ins@ == spill_load(spill_stack_map@, r, i as int));
                    }
                    let ghost prev = new_insts@;
                    new_insts.push(ins);
                    proof {
                        assert(insts_view(new_insts@) =~= insts_view(prev).push(spill_load(spill_stack_map@, spills@[i as int], i as int)));
                        assert(spill_loads(spill_stack_map@, spills@, i + 1) == spill_loads(spill_stack_map@, spills@, i as int).push(spill_load(spill_stack_map@, spills@[i as int], i as int)));
                    }
                    i += 1;
                    proof {
                        assert(insts_view(new_insts@) =~= insts_view(before) + spill_loads(spill_stack_map@, spills@, i as int));
                    }
                }
                let ghost after_loads = new_insts@;
                let mut j: usize = 0;
                while j < n
                    invariant
                        n == spills@.len(),
                        n <= i32::MAX - 50,
                        j <= n,
                        inst@ == spill_rename(iv, spills@, j as int),
                    decreases n - j,
                {
                    let r = spills[j];
                    if r.get_type() == ScalarType::Int {
                        inst.replace(r.get_id(), 5 + (j as i32));
                    } else {
                        inst.replace(r.get_id(), 18 + FLOAT_BASE + (j as i32));
                    }
                    j += 1;
                    proof {
                        assert(inst@.operands =~= spill_rename(iv, spills@, j as int).operands);
                    }
                }
                let ghost renamed = inst@;
                proof { lemma_spill_rename_len(iv, spills@, n as int); }
                assert(renamed.operands.len() == iv.operands.len());
                let dst_is_reg = inst.operands.len() > 0 && match &inst.operands[0] {
                    Operand::Reg(_) => true,
                    _ => false,
                };
                let is_store = match inst.get_type() {
                    InstrsType::Store | InstrsType::StoreParamToStack | InstrsType::StoreToStack => true,
                    _ => false,
                };
                let dst = if dst_is_reg { inst.operands[0].clone() } else { Operand::IImm(IImm::new(0)) };
                new_insts.push(inst);
                let ghost after_inst = new_insts@;
                proof {
                    assert(insts_view(after_inst) =~= insts_view(before) + spill_loads(spill_stack_map@, spills@, n as int) + seq![renamed]);
                }
                if dst_is_reg && !is_store {
                    let mut k: usize = 0;
                    while k < n
                        invariant
                            n == spills@.len(),
                            n <= i32::MAX - 50,
                            spills@ == spilled_regs(iv.operands, spill@),
                            spill_ready(spill_stack_map@, spill@, iv),
                            k <= n,
                            renamed.operands.len() > 0,
                            dst == renamed.operands[0],
                            insts_view(new_insts@) == insts_view(after_inst) + spill_stores(spill_stack_map@, renamed, spills@, k as int),
                        decreases n - k,
                    {
                        let r = spills[k];
                        assert(has_slot(spill_stack_map@, spills@[k as int]));
                        let ghost prev = new_insts@;
                        let skip = match &dst {
                            Operand::Reg(ireg) => (ireg.get_type() == ScalarType::Int && ireg.get_id() != 5 + (k as i32))
                                || (ireg.get_type() == ScalarType::Float && ireg.get_id() != 18 + FLOAT_BASE + (k as i32)),
                            _ => false,
                        };
                        if !skip {
                            let reg = if r.get_type() == ScalarType::Int {
                                Operand::Reg(Reg::new(5 + (k as i32), ScalarType::Int))
                            } else {
                                Operand::Reg(Reg::new(18 + FLOAT_BASE + (k as i32), ScalarType::Float))
                            };
                            let stack_slot = find_slot(spill_stack_map, &r).unwrap();
                            let mut ops: Vec<Operand> = Vec::new();
                            ops.push(reg);
                            ops.push(Operand::IImm(IImm::new(stack_slot.get_pos())));
                            let mut ins = LIRInst::new(InstrsType::StoreToStack, ops);
                            ins.set_double();
                            proof {
                                assert(ins@.operands =~= seq![Operand::Reg(spill_temp(r, k as int)), Operand::IImm(IImm { data: slot_of(spill_stack_map@, r).pos })]);
                                assert(ins@ == spill_store(spill_stack_map@, r, k as int));
                            }
                            new_insts.push(ins);
                        }
                        proof {
                            assert(spill_keeps_store(renamed, k as int) == !skip);
                            if !skip {
                                assert(insts_view(new_insts@) =~= insts_view(prev).push(spill_store(spill_stack_map@, spills@[k as int], k as int)));
                            } else {
                                assert(insts_view(new_insts@) =~= insts_view(prev));
                            }
                        }
                        k += 1;
                        proof {
                            assert(insts_view(new_insts@) =~= insts_view(after_inst) + spill_stores(spill_stack_map@, renamed, spills@, k as int));
                        }
                    }
                }
                proof {
                    assert(insts_view(new_insts@) =~= insts_view(before) + spill_expand(spill_stack_map@, spill@, iv));
                }
            }
            index += 1;
            proof {
                assert(insts_view(new_insts@) =~= spill_block(spill_stack_map@, spill@, insts_view(old(self).insts@), index as int));
            }
        }
        self.insts = new_insts;
    }
}

} // verus!
