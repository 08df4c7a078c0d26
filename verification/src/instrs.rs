use std::collections::{HashMap, HashSet};
use vstd::prelude::*;
use crate::operand::{FImm, IImm, Reg, ScalarType, ARG_REG_COUNT, FLOAT_BASE};

verus! {

broadcast use vstd::std_specs::hash::group_hash_axioms;

/// An operand of a low-level instruction.
#[derive(Debug)]
pub enum Operand {
    IImm(IImm),
    FImm(FImm),
    Reg(Reg),
    Addr(String),
}

impl Clone for Operand {
    fn clone(&self) -> (r: Self)
        ensures
            r == *self,
    {
        match self {
            Operand::IImm(i) => Operand::IImm(*i),
            Operand::FImm(f) => Operand::FImm(*f),
            Operand::Reg(r) => Operand::Reg(*r),
            Operand::Addr(s) => Operand::Addr(s.clone()),
        }
    }
}

/// Two operands are the same when they are of one kind and hold the same
/// value (labels are compared by their text).
pub open spec fn same_operand(a: Operand, b: Operand) -> bool {
    match (a, b) {
        (Operand::IImm(x), Operand::IImm(y)) => x == y,
        (Operand::FImm(x), Operand::FImm(y)) => x == y,
        (Operand::Reg(x), Operand::Reg(y)) => x == y,
        (Operand::Addr(x), Operand::Addr(y)) => x@ == y@,
        _ => false,
    }
}

impl PartialEq for Operand {
    fn eq(&self, other: &Self) -> (r: bool) {
        match (self, other) {
            (Operand::IImm(x), Operand::IImm(y)) => x.data == y.data,
            (Operand::FImm(x), Operand::FImm(y)) => x.bits == y.bits,
            (Operand::Reg(x), Operand::Reg(y)) => x.id == y.id && x.r_type == y.r_type,
            (Operand::Addr(x), Operand::Addr(y)) => x.eq(y),
            _ => false,
        }
    }
}

impl vstd::std_specs::cmp::PartialEqSpecImpl for Operand {
    open spec fn obeys_eq_spec() -> bool {
        true
    }

    open spec fn eq_spec(&self, other: &Self) -> bool {
        same_operand(*self, *other)
    }
}

impl Operand {
    /// The register an operand holds; the operand must be a register.
    pub fn drop_reg(&self) -> (r: Reg)
        requires
            self is Reg,
        ensures
            *self == Operand::Reg(r),
    {
        match self {
            Operand::Reg(r) => *r,
            _ => { proof { assert(false); } Reg::new(0, ScalarType::Void) },
        }
    }

    /// The label an operand holds; the operand must be an address.
    pub fn drop_addr(&self) -> (r: String)
        requires
            self is Addr,
        ensures
            *self == Operand::Addr(r),
    {
        match self {
            Operand::Addr(s) => s.clone(),
            _ => { proof { assert(false); } String::new() },
        }
    }
}

/// Binary operators.
#[derive(Clone, Copy, Debug, PartialEq, Eq, Structural)]
pub enum BinaryOp {
    Add,
    Sub,
    Mul,
    Div,
    Rem,
    And,
    Or,
    Xor,
    Slt,
    /// Shift left logical.
    Shl,
    /// Shift right logical.
    Shr,
    /// Shift right arithmetic.
    Sar,
    FCmp(CmpOp),
}

/// Unary operators.
#[derive(Copy, Clone, Debug, PartialEq, Eq, Structural)]
pub enum SingleOp {
    Li,
    Mv,
    Neg,
    I2F,
    F2I,
    LoadAddr,
    Seqz,
    Snez,
    LoadFImm,
}

/// Comparison operators.
#[derive(Copy, Clone, Debug, PartialEq, Eq, Structural)]
pub enum CmpOp {
    Ne,
    Eq,
    Gt,
    Lt,
    Ge,
    Le,
    Eqz,
}

/// The kinds of low-level instructions.
#[derive(Copy, Clone, Debug, PartialEq, Eq, Structural)]
pub enum InstrsType {
    /// dst: reg = lhs op rhs
    Binary(BinaryOp),
    /// dst: reg = op src
    OpReg(SingleOp),
    /// dst: reg, offset: iimm (sp relative)
    LoadFromStack,
    /// src: reg, offset: iimm (sp relative)
    StoreToStack,
    LoadParamFromStack,
    StoreParamToStack,
    /// dst: reg, base: reg, offset: iimm
    Load,
    /// value: reg, base: reg, offset: iimm
    Store,
    /// call "funcname"
    Call,
    /// conditional branch to a block
    Branch(CmpOp),
    /// jump to a block
    Jump,
    Ret(ScalarType),
}

/// A low-level (RISC-V like) instruction: operand 0 is the destination,
/// operands 1.. are the sources.
#[derive(Debug)]
pub struct LIRInst {
    pub inst_type: InstrsType,
    pub operands: Vec<Operand>,
    /// (int params, float params) of a call
    pub param_cnt: (i32, i32),
    pub double: bool,
    pub float: bool,
    pub func_type: ScalarType,
}

/// The mathematical value of an instruction.
pub struct InstView {
    pub inst_type: InstrsType,
    pub operands: Seq<Operand>,
    pub param_cnt: (i32, i32),
    pub double: bool,
    pub float: bool,
    pub func_type: ScalarType,
}

impl View for LIRInst {
    type V = InstView;

    open spec fn view(&self) -> InstView {
        InstView {
            inst_type: self.inst_type,
            operands: self.operands@,
            param_cnt: self.param_cnt,
            double: self.double,
            float: self.float,
            func_type: self.func_type,
        }
    }
}

/// A fresh instruction of kind `t` over `ops`.
pub open spec fn new_inst(t: InstrsType, ops: Seq<Operand>) -> InstView {
    InstView { inst_type: t, operands: ops, param_cnt: (0, 0), double: false, float: false, func_type: ScalarType::Void }
}

/// The same instruction with its double flag set.
pub open spec fn with_double(i: InstView) -> InstView {
    InstView { double: true, ..i }
}

/// The views of a sequence of instructions.
pub open spec fn insts_view(s: Seq<LIRInst>) -> Seq<InstView> {
    s.map_values(|i: LIRInst| i@)
}

impl Clone for LIRInst {
    fn clone(&self) -> (r: Self)
        ensures
            r@ == self@,
    {
        let mut ops: Vec<Operand> = Vec::new();
        let mut i: usize = 0;
        while i < self.operands.len()
            invariant
                i <= self.operands@.len(),
                ops@ == self.operands@.subrange(0, i as int),
            decreases self.operands@.len() - i,
        {
            ops.push(self.operands[i].clone());
            i += 1;
            proof {
                assert(ops@ =~= self.operands@.subrange(0, i as int));
            }
        }
        assert(self.operands@.subrange(0, self.operands@.len() as int) =~= self.operands@);
        LIRInst {
            inst_type: self.inst_type,
            operands: ops,
            param_cnt: self.param_cnt,
            double: self.double,
            float: self.float,
            func_type: self.func_type,
        }
    }
}

/// The registers among `ops`, in order.
pub open spec fn regs_of(ops: Seq<Operand>) -> Seq<Reg>
    decreases ops.len(),
{
    if ops.len() == 0 {
        Seq::empty()
    } else {
        let p = regs_of(ops.drop_last());
        match ops.last() {
            Operand::Reg(r) => p.push(r),
            _ => p,
        }
    }
}

/// The registers among `ops`, from the last operand to the first.
pub open spec fn regs_rev(ops: Seq<Operand>) -> Seq<Reg>
    decreases ops.len(),
{
    if ops.len() == 0 {
        Seq::empty()
    } else {
        let p = regs_rev(ops.drop_last());
        match ops.last() {
            Operand::Reg(r) => seq![r] + p,
            _ => p,
        }
    }
}

/// Instruction kinds whose operand 0 is a defined register.
pub open spec fn defines_dst(t: InstrsType) -> bool {
    match t {
        InstrsType::Binary(..) | InstrsType::OpReg(..) | InstrsType::Load
        | InstrsType::LoadFromStack | InstrsType::LoadParamFromStack => true,
        _ => false,
    }
}

/// Instruction kinds that use every source operand after the destination.
pub open spec fn uses_sources(t: InstrsType) -> bool {
    match t {
        InstrsType::Binary(..) | InstrsType::OpReg(..) | InstrsType::Load
        | InstrsType::LoadFromStack | InstrsType::Branch(..) | InstrsType::Jump
        | InstrsType::LoadParamFromStack => true,
        _ => false,
    }
}

pub open spec fn is_store_kind(t: InstrsType) -> bool {
    match t {
        InstrsType::Store | InstrsType::StoreParamToStack | InstrsType::StoreToStack => true,
        _ => false,
    }
}

pub open spec fn spec_min(a: int, b: int) -> int {
    if a < b { a } else { b }
}

/// Argument registers read by a call with `ni` int and `nf` float parameters.
pub open spec fn call_arg_regs(ni: int, nf: int) -> Seq<Reg> {
    let ci = if spec_min(ni, ARG_REG_COUNT as int) < 0 { 0 } else { spec_min(ni, ARG_REG_COUNT as int) };
    let cf = if spec_min(nf, ARG_REG_COUNT as int) < 0 { 0 } else { spec_min(nf, ARG_REG_COUNT as int) };
    Seq::new(ci as nat, |j: int| Reg { id: (j + 10) as i32, r_type: ScalarType::Int })
        + Seq::new(cf as nat, |j: int| Reg { id: (j + 10 + FLOAT_BASE) as i32, r_type: ScalarType::Float })
}

/// The ids of the registers in `s`.
pub open spec fn reg_ids(s: Seq<Reg>) -> Set<i32> {
    Set::new(|id: i32| exists|k: int| 0 <= k < s.len() && s[k].id == id)
}

/// `s` without the registers whose id was met before, first occurrences kept.
pub open spec fn dedup_by_id(s: Seq<Reg>) -> Seq<Reg>
    decreases s.len(),
{
    if s.len() == 0 {
        Seq::empty()
    } else {
        let p = dedup_by_id(s.drop_last());
        if reg_ids(p).contains(s.last().id) {
            p
        } else {
            p.push(s.last())
        }
    }
}

/// What `v_to_phy` makes of one operand.
pub open spec fn v_to_phy_operand(op: Operand, map: Map<i32, i32>, tmp_vars: Seq<Reg>) -> Operand {
    match op {
        Operand::Reg(r) => if !r.spec_is_physic() && !tmp_vars.contains(r) && map.contains_key(r.id) {
            Operand::Reg(Reg { id: map[r.id], r_type: r.r_type })
        } else {
            op
        },
        _ => op,
    }
}

/// What `replace_reg` makes of one operand.
pub open spec fn replace_reg_operand(op: Operand, old_reg: Reg, new_reg: Reg) -> Operand {
    match op {
        Operand::Reg(r) => if r == old_reg { Operand::Reg(new_reg) } else { op },
        _ => op,
    }
}

/// What `replace` makes of one operand.
pub open spec fn replace_id_operand(op: Operand, old: i32, new: i32) -> Operand {
    match op {
        Operand::Reg(r) => if r.id == old { Operand::Reg(Reg { id: new, r_type: r.r_type }) } else { op },
        _ => op,
    }
}

/// The registers of `ops` whose id is in `ids`, each once, in order of first occurrence.
pub open spec fn spilled_regs(ops: Seq<Operand>, ids: Set<i32>) -> Seq<Reg>
    decreases ops.len(),
{
    if ops.len() == 0 {
        Seq::empty()
    } else {
        let p = spilled_regs(ops.drop_last(), ids);
        match ops.last() {
            Operand::Reg(r) => if ids.contains(r.id) && !p.contains(r) { p.push(r) } else { p },
            _ => p,
        }
    }
}

proof fn lemma_reg_ids_push(s: Seq<Reg>, e: Reg)
    ensures
        forall|id: i32| #[trigger] reg_ids(s.push(e)).contains(id) <==> (reg_ids(s).contains(id) || id == e.id),
{
    assert forall|id: i32| #[trigger] reg_ids(s.push(e)).contains(id) <==> (reg_ids(s).contains(id) || id == e.id) by {
        if reg_ids(s).contains(id) {
            let k = choose|k: int| 0 <= k < s.len() && s[k].id == id;
            assert(s.push(e)[k].id == id);
        }
        if id == e.id {
            assert(s.push(e)[s.len() as int].id == id);
        }
        if reg_ids(s.push(e)).contains(id) && id != e.id {
            let k = choose|k: int| 0 <= k < s.push(e).len() && s.push(e)[k].id == id;
            assert(s[k].id == id);
        }
    }
}

proof fn lemma_regs_of_step(ops: Seq<Operand>, i: int)
    requires
        0 <= i < ops.len(),
    ensures
        regs_of(ops.subrange(0, i + 1)) == (match ops[i] {
            Operand::Reg(r) => regs_of(ops.subrange(0, i)).push(r),
            _ => regs_of(ops.subrange(0, i)),
        }),
{
    assert(ops.subrange(0, i + 1).drop_last() =~= ops.subrange(0, i));
}

impl LIRInst {
    /// The registers this instruction defines.
    pub open spec fn spec_reg_def(&self) -> Seq<Reg> {
        if defines_dst(self.inst_type) {
            seq![self.operands@[0]->Reg_0]
        } else if self.inst_type == InstrsType::Call {
            if self.func_type == ScalarType::Int {
                seq![Reg { id: 10, r_type: self.func_type }]
            } else if self.func_type == ScalarType::Float {
                seq![Reg { id: (10 + FLOAT_BASE) as i32, r_type: self.func_type }]
            } else {
                Seq::empty()
            }
        } else {
            Seq::empty()
        }
    }

    /// The registers this instruction uses.
    pub open spec fn spec_reg_use(&self) -> Seq<Reg> {
        if uses_sources(self.inst_type) {
            if self.operands@.len() == 0 {
                Seq::empty()
            } else {
                regs_of(self.operands@.subrange(1, self.operands@.len() as int))
            }
        } else if is_store_kind(self.inst_type) {
            regs_rev(self.operands@)
        } else if self.inst_type == InstrsType::Call {
            call_arg_regs(self.param_cnt.0 as int, self.param_cnt.1 as int)
        } else {
            Seq::empty()
        }
    }

    /// An instruction whose kind defines operand 0 holds a register there.
    pub open spec fn def_well_formed(&self) -> bool {
        defines_dst(self.inst_type) ==> self.operands@.len() > 0 && self.operands@[0] is Reg
    }

    /// The registers of the instruction, defined ones first, each id once.
    pub open spec fn spec_regs(&self) -> Seq<Reg> {
        dedup_by_id(self.spec_reg_def() + self.spec_reg_use())
    }

    pub fn new(inst_type: InstrsType, operands: Vec<Operand>) -> (r: Self)
        ensures
            r.inst_type == inst_type,
            r.operands@ == operands@,
            r.param_cnt == (0i32, 0i32),
            !r.double,
            !r.float,
            r.func_type == ScalarType::Void,
    {
        Self {
            inst_type,
            operands,
            param_cnt: (0, 0),
            double: false,
            float: false,
            func_type: ScalarType::Void,
        }
    }

    pub fn get_type(&self) -> (r: InstrsType)
        ensures
            r == self.inst_type,
    {
        self.inst_type
    }

    /// Replaces `old_reg` by `new_reg` where it stands as the lhs or the rhs.
    pub fn replace_only_use_reg(&mut self, old_reg: &Reg, new_reg: &Reg)
        requires
            old(self).operands@.len() >= 2 ==> old(self).operands@[1] is Reg,
            old(self).operands@.len() >= 3 ==> old(self).operands@[2] is Reg,
        ensures
            final(self).inst_type == old(self).inst_type,
            final(self).param_cnt == old(self).param_cnt,
            final(self).double == old(self).double,
            final(self).float == old(self).float,
            final(self).func_type == old(self).func_type,
            final(self).operands@.len() == old(self).operands@.len(),
            forall|i: int|
                0 <= i < old(self).operands@.len() ==> #[trigger] final(self).operands@[i] == if (i == 1
                    || i == 2) && old(self).operands@[i] == Operand::Reg(*old_reg) {
                    Operand::Reg(*new_reg)
                } else {
                    old(self).operands@[i]
                },
    {
        if self.is_rhs_exist() && self.operands[2].drop_reg() == *old_reg {
            self.operands.set(2, Operand::Reg(*new_reg));
        }
        if self.is_lhs_exist() && self.operands[1].drop_reg() == *old_reg {
            self.operands.set(1, Operand::Reg(*new_reg));
        }
    }

    /// Replaces `old_reg` by `new_reg` where it stands as the destination.
    pub fn replace_only_def_reg(&mut self, old_reg: &Reg, new_reg: &Reg)
        requires
            old(self).operands@.len() > 0 ==> old(self).operands@[0] is Reg,
        ensures
            final(self).inst_type == old(self).inst_type,
            final(self).param_cnt == old(self).param_cnt,
            final(self).double == old(self).double,
            final(self).float == old(self).float,
            final(self).func_type == old(self).func_type,
            final(self).operands@ == if old(self).operands@.len() > 0 && old(self).operands@[0]
                == Operand::Reg(*old_reg) {
                old(self).operands@.update(0, Operand::Reg(*new_reg))
            } else {
                old(self).operands@
            },
    {
        if self.operands.len() > 0 && self.operands[0].drop_reg() == *old_reg {
            self.operands.set(0, Operand::Reg(*new_reg));
        }
    }

    pub fn get_dst(&self) -> (r: &Operand)
        requires
            self.operands@.len() > 0,
        ensures
            *r == self.operands@[0],
    {
        &self.operands[0]
    }

    pub fn get_dst_mut(&mut self) -> (r: &mut Operand)
        requires
            old(self).operands@.len() > 0,
        ensures
            *r == old(self).operands@[0],
            final(self).operands@ == old(self).operands@.update(0, *final(r)),
            final(self).inst_type == old(self).inst_type,
            final(self).param_cnt == old(self).param_cnt,
            final(self).double == old(self).double,
            final(self).float == old(self).float,
            final(self).func_type == old(self).func_type,
    {
        &mut self.operands[0]
    }

    pub fn get_lhs(&self) -> (r: &Operand)
        requires
            self.operands@.len() > 1,
        ensures
            *r == self.operands@[1],
    {
        &self.operands[1]
    }

    pub fn get_lhs_mut(&mut self) -> (r: &mut Operand)
        requires
            old(self).operands@.len() > 1,
        ensures
            *r == old(self).operands@[1],
            final(self).operands@ == old(self).operands@.update(1, *final(r)),
            final(self).inst_type == old(self).inst_type,
            final(self).param_cnt == old(self).param_cnt,
            final(self).double == old(self).double,
            final(self).float == old(self).float,
            final(self).func_type == old(self).func_type,
    {
        &mut self.operands[1]
    }

    pub fn is_lhs_exist(&self) -> (r: bool)
        ensures
            r == (self.operands@.len() >= 2),
    {
        if self.operands.len() < 2 {
            false
        } else {
            true
        }
    }

    pub fn is_rhs_exist(&self) -> (r: bool)
        ensures
            r == (self.operands@.len() >= 3),
    {
        if self.operands.len() < 3 {
            false
        } else {
            true
        }
    }

    pub fn get_rhs(&self) -> (r: &Operand)
        requires
            self.operands@.len() >= 3,
        ensures
            *r == self.operands@[2],
    {
        &self.operands[2]
    }

    pub fn get_rhs_mut(&mut self) -> (r: &mut Operand)
        requires
            old(self).operands@.len() >= 3,
        ensures
            *r == old(self).operands@[2],
            final(self).operands@ == old(self).operands@.update(2, *final(r)),
            final(self).inst_type == old(self).inst_type,
            final(self).param_cnt == old(self).param_cnt,
            final(self).double == old(self).double,
            final(self).float == old(self).float,
            final(self).func_type == old(self).func_type,
    {
        &mut self.operands[2]
    }

    /// Maps virtual registers to the physical ones that `map` gives their id;
    /// physical registers and those in `tmp_vars` stay.
    pub fn v_to_phy(&mut self, map: HashMap<i32, i32>, tmp_vars: Vec<Reg>)
        ensures
            final(self).inst_type == old(self).inst_type,
            final(self).param_cnt == old(self).param_cnt,
            final(self).double == old(self).double,
            final(self).float == old(self).float,
            final(self).func_type == old(self).func_type,
            final(self).operands@.len() == old(self).operands@.len(),
            forall|i: int|
                0 <= i < old(self).operands@.len() ==> #[trigger] final(self).operands@[i]
                    == v_to_phy_operand(old(self).operands@[i], map@, tmp_vars@),
    {
        let mut index: usize = 0;
        while index < self.operands.len()
            invariant
                index <= self.operands@.len(),
                self.operands@.len() == old(self).operands@.len(),
                self.inst_type == old(self).inst_type,
                self.param_cnt == old(self).param_cnt,
                self.double == old(self).double,
                self.float == old(self).float,
                self.func_type == old(self).func_type,
                forall|i: int|
                    0 <= i < index ==> #[trigger] self.operands@[i] == v_to_phy_operand(
                        old(self).operands@[i],
                        map@,
                        tmp_vars@,
                    ),
                forall|i: int| index <= i < self.operands@.len() ==> #[trigger] self.operands@[i] == old(self).operands@[i],
            decreases self.operands@.len() - index,
        {
            let op = self.operands[index].clone();
            match op {
                Operand::Reg(reg) => {
                    if !reg.is_physic() && !contains_reg(&tmp_vars, &reg) {
                        match map.get(&reg.get_id()) {
                            Some(new) => {
                                self.operands.set(index, Operand::Reg(Reg::new(*new, reg.get_type())));
                            },
                            None => {},
                        }
                    }
                },
                _ => {},
            }
            index += 1;
        }
    }

    /// Replaces every occurrence of the register `old_reg` by `new_reg`.
    pub fn replace_reg(&mut self, old_reg: &Reg, new_reg: &Reg)
        ensures
            final(self).inst_type == old(self).inst_type,
            final(self).param_cnt == old(self).param_cnt,
            final(self).double == old(self).double,
            final(self).float == old(self).float,
            final(self).func_type == old(self).func_type,
            final(self).operands@ == old(self).operands@.map_values(
                |op: Operand| replace_reg_operand(op, *old_reg, *new_reg),
            ),
    {
        let mut index: usize = 0;
        while index < self.operands.len()
            invariant
                index <= self.operands@.len(),
                self.operands@.len() == old(self).operands@.len(),
                self.inst_type == old(self).inst_type,
                self.param_cnt == old(self).param_cnt,
                self.double == old(self).double,
                self.float == old(self).float,
                self.func_type == old(self).func_type,
                forall|i: int|
                    0 <= i < index ==> #[trigger] self.operands@[i] == replace_reg_operand(
                        old(self).operands@[i],
                        *old_reg,
                        *new_reg,
                    ),
                forall|i: int| index <= i < self.operands@.len() ==> #[trigger] self.operands@[i] == old(self).operands@[i],
            decreases self.operands@.len() - index,
        {
            let op = self.operands[index].clone();
            match op {
                Operand::Reg(reg) => {
                    if reg == *old_reg {
                        self.operands.set(index, Operand::Reg(*new_reg));
                    }
                },
                _ => {},
            }
            index += 1;
        }
        assert(self.operands@ =~= old(self).operands@.map_values(
            |op: Operand| replace_reg_operand(op, *old_reg, *new_reg),
        ));
    }

    /// The registers of the instruction whose id is in `id` (the spilled ones).
    pub fn is_spill(&self, id: &HashSet<i32>) -> (r: Vec<Reg>)
        ensures
            r@ == spilled_regs(self.operands@, id@),
    {
        let mut res: Vec<Reg> = Vec::new();
        let mut i: usize = 0;
        while i < self.operands.len()
            invariant
                i <= self.operands@.len(),
                res@ == spilled_regs(self.operands@.subrange(0, i as int), id@),
            decreases self.operands@.len() - i,
        {
            proof {
                assert(self.operands@.subrange(0, i + 1).drop_last() =~= self.operands@.subrange(0, i as int));
            }
            match &self.operands[i] {
                Operand::Reg(reg) => {
                    if id.contains(&reg.get_id()) && !contains_reg(&res, reg) {
                        res.push(*reg);
                    }
                },
                _ => {},
            }
            i += 1;
        }
        assert(self.operands@.subrange(0, self.operands@.len() as int) =~= self.operands@);
        res
    }

    /// Gives every register with id `old_id` the id `new_id`, keeping its type.
    pub fn replace(&mut self, old_id: i32, new_id: i32)
        ensures
            final(self).inst_type == old(self).inst_type,
            final(self).param_cnt == old(self).param_cnt,
            final(self).double == old(self).double,
            final(self).float == old(self).float,
            final(self).func_type == old(self).func_type,
            final(self).operands@ == old(self).operands@.map_values(
                |op: Operand| replace_id_operand(op, old_id, new_id),
            ),
    {
        let mut index: usize = 0;
        while index < self.operands.len()
            invariant
                index <= self.operands@.len(),
                self.operands@.len() == old(self).operands@.len(),
                self.inst_type == old(self).inst_type,
                self.param_cnt == old(self).param_cnt,
                self.double == old(self).double,
                self.float == old(self).float,
                self.func_type == old(self).func_type,
                forall|i: int|
                    0 <= i < index ==> #[trigger] self.operands@[i] == replace_id_operand(
                        old(self).operands@[i],
                        old_id,
                        new_id,
                    ),
                forall|i: int| index <= i < self.operands@.len() ==> #[trigger] self.operands@[i] == old(self).operands@[i],
            decreases self.operands@.len() - index,
        {
            let op = self.operands[index].clone();
            match op {
                Operand::Reg(reg) => {
                    if reg.get_id() == old_id {
                        self.operands.set(index, Operand::Reg(Reg::new(new_id, reg.get_type())));
                    }
                },
                _ => {},
            }
            index += 1;
        }
        assert(self.operands@ =~= old(self).operands@.map_values(
            |op: Operand| replace_id_operand(op, old_id, new_id),
        ));
    }

    pub fn replace_op(&mut self, operands: Vec<Operand>)
        ensures
            final(self).operands@ == operands@,
            final(self).inst_type == old(self).inst_type,
            final(self).param_cnt == old(self).param_cnt,
            final(self).double == old(self).double,
            final(self).float == old(self).float,
            final(self).func_type == old(self).func_type,
    {
        self.operands = operands;
    }

    pub fn replace_kind(&mut self, inst_type: InstrsType)
        ensures
            final(self).inst_type == inst_type,
            final(self).operands@ == old(self).operands@,
            final(self).param_cnt == old(self).param_cnt,
            final(self).double == old(self).double,
            final(self).float == old(self).float,
            final(self).func_type == old(self).func_type,
    {
        self.inst_type = inst_type;
    }

    /// Sets the target label (operand 0) of a branch, jump or call.
    pub fn replace_label(&mut self, label: String)
        requires
            old(self).operands@.len() > 0,
        ensures
            final(self).operands@ == old(self).operands@.update(0, Operand::Addr(label)),
            final(self).inst_type == old(self).inst_type,
            final(self).param_cnt == old(self).param_cnt,
            final(self).double == old(self).double,
            final(self).float == old(self).float,
            final(self).func_type == old(self).func_type,
    {
        self.operands.set(0, Operand::Addr(label));
    }

    /// The registers the instruction defines or uses, defined ones first,
    /// one register per id.
    pub fn get_regs(&self) -> (r: Vec<Reg>)
        requires
            self.def_well_formed(),
        ensures
            r@ == self.spec_regs(),
    {
        let mut all = self.get_reg_def();
        let mut uses = self.get_reg_use();
        let ghost s = all@ + uses@;
        all.append(&mut uses);
        assert(all@ == s);
        let mut out: Vec<Reg> = Vec::new();
        let mut used: Vec<i32> = Vec::new();
        let mut k: usize = 0;
        while k < all.len()
            invariant
                all@ == s,
                k <= s.len(),
                out@ == dedup_by_id(s.subrange(0, k as int)),
                forall|id: i32| used@.contains(id) <==> reg_ids(out@).contains(id),
            decreases s.len() - k,
        {
            let e = all[k];
            proof {
                assert(s.subrange(0, k + 1).drop_last() =~= s.subrange(0, k as int));
                assert(s.subrange(0, k + 1).last() == e);
            }
            if !contains_i32(&used, e.get_id()) {
                let ghost old_out = out@;
                let ghost old_used = used@;
                used.push(e.get_id());
                out.push(e);
                proof {
                    lemma_reg_ids_push(old_out, e);
                    assert forall|id: i32| used@.contains(id) <==> reg_ids(out@).contains(id) by {
                        if used@.contains(id) && id != e.id {
                            let j = choose|j: int| 0 <= j < used@.len() && used@[j] == id;
                            assert(old_used[j] == id);
                        }
                        if old_used.contains(id) {
                            let j = choose|j: int| 0 <= j < old_used.len() && old_used[j] == id;
                            assert(used@[j] == id);
                        }
                        assert(used@[used@.len() - 1] == e.id);
                    }
                }
            }
            k += 1;
        }
        assert(s.subrange(0, s.len() as int) =~= s);
        out
    }

    /// The registers this instruction defines.
    pub fn get_reg_def(&self) -> (r: Vec<Reg>)
        requires
            self.def_well_formed(),
        ensures
            r@ == self.spec_reg_def(),
    {
        match self.inst_type {
            InstrsType::Binary(..) | InstrsType::OpReg(..) | InstrsType::Load
            | InstrsType::LoadFromStack | InstrsType::LoadParamFromStack => {
                let r = self.operands[0].drop_reg();
                let mut v = Vec::new();
                v.push(r);
                assert(v@ =~= seq![r]);
                v
            },
            InstrsType::Call => {
                let mut v = Vec::new();
                if self.func_type == ScalarType::Int {
                    v.push(Reg::new(10, self.func_type));
                } else if self.func_type == ScalarType::Float {
                    v.push(Reg::new(10 + FLOAT_BASE, self.func_type));
                }
                assert(v@ =~= self.spec_reg_def());
                v
            },
            _ => Vec::new(),
        }
    }

    /// The registers this instruction uses.
    pub fn get_reg_use(&self) -> (r: Vec<Reg>)
        ensures
            r@ == self.spec_reg_use(),
    {
        match self.inst_type {
            InstrsType::Binary(..) | InstrsType::OpReg(..) | InstrsType::Load
            | InstrsType::LoadFromStack | InstrsType::Branch(..) | InstrsType::Jump
            | InstrsType::LoadParamFromStack => {
                let mut res: Vec<Reg> = Vec::new();
                let n = self.operands.len();
                if n == 0 {
                    return res;
                }
                let ghost ops = self.operands@.subrange(1, n as int);
                let mut i: usize = 1;
                while i < n
                    invariant
                        n == self.operands@.len(),
                        ops == self.operands@.subrange(1, n as int),
                        1 <= i <= n,
                        res@ == regs_of(ops.subrange(0, i - 1)),
                    decreases n - i,
                {
                    proof {
                        assert(ops.subrange(0, i as int).drop_last() =~= ops.subrange(0, i - 1));
                        assert(ops.subrange(0, i as int).last() == self.operands@[i as int]);
                    }
                    match &self.operands[i] {
                        Operand::Reg(reg) => res.push(*reg),
                        _ => {},
                    }
                    i += 1;
                }
                assert(ops.subrange(0, n - 1) =~= ops);
                res
            },
            InstrsType::Store | InstrsType::StoreParamToStack | InstrsType::StoreToStack => {
                let mut res: Vec<Reg> = Vec::new();
                let ghost ops = self.operands@;
                let mut k: usize = self.operands.len();
                assert(ops.subrange(0, k as int) =~= ops);
                assert(res@ + regs_rev(ops) =~= regs_rev(ops));
                while k > 0
                    invariant
                        ops == self.operands@,
                        k <= ops.len(),
                        res@ + regs_rev(ops.subrange(0, k as int)) == regs_rev(ops),
                    decreases k,
                {
                    proof {
                        assert(ops.subrange(0, k as int).drop_last() =~= ops.subrange(0, k - 1));
                        assert(ops.subrange(0, k as int).last() == ops[k - 1]);
                    }
                    match &self.operands[k - 1] {
                        Operand::Reg(reg) => {
                            proof {
                                assert(res@.push(*reg) + regs_rev(ops.subrange(0, k - 1)) =~= res@ + (seq![*reg] + regs_rev(ops.subrange(0, k - 1))));
                            }
                            res.push(*reg);
                        },
                        _ => {},
                    }
                    k -= 1;
                }
                assert(regs_rev(ops.subrange(0, 0)) =~= Seq::<Reg>::empty());
                assert(res@ + Seq::<Reg>::empty() =~= res@);
                res
            },
            InstrsType::Call => {
                let mut set: Vec<Reg> = Vec::new();
                let (iarg_cnt, farg_cnt) = self.param_cnt;
                let ci = if iarg_cnt < ARG_REG_COUNT { iarg_cnt } else { ARG_REG_COUNT };
                let cf = if farg_cnt < ARG_REG_COUNT { farg_cnt } else { ARG_REG_COUNT };
                let ghost si = Seq::new(
                    (if ci < 0 { 0 } else { ci }) as nat,
                    |j: int| Reg { id: (j + 10) as i32, r_type: ScalarType::Int },
                );
                let ghost sf = Seq::new(
                    (if cf < 0 { 0 } else { cf }) as nat,
                    |j: int| Reg { id: (j + 10 + FLOAT_BASE) as i32, r_type: ScalarType::Float },
                );
                let mut ni: i32 = 0;
                while ni < ci
                    invariant
                        0 <= ni,
                        ci <= ARG_REG_COUNT,
                        ci >= 0 ==> ni <= ci,
                        ci < 0 ==> ni == 0,
                        set@ =~= si.subrange(0, ni as int),
                        si.len() == (if ci < 0 { 0 } else { ci }),
                        forall|j: int| 0 <= j < si.len() ==> #[trigger] si[j] == (Reg { id: (j + 10) as i32, r_type: ScalarType::Int }),
                    decreases ci - ni,
                {
                    set.push(Reg::new(ni + 10, ScalarType::Int));
                    ni += 1;
                }
                assert(ni == si.len());
                assert(set@ =~= si);
                let mut nf: i32 = 0;
                while nf < cf
                    invariant
                        0 <= nf,
                        cf <= ARG_REG_COUNT,
                        cf >= 0 ==> nf <= cf,
                        cf < 0 ==> nf == 0,
                        set@ =~= si + sf.subrange(0, nf as int),
                        sf.len() == (if cf < 0 { 0 } else { cf }),
                        forall|j: int| 0 <= j < sf.len() ==> #[trigger] sf[j] == (Reg { id: (j + 10 + FLOAT_BASE) as i32, r_type: ScalarType::Float }),
                    decreases cf - nf,
                {
                    set.push(Reg::new(nf + FLOAT_BASE + 10, ScalarType::Float));
                    nf += 1;
                }
                assert(nf == sf.len());
                assert(set@ =~= si + sf);
                set
            },
            _ => Vec::new(),
        }
    }

    pub fn set_param_cnts(&mut self, int_cnt: i32, float_cnt: i32)
        ensures
            final(self).param_cnt == (int_cnt, float_cnt),
            final(self).inst_type == old(self).inst_type,
            final(self).operands@ == old(self).operands@,
            final(self).double == old(self).double,
            final(self).float == old(self).float,
            final(self).func_type == old(self).func_type,
    {
        self.param_cnt = (int_cnt, float_cnt);
    }

    pub fn get_param_cnts(&self) -> (r: (i32, i32))
        ensures
            r == self.param_cnt,
    {
        self.param_cnt
    }

    pub fn set_call_type(&mut self, func_type: ScalarType)
        ensures
            final(self).func_type == func_type,
            final(self).inst_type == old(self).inst_type,
            final(self).operands@ == old(self).operands@,
            final(self).param_cnt == old(self).param_cnt,
            final(self).double == old(self).double,
            final(self).float == old(self).float,
    {
        self.func_type = func_type;
    }

    /// Sets the offset (operand 2) of a load or store.
    pub fn set_offset(&mut self, offset: IImm)
        requires
            old(self).operands@.len() > 2,
        ensures
            final(self).operands@ == old(self).operands@.update(2, Operand::IImm(offset)),
            final(self).inst_type == old(self).inst_type,
            final(self).param_cnt == old(self).param_cnt,
            final(self).double == old(self).double,
            final(self).float == old(self).float,
            final(self).func_type == old(self).func_type,
    {
        self.operands.set(2, Operand::IImm(offset));
    }

    /// The offset (operand 2) of a load or store.
    pub fn get_offset(&self) -> (r: IImm)
        requires
            self.inst_type == InstrsType::Load || self.inst_type == InstrsType::Store,
            self.operands@.len() > 2,
            self.operands@[2] is IImm,
        ensures
            self.operands@[2] == Operand::IImm(r),
    {
        match &self.operands[2] {
            Operand::IImm(offset) => *offset,
            _ => { proof { assert(false); } IImm::new(0) },
        }
    }

    /// The label operand of a branch, jump or call.
    pub fn get_label(&self) -> (r: &Operand)
        requires
            self.operands@.len() > 0,
        ensures
            *r == self.operands@[0],
    {
        &self.operands[0]
    }

    /// Sets the stack offset (operand 1) of a stack load or store.
    pub fn set_stack_offset(&mut self, offset: IImm)
        requires
            old(self).operands@.len() > 1,
        ensures
            final(self).operands@ == old(self).operands@.update(1, Operand::IImm(offset)),
            final(self).inst_type == old(self).inst_type,
            final(self).param_cnt == old(self).param_cnt,
            final(self).double == old(self).double,
            final(self).float == old(self).float,
            final(self).func_type == old(self).func_type,
    {
        self.operands.set(1, Operand::IImm(offset));
    }

    /// The stack offset (operand 1) of a stack load or store.
    pub fn get_stack_offset(&self) -> (r: IImm)
        requires
            self.operands@.len() > 1,
            self.operands@[1] is IImm,
        ensures
            self.operands@[1] == Operand::IImm(r),
    {
        match &self.operands[1] {
            Operand::IImm(offset) => *offset,
            _ => { proof { assert(false); } IImm::new(0) },
        }
    }

    pub fn set_double(&mut self)
        ensures
            final(self).double,
            final(self).inst_type == old(self).inst_type,
            final(self).operands@ == old(self).operands@,
            final(self).param_cnt == old(self).param_cnt,
            final(self).float == old(self).float,
            final(self).func_type == old(self).func_type,
    {
        self.double = true;
    }

    pub fn is_double(&self) -> (r: bool)
        ensures
            r == self.double,
    {
        self.double
    }

    pub fn set_float(&mut self)
        ensures
            final(self).float,
            final(self).inst_type == old(self).inst_type,
            final(self).operands@ == old(self).operands@,
            final(self).param_cnt == old(self).param_cnt,
            final(self).double == old(self).double,
            final(self).func_type == old(self).func_type,
    {
        self.float = true;
    }

    pub fn is_float(&self) -> (r: bool)
        ensures
            r == self.float,
    {
        self.float
    }

    /// The global variable's label: operand 1 when `origin`, else operand 2.
    pub fn get_global_var_str(&self, origin: bool) -> (r: String)
        requires
            origin ==> self.operands@.len() > 1 && self.operands@[1] is Addr,
            !origin ==> self.operands@.len() > 2 && self.operands@[2] is Addr,
        ensures
            origin ==> self.operands@[1] == Operand::Addr(r),
            !origin ==> self.operands@[2] == Operand::Addr(r),
    {
        if origin {
            self.operands[1].drop_addr()
        } else {
            self.operands[2].drop_addr()
        }
    }

    /// For a branch or jump, the target block's label.
    pub fn get_bb_label(&self) -> (r: Option<String>)
        requires
            (self.inst_type is Branch || self.inst_type is Jump) ==> self.operands@.len() > 0
                && self.operands@[0] is Addr,
        ensures
            (self.inst_type is Branch || self.inst_type is Jump) <==> r is Some,
            r matches Some(l) ==> self.operands@[0] == Operand::Addr(l),
    {
        match self.get_type() {
            InstrsType::Branch(_) | InstrsType::Jump => Some(self.get_label().drop_addr()),
            _ => None,
        }
    }

    /// For a load-address or a jump, the label.
    pub fn get_addr_label(&self) -> (r: Option<String>)
        requires
            (self.inst_type == InstrsType::OpReg(SingleOp::LoadAddr) || self.inst_type is Jump)
                ==> self.operands@.len() > 0 && self.operands@[0] is Addr,
        ensures
            (self.inst_type == InstrsType::OpReg(SingleOp::LoadAddr) || self.inst_type is Jump) <==> r is Some,
            r matches Some(l) ==> self.operands@[0] == Operand::Addr(l),
    {
        match self.get_type() {
            InstrsType::OpReg(SingleOp::LoadAddr) | InstrsType::Jump => {
                Some(self.get_label().drop_addr())
            },
            _ => None,
        }
    }

    /// For a call, the called function's name.
    pub fn get_func_name(&self) -> (r: Option<String>)
        requires
            self.inst_type is Call ==> self.operands@.len() > 0 && self.operands@[0] is Addr,
        ensures
            self.inst_type is Call <==> r is Some,
            r matches Some(l) ==> self.operands@[0] == Operand::Addr(l),
    {
        match self.get_type() {
            InstrsType::Call => Some(self.get_label().drop_addr()),
            _ => None,
        }
    }
}


/// Whether `v` holds `r`.
pub fn contains_reg(v: &Vec<Reg>, r: &Reg) -> (b: bool)
    ensures
        b == v@.contains(*r),
{
    let mut i: usize = 0;
    while i < v.len()
        invariant
            i <= v@.len(),
            forall|j: int| 0 <= j < i ==> v@[j] != *r,
        decreases v@.len() - i,
    {
        if v[i] == *r {
            return true;
        }
        i += 1;
    }
    false
}

/// Whether `v` holds `x`.
pub fn contains_i32(v: &Vec<i32>, x: i32) -> (b: bool)
    ensures
        b == v@.contains(x),
{
    let mut i: usize = 0;
    while i < v.len()
        invariant
            i <= v@.len(),
            forall|j: int| 0 <= j < i ==> v@[j] != x,
        decreases v@.len() - i,
    {
        if v[i] == x {
            return true;
        }
        i += 1;
    }
    false
}


/// The `j`th integer argument register (a0 is x10).
pub open spec fn int_arg(j: int) -> Reg {
    Reg { id: (10 + j) as i32, r_type: ScalarType::Int }
}

/// The `j`th float argument register (fa0 is f10).
pub open spec fn float_arg(j: int) -> Reg {
    Reg { id: (10 + FLOAT_BASE + j) as i32, r_type: ScalarType::Float }
}

/// Law: a call with `n` integer and `m` float arguments reads exactly the
/// argument registers a0..a(min(n,8)-1) (ids 10..) and fa0..fa(min(m,8)-1)
/// (float ids 10.. past the integer ones).
pub proof fn lemma_call_reads_its_argument_registers(i: LIRInst)
    requires
        i.inst_type == InstrsType::Call,
    ensures
        forall|j: int| 0 <= j < i.param_cnt.0 && j < 8 ==> i.spec_reg_use().contains(#[trigger] int_arg(j)),
        forall|j: int| 0 <= j < i.param_cnt.1 && j < 8 ==> i.spec_reg_use().contains(#[trigger] float_arg(j)),
        forall|r: Reg| i.spec_reg_use().contains(r) ==>
            (r.r_type == ScalarType::Int && 10 <= r.id < 10 + 8 && r.id < 10 + i.param_cnt.0)
            || (r.r_type == ScalarType::Float && 10 + FLOAT_BASE <= r.id < 10 + FLOAT_BASE + 8
                && r.id < 10 + FLOAT_BASE + i.param_cnt.1),
{
    let u = i.spec_reg_use();
    let ni = i.param_cnt.0 as int;
    let nf = i.param_cnt.1 as int;
    let ci = if spec_min(ni, 8) < 0 { 0 } else { spec_min(ni, 8) };
    let cf = if spec_min(nf, 8) < 0 { 0 } else { spec_min(nf, 8) };
    assert(u == call_arg_regs(ni, nf));
    assert forall|j: int| 0 <= j < i.param_cnt.0 && j < 8 implies u.contains(#[trigger] int_arg(j)) by {
        assert(u[j] == int_arg(j));
    }
    assert forall|j: int| 0 <= j < i.param_cnt.1 && j < 8 implies u.contains(#[trigger] float_arg(j)) by {
        assert(u[ci + j] == float_arg(j));
    }
    assert forall|r: Reg| u.contains(r) implies
        (r.r_type == ScalarType::Int && 10 <= r.id < 10 + 8 && r.id < 10 + i.param_cnt.0)
        || (r.r_type == ScalarType::Float && 10 + FLOAT_BASE <= r.id < 10 + FLOAT_BASE + 8
            && r.id < 10 + FLOAT_BASE + i.param_cnt.1) by {
        let k = choose|k: int| 0 <= k < u.len() && u[k] == r;
        if k < ci {
            assert(u[k] == Reg { id: (k + 10) as i32, r_type: ScalarType::Int });
        } else {
            assert(u[k] == Reg { id: (k - ci + 10 + FLOAT_BASE) as i32, r_type: ScalarType::Float });
        }
    }
}


proof fn lemma_regs_of_contains(ops: Seq<Operand>, r: Reg)
    ensures
        regs_of(ops).contains(r) <==> exists|k: int| 0 <= k < ops.len() && ops[k] == Operand::Reg(r),
    decreases ops.len(),
{
    if ops.len() > 0 {
        let d = ops.drop_last();
        lemma_regs_of_contains(d, r);
        let p = regs_of(d);
        assert(ops[ops.len() - 1] == ops.last());
        match ops.last() {
            Operand::Reg(x) => {
                assert(regs_of(ops) == p.push(x));
                if p.contains(r) {
                    let j = choose|j: int| 0 <= j < p.len() && p[j] == r;
                    assert(p.push(x)[j] == r);
                }
                if x == r {
                    assert(p.push(x)[p.len() as int] == r);
                }
                if p.push(x).contains(r) {
                    let j = choose|j: int| 0 <= j < p.push(x).len() && p.push(x)[j] == r;
                    if j < p.len() {
                        assert(p[j] == r);
                    }
                }
            },
            _ => {},
        }
        if exists|k: int| 0 <= k < d.len() && d[k] == Operand::Reg(r) {
            let k = choose|k: int| 0 <= k < d.len() && d[k] == Operand::Reg(r);
            assert(ops[k] == Operand::Reg(r));
        }
        if exists|k: int| 0 <= k < ops.len() && ops[k] == Operand::Reg(r) {
            let k = choose|k: int| 0 <= k < ops.len() && ops[k] == Operand::Reg(r);
            if k < d.len() {
                assert(d[k] == Operand::Reg(r));
            }
        }
    }
}

proof fn lemma_regs_rev_contains(ops: Seq<Operand>, r: Reg)
    ensures
        regs_rev(ops).contains(r) <==> exists|k: int| 0 <= k < ops.len() && ops[k] == Operand::Reg(r),
    decreases ops.len(),
{
    if ops.len() > 0 {
        let d = ops.drop_last();
        lemma_regs_rev_contains(d, r);
        let p = regs_rev(d);
        assert(ops[ops.len() - 1] == ops.last());
        match ops.last() {
            Operand::Reg(x) => {
                assert(regs_rev(ops) == seq![x] + p);
                if p.contains(r) {
                    let j = choose|j: int| 0 <= j < p.len() && p[j] == r;
                    assert(regs_rev(ops)[j + 1] == r);
                }
                if x == r {
                    assert(regs_rev(ops)[0] == r);
                }
                if regs_rev(ops).contains(r) {
                    let j = choose|j: int| 0 <= j < regs_rev(ops).len() && regs_rev(ops)[j] == r;
                    if j > 0 {
                        assert(p[j - 1] == r);
                    }
                }
            },
            _ => {},
        }
        if exists|k: int| 0 <= k < d.len() && d[k] == Operand::Reg(r) {
            let k = choose|k: int| 0 <= k < d.len() && d[k] == Operand::Reg(r);
            assert(ops[k] == Operand::Reg(r));
        }
        if exists|k: int| 0 <= k < ops.len() && ops[k] == Operand::Reg(r) {
            let k = choose|k: int| 0 <= k < ops.len() && ops[k] == Operand::Reg(r);
            if k < d.len() {
                assert(d[k] == Operand::Reg(r));
            }
        }
    }
}

/// Law: an arithmetic, move, load or branch instruction reads exactly the
/// registers among its operands after the first (the destination or the
/// first compared value is not read through position 0); a store reads every
/// register among its operands; returns read nothing.
pub proof fn lemma_reads_its_sources(i: LIRInst, r: Reg)
    ensures
        (i.inst_type is Binary || i.inst_type is OpReg || i.inst_type == InstrsType::Load
            || i.inst_type == InstrsType::LoadFromStack || i.inst_type == InstrsType::LoadParamFromStack
            || i.inst_type is Branch || i.inst_type == InstrsType::Jump) && i.operands@.len() > 0 ==>
            (i.spec_reg_use().contains(r) <==> exists|k: int| 1 <= k < i.operands@.len() && i.operands@[k] == Operand::Reg(r)),
        (i.inst_type == InstrsType::Store || i.inst_type == InstrsType::StoreToStack || i.inst_type == InstrsType::StoreParamToStack) ==>
            (i.spec_reg_use().contains(r) <==> exists|k: int| 0 <= k < i.operands@.len() && i.operands@[k] == Operand::Reg(r)),
        i.inst_type is Ret ==> !i.spec_reg_use().contains(r),
{
    let ops = i.operands@;
    if ops.len() > 0 {
        let tail = ops.subrange(1, ops.len() as int);
        lemma_regs_of_contains(tail, r);
        if exists|k: int| 0 <= k < tail.len() && tail[k] == Operand::Reg(r) {
            let k = choose|k: int| 0 <= k < tail.len() && tail[k] == Operand::Reg(r);
            assert(ops[k + 1] == Operand::Reg(r));
        }
        if exists|k: int| 1 <= k < ops.len() && ops[k] == Operand::Reg(r) {
            let k = choose|k: int| 1 <= k < ops.len() && ops[k] == Operand::Reg(r);
            assert(tail[k - 1] == Operand::Reg(r));
        }
    }
    lemma_regs_rev_contains(ops, r);
}

/// Law: an instruction that computes into a register writes exactly that
/// register; a call writes the return register of its type (x10 for an
/// integer, f10 (id 42) for a float, none otherwise); stores, jumps, branches and
/// returns write nothing.
pub proof fn lemma_writes_its_destination(i: LIRInst, r: Reg)
    ensures
        (i.inst_type is Binary || i.inst_type is OpReg || i.inst_type == InstrsType::Load
            || i.inst_type == InstrsType::LoadFromStack || i.inst_type == InstrsType::LoadParamFromStack)
            && i.operands@.len() > 0 && i.operands@[0] is Reg ==>
            (i.spec_reg_def().contains(r) <==> i.operands@[0] == Operand::Reg(r)),
        i.inst_type == InstrsType::Call ==> (i.spec_reg_def().contains(r) <==>
            (i.func_type == ScalarType::Int && r == Reg { id: 10, r_type: ScalarType::Int })
            || (i.func_type == ScalarType::Float && r == Reg { id: 42i32, r_type: ScalarType::Float })),
        (i.inst_type == InstrsType::Store || i.inst_type == InstrsType::StoreToStack || i.inst_type == InstrsType::StoreParamToStack
            || i.inst_type == InstrsType::Jump || i.inst_type is Branch || i.inst_type is Ret) ==> !i.spec_reg_def().contains(r),
{
    if i.spec_reg_def().contains(r) {
        let k = choose|k: int| 0 <= k < i.spec_reg_def().len() && i.spec_reg_def()[k] == r;
    }
    if i.inst_type == InstrsType::Call && i.func_type == ScalarType::Int && r == (Reg { id: 10, r_type: ScalarType::Int }) {
        assert(i.spec_reg_def()[0] == r);
    }
    if i.inst_type == InstrsType::Call && i.func_type == ScalarType::Float && r == (Reg { id: 42i32, r_type: ScalarType::Float }) {
        assert(i.spec_reg_def()[0] == r);
    }
    if (i.inst_type is Binary || i.inst_type is OpReg || i.inst_type == InstrsType::Load
        || i.inst_type == InstrsType::LoadFromStack || i.inst_type == InstrsType::LoadParamFromStack)
        && i.operands@.len() > 0 && i.operands@[0] == Operand::Reg(r) {
        assert(i.spec_reg_def()[0] == r);
    }
}

} // verus!
