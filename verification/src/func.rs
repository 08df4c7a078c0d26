use std::collections::HashSet;
use vstd::prelude::*;
use crate::block::BB;
use crate::instrs::{InstrsType, LIRInst};
use crate::operand::{Reg, ScalarType};
use crate::regset::{is_set, set_insert, set_insert_all};
use crate::structs::{Context, StackSlot};

verus! {

/// A function of low-level code: its blocks (edges between them are
/// indices into `blocks`) and what the frame layout knows of it.
pub struct Func {
    pub is_extern: bool,
    pub label: String,
    pub blocks: Vec<BB>,
    /// Stack slots of the frame, the front first.
    pub stack_addr: Vec<StackSlot>,
    /// (int params, float params)
    pub param_cnt: (i32, i32),
    /// Whether this function is the first of a family of copies.
    pub is_header: bool,
    /// Index of the entry block.
    pub entry: Option<usize>,
    pub context: Context,
    /// Ids of the registers that allocation left without a colour.
    pub spillings: HashSet<i32>,
    /// The stack slot of each spilled register.
    pub spill_stack_map: Vec<(Reg, StackSlot)>,
    pub callee_saved: Vec<Reg>,
    /// Sizes of the local arrays of the frame.
    pub array_slot: Vec<i32>,
    /// Registers known to live only for a few instructions of one block.
    pub tmp_vars: Vec<Reg>,
}

/// Every edge of `blocks` names a block of `blocks`, and every instruction
/// that defines a register names it.
pub open spec fn blocks_ok(blocks: Seq<BB>) -> bool {
    &&& forall|b: int, k: int| 0 <= b < blocks.len() && 0 <= k < blocks[b].in_edge@.len()
        ==> #[trigger] blocks[b].in_edge@[k] < blocks.len()
    &&& forall|b: int, k: int| 0 <= b < blocks.len() && 0 <= k < blocks[b].out_edge@.len()
        ==> #[trigger] blocks[b].out_edge@[k] < blocks.len()
    &&& forall|b: int, i: int| 0 <= b < blocks.len() && 0 <= i < blocks[b].insts@.len()
        ==> #[trigger] blocks[b].insts@[i].def_well_formed()
}

/// The number of instructions of `blocks`.
pub open spec fn total_insts(blocks: Seq<BB>) -> int
    decreases blocks.len(),
{
    if blocks.len() == 0 {
        0
    } else {
        total_insts(blocks.drop_last()) + blocks.last().insts@.len()
    }
}

/// Whether some instruction of `blocks` names `r`.
pub open spec fn names_reg(blocks: Seq<BB>, r: Reg) -> bool {
    exists|b: int, i: int| 0 <= b < blocks.len() && 0 <= i < blocks[b].insts@.len()
        && #[trigger] blocks[b].insts@[i].spec_regs().contains(r)
}

/// Which of the registers a function names are asked for.
pub enum RegFilter {
    CalleeSaved,
    CallerSaved,
    Virtual,
    All,
}

pub open spec fn filter_holds(f: RegFilter, r: Reg) -> bool {
    match f {
        RegFilter::CalleeSaved => r.spec_is_callee_save(),
        RegFilter::CallerSaved => r.spec_is_caller_save(),
        RegFilter::Virtual => !r.spec_is_physic(),
        RegFilter::All => true,
    }
}

impl Func {
    /// The blocks are well formed, and the tables that stand for sets and
    /// maps hold nothing twice: the callee-saved registers, the
    /// temporaries, and the registers given a spill slot.
    pub open spec fn wf(&self) -> bool {
        &&& blocks_ok(self.blocks@)
        &&& self.callee_saved@.no_duplicates()
        &&& self.tmp_vars@.no_duplicates()
        &&& forall|i: int, j: int| 0 <= i < j < self.spill_stack_map@.len()
            ==> (#[trigger] self.spill_stack_map@[i]).0 != (#[trigger] self.spill_stack_map@[j]).0
    }

    /// Everything of the function but its blocks and its temporaries.
    pub open spec fn same_but_blocks_tmp(&self, other: &Func) -> bool {
        &&& self.is_extern == other.is_extern
        &&& self.label == other.label
        &&& self.stack_addr@ == other.stack_addr@
        &&& self.param_cnt == other.param_cnt
        &&& self.is_header == other.is_header
        &&& self.entry == other.entry
        &&& self.context == other.context
        &&& self.spillings@ == other.spillings@
        &&& self.spill_stack_map@ == other.spill_stack_map@
        &&& self.callee_saved@ == other.callee_saved@
        &&& self.array_slot@ == other.array_slot@
    }

    /// Everything of the function but its blocks.
    pub open spec fn same_but_blocks(&self, other: &Func) -> bool {
        &&& self.is_extern == other.is_extern
        &&& self.label == other.label
        &&& self.stack_addr@ == other.stack_addr@
        &&& self.param_cnt == other.param_cnt
        &&& self.is_header == other.is_header
        &&& self.entry == other.entry
        &&& self.context == other.context
        &&& self.spillings@ == other.spillings@
        &&& self.spill_stack_map@ == other.spill_stack_map@
        &&& self.callee_saved@ == other.callee_saved@
        &&& self.array_slot@ == other.array_slot@
        &&& self.tmp_vars@ == other.tmp_vars@
    }

    pub fn new(name: &str, context: Context) -> (r: Self)
        ensures
            r.label@ == name@,
            r.context == context,
            !r.is_extern,
            r.is_header,
            r.blocks@.len() == 0,
            r.stack_addr@.len() == 0,
            r.param_cnt == (0i32, 0i32),
            r.entry.is_none(),
            r.spillings@.is_empty(),
            r.spill_stack_map@.len() == 0,
            r.callee_saved@.len() == 0,
            r.array_slot@.len() == 0,
            r.tmp_vars@.len() == 0,
    {
        Func {
            is_extern: false,
            label: name.to_string(),
            blocks: Vec::new(),
            stack_addr: Vec::new(),
            param_cnt: (0, 0),
            is_header: true,
            entry: None,
            context,
            spillings: HashSet::new(),
            spill_stack_map: Vec::new(),
            callee_saved: Vec::new(),
            array_slot: Vec::new(),
            tmp_vars: Vec::new(),
        }
    }

    /// The block after the prologue block.
    pub fn get_first_block(&self) -> (r: &BB)
        requires
            self.blocks@.len() >= 2,
        ensures
            *r == self.blocks@[1],
    {
        &self.blocks[1]
    }

    /// The number of instructions of the function.
    pub fn num_insts(&self) -> (r: usize)
        requires
            total_insts(self.blocks@) <= usize::MAX,
        ensures
            r == total_insts(self.blocks@),
    {
        let mut out: usize = 0;
        let mut b: usize = 0;
        while b < self.blocks.len()
            invariant
                b <= self.blocks@.len(),
                total_insts(self.blocks@) <= usize::MAX,
                out == total_insts(self.blocks@.subrange(0, b as int)),
            decreases self.blocks@.len() - b,
        {
            proof {
                assert(self.blocks@.subrange(0, b + 1).drop_last() =~= self.blocks@.subrange(0, b as int));
                lemma_total_insts_prefix(self.blocks@, b + 1);
            }
            out = out + self.blocks[b].insts.len();
            b += 1;
        }
        assert(self.blocks@.subrange(0, b as int) =~= self.blocks@);
        out
    }

    /// A bound on the number of registers: the number of instructions.
    pub fn estimate_num_regs(&self) -> (r: usize)
        requires
            total_insts(self.blocks@) <= usize::MAX,
        ensures
            r == total_insts(self.blocks@),
    {
        self.num_insts()
    }

    /// Renames the function and tells each block its new owner.
    pub fn set_name(&mut self, new_name: &String)
        ensures
            final(self).label@ == new_name@,
            final(self).blocks@.len() == old(self).blocks@.len(),
            forall|b: int| 0 <= b < final(self).blocks@.len() ==> {
                &&& (#[trigger] final(self).blocks@[b]).func_label@ == new_name@
                &&& final(self).blocks@[b].label == old(self).blocks@[b].label
                &&& final(self).blocks@[b].insts@ == old(self).blocks@[b].insts@
                &&& final(self).blocks@[b].in_edge@ == old(self).blocks@[b].in_edge@
                &&& final(self).blocks@[b].out_edge@ == old(self).blocks@[b].out_edge@
                &&& final(self).blocks@[b].live_in@ == old(self).blocks@[b].live_in@
                &&& final(self).blocks@[b].live_out@ == old(self).blocks@[b].live_out@
                &&& final(self).blocks@[b].live_use@ == old(self).blocks@[b].live_use@
                &&& final(self).blocks@[b].live_def@ == old(self).blocks@[b].live_def@
            },
            final(self).is_extern == old(self).is_extern,
            final(self).stack_addr@ == old(self).stack_addr@,
            final(self).entry == old(self).entry,
            final(self).spill_stack_map@ == old(self).spill_stack_map@,
    {
        self.label = new_name.clone();
        let mut b: usize = 0;
        while b < self.blocks.len()
            invariant
                b <= self.blocks@.len(),
                self.label@ == new_name@,
                self.blocks@.len() == old(self).blocks@.len(),
                self.is_extern == old(self).is_extern,
                self.stack_addr@ == old(self).stack_addr@,
                self.entry == old(self).entry,
                self.spill_stack_map@ == old(self).spill_stack_map@,
                forall|k: int| 0 <= k < self.blocks@.len() ==> {
                    &&& (k < b ==> (#[trigger] self.blocks@[k]).func_label@ == new_name@)
                    &&& (k >= b ==> self.blocks@[k].func_label == old(self).blocks@[k].func_label)
                    &&& self.blocks@[k].label == old(self).blocks@[k].label
                    &&& self.blocks@[k].insts@ == old(self).blocks@[k].insts@
                    &&& self.blocks@[k].in_edge@ == old(self).blocks@[k].in_edge@
                    &&& self.blocks@[k].out_edge@ == old(self).blocks@[k].out_edge@
                    &&& self.blocks@[k].live_in@ == old(self).blocks@[k].live_in@
                    &&& self.blocks@[k].live_out@ == old(self).blocks@[k].live_out@
                    &&& self.blocks@[k].live_use@ == old(self).blocks@[k].live_use@
                    &&& self.blocks@[k].live_def@ == old(self).blocks@[k].live_def@
                },
            decreases self.blocks@.len() - b,
        {
            self.blocks[b].func_label = new_name.clone();
            b += 1;
        }
    }

    /// The registers named by the function's instructions that `f` asks
    /// for, each once.
    fn collect_regs(&self, f: RegFilter) -> (r: Vec<Reg>)
        requires
            self.wf(),
        ensures
            is_set(r@),
            forall|x: Reg| #[trigger] r@.contains(x) <==> (names_reg(self.blocks@, x) && filter_holds(f, x)),
    {
        let mut out: Vec<Reg> = Vec::new();
        let mut b: usize = 0;
        while b < self.blocks.len()
            invariant
                self.wf(),
                b <= self.blocks@.len(),
                is_set(out@),
                forall|x: Reg| #[trigger] out@.contains(x) <==> (filter_holds(f, x) && exists|bb: int, i: int|
                    0 <= bb < b && 0 <= i < self.blocks@[bb].insts@.len()
                    && #[trigger] self.blocks@[bb].insts@[i].spec_regs().contains(x)),
            decreases self.blocks@.len() - b,
        {
            let mut i: usize = 0;
            while i < self.blocks[b].insts.len()
                invariant
                    self.wf(),
                    b < self.blocks@.len(),
                    i <= self.blocks@[b as int].insts@.len(),
                    is_set(out@),
                    forall|x: Reg| #[trigger] out@.contains(x) <==> (filter_holds(f, x) && (exists|bb: int, j: int|
                        0 <= bb < b && 0 <= j < self.blocks@[bb].insts@.len()
                        && #[trigger] self.blocks@[bb].insts@[j].spec_regs().contains(x))
                        || (filter_holds(f, x) && exists|j: int| 0 <= j < i && #[trigger] self.blocks@[b as int].insts@[j].spec_regs().contains(x))),
                decreases self.blocks@[b as int].insts@.len() - i,
            {
                assert(self.blocks@[b as int].insts@[i as int].def_well_formed());
                let regs = self.blocks[b].insts[i].get_regs();
                let mut k: usize = 0;
                let ghost before = out@;
                while k < regs.len()
                    invariant
                        k <= regs@.len(),
                        is_set(out@),
                        forall|x: Reg| #[trigger] out@.contains(x) <==> (before.contains(x)
                            || (filter_holds(f, x) && exists|m: int| 0 <= m < k && regs@[m] == x)),
                    decreases regs@.len() - k,
                {
                    let x = regs[k];
                    let want = match f {
                        RegFilter::CalleeSaved => x.is_callee_save(),
                        RegFilter::CallerSaved => x.is_caller_save(),
                        RegFilter::Virtual => !x.is_physic(),
                        RegFilter::All => true,
                    };
                    if want {
                        set_insert(&mut out, x);
                    }
                    proof {
                        assert forall|y: Reg| #[trigger] out@.contains(y) <==> (before.contains(y)
                            || (filter_holds(f, y) && exists|m: int| 0 <= m < k + 1 && regs@[m] == y)) by {
                            if filter_holds(f, y) && exists|m: int| 0 <= m < k + 1 && regs@[m] == y {
                                let m = choose|m: int| 0 <= m < k + 1 && regs@[m] == y;
                                if m < k {
                                    assert(exists|m: int| 0 <= m < k && regs@[m] == y);
                                }
                            }
                        }
                    }
                    k += 1;
                }
                proof {
                    assert forall|x: Reg| #[trigger] out@.contains(x) <==> (filter_holds(f, x) && (exists|bb: int, j: int|
                        0 <= bb < b && 0 <= j < self.blocks@[bb].insts@.len()
                        && #[trigger] self.blocks@[bb].insts@[j].spec_regs().contains(x))
                        || (filter_holds(f, x) && exists|j: int| 0 <= j < i + 1 && #[trigger] self.blocks@[b as int].insts@[j].spec_regs().contains(x))) by {
                        if regs@.contains(x) {
                            let m = choose|m: int| 0 <= m < regs@.len() && regs@[m] == x;
                            assert(exists|m: int| 0 <= m < k && regs@[m] == x);
                        }
                        if exists|m: int| 0 <= m < k && regs@[m] == x {
                            let m = choose|m: int| 0 <= m < k && regs@[m] == x;
                            assert(regs@.contains(x));
                        }
                        if filter_holds(f, x) && exists|j: int| 0 <= j < i + 1 && #[trigger] self.blocks@[b as int].insts@[j].spec_regs().contains(x) {
                            let j = choose|j: int| 0 <= j < i + 1 && #[trigger] self.blocks@[b as int].insts@[j].spec_regs().contains(x);
                            if j < i {
                                assert(exists|j: int| 0 <= j < i && #[trigger] self.blocks@[b as int].insts@[j].spec_regs().contains(x));
                            }
                        }
                    }
                }
                i += 1;
            }
            proof {
                assert forall|x: Reg| #[trigger] out@.contains(x) <==> (filter_holds(f, x) && exists|bb: int, j: int|
                    0 <= bb < b + 1 && 0 <= j < self.blocks@[bb].insts@.len()
                    && #[trigger] self.blocks@[bb].insts@[j].spec_regs().contains(x)) by {
                    if filter_holds(f, x) && exists|bb: int, j: int|
                        0 <= bb < b + 1 && 0 <= j < self.blocks@[bb].insts@.len()
                        && #[trigger] self.blocks@[bb].insts@[j].spec_regs().contains(x) {
                        let (bb, j) = choose|bb: int, j: int|
                            0 <= bb < b + 1 && 0 <= j < self.blocks@[bb].insts@.len()
                            && #[trigger] self.blocks@[bb].insts@[j].spec_regs().contains(x);
                        if bb < b {
                            assert(exists|bb: int, j: int|
                                0 <= bb < b && 0 <= j < self.blocks@[bb].insts@.len()
                                && #[trigger] self.blocks@[bb].insts@[j].spec_regs().contains(x));
                        } else {
                            assert(exists|j: int| 0 <= j < i && #[trigger] self.blocks@[b as int].insts@[j].spec_regs().contains(x));
                        }
                    }
                    if exists|j: int| 0 <= j < i && #[trigger] self.blocks@[b as int].insts@[j].spec_regs().contains(x) {
                        let j = choose|j: int| 0 <= j < i && #[trigger] self.blocks@[b as int].insts@[j].spec_regs().contains(x);
                        assert(0 <= b < b + 1 && 0 <= j < self.blocks@[b as int].insts@.len());
                    }
                }
            }
            b += 1;
        }
        out
    }

    /// The callee-saved registers the function names (call after spilling).
    pub fn draw_used_callees(&self) -> (r: Vec<Reg>)
        requires
            self.wf(),
        ensures
            is_set(r@),
            forall|x: Reg| #[trigger] r@.contains(x) <==> (names_reg(self.blocks@, x) && x.spec_is_callee_save()),
    {
        self.collect_regs(RegFilter::CalleeSaved)
    }

    /// The caller-saved registers the function names (call after colouring).
    pub fn draw_used_callers(&self) -> (r: Vec<Reg>)
        requires
            self.wf(),
        ensures
            is_set(r@),
            forall|x: Reg| #[trigger] r@.contains(x) <==> (names_reg(self.blocks@, x) && x.spec_is_caller_save()),
    {
        self.collect_regs(RegFilter::CallerSaved)
    }

    /// The virtual registers the function names.
    pub fn draw_all_virtual_regs(&self) -> (r: Vec<Reg>)
        requires
            self.wf(),
        ensures
            is_set(r@),
            forall|x: Reg| #[trigger] r@.contains(x) <==> (names_reg(self.blocks@, x) && !x.spec_is_physic()),
    {
        self.collect_regs(RegFilter::Virtual)
    }

    /// Every register the function names.
    pub fn draw_all_regs(&self) -> (r: Vec<Reg>)
        requires
            self.wf(),
        ensures
            is_set(r@),
            forall|x: Reg| #[trigger] r@.contains(x) <==> names_reg(self.blocks@, x),
    {
        self.collect_regs(RegFilter::All)
    }
}

proof fn lemma_total_insts_prefix(blocks: Seq<BB>, k: int)
    requires
        0 <= k <= blocks.len(),
    ensures
        total_insts(blocks.subrange(0, k)) <= total_insts(blocks),
    decreases blocks.len(),
{
    if k < blocks.len() {
        assert(blocks.drop_last().subrange(0, k) =~= blocks.subrange(0, k));
        lemma_total_insts_prefix(blocks.drop_last(), k);
    } else {
        assert(blocks.subrange(0, k) =~= blocks);
    }
}

/// The last instruction of `bb` returns.
pub open spec fn ends_in_ret(bb: BB) -> bool {
    bb.insts@.len() > 0 && bb.insts@[bb.insts@.len() - 1].inst_type is Ret
}

/// Some instruction of `blocks` defines `r`.
pub open spec fn defines_reg(blocks: Seq<BB>, r: Reg) -> bool {
    exists|b: int, i: int| 0 <= b < blocks.len() && 0 <= i < blocks[b].insts@.len()
        && #[trigger] blocks[b].insts@[i].spec_reg_def().contains(r)
}

impl Func {
    /// The index of the (first) block that ends with a return.
    pub fn get_final_bb(&self) -> (r: usize)
        requires
            exists|b: int| 0 <= b < self.blocks@.len() && #[trigger] ends_in_ret(self.blocks@[b]),
        ensures
            r < self.blocks@.len(),
            ends_in_ret(self.blocks@[r as int]),
            forall|k: int| 0 <= k < r ==> !#[trigger] ends_in_ret(self.blocks@[k]),
    {
        let mut b: usize = 0;
        while b < self.blocks.len()
            invariant
                b <= self.blocks@.len(),
                exists|k: int| 0 <= k < self.blocks@.len() && #[trigger] ends_in_ret(self.blocks@[k]),
                forall|k: int| 0 <= k < b ==> !#[trigger] ends_in_ret(self.blocks@[k]),
            decreases self.blocks@.len() - b,
        {
            let n = self.blocks[b].insts.len();
            if n > 0 {
                match self.blocks[b].insts[n - 1].get_type() {
                    InstrsType::Ret(_) => {
                        return b;
                    },
                    _ => {},
                }
            }
            b += 1;
        }
        proof {
            let k = choose|k: int| 0 <= k < self.blocks@.len() && #[trigger] ends_in_ret(self.blocks@[k]);
            assert(!ends_in_ret(self.blocks@[k]));
        }
        0
    }

    /// The number of distinct registers the function defines.
    pub fn num_regs(&self) -> (r: usize)
        requires
            self.wf(),
            forall|x: Reg| defines_reg(self.blocks@, x) ==> x.r_type != ScalarType::Void,
        ensures
            r == Set::new(|x: Reg| defines_reg(self.blocks@, x)).len(),
    {
        let mut passed: Vec<Reg> = Vec::new();
        let mut b: usize = 0;
        while b < self.blocks.len()
            invariant
                self.wf(),
                b <= self.blocks@.len(),
                is_set(passed@),
                forall|x: Reg| #[trigger] passed@.contains(x) <==> exists|bb: int, i: int|
                    0 <= bb < b && 0 <= i < self.blocks@[bb].insts@.len()
                    && #[trigger] self.blocks@[bb].insts@[i].spec_reg_def().contains(x),
            decreases self.blocks@.len() - b,
        {
            let mut i: usize = 0;
            while i < self.blocks[b].insts.len()
                invariant
                    self.wf(),
                    b < self.blocks@.len(),
                    i <= self.blocks@[b as int].insts@.len(),
                    is_set(passed@),
                    forall|x: Reg| #[trigger] passed@.contains(x) <==> (exists|bb: int, j: int|
                        0 <= bb < b && 0 <= j < self.blocks@[bb].insts@.len()
                        && #[trigger] self.blocks@[bb].insts@[j].spec_reg_def().contains(x))
                        || exists|j: int| 0 <= j < i && #[trigger] self.blocks@[b as int].insts@[j].spec_reg_def().contains(x),
                decreases self.blocks@[b as int].insts@.len() - i,
            {
                assert(self.blocks@[b as int].insts@[i as int].def_well_formed());
                let defs = self.blocks[b].insts[i].get_reg_def();
                let ghost before = passed@;
                set_insert_all(&mut passed, &defs);
                proof {
                    assert forall|x: Reg| #[trigger] passed@.contains(x) <==> (exists|bb: int, j: int|
                        0 <= bb < b && 0 <= j < self.blocks@[bb].insts@.len()
                        && #[trigger] self.blocks@[bb].insts@[j].spec_reg_def().contains(x))
                        || exists|j: int| 0 <= j < i + 1 && #[trigger] self.blocks@[b as int].insts@[j].spec_reg_def().contains(x) by {
                        if exists|j: int| 0 <= j < i + 1 && #[trigger] self.blocks@[b as int].insts@[j].spec_reg_def().contains(x) {
                            let j = choose|j: int| 0 <= j < i + 1 && #[trigger] self.blocks@[b as int].insts@[j].spec_reg_def().contains(x);
                            if j < i {
                                assert(exists|j: int| 0 <= j < i && #[trigger] self.blocks@[b as int].insts@[j].spec_reg_def().contains(x));
                            }
                        }
                    }
                }
                i += 1;
            }
            proof {
                assert forall|x: Reg| #[trigger] passed@.contains(x) <==> exists|bb: int, j: int|
                    0 <= bb < b + 1 && 0 <= j < self.blocks@[bb].insts@.len()
                    && #[trigger] self.blocks@[bb].insts@[j].spec_reg_def().contains(x) by {
                    if exists|bb: int, j: int|
                        0 <= bb < b + 1 && 0 <= j < self.blocks@[bb].insts@.len()
                        && #[trigger] self.blocks@[bb].insts@[j].spec_reg_def().contains(x) {
                        let (bb, j) = choose|bb: int, j: int|
                            0 <= bb < b + 1 && 0 <= j < self.blocks@[bb].insts@.len()
                            && #[trigger] self.blocks@[bb].insts@[j].spec_reg_def().contains(x);
                        if bb == b {
                            assert(exists|j: int| 0 <= j < i && #[trigger] self.blocks@[b as int].insts@[j].spec_reg_def().contains(x));
                        } else {
                            assert(exists|bb: int, j: int|
                                0 <= bb < b && 0 <= j < self.blocks@[bb].insts@.len()
                                && #[trigger] self.blocks@[bb].insts@[j].spec_reg_def().contains(x));
                        }
                    }
                    if exists|j: int| 0 <= j < i && #[trigger] self.blocks@[b as int].insts@[j].spec_reg_def().contains(x) {
                        let j = choose|j: int| 0 <= j < i && #[trigger] self.blocks@[b as int].insts@[j].spec_reg_def().contains(x);
                        assert(0 <= b < b + 1 && 0 <= j < self.blocks@[b as int].insts@.len());
                    }
                }
            }
            b += 1;
        }
        proof {
            passed@.unique_seq_to_set();
            assert(passed@.to_set() =~= Set::new(|x: Reg| defines_reg(self.blocks@, x)));
        }
        passed.len()
    }
}

} // verus!
