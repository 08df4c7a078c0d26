use vstd::prelude::*;
use vstd::string::StringExecFns;
use crate::block::BB;
use crate::func::Func;
use crate::instrs::{InstView, LIRInst, Operand, insts_view};
use crate::liveness::same_but_live;
use crate::pool::BackendPool;
use crate::regset::copy_regs;
use crate::structs::Context;

verus! {

/// The instruction jumps or branches to a block.
pub open spec fn is_jump(i: LIRInst) -> bool {
    i.inst_type is Branch || i.inst_type is Jump
}

/// Every jump names, as its operand 0, the label of a block of `blocks`.
pub open spec fn targets_resolved(blocks: Seq<BB>) -> bool {
    forall|b: int, i: int| 0 <= b < blocks.len() && 0 <= i < blocks[b].insts@.len()
        && is_jump(#[trigger] blocks[b].insts@[i]) ==> {
        &&& blocks[b].insts@[i].operands@.len() > 0
        &&& blocks[b].insts@[i].operands@[0] is Addr
        &&& exists|t: int| 0 <= t < blocks.len()
            && #[trigger] blocks[t].label@ == blocks[b].insts@[i].operands@[0]->Addr_0@
    }
}

/// `n` is `o` with, for a jump, `suffix` appended to its target label.
pub open spec fn suffixed(o: LIRInst, n: LIRInst, suffix: Seq<char>) -> bool {
    &&& n.inst_type == o.inst_type
    &&& n.param_cnt == o.param_cnt
    &&& n.double == o.double
    &&& n.float == o.float
    &&& n.func_type == o.func_type
    &&& n.operands@.len() == o.operands@.len()
    &&& if is_jump(o) {
        &&& n.operands@[0] is Addr
        &&& n.operands@[0]->Addr_0@ == o.operands@[0]->Addr_0@ + suffix
        &&& forall|k: int| 1 <= k < o.operands@.len() ==> #[trigger] n.operands@[k] == o.operands@[k]
    } else {
        n.operands@ == o.operands@
    }
}

/// A copy of `insts`.
pub fn clone_insts(insts: &Vec<LIRInst>) -> (r: Vec<LIRInst>)
    ensures
        insts_view(r@) == insts_view(insts@),
{
    let mut out: Vec<LIRInst> = Vec::new();
    let mut i: usize = 0;
    while i < insts.len()
        invariant
            i <= insts@.len(),
            out@.len() == i,
            insts_view(out@) == insts_view(insts@.subrange(0, i as int)),
        decreases insts@.len() - i,
    {
        let ghost before = out@;
        let c = insts[i].clone();
        assert(c@ == insts@[i as int]@);
        out.push(c);
        assert(out@ == before.push(c));
        i += 1;
        proof {
            assert forall|k: int| 0 <= k < i implies #[trigger] insts_view(out@)[k] == insts_view(insts@.subrange(0, i as int))[k] by {
                if k < i - 1 {
                    assert(out@[k] == before[k]);
                    assert(insts_view(before)[k] == insts_view(insts@.subrange(0, i - 1))[k]);
                    assert(insts@.subrange(0, i as int)[k] == insts@.subrange(0, i - 1)[k]);
                } else {
                    assert(out@[k] == c);
                }
            }
            assert(insts_view(out@) =~= insts_view(insts@.subrange(0, i as int)));
        }
    }
    assert(insts@.subrange(0, insts@.len() as int) =~= insts@);
    out
}

/// `f` is the copy of `g` that function splitting starts from: the same
/// blocks (labels, shown flags, instructions and edges, each block owned
/// by `g`'s label, liveness cleared), the same frame, entry, parameters and
/// saved registers, a fresh context and no allocation results.
pub open spec fn split_copy(f: Func, g: Func) -> bool {
    &&& f.label@ == g.label@
    &&& f.blocks@.len() == g.blocks@.len()
    &&& forall|b: int| 0 <= b < g.blocks@.len() ==> {
        &&& (#[trigger] f.blocks@[b]).label@ == g.blocks@[b].label@
        &&& f.blocks@[b].func_label@ == g.label@
        &&& f.blocks@[b].showed == g.blocks@[b].showed
        &&& insts_view(f.blocks@[b].insts@) == insts_view(g.blocks@[b].insts@)
        &&& f.blocks@[b].in_edge@ == g.blocks@[b].in_edge@
        &&& f.blocks@[b].out_edge@ == g.blocks@[b].out_edge@
        &&& f.blocks@[b].live_in@.len() == 0
        &&& f.blocks@[b].live_out@.len() == 0
        &&& f.blocks@[b].live_use@.len() == 0
        &&& f.blocks@[b].live_def@.len() == 0
    }
    &&& f.entry == g.entry
    &&& f.is_extern == g.is_extern
    &&& f.is_header == g.is_header
    &&& f.param_cnt == g.param_cnt
    &&& f.stack_addr@ == g.stack_addr@
    &&& f.spill_stack_map@ == g.spill_stack_map@
    &&& f.callee_saved@ == g.callee_saved@
    &&& f.array_slot@ == g.array_slot@
    &&& f.context == Context { offset: 0, is_row: false }
    &&& f.tmp_vars@.len() == 0
    &&& f.spillings@.is_empty()
}

impl Func {
    /// Appends `suffix` to the label of every block and to the target of
    /// every jump; everything else stays as it was.
    pub fn suffix_bb(&mut self, suffix: &String)
        requires
            targets_resolved(old(self).blocks@),
        ensures
            final(self).same_but_blocks(old(self)),
            final(self).blocks@.len() == old(self).blocks@.len(),
            forall|b: int| 0 <= b < final(self).blocks@.len() ==> {
                &&& (#[trigger] final(self).blocks@[b]).label@ == old(self).blocks@[b].label@ + suffix@
                &&& final(self).blocks@[b].func_label == old(self).blocks@[b].func_label
                &&& final(self).blocks@[b].insts@.len() == old(self).blocks@[b].insts@.len()
                &&& forall|i: int| 0 <= i < final(self).blocks@[b].insts@.len() ==>
                    suffixed(old(self).blocks@[b].insts@[i], #[trigger] final(self).blocks@[b].insts@[i], suffix@)
                &&& final(self).blocks@[b].in_edge@ == old(self).blocks@[b].in_edge@
                &&& final(self).blocks@[b].out_edge@ == old(self).blocks@[b].out_edge@
                &&& final(self).blocks@[b].live_in@ == old(self).blocks@[b].live_in@
                &&& final(self).blocks@[b].live_out@ == old(self).blocks@[b].live_out@
                &&& final(self).blocks@[b].showed == old(self).blocks@[b].showed
                &&& final(self).blocks@[b].live_use@ == old(self).blocks@[b].live_use@
                &&& final(self).blocks@[b].live_def@ == old(self).blocks@[b].live_def@
                &&& final(self).blocks@[b].reg_intervals@ == old(self).blocks@[b].reg_intervals@
                &&& final(self).blocks@[b].phis@ == old(self).blocks@[b].phis@
            },
    {
        let n = self.blocks.len();
        let mut b: usize = 0;
        while b < n
            invariant
                n == self.blocks@.len(),
                n == old(self).blocks@.len(),
                b <= n,
                self.same_but_blocks(old(self)),
                targets_resolved(old(self).blocks@),
                forall|k: int| 0 <= k < n ==> {
                    &&& (k < b ==> (#[trigger] self.blocks@[k]).label@ == old(self).blocks@[k].label@ + suffix@)
                    &&& (k >= b ==> self.blocks@[k].label@ == old(self).blocks@[k].label@)
                    &&& self.blocks@[k].func_label == old(self).blocks@[k].func_label
                    &&& self.blocks@[k].insts@.len() == old(self).blocks@[k].insts@.len()
                    &&& (k < b ==> forall|i: int| 0 <= i < self.blocks@[k].insts@.len() ==>
                        suffixed(old(self).blocks@[k].insts@[i], #[trigger] self.blocks@[k].insts@[i], suffix@))
                    &&& (k >= b ==> self.blocks@[k].insts@ == old(self).blocks@[k].insts@)
                    &&& self.blocks@[k].in_edge@ == old(self).blocks@[k].in_edge@
                    &&& self.blocks@[k].out_edge@ == old(self).blocks@[k].out_edge@
                    &&& self.blocks@[k].live_in@ == old(self).blocks@[k].live_in@
                    &&& self.blocks@[k].live_out@ == old(self).blocks@[k].live_out@
                    &&& self.blocks@[k].showed == old(self).blocks@[k].showed
                    &&& self.blocks@[k].live_use@ == old(self).blocks@[k].live_use@
                    &&& self.blocks@[k].live_def@ == old(self).blocks@[k].live_def@
                    &&& self.blocks@[k].reg_intervals@ == old(self).blocks@[k].reg_intervals@
                    &&& self.blocks@[k].phis@ == old(self).blocks@[k].phis@
                },
            decreases n - b,
        {
            let mut l = self.blocks[b].label.clone();
            l.append(suffix.as_str());
            self.blocks[b].label = l;
            let m = self.blocks[b].insts.len();
            let mut i: usize = 0;
            while i < m
                invariant
                    n == self.blocks@.len(),
                    n == old(self).blocks@.len(),
                    b < n,
                    m == self.blocks@[b as int].insts@.len(),
                    m == old(self).blocks@[b as int].insts@.len(),
                    i <= m,
                    self.same_but_blocks(old(self)),
                    targets_resolved(old(self).blocks@),
                    self.blocks@[b as int].label@ == old(self).blocks@[b as int].label@ + suffix@,
                    forall|k: int| 0 <= k < n && k != b ==> {
                        &&& (k < b ==> (#[trigger] self.blocks@[k]).label@ == old(self).blocks@[k].label@ + suffix@)
                        &&& (k > b ==> self.blocks@[k].label@ == old(self).blocks@[k].label@)
                        &&& self.blocks@[k].insts@.len() == old(self).blocks@[k].insts@.len()
                        &&& (k < b ==> forall|i: int| 0 <= i < self.blocks@[k].insts@.len() ==>
                            suffixed(old(self).blocks@[k].insts@[i], #[trigger] self.blocks@[k].insts@[i], suffix@))
                        &&& (k > b ==> self.blocks@[k].insts@ == old(self).blocks@[k].insts@)
                    },
                    forall|k: int| 0 <= k < n ==> {
                        &&& (#[trigger] self.blocks@[k]).func_label == old(self).blocks@[k].func_label
                        &&& self.blocks@[k].in_edge@ == old(self).blocks@[k].in_edge@
                        &&& self.blocks@[k].out_edge@ == old(self).blocks@[k].out_edge@
                        &&& self.blocks@[k].live_in@ == old(self).blocks@[k].live_in@
                        &&& self.blocks@[k].live_out@ == old(self).blocks@[k].live_out@
                        &&& self.blocks@[k].showed == old(self).blocks@[k].showed
                        &&& self.blocks@[k].live_use@ == old(self).blocks@[k].live_use@
                        &&& self.blocks@[k].live_def@ == old(self).blocks@[k].live_def@
                        &&& self.blocks@[k].reg_intervals@ == old(self).blocks@[k].reg_intervals@
                        &&& self.blocks@[k].phis@ == old(self).blocks@[k].phis@
                    },
                    forall|j: int| 0 <= j < i ==>
                        suffixed(old(self).blocks@[b as int].insts@[j], #[trigger] self.blocks@[b as int].insts@[j], suffix@),
                    forall|j: int| i <= j < m ==> #[trigger] self.blocks@[b as int].insts@[j] == old(self).blocks@[b as int].insts@[j],
                decreases m - i,
            {
                proof {
                    assert(self.blocks@[b as int].insts@[i as int] == old(self).blocks@[b as int].insts@[i as int]);
                }
                let lbl = self.blocks[b].insts[i].get_bb_label();
                match lbl {
                    Some(old_label) => {
                        let mut nl = old_label;
                        nl.append(suffix.as_str());
                        self.blocks[b].insts[i].replace_label(nl);
                    },
                    None => {},
                }
                i += 1;
            }
            b += 1;
        }
    }

    /// A copy of the function for splitting, put into `pool`; tells its index.
    pub fn real_deep_clone(&self, pool: &mut BackendPool) -> (r: usize)
        requires
            self.entry.is_some(),
        ensures
            r == old(pool).func_pool@.len(),
            final(pool).func_pool@.len() == old(pool).func_pool@.len() + 1,
            forall|k: int| 0 <= k < r ==> #[trigger] final(pool).func_pool@[k] == old(pool).func_pool@[k],
            split_copy(final(pool).func_pool@[r as int], *self),
            final(pool).context_pool@ == old(pool).context_pool@.push(Context { offset: 0, is_row: false }),
            final(pool).block_pool@ == old(pool).block_pool@,
            final(pool).inst_pool@ == old(pool).inst_pool@,
            final(pool).next_reg_id == old(pool).next_reg_id,
            final(pool).tmp_bb == old(pool).tmp_bb,
    {
        pool.put_context(Context::new());
        let mut new_func = Func::new(self.label.as_str(), Context::new());
        let n = self.blocks.len();
        let mut b: usize = 0;
        while b < n
            invariant
                n == self.blocks@.len(),
                b <= n,
                new_func.label@ == self.label@,
                new_func.blocks@.len() == b,
                forall|k: int| 0 <= k < b ==> {
                    &&& (#[trigger] new_func.blocks@[k]).label@ == self.blocks@[k].label@
                    &&& new_func.blocks@[k].func_label@ == self.label@
                    &&& new_func.blocks@[k].showed == self.blocks@[k].showed
                    &&& insts_view(new_func.blocks@[k].insts@) == insts_view(self.blocks@[k].insts@)
                    &&& new_func.blocks@[k].in_edge@ == self.blocks@[k].in_edge@
                    &&& new_func.blocks@[k].out_edge@ == self.blocks@[k].out_edge@
                    &&& new_func.blocks@[k].live_in@.len() == 0
                    &&& new_func.blocks@[k].live_out@.len() == 0
                    &&& new_func.blocks@[k].live_use@.len() == 0
                    &&& new_func.blocks@[k].live_def@.len() == 0
                },
                new_func.context == (Context { offset: 0, is_row: false }),
                new_func.tmp_vars@.len() == 0,
                new_func.spillings@.is_empty(),
            decreases n - b,
        {
            let mut new_bb = BB::new(self.blocks[b].label.as_str(), new_func.label.as_str());
            new_bb.showed = self.blocks[b].showed;
            new_bb.insts = clone_insts(&self.blocks[b].insts);
            let mut in_edge: Vec<usize> = Vec::new();
            let mut j: usize = 0;
            while j < self.blocks[b].in_edge.len()
                invariant
                    b < n,
                    n == self.blocks@.len(),
                    j <= self.blocks@[b as int].in_edge@.len(),
                    in_edge@ == self.blocks@[b as int].in_edge@.subrange(0, j as int),
                decreases self.blocks@[b as int].in_edge@.len() - j,
            {
                in_edge.push(self.blocks[b].in_edge[j]);
                j += 1;
                assert(in_edge@ =~= self.blocks@[b as int].in_edge@.subrange(0, j as int));
            }
            let mut out_edge: Vec<usize> = Vec::new();
            let mut j: usize = 0;
            while j < self.blocks[b].out_edge.len()
                invariant
                    b < n,
                    n == self.blocks@.len(),
                    j <= self.blocks@[b as int].out_edge@.len(),
                    out_edge@ == self.blocks@[b as int].out_edge@.subrange(0, j as int),
                decreases self.blocks@[b as int].out_edge@.len() - j,
            {
                out_edge.push(self.blocks[b].out_edge[j]);
                j += 1;
                assert(out_edge@ =~= self.blocks@[b as int].out_edge@.subrange(0, j as int));
            }
            assert(in_edge@ =~= self.blocks@[b as int].in_edge@);
            assert(out_edge@ =~= self.blocks@[b as int].out_edge@);
            new_bb.in_edge = in_edge;
            new_bb.out_edge = out_edge;
            new_func.blocks.push(new_bb);
            b += 1;
        }
        new_func.entry = self.entry;
        new_func.is_extern = self.is_extern;
        new_func.is_header = self.is_header;
        new_func.param_cnt = self.param_cnt;
        new_func.stack_addr = copy_vec(&self.stack_addr);
        new_func.spill_stack_map = copy_vec(&self.spill_stack_map);
        new_func.callee_saved = copy_regs(&self.callee_saved);
        new_func.array_slot = copy_vec(&self.array_slot);
        pool.put_func(new_func)
    }
}

/// A copy of a vector of plain values.
pub fn copy_vec<T: Copy>(v: &Vec<T>) -> (r: Vec<T>)
    ensures
        r@ == v@,
{
    let mut out: Vec<T> = Vec::new();
    let mut i: usize = 0;
    while i < v.len()
        invariant
            i <= v@.len(),
            out@ == v@.subrange(0, i as int),
        decreases v@.len() - i,
    {
        out.push(v[i]);
        i += 1;
        assert(out@ =~= v@.subrange(0, i as int));
    }
    assert(v@.subrange(0, v@.len() as int) =~= v@);
    out
}

} // verus!
