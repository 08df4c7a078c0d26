use vstd::prelude::*;
use crate::block::BB;
use crate::func::Func;
use crate::instrs::LIRInst;
use crate::operand::{Reg, ScalarType};
use crate::structs::Context;

verus! {

/// The first id handed to a virtual register.
pub const FIRST_VREG: i32 = 64;

/// The arena of the backend: it owns the objects put into it (an object is
/// then named by its index) and hands out fresh virtual registers and
/// fresh names for blocks.
pub struct BackendPool {
    pub func_pool: Vec<Func>,
    pub block_pool: Vec<BB>,
    pub inst_pool: Vec<LIRInst>,
    pub context_pool: Vec<Context>,
    pub next_reg_id: i32,
    pub tmp_bb: i32,
}

impl BackendPool {
    pub fn new() -> (r: Self)
        ensures
            r.func_pool@.len() == 0,
            r.block_pool@.len() == 0,
            r.inst_pool@.len() == 0,
            r.context_pool@.len() == 0,
            r.next_reg_id == FIRST_VREG,
            r.tmp_bb == 0,
    {
        BackendPool {
            func_pool: Vec::new(),
            block_pool: Vec::new(),
            inst_pool: Vec::new(),
            context_pool: Vec::new(),
            next_reg_id: FIRST_VREG,
            tmp_bb: 0,
        }
    }

    pub fn put_func(&mut self, func: Func) -> (r: usize)
        ensures
            r == old(self).func_pool@.len(),
            final(self).func_pool@ == old(self).func_pool@.push(func),
            final(self).block_pool@ == old(self).block_pool@,
            final(self).inst_pool@ == old(self).inst_pool@,
            final(self).context_pool@ == old(self).context_pool@,
            final(self).next_reg_id == old(self).next_reg_id,
            final(self).tmp_bb == old(self).tmp_bb,
    {
        let r = self.func_pool.len();
        self.func_pool.push(func);
        r
    }

    pub fn put_block(&mut self, block: BB) -> (r: usize)
        ensures
            r == old(self).block_pool@.len(),
            final(self).block_pool@ == old(self).block_pool@.push(block),
            final(self).func_pool@ == old(self).func_pool@,
            final(self).inst_pool@ == old(self).inst_pool@,
            final(self).context_pool@ == old(self).context_pool@,
            final(self).next_reg_id == old(self).next_reg_id,
            final(self).tmp_bb == old(self).tmp_bb,
    {
        let r = self.block_pool.len();
        self.block_pool.push(block);
        r
    }

    pub fn put_inst(&mut self, inst: LIRInst) -> (r: usize)
        ensures
            r == old(self).inst_pool@.len(),
            final(self).inst_pool@ == old(self).inst_pool@.push(inst),
            final(self).func_pool@ == old(self).func_pool@,
            final(self).block_pool@ == old(self).block_pool@,
            final(self).context_pool@ == old(self).context_pool@,
            final(self).next_reg_id == old(self).next_reg_id,
            final(self).tmp_bb == old(self).tmp_bb,
    {
        let r = self.inst_pool.len();
        self.inst_pool.push(inst);
        r
    }

    pub fn put_context(&mut self, context: Context) -> (r: usize)
        ensures
            r == old(self).context_pool@.len(),
            final(self).context_pool@ == old(self).context_pool@.push(context),
            final(self).func_pool@ == old(self).func_pool@,
            final(self).block_pool@ == old(self).block_pool@,
            final(self).inst_pool@ == old(self).inst_pool@,
            final(self).next_reg_id == old(self).next_reg_id,
            final(self).tmp_bb == old(self).tmp_bb,
    {
        let r = self.context_pool.len();
        self.context_pool.push(context);
        r
    }

    /// Drops every object of the arena; the register and block counters stay.
    pub fn free_all(&mut self)
        ensures
            final(self).func_pool@.len() == 0,
            final(self).block_pool@.len() == 0,
            final(self).inst_pool@.len() == 0,
            final(self).context_pool@.len() == 0,
            final(self).next_reg_id == old(self).next_reg_id,
            final(self).tmp_bb == old(self).tmp_bb,
    {
        self.func_pool.clear();
        self.block_pool.clear();
        self.inst_pool.clear();
        self.context_pool.clear();
    }

    /// A virtual register never handed out before.
    pub fn new_reg(&mut self, t: ScalarType) -> (r: Reg)
        requires
            old(self).next_reg_id < i32::MAX,
        ensures
            r.id == old(self).next_reg_id,
            r.r_type == t,
            final(self).next_reg_id == old(self).next_reg_id + 1,
            final(self).func_pool@ == old(self).func_pool@,
            final(self).block_pool@ == old(self).block_pool@,
            final(self).inst_pool@ == old(self).inst_pool@,
            final(self).context_pool@ == old(self).context_pool@,
            final(self).tmp_bb == old(self).tmp_bb,
    {
        let r = Reg::new(self.next_reg_id, t);
        self.next_reg_id = self.next_reg_id + 1;
        r
    }
}

/// A number for a new block, never handed out before.
pub fn get_tmp_bb(pool: &mut BackendPool) -> (r: i32)
    requires
        old(pool).tmp_bb < i32::MAX,
    ensures
        r == old(pool).tmp_bb + 1,
        final(pool).tmp_bb == r,
        final(pool).next_reg_id == old(pool).next_reg_id,
        final(pool).func_pool@ == old(pool).func_pool@,
        final(pool).block_pool@ == old(pool).block_pool@,
        final(pool).inst_pool@ == old(pool).inst_pool@,
        final(pool).context_pool@ == old(pool).context_pool@,
{
    pool.tmp_bb = pool.tmp_bb + 1;
    pool.tmp_bb
}

} // verus!
