use vstd::prelude::*;
use vstd::arithmetic::power2::pow2;
use crate::instrs::{BinaryOp, InstView, InstrsType, Operand, SingleOp};
use crate::operand::Reg;

verus! {

/// 2^31
pub open spec fn half32() -> int {
    0x8000_0000
}

/// 2^32
pub open spec fn mod32() -> int {
    0x1_0000_0000
}

/// `x` taken to the 32-bit two's complement range, as a `w` instruction of
/// RV64 leaves it.
pub open spec fn wrap32(x: int) -> int {
    ((x + half32()) % mod32()) - half32()
}

/// 2^63
pub open spec fn half64() -> int {
    0x8000_0000_0000_0000
}

/// 2^64
pub open spec fn mod64() -> int {
    0x1_0000_0000_0000_0000
}

/// `x` taken to the 64-bit two's complement range.
pub open spec fn wrap64(x: int) -> int {
    ((x + half64()) % mod64()) - half64()
}

/// The value of an integer operand in the register environment `env`; a
/// label stands for the number its name writes in decimal.
pub open spec fn operand_val(env: Map<Reg, int>, op: Operand) -> int {
    match op {
        Operand::Reg(r) => env[r],
        Operand::IImm(i) => i.data as int,
        Operand::Addr(s) => choose|v: int| crate::block::decimal(v) == s@,
        _ => 0,
    }
}

/// The low 32 bits of `x`, as an unsigned value.
pub open spec fn low32(x: int) -> int {
    x % mod32()
}

/// The effect of one instruction on the integer registers, for the 32-bit
/// integer instructions the strength reductions emit (add, sub, mul, shift
/// left, arithmetic and logical shift right, and, move, load-immediate of
/// an immediate or a label, negate); every other instruction is outside
/// this model and leaves `env` as it is. Of the 64-bit forms, multiply and
/// logical shift right are modelled.
pub open spec fn exec_inst(env: Map<Reg, int>, i: InstView) -> Map<Reg, int> {
    if i.operands.len() >= 1 && i.operands[0] is Reg {
        let d = i.operands[0]->Reg_0;
        let a = if i.operands.len() >= 2 { operand_val(env, i.operands[1]) } else { 0 };
        let b = if i.operands.len() >= 3 { operand_val(env, i.operands[2]) } else { 0 };
        if i.double && !(i.inst_type is OpReg) {
            match i.inst_type {
                InstrsType::Binary(BinaryOp::Mul) => env.insert(d, wrap64(a * b)),
                InstrsType::Binary(BinaryOp::Shr) => env.insert(d, wrap64((a % mod64()) / (pow2((b % 64) as nat) as int))),
                _ => env,
            }
        } else {
        match i.inst_type {
            InstrsType::Binary(BinaryOp::Sar) => env.insert(d, wrap32(a) / (pow2((b % 32) as nat) as int)),
            InstrsType::Binary(BinaryOp::Shr) => env.insert(d, wrap32(low32(a) / (pow2((b % 32) as nat) as int))),
            InstrsType::Binary(BinaryOp::And) => env.insert(d, wrap32(((low32(a) as u32) & (low32(b) as u32)) as int)),
            InstrsType::Binary(BinaryOp::Add) => env.insert(d, wrap32(a + b)),
            InstrsType::Binary(BinaryOp::Sub) => env.insert(d, wrap32(a - b)),
            InstrsType::Binary(BinaryOp::Mul) => env.insert(d, wrap32(a * b)),
            InstrsType::Binary(BinaryOp::Shl) => env.insert(d, wrap32(a * pow2((b % 32) as nat))),
            InstrsType::OpReg(SingleOp::Mv) | InstrsType::OpReg(SingleOp::Li) => env.insert(d, a),
            InstrsType::OpReg(SingleOp::Neg) => env.insert(d, wrap32(-a)),
            _ => env,
        }
        }
    } else {
        env
    }
}

/// The effect of a sequence of instructions, in order.
pub open spec fn exec_seq(env: Map<Reg, int>, s: Seq<InstView>) -> Map<Reg, int>
    decreases s.len(),
{
    if s.len() == 0 {
        env
    } else {
        exec_inst(exec_seq(env, s.drop_last()), s.last())
    }
}

pub proof fn lemma_exec_seq_append(env: Map<Reg, int>, s: Seq<InstView>, t: Seq<InstView>)
    ensures
        exec_seq(env, s + t) == exec_seq(exec_seq(env, s), t),
    decreases t.len(),
{
    if t.len() == 0 {
        assert(s + t =~= s);
    } else {
        assert((s + t).drop_last() =~= s + t.drop_last());
        lemma_exec_seq_append(env, s, t.drop_last());
    }
}

/// `wrap32(x)` differs from `x` by a multiple of 2^32.
pub proof fn lemma_wrap32_def(x: int)
    ensures
        wrap32(x) == x - mod32() * ((x + half32()) / mod32()),
        -half32() <= wrap32(x) < half32(),
{
    vstd::arithmetic::div_mod::lemma_fundamental_div_mod(x + half32(), mod32());
    vstd::arithmetic::div_mod::lemma_mod_bound(x + half32(), mod32());
}

/// Adding a multiple of 2^32 does not change the wrapped value.
pub proof fn lemma_wrap32_shift(x: int, k: int)
    ensures
        wrap32(x + mod32() * k) == wrap32(x),
{
    vstd::arithmetic::div_mod::lemma_mod_multiples_vanish(k, x + half32(), mod32());
    assert(x + mod32() * k + half32() == mod32() * k + (x + half32()));
}

/// A value of the 32-bit range is its own wrap.
pub proof fn lemma_wrap32_small(x: int)
    requires
        -half32() <= x < half32(),
    ensures
        wrap32(x) == x,
{
    vstd::arithmetic::div_mod::lemma_small_mod((x + half32()) as nat, mod32() as nat);
}

/// Wrapping an argument of a sum or difference first changes nothing.
pub proof fn lemma_wrap32_add(a: int, b: int)
    ensures
        wrap32(wrap32(a) + b) == wrap32(a + b),
        wrap32(b + wrap32(a)) == wrap32(b + a),
        wrap32(wrap32(a) - b) == wrap32(a - b),
        wrap32(b - wrap32(a)) == wrap32(b - a),
        wrap32(-wrap32(a)) == wrap32(-a),
{
    lemma_wrap32_def(a);
    let q = (a + half32()) / mod32();
    lemma_wrap32_shift(a + b, -q);
    assert(wrap32(a) + b == a + b + mod32() * (-q));
    lemma_wrap32_shift(b + a, -q);
    assert(b + wrap32(a) == b + a + mod32() * (-q));
    lemma_wrap32_shift(a - b, -q);
    assert(wrap32(a) - b == a - b + mod32() * (-q));
    lemma_wrap32_shift(b - a, q);
    assert(b - wrap32(a) == b - a + mod32() * q);
    lemma_wrap32_shift(-a, q);
    assert(-wrap32(a) == -a + mod32() * q);
}


/// Every instruction of `s` writes `d` or a register numbered from `lo` up.
pub open spec fn writes_within(s: Seq<InstView>, d: Operand, lo: int) -> bool {
    forall|i: int| 0 <= i < s.len() ==> (#[trigger] s[i]).operands.len() >= 1
        && (s[i].operands[0] == d || (s[i].operands[0] is Reg && s[i].operands[0]->Reg_0.id >= lo))
}

/// A register that no instruction of `s` writes keeps its value.
pub proof fn lemma_exec_seq_keeps(env: Map<Reg, int>, s: Seq<InstView>, d: Operand, lo: int, r: Reg)
    requires
        writes_within(s, d, lo),
        d != Operand::Reg(r),
        r.id < lo,
        env.contains_key(r),
    ensures
        exec_seq(env, s).contains_key(r),
        exec_seq(env, s)[r] == env[r],
    decreases s.len(),
{
    if s.len() > 0 {
        assert forall|i: int| 0 <= i < s.drop_last().len() implies (#[trigger] s.drop_last()[i]).operands.len() >= 1
            && (s.drop_last()[i].operands[0] == d || (s.drop_last()[i].operands[0] is Reg && s.drop_last()[i].operands[0]->Reg_0.id >= lo)) by {
            assert(s.drop_last()[i] == s[i]);
        }
        lemma_exec_seq_keeps(env, s.drop_last(), d, lo, r);
        assert(s.last() == s[s.len() - 1]);
    }
}

pub proof fn lemma_writes_within_append(a: Seq<InstView>, b: Seq<InstView>, d: Operand, lo: int)
    requires
        writes_within(a, d, lo),
        writes_within(b, d, lo),
    ensures
        writes_within(a + b, d, lo),
{
    assert forall|i: int| 0 <= i < (a + b).len() implies (#[trigger] (a + b)[i]).operands.len() >= 1
        && ((a + b)[i].operands[0] == d || ((a + b)[i].operands[0] is Reg && (a + b)[i].operands[0]->Reg_0.id >= lo)) by {
        if i < a.len() {
            assert((a + b)[i] == a[i]);
        } else {
            assert((a + b)[i] == b[i - a.len()]);
        }
    }
}

} // verus!
