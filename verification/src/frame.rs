use vstd::prelude::*;
use vstd::string::StringExecFns;
use crate::func::Func;
use crate::block::{decimal, i64_to_string, tdiv, abs_i};
use crate::module::{AsmModule, keys_distinct, labels_distinct};
use crate::regset::{is_set, copy_regs, set_insert};
use crate::operand::{is_imm_12bs, spec_is_imm_12bs, Reg, ScalarType};
use crate::structs::StackSlot;

verus! {

/// One line of a function's prologue or epilogue.
#[derive(Clone, Copy, PartialEq, Eq, Structural, Debug)]
pub enum FrameOp {
    /// `addi dst, src, imm`
    AddImm { dst: Reg, src: Reg, imm: i32 },
    /// `li dst, imm`
    LoadImm { dst: Reg, imm: i32 },
    /// `add dst, lhs, rhs`
    Add { dst: Reg, lhs: Reg, rhs: Reg },
    /// `sub dst, lhs, rhs`
    Sub { dst: Reg, lhs: Reg, rhs: Reg },
    /// `sd src, offset(base)` (`fsw` for a float register)
    Store { src: Reg, base: Reg, offset: i32, is_float: bool },
    /// `ld dst, offset(base)` (`flw` for a float register)
    Load { dst: Reg, base: Reg, offset: i32, is_float: bool },
}

pub open spec fn sp_reg() -> Reg {
    Reg { id: 2, r_type: ScalarType::Int }
}

pub open spec fn s0_reg() -> Reg {
    Reg { id: 8, r_type: ScalarType::Int }
}

pub open spec fn ra_reg() -> Reg {
    Reg { id: 1, r_type: ScalarType::Int }
}

/// The sum of the sizes of the local arrays.
pub open spec fn sum_sizes(s: Seq<i32>) -> int
    decreases s.len(),
{
    if s.len() == 0 {
        0
    } else {
        sum_sizes(s.drop_last()) + s.last()
    }
}

/// The bytes the frame of `f` needs before alignment: the context's offset,
/// the position of the first slot, the end of the last slot, and the local
/// arrays.
pub open spec fn frame_bytes(f: Func) -> int {
    let st = f.stack_addr@;
    f.context.offset + (if st.len() > 0 { st[0].pos + st[st.len() - 1].pos + st[st.len() - 1].size } else { 0 })
        + sum_sizes(f.array_slot@)
}

/// The frame size: the bytes divided by 16 (rounding toward zero), times
/// 16, plus 16.
pub open spec fn spec_frame_size(f: Func) -> int {
    tdiv(frame_bytes(f), 16) * 16 + 16
}

/// What the frame computation needs: a size that fits an `i32` (and not so
/// many local arrays that their sizes cannot be summed).
pub open spec fn frame_ok(f: Func) -> bool {
    &&& i32::MIN <= frame_bytes(f) <= i32::MAX - 16
    &&& f.array_slot@.len() <= i32::MAX
}

/// What the saved registers need: slots whose offsets, and the offsets made
/// from them, fit an `i32`.
pub open spec fn saves_ok(map: Seq<(Reg, StackSlot)>) -> bool {
    &&& 8 * map.len() <= i32::MAX
    &&& forall|k: int| 0 <= k < map.len() ==> -i32::MAX - 8 <= (#[trigger] map[k]).1.pos <= i32::MAX - 8
}

/// The offsets from sp of the slots of `map`, in a frame of `size` bytes,
/// fit an `i32`.
pub open spec fn saves_fit(size: int, map: Seq<(Reg, StackSlot)>) -> bool {
    forall|k: int| 0 <= k < map.len() ==> i32::MIN <= size - 8 - (#[trigger] map[k]).1.pos <= i32::MAX
}

/// A store (in the prologue) or a load (in the epilogue) of `r`.
pub open spec fn frame_mem(store: bool, r: Reg, base: Reg, offset: int) -> FrameOp {
    if store {
        FrameOp::Store { src: r, base, offset: offset as i32, is_float: r.r_type == ScalarType::Float }
    } else {
        FrameOp::Load { dst: r, base, offset: offset as i32, is_float: r.r_type == ScalarType::Float }
    }
}

/// The saves (`store`) or restores of the registers of `map` from the
/// `k`th on, in a frame of `size` bytes too large for a 12-bit offset:
/// through s0 (sp on restore) when the slot's offset fits 12 bits, else
/// through sp when the offset from sp does, else through s0 set once to
/// the first such slot (sp on restore), one word apart from there.
pub open spec fn big_frame_moves(store: bool, size: int, map: Seq<(Reg, StackSlot)>, k: int, first: bool, start: int) -> Seq<FrameOp>
    decreases map.len() - k,
{
    if k >= map.len() || k < 0 {
        seq![]
    } else {
        let r = map[k].0;
        let pos = map[k].1.pos as int;
        if spec_is_imm_12bs(pos) {
            seq![frame_mem(store, r, if store { s0_reg() } else { sp_reg() }, -(pos + 8))]
                + big_frame_moves(store, size, map, k + 1, first, start)
        } else if spec_is_imm_12bs(size - pos - 8) {
            seq![frame_mem(store, r, sp_reg(), size - 8 - pos)] + big_frame_moves(store, size, map, k + 1, first, start)
        } else {
            (if first {
                seq![FrameOp::LoadImm { dst: s0_reg(), imm: (size - 8 - pos) as i32 },
                    FrameOp::Add { dst: s0_reg(), lhs: s0_reg(), rhs: sp_reg() }]
            } else {
                seq![]
            }) + seq![frame_mem(store, r, if store { s0_reg() } else { sp_reg() }, -start)]
                + big_frame_moves(store, size, map, k + 1, false, start + 8)
        }
    }
}

/// The saves (`store`) or restores of the registers of `map` in a frame of
/// `size` bytes that a 12-bit offset spans: each through sp.
pub open spec fn small_frame_moves(store: bool, size: int, map: Seq<(Reg, StackSlot)>) -> Seq<FrameOp> {
    Seq::new(map.len(), |k: int| frame_mem(store, map[k].0, sp_reg(), size - 8 - map[k].1.pos))
}

/// The prologue of a frame of `size` bytes: open the frame, save ra, then
/// (but in main) the registers of `map`.
pub open spec fn prologue(size: int, map: Seq<(Reg, StackSlot)>, is_main: bool) -> Seq<FrameOp> {
    if spec_is_imm_12bs(size) {
        seq![FrameOp::AddImm { dst: sp_reg(), src: sp_reg(), imm: (-size) as i32 },
            frame_mem(true, ra_reg(), sp_reg(), size - 8)]
            + (if is_main { seq![] } else { small_frame_moves(true, size, map) })
    } else {
        seq![FrameOp::LoadImm { dst: s0_reg(), imm: size as i32 },
            FrameOp::Sub { dst: sp_reg(), lhs: sp_reg(), rhs: s0_reg() },
            FrameOp::Add { dst: s0_reg(), lhs: s0_reg(), rhs: sp_reg() },
            frame_mem(true, ra_reg(), s0_reg(), -8)]
            + (if is_main { seq![] } else { big_frame_moves(true, size, map, 0, true, 0) })
    }
}

/// The epilogue of a frame of `size` bytes: restore (but in main) the
/// registers of `map` and ra, and close the frame.
pub open spec fn epilogue(size: int, map: Seq<(Reg, StackSlot)>, is_main: bool) -> Seq<FrameOp> {
    if spec_is_imm_12bs(size) {
        (if is_main { seq![] } else { small_frame_moves(false, size, map) })
            + seq![frame_mem(false, ra_reg(), sp_reg(), size - 8),
                FrameOp::AddImm { dst: sp_reg(), src: sp_reg(), imm: size as i32 }]
    } else {
        seq![FrameOp::LoadImm { dst: s0_reg(), imm: size as i32 },
            FrameOp::Add { dst: sp_reg(), lhs: s0_reg(), rhs: sp_reg() },
            frame_mem(false, ra_reg(), sp_reg(), -8)]
            + (if is_main { seq![] } else { big_frame_moves(false, size, map, 0, true, 0) })
    }
}

fn mem_op(store: bool, r: Reg, base: Reg, offset: i32) -> (op: FrameOp)
    ensures
        op == frame_mem(store, r, base, offset as int),
{
    let is_float = r.r_type == ScalarType::Float;
    if store {
        FrameOp::Store { src: r, base, offset, is_float }
    } else {
        FrameOp::Load { dst: r, base, offset, is_float }
    }
}

fn push_all(out: &mut Vec<FrameOp>, ops: Vec<FrameOp>)
    ensures
        final(out)@ == old(out)@ + ops@,
{
    let mut i: usize = 0;
    while i < ops.len()
        invariant
            i <= ops@.len(),
            out@ == old(out)@ + ops@.subrange(0, i as int),
        decreases ops@.len() - i,
    {
        out.push(ops[i]);
        i += 1;
        proof {
            assert(out@ =~= old(out)@ + ops@.subrange(0, i as int));
        }
    }
    proof {
        assert(ops@.subrange(0, ops@.len() as int) =~= ops@);
    }
}

fn small_moves(store: bool, size: i32, map: &Vec<(Reg, StackSlot)>) -> (r: Vec<FrameOp>)
    requires
        i32::MIN + 16 <= size,
        saves_ok(map@),
        saves_fit(size as int, map@),
    ensures
        r@ == small_frame_moves(store, size as int, map@),
{
    let mut out: Vec<FrameOp> = Vec::new();
    let mut k: usize = 0;
    while k < map.len()
        invariant
            i32::MIN + 16 <= size,
            saves_ok(map@),
            saves_fit(size as int, map@),
            k <= map@.len(),
            out@.len() == k,
            forall|x: int| 0 <= x < k ==> #[trigger] out@[x] == frame_mem(store, map@[x].0, sp_reg(), size - 8 - map@[x].1.pos),
        decreases map@.len() - k,
    {
        assert(-i32::MAX - 8 <= map@[k as int].1.pos <= i32::MAX - 8);
        assert(i32::MIN <= size - 8 - map@[k as int].1.pos <= i32::MAX);
        let op = mem_op(store, map[k].0, Reg::new(2, ScalarType::Int), size - 8 - map[k].1.pos);
        out.push(op);
        k += 1;
    }
    proof {
        assert(out@ =~= small_frame_moves(store, size as int, map@));
    }
    out
}

fn big_moves(store: bool, size: i32, map: &Vec<(Reg, StackSlot)>) -> (r: Vec<FrameOp>)
    requires
        i32::MIN + 16 <= size,
        saves_ok(map@),
        saves_fit(size as int, map@),
    ensures
        r@ == big_frame_moves(store, size as int, map@, 0, true, 0),
{
    let sp = Reg::new(2, ScalarType::Int);
    let s0 = Reg::new(8, ScalarType::Int);
    let mut out: Vec<FrameOp> = Vec::new();
    let mut first = true;
    let mut start: i32 = 0;
    let mut k: usize = 0;
    while k < map.len()
        invariant
            i32::MIN + 16 <= size,
            saves_ok(map@),
            saves_fit(size as int, map@),
            sp == sp_reg(),
            s0 == s0_reg(),
            k <= map@.len(),
            0 <= start <= 8 * k,
            out@ + big_frame_moves(store, size as int, map@, k as int, first, start as int)
                == big_frame_moves(store, size as int, map@, 0, true, 0),
        decreases map@.len() - k,
    {
        let ghost o0 = out@;
        let ghost f0 = first;
        let ghost st0 = start as int;
        let (r, slot) = map[k];
        assert(-i32::MAX - 8 <= slot.pos <= i32::MAX - 8);
        assert(i32::MIN <= size - 8 - slot.pos <= i32::MAX);
        let pos = slot.pos;
        let base = if store { s0 } else { sp };
        if is_imm_12bs(pos) {
            out.push(mem_op(store, r, base, -(pos + 8)));
        } else if is_imm_12bs(size - 8 - pos) {
            out.push(mem_op(store, r, sp, size - 8 - pos));
        } else {
            if first {
                out.push(FrameOp::LoadImm { dst: s0, imm: size - 8 - pos });
                out.push(FrameOp::Add { dst: s0, lhs: s0, rhs: sp });
                first = false;
            }
            out.push(mem_op(store, r, base, -start));
            start = start + 8;
        }
        proof {
            let step = out@.subrange(o0.len() as int, out@.len() as int);
            assert(out@ =~= o0 + step);
            assert(big_frame_moves(store, size as int, map@, k as int, f0, st0)
                =~= step + big_frame_moves(store, size as int, map@, k + 1, first, start as int));
            assert(out@ + big_frame_moves(store, size as int, map@, k + 1, first, start as int)
                =~= o0 + big_frame_moves(store, size as int, map@, k as int, f0, st0));
        }
        k += 1;
    }
    proof {
        assert(out@ + seq![] =~= out@);
    }
    out
}


proof fn lemma_sum_sizes_prefix(s: Seq<i32>, i: int)
    requires
        0 <= i < s.len(),
    ensures
        sum_sizes(s.subrange(0, i + 1)) == sum_sizes(s.subrange(0, i)) + s[i],
{
    assert(s.subrange(0, i + 1).drop_last() =~= s.subrange(0, i));
}

proof fn lemma_sum_sizes_mono(s: Seq<i32>, i: int)
    requires
        0 <= i <= s.len(),
        forall|k: int| 0 <= k < s.len() ==> #[trigger] s[k] >= 0,
    ensures
        0 <= sum_sizes(s.subrange(0, i)) <= sum_sizes(s),
    decreases s.len() - i,
{
    if i < s.len() {
        lemma_sum_sizes_prefix(s, i);
        lemma_sum_sizes_mono(s, i + 1);
    } else {
        assert(s.subrange(0, i) =~= s);
    }
    lemma_sum_sizes_nonneg(s.subrange(0, i));
}

proof fn lemma_sum_sizes_nonneg(s: Seq<i32>)
    requires
        forall|k: int| 0 <= k < s.len() ==> #[trigger] s[k] >= 0,
    ensures
        sum_sizes(s) >= 0,
    decreases s.len(),
{
    if s.len() > 0 {
        lemma_sum_sizes_nonneg(s.drop_last());
    }
}

impl Func {
    /// The size of the frame: the bytes it needs, divided by 16 (rounding
    /// toward zero), times 16, plus 16.
    pub fn frame_size(&self) -> (r: i32)
        requires
            frame_ok(*self),
        ensures
            r == spec_frame_size(*self),
            r % 16 == 0,
            r >= i32::MIN + 16,
    {
        let mut size: i64 = self.context.offset as i64;
        let n = self.stack_addr.len();
        if n > 0 {
            size = size + self.stack_addr[0].pos as i64;
            size = size + self.stack_addr[n - 1].pos as i64 + self.stack_addr[n - 1].size as i64;
        }
        let ghost base = size as int;
        let mut i: usize = 0;
        while i < self.array_slot.len()
            invariant
                frame_ok(*self),
                -0x2_0000_0000 <= base <= 0x2_0000_0000,
                base + sum_sizes(self.array_slot@) == frame_bytes(*self),
                i <= self.array_slot@.len(),
                size == base + sum_sizes(self.array_slot@.subrange(0, i as int)),
                -0x8000_0000 * i <= sum_sizes(self.array_slot@.subrange(0, i as int)) <= 0x8000_0000 * i,
            decreases self.array_slot@.len() - i,
        {
            proof {
                lemma_sum_sizes_prefix(self.array_slot@, i as int);
                assert(0x8000_0000 * i <= 0x8000_0000 * 0x7fff_ffff) by (nonlinear_arith)
                    requires i <= 0x7fff_ffff;
            }
            size = size + self.array_slot[i] as i64;
            i += 1;
        }
        proof {
            assert(self.array_slot@.subrange(0, i as int) =~= self.array_slot@);
        }
        assert(size == frame_bytes(*self));
        let q: i64 = if size >= 0 { size / 16 } else { -((-size) / 16) };
        proof {
            assert(q == tdiv(size as int, 16));
            if size >= 0 {
                vstd::arithmetic::div_mod::lemma_fundamental_div_mod(size as int, 16);
                vstd::arithmetic::div_mod::lemma_mod_bound(size as int, 16);
            } else {
                vstd::arithmetic::div_mod::lemma_fundamental_div_mod(-size as int, 16);
                vstd::arithmetic::div_mod::lemma_mod_bound(-size as int, 16);
            }
            assert(i32::MIN <= q * 16 + 16 <= i32::MAX);
        }
        (q * 16 + 16) as i32
    }

    /// Sizes the frame (the context's offset becomes the size less one
    /// word) and gives the prologue and the epilogue that open and close
    /// it: ra, and but in main the registers of `map` at their slots, are
    /// saved and restored.
    pub fn build_stack_info(&mut self, map: &Vec<(Reg, StackSlot)>, is_main: bool) -> (r: (Vec<FrameOp>, Vec<FrameOp>))
        requires
            frame_ok(*old(self)),
            saves_ok(map@),
            saves_fit(spec_frame_size(*old(self)), map@),
        ensures
            final(self).context.offset == spec_frame_size(*old(self)) - 8,
            final(self).context.is_row == old(self).context.is_row,
            *final(self) == (Func { context: final(self).context, ..*old(self) }),
            r.0@ == prologue(spec_frame_size(*old(self)), map@, is_main),
            r.1@ == epilogue(spec_frame_size(*old(self)), map@, is_main),
    {
        let size = self.frame_size();
        self.context.offset = size - 8;
        let sp = Reg::new(2, ScalarType::Int);
        let s0 = Reg::new(8, ScalarType::Int);
        let ra = Reg::new(1, ScalarType::Int);
        let mut pro: Vec<FrameOp> = Vec::new();
        let mut epi: Vec<FrameOp> = Vec::new();
        if is_imm_12bs(size) {
            pro.push(FrameOp::AddImm { dst: sp, src: sp, imm: -size });
            pro.push(mem_op(true, ra, sp, size - 8));
            if !is_main {
                push_all(&mut pro, small_moves(true, size, map));
                push_all(&mut epi, small_moves(false, size, map));
            }
            epi.push(mem_op(false, ra, sp, size - 8));
            epi.push(FrameOp::AddImm { dst: sp, src: sp, imm: size });
        } else {
            pro.push(FrameOp::LoadImm { dst: s0, imm: size });
            pro.push(FrameOp::Sub { dst: sp, lhs: sp, rhs: s0 });
            pro.push(FrameOp::Add { dst: s0, lhs: s0, rhs: sp });
            pro.push(mem_op(true, ra, s0, -8));
            epi.push(FrameOp::LoadImm { dst: s0, imm: size });
            epi.push(FrameOp::Add { dst: sp, lhs: s0, rhs: sp });
            epi.push(mem_op(false, ra, sp, -8));
            if !is_main {
                push_all(&mut pro, big_moves(true, size, map));
                push_all(&mut epi, big_moves(false, size, map));
            }
        }
        proof {
            let p = prologue(size as int, map@, is_main);
            let e = epilogue(size as int, map@, is_main);
            assert(pro@ =~= p);
            assert(epi@ =~= e);
        }
        (pro, epi)
    }
}


/// The slots given to the callee-saved registers of `f`: the `k`th one
/// word past the `k - 1`th, the first one word past the first slot of the
/// frame.
pub open spec fn callee_slots(f: Func) -> Seq<(Reg, StackSlot)> {
    callee_slots_of(f.stack_addr@, f.callee_saved@)
}

/// The slots given to the registers `saved` in front of the frame `stack`.
pub open spec fn callee_slots_of(stack: Seq<StackSlot>, saved: Seq<Reg>) -> Seq<(Reg, StackSlot)> {
    Seq::new(saved.len(), |k: int| (saved[k], StackSlot { pos: (stack[0].pos + 8 * (k + 1)) as i32, size: 8 }))
}

/// The frame `stack` with the slots of `saved` put in front, the last first.
pub open spec fn with_saved_slots(stack: Seq<StackSlot>, saved: Seq<Reg>) -> Seq<StackSlot> {
    let slots = callee_slots_of(stack, saved);
    Seq::new(saved.len(), |j: int| slots[saved.len() - 1 - j].1) + stack
}

/// The frame size once those slots are added.
pub open spec fn saved_frame_size(f: Func) -> int {
    tdiv(frame_bytes(f) + 8 * f.callee_saved@.len(), 16) * 16 + 16
}

/// What giving `c` callee-saved registers of `f` slots needs: a first slot
/// to put them in front of, their offsets (and those made from them) in an
/// `i32`, and a frame size that fits too.
pub open spec fn room_for(f: Func, c: int) -> bool {
    let size = tdiv(frame_bytes(f) + 8 * c, 16) * 16 + 16;
    &&& c > 0 ==> f.stack_addr@.len() > 0
        && -i32::MAX - 16 <= f.stack_addr@[0].pos
        && f.stack_addr@[0].pos + 8 * c <= i32::MAX - 8
    &&& 8 * c <= i32::MAX
    &&& i32::MIN <= frame_bytes(f) + 8 * c <= i32::MAX - 16
    &&& forall|k: int| 0 <= k < c ==> i32::MIN <= #[trigger] callee_offset(f, size, k) <= i32::MAX
}

/// The offset from sp of the slot of the `k`th callee-saved register of
/// `f`, in a frame of `size` bytes.
pub open spec fn callee_offset(f: Func, size: int, k: int) -> int {
    size - 8 - (f.stack_addr@[0].pos + 8 * (k + 1))
}

/// `room_for` the callee-saved registers `f` has.
pub open spec fn callee_slots_ok(f: Func) -> bool {
    room_for(f, f.callee_saved@.len() as int)
}

impl Func {
    /// Gives each callee-saved register a slot at the front of the frame
    /// (but in main, which saves none), then sizes the frame and gives its
    /// prologue and epilogue (see `build_stack_info`).
    pub fn save_callee(&mut self) -> (r: (Vec<FrameOp>, Vec<FrameOp>))
        requires
            frame_ok(*old(self)),
            old(self).label@ != "main"@ ==> callee_slots_ok(*old(self)),
        ensures
            final(self).label == old(self).label,
            final(self).blocks@ == old(self).blocks@,
            final(self).callee_saved@ == old(self).callee_saved@,
            final(self).array_slot@ == old(self).array_slot@,
            old(self).label@ == "main"@ ==> {
                &&& final(self).stack_addr@ == old(self).stack_addr@
                &&& final(self).context.offset == spec_frame_size(*old(self)) - 8
                &&& r.0@ == prologue(spec_frame_size(*old(self)), seq![], true)
                &&& r.1@ == epilogue(spec_frame_size(*old(self)), seq![], true)
            },
            old(self).label@ != "main"@ ==> {
                let c = old(self).callee_saved@.len();
                let slots = callee_slots(*old(self));
                &&& final(self).stack_addr@ == Seq::new(c, |j: int| slots[c - 1 - j].1) + old(self).stack_addr@
                &&& final(self).context.offset == saved_frame_size(*old(self)) - 8
                &&& r.0@ == prologue(saved_frame_size(*old(self)), slots, false)
                &&& r.1@ == epilogue(saved_frame_size(*old(self)), slots, false)
            },
    {
        let main_name = String::from_str("main");
        proof {
            reveal_strlit("main");
        }
        if self.label == main_name {
            let empty: Vec<(Reg, StackSlot)> = Vec::new();
            proof {
                assert(empty@ =~= seq![]);
            }
            return self.build_stack_info(&empty, true);
        }
        let ghost f0 = *self;
        let c = self.callee_saved.len();
        let mut map: Vec<(Reg, StackSlot)> = Vec::new();
        let mut k: usize = 0;
        while k < c
            invariant
                f0 == *old(self),
                c == f0.callee_saved@.len(),
                frame_ok(f0),
                callee_slots_ok(f0),
                self.callee_saved@ == f0.callee_saved@,
                self.label == f0.label,
                self.blocks@ == f0.blocks@,
                self.array_slot@ == f0.array_slot@,
                self.context == f0.context,
                k <= c,
                map@ == callee_slots(f0).subrange(0, k as int),
                self.stack_addr@ == Seq::new(k as nat, |j: int| callee_slots(f0)[k - 1 - j].1) + f0.stack_addr@,
            decreases c - k,
        {
            let ghost s0 = self.stack_addr@;
            proof {
                if k > 0 {
                    assert(self.stack_addr@[0] == callee_slots(f0)[k - 1].1);
                } else {
                    assert(self.stack_addr@[0] == f0.stack_addr@[0]);
                }
            }
            let pos = self.stack_addr[0].pos + 8;
            let slot = StackSlot::new(pos, 8);
            self.stack_addr.insert(0, slot);
            map.push((self.callee_saved[k], slot));
            proof {
                assert(slot == callee_slots(f0)[k as int].1);
                assert(map@ =~= callee_slots(f0).subrange(0, k + 1));
                assert(self.stack_addr@ =~= Seq::new((k + 1) as nat, |j: int| callee_slots(f0)[k + 1 - 1 - j].1) + f0.stack_addr@);
            }
            k += 1;
        }
        proof {
            assert(map@ =~= callee_slots(f0));
            let st = self.stack_addr@;
            if c > 0 {
                assert(st[0] == callee_slots(f0)[c - 1].1);
                assert(st[0].pos == f0.stack_addr@[0].pos + 8 * c);
                assert(st[st.len() - 1] == f0.stack_addr@[f0.stack_addr@.len() - 1]);
            } else {
                assert(st =~= f0.stack_addr@);
            }
            assert(frame_bytes(*self) == frame_bytes(f0) + 8 * c);
            assert forall|x: int| 0 <= x < map@.len() implies -i32::MAX - 8 <= (#[trigger] map@[x]).1.pos <= i32::MAX - 8 by {
                assert(map@[x] == callee_slots(f0)[x]);
            }
            assert forall|x: int| 0 <= x < map@.len() implies i32::MIN <= saved_frame_size(f0) - 8 - (#[trigger] map@[x]).1.pos <= i32::MAX by {
                assert(map@[x] == callee_slots(f0)[x]);
                assert(i32::MIN <= callee_offset(f0, saved_frame_size(f0), x) <= i32::MAX);
            }
            assert(saved_frame_size(f0) == spec_frame_size(*self));
        }
        self.build_stack_info(&map, false)
    }
}


/// `new` is the set `old` with the registers of `e` but sp added after it.
pub open spec fn with_callees(old: Seq<Reg>, e: Seq<Reg>, new: Seq<Reg>) -> bool {
    &&& is_set(new)
    &&& old.len() <= new.len() <= old.len() + e.len()
    &&& new.subrange(0, old.len() as int) == old
    &&& forall|x: Reg| #[trigger] new.contains(x) <==> old.contains(x) || (e.contains(x) && x != sp_reg())
}

/// The entry of `table` for `name`, if any.
pub open spec fn entry_at(table: Seq<(String, Vec<Reg>)>, name: Seq<char>, k: int) -> bool {
    0 <= k < table.len() && table[k].0@ == name
}

/// `f1` and its prologue and epilogue `r` are what sizing the frame of `f0`
/// gives, with `table` the callee-saved registers of each function.
pub open spec fn frame_built(f0: Func, f1: Func, r: (Vec<FrameOp>, Vec<FrameOp>), table: Seq<(String, Vec<Reg>)>) -> bool {
    &&& f1.label == f0.label
    &&& f1.blocks@ == f0.blocks@
    &&& f1.array_slot@ == f0.array_slot@
    &&& (f0.label@ == "main"@ ==> {
        &&& f1.callee_saved@.len() == 0
        &&& f1.stack_addr@ == f0.stack_addr@
        &&& f1.context.offset == spec_frame_size(f0) - 8
        &&& r.0@ == prologue(spec_frame_size(f0), seq![], true)
        &&& r.1@ == epilogue(spec_frame_size(f0), seq![], true)
    })
    &&& (f0.label@ != "main"@ ==> exists|k: int| {
        let size = tdiv(frame_bytes(f0) + 8 * f1.callee_saved@.len(), 16) * 16 + 16;
        let slots = callee_slots_of(f0.stack_addr@, f1.callee_saved@);
        &&& #[trigger] entry_at(table, f0.label@, k)
        &&& with_callees(f0.callee_saved@, table[k].1@, f1.callee_saved@)
        &&& f1.stack_addr@ == with_saved_slots(f0.stack_addr@, f1.callee_saved@)
        &&& f1.context.offset == size - 8
        &&& r.0@ == prologue(size, slots, false)
        &&& r.1@ == epilogue(size, slots, false)
    })
}

/// What sizing the frame of `f` needs, with `e` its entry in the table of
/// callee-saved registers: a frame that `frame_ok` accepts, with room for
/// the registers, however many of the entry's are new.
pub open spec fn stack_info_ready(f: Func, e: Seq<Reg>) -> bool {
    &&& frame_ok(f)
    &&& is_set(f.callee_saved@)
    &&& forall|c: int| f.callee_saved@.len() <= c <= f.callee_saved@.len() + e.len() ==> #[trigger] room_for(f, c)
}

/// Where `name` has its entry in `table`.
fn find_entry(table: &Vec<(String, Vec<Reg>)>, name: &String) -> (r: usize)
    requires
        exists|k: int| #[trigger] entry_at(table@, name@, k),
    ensures
        entry_at(table@, name@, r as int),
{
    let mut i: usize = 0;
    while i < table.len()
        invariant
            i <= table@.len(),
            exists|k: int| #[trigger] entry_at(table@, name@, k),
            forall|k: int| 0 <= k < i ==> table@[k].0@ != name@,
        decreases table@.len() - i,
    {
        if table[i].0 == *name {
            return i;
        }
        i += 1;
    }
    proof {
        let k = choose|k: int| #[trigger] entry_at(table@, name@, k);
        assert(table@[k].0@ == name@);
    }
    0
}

/// `old` with the registers of `e` but sp added after it.
fn add_callees(old: &Vec<Reg>, e: &Vec<Reg>) -> (r: Vec<Reg>)
    requires
        is_set(old@),
    ensures
        with_callees(old@, e@, r@),
{
    let mut cs = copy_regs(old);
    let mut t: usize = 0;
    while t < e.len()
        invariant
            t <= e@.len(),
            is_set(cs@),
            cs@.len() <= old@.len() + t,
            cs@.subrange(0, old@.len() as int) == old@,
            cs@.len() >= old@.len(),
            forall|x: Reg| #[trigger] cs@.contains(x) <==> old@.contains(x) || (e@.subrange(0, t as int).contains(x) && x != sp_reg()),
        decreases e@.len() - t,
    {
        let ghost c0 = cs@;
        let x = e[t];
        if !(x.id == 2 && x.r_type == ScalarType::Int) {
            set_insert(&mut cs, x);
        }
        proof {
            assert(cs@.subrange(0, old@.len() as int) =~= c0.subrange(0, old@.len() as int));
            assert forall|y: Reg| #[trigger] cs@.contains(y) <==> old@.contains(y) || (e@.subrange(0, t + 1).contains(y) && y != sp_reg()) by {
                let sub1 = e@.subrange(0, t + 1);
                if sub1.contains(y) && y != x {
                    let w = choose|w: int| 0 <= w < sub1.len() && sub1[w] == y;
                    assert(e@.subrange(0, t as int)[w] == y);
                }
                if e@.subrange(0, t as int).contains(y) {
                    let w = choose|w: int| 0 <= w < t && e@.subrange(0, t as int)[w] == y;
                    assert(e@.subrange(0, t + 1)[w] == y);
                }
                assert(e@.subrange(0, t + 1)[t as int] == x);
            }
        }
        t += 1;
    }
    proof {
        assert(e@.subrange(0, e@.len() as int) =~= e@);
    }
    cs
}

/// `v` without sp.
fn drop_sp(v: &Vec<Reg>) -> (r: Vec<Reg>)
    ensures
        forall|x: Reg| #[trigger] r@.contains(x) <==> v@.contains(x) && x != sp_reg(),
{
    let mut out: Vec<Reg> = Vec::new();
    let mut t: usize = 0;
    while t < v.len()
        invariant
            t <= v@.len(),
            forall|x: Reg| #[trigger] out@.contains(x) <==> v@.subrange(0, t as int).contains(x) && x != sp_reg(),
        decreases v@.len() - t,
    {
        let ghost o0 = out@;
        let x = v[t];
        if !(x.id == 2 && x.r_type == ScalarType::Int) {
            out.push(x);
        }
        proof {
            assert forall|y: Reg| #[trigger] out@.contains(y) <==> v@.subrange(0, t + 1).contains(y) && y != sp_reg() by {
                assert(v@.subrange(0, t + 1)[t as int] == x);
                if v@.subrange(0, t as int).contains(y) {
                    let w = choose|w: int| 0 <= w < t && v@.subrange(0, t as int)[w] == y;
                    assert(v@.subrange(0, t + 1)[w] == y);
                }
                let sub1 = v@.subrange(0, t + 1);
                if sub1.contains(y) && y != x {
                    let w = choose|w: int| 0 <= w < sub1.len() && sub1[w] == y;
                    assert(v@.subrange(0, t as int)[w] == y);
                }
                if o0.contains(y) {
                    let w = choose|w: int| 0 <= w < o0.len() && o0[w] == y;
                    assert(out@[w] == y);
                }
                if out@.contains(y) && y != x {
                    let w = choose|w: int| 0 <= w < out@.len() && out@[w] == y;
                    assert(o0[w] == y);
                }
                if y == x && x != sp_reg() {
                    assert(out@[o0.len() as int] == y);
                }
            }
        }
        t += 1;
    }
    proof {
        assert(v@.subrange(0, v@.len() as int) =~= v@);
    }
    out
}

impl AsmModule {
    /// Sizes the frame of every function and gives its prologue and
    /// epilogue: main saves no callee-saved register; any other function
    /// adds to its own those of its table entry but sp (which leaves the
    /// entry), then saves them (see `Func::save_callee`).
    pub fn build_stack_info(&mut self) -> (r: Vec<(Vec<FrameOp>, Vec<FrameOp>)>)
        requires
            labels_distinct(old(self).name_func@),
            keys_distinct(old(self).callee_regs_to_saveds@),
            forall|i: int| 0 <= i < old(self).name_func@.len() ==> frame_ok(#[trigger] old(self).name_func@[i]),
            forall|i: int| 0 <= i < old(self).name_func@.len() && old(self).name_func@[i].label@ != "main"@
                ==> exists|k: int| #[trigger] entry_at(old(self).callee_regs_to_saveds@, old(self).name_func@[i].label@, k),
            forall|i: int, k: int| 0 <= i < old(self).name_func@.len() && old(self).name_func@[i].label@ != "main"@
                && #[trigger] entry_at(old(self).callee_regs_to_saveds@, old(self).name_func@[i].label@, k)
                ==> stack_info_ready(old(self).name_func@[i], old(self).callee_regs_to_saveds@[k].1@),
        ensures
            r@.len() == old(self).name_func@.len(),
            final(self).name_func@.len() == old(self).name_func@.len(),
            final(self).call_map@ == old(self).call_map@,
            final(self).caller_regs_to_saveds@ == old(self).caller_regs_to_saveds@,
            final(self).callee_regs_to_saveds@.len() == old(self).callee_regs_to_saveds@.len(),
            forall|k: int| 0 <= k < final(self).callee_regs_to_saveds@.len() ==> {
                &&& (#[trigger] final(self).callee_regs_to_saveds@[k]).0 == old(self).callee_regs_to_saveds@[k].0
                &&& forall|x: Reg| final(self).callee_regs_to_saveds@[k].1@.contains(x) <==>
                    (old(self).callee_regs_to_saveds@[k].1@.contains(x)
                        && (x != sp_reg() || !exists|i: int| 0 <= i < old(self).name_func@.len()
                            && old(self).name_func@[i].label@ != "main"@
                            && old(self).name_func@[i].label@ == old(self).callee_regs_to_saveds@[k].0@))
            },
            forall|i: int| 0 <= i < old(self).name_func@.len() ==> frame_built(old(self).name_func@[i],
                #[trigger] final(self).name_func@[i], r@[i], old(self).callee_regs_to_saveds@),
    {
        let n = self.name_func.len();
        let main_name = String::from_str("main");
        proof {
            reveal_strlit("main");
        }
        let mut r: Vec<(Vec<FrameOp>, Vec<FrameOp>)> = Vec::new();
        let mut i: usize = 0;
        while i < n
            invariant
                main_name@ == "main"@,
                n == self.name_func@.len(),
                n == old(self).name_func@.len(),
                i <= n,
                r@.len() == i,
                self.call_map@ == old(self).call_map@,
                self.caller_regs_to_saveds@ == old(self).caller_regs_to_saveds@,
                labels_distinct(old(self).name_func@),
                keys_distinct(old(self).callee_regs_to_saveds@),
                self.callee_regs_to_saveds@.len() == old(self).callee_regs_to_saveds@.len(),
                forall|k: int| 0 <= k < self.callee_regs_to_saveds@.len() && !(exists|j: int| 0 <= j < i
                    && old(self).name_func@[j].label@ == old(self).callee_regs_to_saveds@[k].0@)
                    ==> #[trigger] self.callee_regs_to_saveds@[k] == old(self).callee_regs_to_saveds@[k],
                forall|j: int| 0 <= j < n ==> frame_ok(#[trigger] old(self).name_func@[j]),
                forall|j: int| 0 <= j < n && old(self).name_func@[j].label@ != "main"@
                    ==> exists|k: int| #[trigger] entry_at(old(self).callee_regs_to_saveds@, old(self).name_func@[j].label@, k),
                forall|j: int, k: int| 0 <= j < n && old(self).name_func@[j].label@ != "main"@
                    && #[trigger] entry_at(old(self).callee_regs_to_saveds@, old(self).name_func@[j].label@, k)
                    ==> stack_info_ready(old(self).name_func@[j], old(self).callee_regs_to_saveds@[k].1@),
                forall|j: int| i <= j < n ==> #[trigger] self.name_func@[j] == old(self).name_func@[j],
                forall|k: int| 0 <= k < self.callee_regs_to_saveds@.len() ==> {
                    &&& (#[trigger] self.callee_regs_to_saveds@[k]).0 == old(self).callee_regs_to_saveds@[k].0
                    &&& forall|x: Reg| self.callee_regs_to_saveds@[k].1@.contains(x) <==>
                        (old(self).callee_regs_to_saveds@[k].1@.contains(x)
                            && (x != sp_reg() || !exists|j: int| 0 <= j < i
                                && old(self).name_func@[j].label@ != "main"@
                                && old(self).name_func@[j].label@ == old(self).callee_regs_to_saveds@[k].0@))
                },
                forall|j: int| 0 <= j < i ==> frame_built(old(self).name_func@[j],
                    #[trigger] self.name_func@[j], r@[j], old(self).callee_regs_to_saveds@),
            decreases n - i,
        {
            let f_is_main = self.name_func[i].label == main_name;
            let ghost f0 = old(self).name_func@[i as int];
            assert(self.name_func@[i as int] == f0);
            let ghost r0 = r@;
            let ghost fs0 = self.name_func@;
            if f_is_main {
                self.name_func[i].callee_saved = Vec::new();
                let res = self.name_func[i].save_callee();
                r.push(res);
                proof {
                    assert(frame_built(f0, self.name_func@[i as int], r@[i as int], old(self).callee_regs_to_saveds@));
                }
            } else {
                let name = self.name_func[i].label.clone();
                proof {
                    let k0 = choose|k: int| #[trigger] entry_at(old(self).callee_regs_to_saveds@, f0.label@, k);
                    assert(self.callee_regs_to_saveds@[k0].0 == old(self).callee_regs_to_saveds@[k0].0);
                    assert(entry_at(self.callee_regs_to_saveds@, name@, k0));
                }
                let k = find_entry(&self.callee_regs_to_saveds, &name);
                assert(self.callee_regs_to_saveds@[k as int].0 == old(self).callee_regs_to_saveds@[k as int].0);
                assert(entry_at(old(self).callee_regs_to_saveds@, f0.label@, k as int));
                proof {
                    if exists|j: int| 0 <= j < i && old(self).name_func@[j].label@ == old(self).callee_regs_to_saveds@[k as int].0@ {
                        let j = choose|j: int| 0 <= j < i && old(self).name_func@[j].label@ == old(self).callee_regs_to_saveds@[k as int].0@;
                        assert(labels_distinct(old(self).name_func@));
                        assert(old(self).name_func@[j].label@ == old(self).name_func@[i as int].label@);
                    }
                    assert(self.callee_regs_to_saveds@[k as int] == old(self).callee_regs_to_saveds@[k as int]);
                }
                assert(stack_info_ready(f0, old(self).callee_regs_to_saveds@[k as int].1@));
                let ghost e = old(self).callee_regs_to_saveds@[k as int].1@;
                let merged = add_callees(&self.name_func[i].callee_saved, &self.callee_regs_to_saveds[k].1);
                let kept = drop_sp(&self.callee_regs_to_saveds[k].1);
                let key = self.callee_regs_to_saveds[k].0.clone();
                self.callee_regs_to_saveds.set(k, (key, kept));
                self.name_func[i].callee_saved = merged;
                let ghost mid = self.name_func@[i as int];
                assert(frame_bytes(mid) == frame_bytes(f0));
                proof {
                    let c = mid.callee_saved@.len() as int;
                    assert(stack_info_ready(f0, old(self).callee_regs_to_saveds@[k as int].1@));
                    assert(f0.callee_saved@.len() <= c <= f0.callee_saved@.len() + old(self).callee_regs_to_saveds@[k as int].1@.len());
                    assert(room_for(f0, c));
                    let size = tdiv(frame_bytes(f0) + 8 * c, 16) * 16 + 16;
                    assert forall|kk: int| 0 <= kk < c implies i32::MIN <= #[trigger] callee_offset(mid, size, kk) <= i32::MAX by {
                        assert(callee_offset(mid, size, kk) == callee_offset(f0, size, kk));
                    }
                    assert(callee_slots_ok(mid));
                }
                let res = self.name_func[i].save_callee();
                r.push(res);
                proof {
                    let f1 = self.name_func@[i as int];
                    assert(f1.callee_saved@ == merged@);
                    assert(callee_slots(mid) == callee_slots_of(f0.stack_addr@, f1.callee_saved@));
                    assert(f1.stack_addr@ =~= with_saved_slots(f0.stack_addr@, f1.callee_saved@));
                    assert(entry_at(old(self).callee_regs_to_saveds@, f0.label@, k as int));
                    assert(frame_built(f0, f1, r@[i as int], old(self).callee_regs_to_saveds@));
                }
            }
            proof {
                assert forall|j: int| 0 <= j < i + 1 implies frame_built(old(self).name_func@[j],
                    #[trigger] self.name_func@[j], r@[j], old(self).callee_regs_to_saveds@) by {
                    if j < i {
                        assert(self.name_func@[j] == fs0[j]);
                        assert(r@[j] == r0[j]);
                    }
                }
            }
            i += 1;
        }
        r
    }
}


/// A register as the assembly text names it: `x<id>` for an integer
/// register, `f<id>` for a float one.
pub open spec fn reg_name(r: Reg) -> Seq<char> {
    (if r.r_type == ScalarType::Float { "f"@ } else { "x"@ }) + decimal(r.id as int)
}

/// The assembly text of one prologue or epilogue line.
pub open spec fn frame_op_text(op: FrameOp) -> Seq<char> {
    match op {
        FrameOp::AddImm { dst, src, imm } => "    addi "@ + reg_name(dst) + ", "@ + reg_name(src) + ", "@ + decimal(imm as int),
        FrameOp::LoadImm { dst, imm } => "    li "@ + reg_name(dst) + ", "@ + decimal(imm as int),
        FrameOp::Add { dst, lhs, rhs } => "    add "@ + reg_name(dst) + ", "@ + reg_name(lhs) + ", "@ + reg_name(rhs),
        FrameOp::Sub { dst, lhs, rhs } => "    sub "@ + reg_name(dst) + ", "@ + reg_name(lhs) + ", "@ + reg_name(rhs),
        FrameOp::Store { src, base, offset, is_float } => "\t"@ + (if is_float { "fsw "@ } else { "sd "@ })
            + reg_name(src) + ", "@ + decimal(offset as int) + "("@ + reg_name(base) + ")"@,
        FrameOp::Load { dst, base, offset, is_float } => "\t"@ + (if is_float { "flw "@ } else { "ld "@ })
            + reg_name(dst) + ", "@ + decimal(offset as int) + "("@ + reg_name(base) + ")"@,
    }
}

fn reg_text(r: &Reg) -> (s: String)
    ensures
        s@ == reg_name(*r),
{
    let mut s = if r.r_type == ScalarType::Float { String::from_str("f") } else { String::from_str("x") };
    let num = i64_to_string(r.id as i64);
    s.append(num.as_str());
    s
}

fn append_string(s: &mut String, t: String)
    ensures
        final(s)@ == old(s)@ + t@,
{
    s.append(t.as_str());
}

impl FrameOp {
    /// The assembly text of this line.
    pub fn asm_text(&self) -> (s: String)
        ensures
            s@ == frame_op_text(*self),
    {
        match self {
            FrameOp::AddImm { dst, src, imm } => {
                let mut s = String::from_str("    addi ");
                append_string(&mut s, reg_text(dst));
                s.append(", ");
                append_string(&mut s, reg_text(src));
                s.append(", ");
                append_string(&mut s, i64_to_string(*imm as i64));
                s
            },
            FrameOp::LoadImm { dst, imm } => {
                let mut s = String::from_str("    li ");
                append_string(&mut s, reg_text(dst));
                s.append(", ");
                append_string(&mut s, i64_to_string(*imm as i64));
                s
            },
            FrameOp::Add { dst, lhs, rhs } => {
                let mut s = String::from_str("    add ");
                append_string(&mut s, reg_text(dst));
                s.append(", ");
                append_string(&mut s, reg_text(lhs));
                s.append(", ");
                append_string(&mut s, reg_text(rhs));
                s
            },
            FrameOp::Sub { dst, lhs, rhs } => {
                let mut s = String::from_str("    sub ");
                append_string(&mut s, reg_text(dst));
                s.append(", ");
                append_string(&mut s, reg_text(lhs));
                s.append(", ");
                append_string(&mut s, reg_text(rhs));
                s
            },
            FrameOp::Store { src, base, offset, is_float } => {
                let mut s = String::from_str("\t");
                if *is_float { s.append("fsw "); } else { s.append("sd "); }
                append_string(&mut s, reg_text(src));
                s.append(", ");
                append_string(&mut s, i64_to_string(*offset as i64));
                s.append("(");
                append_string(&mut s, reg_text(base));
                s.append(")");
                s
            },
            FrameOp::Load { dst, base, offset, is_float } => {
                let mut s = String::from_str("\t");
                if *is_float { s.append("flw "); } else { s.append("ld "); }
                append_string(&mut s, reg_text(dst));
                s.append(", ");
                append_string(&mut s, i64_to_string(*offset as i64));
                s.append("(");
                append_string(&mut s, reg_text(base));
                s.append(")");
                s
            },
        }
    }
}


/// Law: an integer register restored by the epilogue is reloaded with `ld`,
/// at the width at which the prologue stored it with `sd`; the two lines
/// differ only in that letter.
pub proof fn lemma_restore_matches_save_width(r: Reg, base: Reg, offset: i32)
    requires
        r.r_type != ScalarType::Float,
    ensures
        frame_op_text(FrameOp::Load { dst: r, base, offset, is_float: false }).subrange(0, 4) == "\tld "@,
        frame_op_text(FrameOp::Store { src: r, base, offset, is_float: false }).subrange(0, 4) == "\tsd "@,
        frame_op_text(FrameOp::Load { dst: r, base, offset, is_float: false }).subrange(2,
            frame_op_text(FrameOp::Load { dst: r, base, offset, is_float: false }).len() as int)
            == frame_op_text(FrameOp::Store { src: r, base, offset, is_float: false }).subrange(2,
            frame_op_text(FrameOp::Store { src: r, base, offset, is_float: false }).len() as int),
{
    reveal_strlit("\t");
    reveal_strlit("ld ");
    reveal_strlit("sd ");
    reveal_strlit("\tld ");
    reveal_strlit("\tsd ");
    let l = frame_op_text(FrameOp::Load { dst: r, base, offset, is_float: false });
    let s = frame_op_text(FrameOp::Store { src: r, base, offset, is_float: false });
    let rest = reg_name(r) + ", "@ + decimal(offset as int) + "("@ + reg_name(base) + ")"@;
    assert(l =~= "\t"@ + "ld "@ + rest);
    assert(s =~= "\t"@ + "sd "@ + rest);
    assert(l.subrange(0, 4) =~= "\tld "@);
    assert(s.subrange(0, 4) =~= "\tsd "@);
    assert(l.subrange(2, l.len() as int) =~= s.subrange(2, s.len() as int));
}


/// Law: a float register restored by the epilogue is reloaded with `flw`,
/// at the width at which the prologue stored it with `fsw`; the two lines
/// differ only in that letter.
pub proof fn lemma_float_restore_matches_save_width(r: Reg, base: Reg, offset: i32)
    ensures
        frame_op_text(FrameOp::Load { dst: r, base, offset, is_float: true }).subrange(0, 5) == "\tflw "@,
        frame_op_text(FrameOp::Store { src: r, base, offset, is_float: true }).subrange(0, 5) == "\tfsw "@,
        frame_op_text(FrameOp::Load { dst: r, base, offset, is_float: true }).subrange(3,
            frame_op_text(FrameOp::Load { dst: r, base, offset, is_float: true }).len() as int)
            == frame_op_text(FrameOp::Store { src: r, base, offset, is_float: true }).subrange(3,
            frame_op_text(FrameOp::Store { src: r, base, offset, is_float: true }).len() as int),
{
    reveal_strlit("\t");
    reveal_strlit("flw ");
    reveal_strlit("fsw ");
    reveal_strlit("\tflw ");
    reveal_strlit("\tfsw ");
    let l = frame_op_text(FrameOp::Load { dst: r, base, offset, is_float: true });
    let s = frame_op_text(FrameOp::Store { src: r, base, offset, is_float: true });
    let rest = reg_name(r) + ", "@ + decimal(offset as int) + "("@ + reg_name(base) + ")"@;
    assert(l =~= "\t"@ + "flw "@ + rest);
    assert(s =~= "\t"@ + "fsw "@ + rest);
    assert(l.subrange(0, 5) =~= "\tflw "@);
    assert(s.subrange(0, 5) =~= "\tfsw "@);
    assert(l.subrange(3, l.len() as int) =~= s.subrange(3, s.len() as int));
}


/// Law: the frame's stack-pointer arithmetic is 64-bit (`addi`, `add`,
/// `sub`, never their `w` forms), and a large size is loaded with `li`.
pub proof fn lemma_frame_arith_is_full_width(dst: Reg, src: Reg, rhs: Reg, imm: i32)
    ensures
        frame_op_text(FrameOp::AddImm { dst, src, imm }).subrange(0, 9) == "    addi "@,
        frame_op_text(FrameOp::Add { dst, lhs: src, rhs }).subrange(0, 8) == "    add "@,
        frame_op_text(FrameOp::Sub { dst, lhs: src, rhs }).subrange(0, 8) == "    sub "@,
        frame_op_text(FrameOp::LoadImm { dst, imm }).subrange(0, 7) == "    li "@,
{
    reveal_strlit("    addi ");
    reveal_strlit("    add ");
    reveal_strlit("    sub ");
    reveal_strlit("    li ");
    let a = frame_op_text(FrameOp::AddImm { dst, src, imm });
    let b = frame_op_text(FrameOp::Add { dst, lhs: src, rhs });
    let c = frame_op_text(FrameOp::Sub { dst, lhs: src, rhs });
    let d = frame_op_text(FrameOp::LoadImm { dst, imm });
    assert(a.subrange(0, 9) =~= "    addi "@);
    assert(b.subrange(0, 8) =~= "    add "@);
    assert(c.subrange(0, 8) =~= "    sub "@);
    assert(d.subrange(0, 7) =~= "    li "@);
}

} // verus!
