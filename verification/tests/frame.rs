use riscv_backend::frame::FrameOp;
use riscv_backend::func::Func;
use riscv_backend::module::AsmModule;
use riscv_backend::operand::{Reg, ScalarType};
use riscv_backend::structs::{Context, StackSlot};

fn x(id: i32) -> Reg {
    Reg::new(id, ScalarType::Int)
}

fn frame(label: &str, offset: i32) -> Func {
    let mut ctx = Context::new();
    ctx.offset = offset;
    let mut f = Func::new(label, ctx);
    f.stack_addr = vec![StackSlot::new(0, 8)];
    f
}

#[test]
fn frame_size_rounds_down_to_sixteen_and_adds_sixteen() {
    let mut f = frame("f", 0);
    assert_eq!(f.frame_size(), 16);
    f.array_slot = vec![40];
    // 8 + 40 = 48 -> 64
    assert_eq!(f.frame_size(), 64);
    f.context.offset = 7;
    // 55 -> 64
    assert_eq!(f.frame_size(), 64);
}

#[test]
fn a_small_frame_is_opened_and_closed_through_sp() {
    let mut f = frame("f", 0);
    let map = vec![(x(9), StackSlot::new(8, 8))];
    let (pro, epi) = f.build_stack_info(&map, false);
    assert_eq!(f.context.offset, 8);
    assert_eq!(pro, vec![
        FrameOp::AddImm { dst: x(2), src: x(2), imm: -16 },
        FrameOp::Store { src: x(1), base: x(2), offset: 8, is_float: false },
        FrameOp::Store { src: x(9), base: x(2), offset: 0, is_float: false },
    ]);
    assert_eq!(epi, vec![
        FrameOp::Load { dst: x(9), base: x(2), offset: 0, is_float: false },
        FrameOp::Load { dst: x(1), base: x(2), offset: 8, is_float: false },
        FrameOp::AddImm { dst: x(2), src: x(2), imm: 16 },
    ]);
}

#[test]
fn a_large_frame_is_opened_through_s0() {
    let mut f = frame("f", 5000);
    let map = vec![(x(9), StackSlot::new(8, 8))];
    let (pro, epi) = f.build_stack_info(&map, false);
    assert_eq!(f.context.offset, 5016);
    assert_eq!(pro, vec![
        FrameOp::LoadImm { dst: x(8), imm: 5024 },
        FrameOp::Sub { dst: x(2), lhs: x(2), rhs: x(8) },
        FrameOp::Add { dst: x(8), lhs: x(8), rhs: x(2) },
        FrameOp::Store { src: x(1), base: x(8), offset: -8, is_float: false },
        FrameOp::Store { src: x(9), base: x(8), offset: -16, is_float: false },
    ]);
    assert_eq!(epi, vec![
        FrameOp::LoadImm { dst: x(8), imm: 5024 },
        FrameOp::Add { dst: x(2), lhs: x(8), rhs: x(2) },
        FrameOp::Load { dst: x(1), base: x(2), offset: -8, is_float: false },
        FrameOp::Load { dst: x(9), base: x(2), offset: -16, is_float: false },
    ]);
}

#[test]
fn main_saves_only_ra() {
    let mut f = frame("main", 0);
    f.callee_saved = vec![x(9)];
    let (pro, epi) = f.save_callee();
    assert_eq!(f.stack_addr, vec![StackSlot::new(0, 8)]);
    assert_eq!(pro.len(), 2);
    assert_eq!(epi.len(), 2);
}

#[test]
fn callee_saved_registers_get_slots_at_the_front_of_the_frame() {
    let mut f = frame("f", 0);
    f.callee_saved = vec![x(9), x(18)];
    let (pro, _epi) = f.save_callee();
    assert_eq!(f.stack_addr, vec![StackSlot::new(16, 8), StackSlot::new(8, 8), StackSlot::new(0, 8)]);
    // 16 + 8 = 24 -> 32
    assert_eq!(f.context.offset, 24);
    assert_eq!(pro[2], FrameOp::Store { src: x(9), base: x(2), offset: 16, is_float: false });
    assert_eq!(pro[3], FrameOp::Store { src: x(18), base: x(2), offset: 8, is_float: false });
}

#[test]
fn every_frame_of_a_program_is_sized_with_its_callee_saved_registers() {
    let mut m = AsmModule::new();
    m.name_func.push(frame("main", 0));
    m.name_func.push(frame("f", 0));
    m.name_func[0].callee_saved = vec![x(18)];
    m.callee_regs_to_saveds.push(("f".to_string(), vec![x(2), x(9)]));
    let frames = m.build_stack_info();
    assert_eq!(frames.len(), 2);
    // main saves nothing but ra
    assert!(m.name_func[0].callee_saved.is_empty());
    assert_eq!(frames[0].0.len(), 2);
    // sp leaves the table; f saves s1 in a slot in front of its frame
    assert_eq!(m.callee_regs_to_saveds[0].1, vec![x(9)]);
    assert_eq!(m.name_func[1].callee_saved, vec![x(9)]);
    assert_eq!(m.name_func[1].stack_addr, vec![StackSlot::new(8, 8), StackSlot::new(0, 8)]);
    // 8 + 8 = 16 -> 32
    assert_eq!(m.name_func[1].context.offset, 24);
    assert_eq!(frames[1].0[2], FrameOp::Store { src: x(9), base: x(2), offset: 16, is_float: false });
}

#[test]
fn prologue_lines_are_written_as_assembly() {
    let op = FrameOp::AddImm { dst: x(2), src: x(2), imm: -16 };
    assert_eq!(op.asm_text(), "    addi x2, x2, -16");
    let op = FrameOp::Store { src: x(1), base: x(2), offset: 8, is_float: false };
    assert_eq!(op.asm_text(), "\tsd x1, 8(x2)");
    let op = FrameOp::Load { dst: Reg::new(40, ScalarType::Float), base: x(8), offset: -24, is_float: true };
    assert_eq!(op.asm_text(), "\tflw f40, -24(x8)");
    assert_eq!(FrameOp::LoadImm { dst: x(8), imm: 5024 }.asm_text(), "    li x8, 5024");
    assert_eq!(FrameOp::Sub { dst: x(2), lhs: x(2), rhs: x(8) }.asm_text(), "    sub x2, x2, x8");
}

#[test]
fn a_frame_with_a_negative_part_rounds_toward_zero() {
    let mut f = frame("f", -40);
    // -40 + 8 = -32 -> -2 * 16 + 16
    assert_eq!(f.frame_size(), -16);
    f.context.offset = -28;
    // -20 -> -1 * 16 + 16
    assert_eq!(f.frame_size(), 0);
}
