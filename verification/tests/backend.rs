use std::collections::{HashMap, HashSet};

use riscv_backend::block::{get_magic, is_opt_mul, is_opt_num, log2, BB};
use riscv_backend::func::Func;
use riscv_backend::graphalgo::{Edge, Graph, Node};
use riscv_backend::instrs::{BinaryOp, CmpOp, InstrsType, LIRInst, Operand, SingleOp};
use riscv_backend::module::AsmModule;
use riscv_backend::operand::{is_imm_12bs, IImm, Reg, ScalarType};
use riscv_backend::pool::BackendPool;
use riscv_backend::structs::{Context, StackSlot};

fn ireg(id: i32) -> Reg {
    Reg::new(id, ScalarType::Int)
}

fn r(id: i32) -> Operand {
    Operand::Reg(ireg(id))
}

fn imm(v: i32) -> Operand {
    Operand::IImm(IImm::new(v))
}

fn li(dst: i32, v: i32) -> LIRInst {
    LIRInst::new(InstrsType::OpReg(SingleOp::Li), vec![r(dst), imm(v)])
}

fn add(dst: i32, a: i32, b: i32) -> LIRInst {
    LIRInst::new(InstrsType::Binary(BinaryOp::Add), vec![r(dst), r(a), r(b)])
}

fn call(name: &str) -> LIRInst {
    LIRInst::new(InstrsType::Call, vec![Operand::Addr(name.to_string())])
}

fn jump(label: &str) -> LIRInst {
    LIRInst::new(InstrsType::Jump, vec![Operand::Addr(label.to_string())])
}

fn block(label: &str, insts: Vec<LIRInst>) -> BB {
    let mut bb = BB::new(label, "f");
    bb.insts = insts;
    bb
}

fn func(name: &str, blocks: Vec<BB>) -> Func {
    let mut f = Func::new(name, Context::new());
    f.blocks = blocks;
    f
}

fn ops_of(i: &LIRInst) -> Vec<Operand> {
    i.operands.iter().cloned().collect()
}

#[test]
fn twelve_bit_immediates() {
    assert!(is_imm_12bs(2047));
    assert!(is_imm_12bs(-2048));
    assert!(!is_imm_12bs(2048));
    assert!(!is_imm_12bs(-2049));
}

#[test]
fn powers_of_two() {
    assert!(is_opt_num(8));
    assert!(is_opt_num(1));
    assert!(!is_opt_num(6));
    assert!(is_opt_num(0));
    assert_eq!(log2(8), 3);
    assert_eq!(log2(1024), 10);
    assert!(!is_opt_mul(9));
}

#[test]
fn division_magic_numbers() {
    assert_eq!(get_magic(false, 3), (1431655766, 0));
    assert_eq!(get_magic(false, 5), (1717986919, 1));
    assert_eq!(get_magic(false, 7), (2454267027, 2));
    assert_eq!(get_magic(true, 5), (-1717986919, 1));
}

#[test]
fn multiplication_by_a_power_of_two_is_a_shift() {
    let mut pool = BackendPool::new();
    let mut bb = BB::new("b", "f");
    bb.resolve_opt_mul(r(200), r(201), 8, &mut pool);
    assert_eq!(bb.insts.len(), 1);
    assert_eq!(bb.insts[0].inst_type, InstrsType::Binary(BinaryOp::Shl));
    assert_eq!(ops_of(&bb.insts[0]), vec![r(200), r(201), imm(3)]);
}

#[test]
fn multiplication_by_small_constants() {
    let mut pool = BackendPool::new();
    let mut bb = BB::new("b", "f");
    bb.resolve_opt_mul(r(200), r(201), 0, &mut pool);
    assert_eq!(bb.insts[0].inst_type, InstrsType::OpReg(SingleOp::Mv));
    assert_eq!(ops_of(&bb.insts[0]), vec![r(200), imm(0)]);
    let mut bb = BB::new("b", "f");
    bb.resolve_opt_mul(r(200), r(201), -1, &mut pool);
    assert_eq!(bb.insts.len(), 1);
    assert_eq!(bb.insts[0].inst_type, InstrsType::OpReg(SingleOp::Neg));
    let mut bb = BB::new("b", "f");
    let first = pool.next_reg_id;
    bb.resolve_opt_mul(r(200), r(201), 9, &mut pool);
    assert_eq!(bb.insts.len(), 2);
    assert_eq!(bb.insts[0].inst_type, InstrsType::Binary(BinaryOp::Shl));
    assert_eq!(ops_of(&bb.insts[0]), vec![r(first), r(201), imm(3)]);
    assert_eq!(bb.insts[1].inst_type, InstrsType::Binary(BinaryOp::Add));
    assert_eq!(ops_of(&bb.insts[1]), vec![r(200), r(first), r(201)]);
}

#[test]
fn division_by_seven_loads_its_magic_number() {
    let mut pool = BackendPool::new();
    let mut bb = BB::new("b", "f");
    let first = pool.next_reg_id;
    bb.resolve_opt_div(r(200), r(201), 7, &mut pool);
    assert_eq!(bb.insts.len(), 6);
    assert_eq!(bb.insts[0].inst_type, InstrsType::OpReg(SingleOp::Li));
    assert_eq!(ops_of(&bb.insts[0]), vec![r(first), Operand::Addr("2454267027".to_string())]);
    assert_eq!(bb.insts[3].inst_type, InstrsType::Binary(BinaryOp::Sar));
    assert_eq!(ops_of(&bb.insts[3]), vec![r(first + 3), r(first + 2), imm(2)]);
    assert_eq!(pool.next_reg_id, first + 5);
}

#[test]
fn division_by_a_negative_constant_negates_the_quotient_by_its_absolute_value() {
    let mut pool = BackendPool::new();
    let mut bb = BB::new("b", "f");
    let first = pool.next_reg_id;
    bb.resolve_opt_div(r(200), r(201), -5, &mut pool);
    assert_eq!(bb.insts.len(), 7);
    assert_eq!(ops_of(&bb.insts[0]), vec![r(first), Operand::Addr("1717986919".to_string())]);
    assert_eq!(bb.insts[6].inst_type, InstrsType::OpReg(SingleOp::Neg));
    assert_eq!(ops_of(&bb.insts[6]), vec![r(200), r(200)]);
    let mut bb = BB::new("b", "f");
    bb.resolve_opt_div(r(200), r(201), -4, &mut pool);
    assert_eq!(bb.insts.len(), 5);
    assert_eq!(bb.insts[4].inst_type, InstrsType::OpReg(SingleOp::Neg));
}

#[test]
fn division_by_a_power_of_two_rounds_towards_zero() {
    let mut pool = BackendPool::new();
    let mut bb = BB::new("b", "f");
    let first = pool.next_reg_id;
    bb.resolve_opt_div(r(200), r(201), 4, &mut pool);
    assert_eq!(bb.insts.len(), 4);
    assert_eq!(ops_of(&bb.insts[0]), vec![r(first), r(201), imm(1)]);
    assert_eq!(ops_of(&bb.insts[1]), vec![r(first + 1), r(first), imm(30)]);
    assert_eq!(ops_of(&bb.insts[3]), vec![r(200), r(first + 2), imm(2)]);
}

/// b0: x = 1; jump b1     b1: y = x + x
fn two_block_func() -> Func {
    let mut b0 = block("b0", vec![li(100, 1), jump("b1")]);
    let mut b1 = block("b1", vec![add(101, 100, 100)]);
    b0.out_edge = vec![1];
    b1.in_edge = vec![0];
    func("f", vec![b0, b1])
}

#[test]
fn liveness_flows_along_edges() {
    let mut f = two_block_func();
    f.calc_live_base();
    assert!(f.blocks[0].live_out.contains(&ireg(100)));
    assert!(!f.blocks[0].live_in.contains(&ireg(100)));
    assert!(f.blocks[1].live_in.contains(&ireg(100)));
    assert!(f.blocks[1].live_use.contains(&ireg(100)));
    assert!(f.blocks[0].live_def.contains(&ireg(100)));
    assert!(!f.blocks[1].live_out.contains(&ireg(101)));
}

#[test]
fn dead_definitions_are_removed_until_none_is_left() {
    // z = 2 is never read; y = x + x is not read either, so x dies after it
    let b0 = block("b0", vec![li(100, 1), li(102, 2), add(101, 100, 100)]);
    let mut f = func("f", vec![b0]);
    let removed = f.remove_unuse_def();
    assert!(removed);
    assert_eq!(f.blocks[0].insts.len(), 0);
}

#[test]
fn moves_of_a_register_to_itself_are_dropped() {
    let mv = LIRInst::new(InstrsType::OpReg(SingleOp::Mv), vec![r(10), r(10)]);
    let keep = LIRInst::new(InstrsType::OpReg(SingleOp::Mv), vec![r(10), r(11)]);
    let mut f = func("f", vec![block("b0", vec![mv, keep])]);
    assert!(f.remove_self_mv());
    assert_eq!(f.blocks[0].insts.len(), 1);
    assert_eq!(ops_of(&f.blocks[0].insts[0]), vec![r(10), r(11)]);
}

#[test]
fn short_lived_registers_become_temporaries() {
    // x is born at 0 and last read at 1; y lives from 1 to the end of the block
    let mut b0 = block("b0", vec![li(100, 1), add(101, 100, 100), li(103, 3), li(104, 4), jump("b1")]);
    let mut b1 = block("b1", vec![add(102, 101, 101)]);
    b0.out_edge = vec![1];
    b1.in_edge = vec![0];
    let mut f = func("f", vec![b0, b1]);
    f.cal_tmp_var();
    assert!(f.tmp_vars.contains(&ireg(100)));
    assert!(!f.tmp_vars.contains(&ireg(101)));
}

#[test]
fn registers_live_together_get_different_spill_slots() {
    // both spilled registers are live before the add
    let b0 = block("b0", vec![li(100, 1), li(101, 2), add(102, 100, 101)]);
    let mut f = func("f", vec![b0]);
    let mut spills = HashSet::new();
    spills.insert(100);
    spills.insert(101);
    f.spillings = spills;
    f.stack_addr = vec![StackSlot::new(0, 8)];
    f.handle_spill_v3();
    let slot_of = |id: i32| f.spill_stack_map.iter().find(|(x, _)| x.id == id).map(|(_, s)| *s);
    let a = slot_of(100).unwrap();
    let b = slot_of(101).unwrap();
    assert_ne!(a, b);
    assert!(a.get_pos() >= 8 && b.get_pos() >= 8);
    // the add now reads the spilled registers from temporaries loaded just before it
    let add_pos = f.blocks[0].insts.iter().position(|i| i.inst_type == InstrsType::Binary(BinaryOp::Add)).unwrap();
    assert_eq!(f.blocks[0].insts[add_pos - 1].inst_type, InstrsType::LoadFromStack);
}

#[test]
fn spilled_registers_never_live_together_share_a_slot() {
    // 100 dies at the first add before 101 is born
    let b0 = block("b0", vec![li(100, 1), add(102, 100, 100), li(101, 2), add(103, 101, 101)]);
    let mut f = func("f", vec![b0]);
    let mut spills = HashSet::new();
    spills.insert(100);
    spills.insert(101);
    f.spillings = spills;
    f.stack_addr = vec![StackSlot::new(0, 8)];
    f.handle_spill_v3();
    let slot_of = |id: i32| f.spill_stack_map.iter().find(|(x, _)| x.id == id).map(|(_, s)| *s);
    assert_eq!(slot_of(100).unwrap(), slot_of(101).unwrap());
    assert_eq!(slot_of(100).unwrap(), StackSlot::new(8, 8));
    assert_eq!(f.stack_addr.len(), 2);
}

#[test]
fn scheduling_keeps_dependences_and_puts_control_last() {
    let insts = vec![li(100, 1), jump("b1"), li(101, 2), add(102, 100, 101), li(103, 3)];
    let mut f = func("f", vec![block("b0", insts)]);
    f.list_scheduling_tech();
    let got = &f.blocks[0].insts;
    assert_eq!(got.len(), 5);
    assert_eq!(got[4].inst_type, InstrsType::Jump);
    let pos_of = |dst: i32| got.iter().position(|i| i.operands.len() > 0 && i.operands[0] == r(dst)).unwrap();
    assert!(pos_of(100) < pos_of(102));
    assert!(pos_of(101) < pos_of(102));
    assert!(pos_of(103) < 4);
    // queued by level (100, 101, 103, then 102), then issued by slot
    assert_eq!(pos_of(100), 0);
    assert_eq!(pos_of(101), 1);
    assert_eq!(pos_of(103), 2);
    assert_eq!(pos_of(102), 3);
}

#[test]
fn scheduling_issues_an_independent_instruction_before_a_dependent_one() {
    let insts = vec![li(100, 1), add(101, 100, 100), li(102, 3), jump("b1")];
    let mut f = func("f", vec![block("b0", insts)]);
    f.list_scheduling_tech();
    let got = &f.blocks[0].insts;
    assert_eq!(got.len(), 4);
    assert_eq!(got[0].operands[0], r(100));
    assert_eq!(got[1].operands[0], r(102));
    assert_eq!(got[2].operands[0], r(101));
    assert_eq!(got[3].inst_type, InstrsType::Jump);
}

fn program() -> AsmModule {
    // f calls g, g calls h; h uses s1, g uses t0
    let mut m = AsmModule::new();
    m.name_func.push(func("f", vec![block("f0", vec![call("g")])]));
    m.name_func.push(func("g", vec![block("g0", vec![li(5, 1), call("h")])]));
    m.name_func.push(func("h", vec![block("h0", vec![li(9, 1)])]));
    m
}

#[test]
fn call_map_lists_each_callee_once() {
    let mut m = program();
    m.name_func[0].blocks[0].insts.push(call("g"));
    m.build_own_call_map();
    assert_eq!(m.call_map.len(), 3);
    assert_eq!(m.call_map[0].0, "f".to_string());
    assert_eq!(m.call_map[0].1, vec!["g".to_string()]);
    assert_eq!(m.call_map[2].1.len(), 0);
}

#[test]
fn callee_saved_registers_are_drawn_through_the_call_chain() {
    let mut m = program();
    m.build_own_call_map();
    let used = m.draw_callee_used(&m.name_func[0]);
    assert_eq!(used, vec![ireg(9)]);
    let callers = m.draw_caller_used(&m.name_func[0]);
    assert_eq!(callers, vec![ireg(5)]);
    let table = m.build_callee_used();
    assert_eq!(table[1].0, "g".to_string());
    assert_eq!(table[1].1, vec![ireg(9)]);
}

#[test]
fn calling_an_outside_function_may_overwrite_every_caller_saved_register() {
    let mut m = program();
    m.name_func[2].blocks[0].insts.push(call("putint"));
    m.add_external_func();
    assert_eq!(m.name_func.len(), 18);
    m.build_own_call_map();
    let callers = m.draw_caller_used(&m.name_func[0]);
    assert_eq!(callers.len(), 31);
    assert!(callers.contains(&ireg(10)));
    assert!(callers.contains(&Reg::new(42, ScalarType::Float)));
    let table = m.build_caller_used();
    assert!(!table[0].1.contains(&Reg::get_ra()));
    assert_eq!(table[0].1.len(), 30);
    m.remove_useless_func();
    assert_eq!(m.name_func.len(), 3);
}

#[test]
fn temporaries_are_cleared_for_functions_with_a_body() {
    let mut m = program();
    m.name_func[0].tmp_vars.push(ireg(100));
    m.add_external_func();
    m.clear_tmp_var();
    assert!(m.name_func.iter().all(|f| f.tmp_vars.is_empty()));
}

#[test]
fn path_search_from_a_target_is_the_node_alone() {
    let mut g: Graph<i32> = Graph::new();
    g.nodes.insert(1, Node { id: 1, v: 7, inedges: Vec::new(), outedges: Vec::new() });
    let mut tos = HashSet::new();
    tos.insert(1);
    assert_eq!(g.dfs_findMaxNodeValuePath(1, tos.clone()), 7);
    assert_eq!(g.bfs_estimateMaxNodeValuePath(1, tos), 0);
    let mut g2: Graph<i32> = Graph::new();
    g2.nodes.insert(1, Node { id: 1, v: -3, inedges: Vec::new(), outedges: Vec::new() });
    let mut tos2 = HashSet::new();
    tos2.insert(1);
    assert_eq!(g2.dfs_findMaxNodeValuePath(1, tos2), -3);
    let _unused: HashMap<i32, i32> = HashMap::new();
}

fn valued(id: i32, v: i32, to: &[i32]) -> Node<i32> {
    Node {
        id,
        v,
        inedges: Vec::new(),
        outedges: to.iter().map(|t| Edge { from: id, to: *t }).collect(),
    }
}

#[test]
fn path_search_takes_the_most_valuable_path_to_a_target() {
    let mut g: Graph<i32> = Graph::new();
    g.nodes.insert(1, valued(1, 2, &[2, 3]));
    g.nodes.insert(2, valued(2, 5, &[4]));
    g.nodes.insert(3, valued(3, 10, &[4, 5]));
    g.nodes.insert(4, valued(4, 1, &[6]));
    g.nodes.insert(5, valued(5, 100, &[]));
    g.nodes.insert(6, valued(6, 1000, &[]));
    let mut tos = HashSet::new();
    tos.insert(4);
    assert_eq!(g.dfs_findMaxNodeValuePath(1, tos.clone()), 13);
    assert_eq!(g.dfs_findMaxNodeValuePath(2, tos.clone()), 6);
    assert_eq!(g.dfs_findMaxNodeValuePath(5, tos.clone()), 0);
    let mut neg: Graph<i32> = Graph::new();
    neg.nodes.insert(1, valued(1, -5, &[2]));
    neg.nodes.insert(2, valued(2, -1, &[]));
    let mut tos2 = HashSet::new();
    tos2.insert(2);
    assert_eq!(neg.dfs_findMaxNodeValuePath(1, tos2), -6);
}

fn sp() -> Operand {
    r(2)
}

fn s0() -> Operand {
    r(8)
}

#[test]
fn loads_with_large_offsets_go_through_s0() {
    let load = LIRInst::new(InstrsType::Load, vec![r(100), r(101), imm(4096)]);
    let small = LIRInst::new(InstrsType::Load, vec![r(102), r(101), imm(16)]);
    let stack = LIRInst::new(InstrsType::StoreToStack, vec![r(103), imm(5000)]);
    let mut bb = block("b0", vec![load, small, stack]);
    bb.handle_overflow(0);
    let got = &bb.insts;
    assert_eq!(got.len(), 7);
    assert_eq!(got[0].inst_type, InstrsType::OpReg(SingleOp::Li));
    assert_eq!(ops_of(&got[0]), vec![s0(), imm(4096)]);
    assert_eq!(got[1].inst_type, InstrsType::Binary(BinaryOp::Add));
    assert!(got[1].double);
    assert_eq!(ops_of(&got[1]), vec![s0(), s0(), r(101)]);
    assert_eq!(got[2].inst_type, InstrsType::Load);
    assert_eq!(ops_of(&got[2]), vec![r(100), s0(), imm(0)]);
    assert_eq!(ops_of(&got[3]), vec![r(102), r(101), imm(16)]);
    assert_eq!(ops_of(&got[5]), vec![s0(), s0(), sp()]);
    assert_eq!(got[6].inst_type, InstrsType::Store);
    assert_eq!(ops_of(&got[6]), vec![r(103), s0(), imm(0)]);
}

#[test]
fn parameter_offsets_count_from_the_frame() {
    let near = LIRInst::new(InstrsType::LoadParamFromStack, vec![r(100), imm(8)]);
    let mut bb = block("b0", vec![near]);
    bb.handle_overflow(3000);
    assert_eq!(bb.insts.len(), 3);
    assert_eq!(ops_of(&bb.insts[0]), vec![s0(), imm(2992)]);
    assert_eq!(bb.insts[2].inst_type, InstrsType::Load);
    let mut bb2 = block("b0", vec![LIRInst::new(InstrsType::LoadParamFromStack, vec![r(100), imm(8)])]);
    bb2.handle_overflow(100);
    assert_eq!(bb2.insts.len(), 1);
    assert_eq!(bb2.insts[0].inst_type, InstrsType::LoadParamFromStack);
}

#[test]
fn far_branches_jump_through_a_new_block() {
    let br = LIRInst::new(InstrsType::Branch(CmpOp::Eq), vec![Operand::Addr("b3".to_string()), r(100), r(101)]);
    let b0 = block("b0", vec![br]);
    let b1 = block("b1", (0..300).map(|_| li(102, 1)).collect());
    let b2 = block("b2", vec![li(103, 1)]);
    let b3 = block("b3", vec![li(104, 1)]);
    let mut f = func("f", vec![b0, b1, b2, b3]);
    let mut pool = BackendPool::new();
    f.handle_overflow(&mut pool);
    assert_eq!(f.blocks.len(), 5);
    assert_eq!(f.blocks[1].label, "overflow_1".to_string());
    assert_eq!(f.blocks[1].insts.len(), 1);
    assert_eq!(f.blocks[1].insts[0].inst_type, InstrsType::Jump);
    assert_eq!(ops_of(&f.blocks[1].insts[0]), vec![Operand::Addr("b3".to_string())]);
    assert_eq!(f.blocks[0].insts[0].operands[0], Operand::Addr("overflow_1".to_string()));
    assert_eq!(f.blocks[2].label, "b1".to_string());
    assert_eq!(pool.tmp_bb, 1);
}

#[test]
fn near_branches_are_left_alone() {
    let br = LIRInst::new(InstrsType::Branch(CmpOp::Ne), vec![Operand::Addr("b2".to_string()), r(100), r(101)]);
    let mut f = func("f", vec![block("b0", vec![br]), block("b1", vec![li(102, 1)]), block("b2", vec![])]);
    let mut pool = BackendPool::new();
    f.handle_overflow(&mut pool);
    assert_eq!(f.blocks.len(), 3);
    assert_eq!(f.blocks[0].insts[0].operands[0], Operand::Addr("b2".to_string()));
}

#[test]
fn registers_live_across_an_instruction() {
    let mut f = two_block_func();
    f.calc_live_base();
    let lives = AsmModule::analyse_inst_with_live_now(&f);
    assert_eq!(lives.len(), 2);
    assert!(lives[0][0].is_empty());
    assert_eq!(lives[0][1], vec![ireg(100)]);
    assert!(lives[1][0].is_empty());
}

#[test]
fn registers_live_across_a_call_are_saved_for_the_callee() {
    // f keeps t0 across its call of g; g calls h, which writes t0 and t1
    let mut m = AsmModule::new();
    m.name_func.push(func("f", vec![block("f0", vec![li(5, 1), li(6, 2), call("g"), add(100, 5, 5)])]));
    m.name_func.push(func("g", vec![block("g0", vec![call("h")])]));
    m.name_func.push(func("h", vec![block("h0", vec![li(5, 1), li(6, 1), li(9, 1)])]));
    m.build_own_call_map();
    m.anaylyse_for_handle_call_v4();
    assert_eq!(m.caller_regs_to_saveds.len(), 3);
    assert_eq!(m.caller_regs_to_saveds[1].0, "g".to_string());
    assert_eq!(m.caller_regs_to_saveds[1].1, vec![ireg(5)]);
    assert_eq!(m.caller_regs_to_saveds[2].1.len(), 2);
    assert!(m.callee_regs_to_saveds[1].1.is_empty());
    assert_eq!(m.callee_regs_to_saveds[2].1, vec![ireg(9)]);
}

#[test]
fn scheduling_every_function_of_a_program() {
    let mut m = program();
    m.add_external_func();
    m.list_scheduling_tech();
    assert_eq!(m.name_func[1].blocks[0].insts.len(), 2);
    assert_eq!(m.name_func[1].blocks[0].insts[1].inst_type, InstrsType::Call);
}

#[test]
fn next_occurrences_of_each_register() {
    let mut f = two_block_func();
    f.calc_live_base();
    let mut t = Func::build_next_occurs(&f.blocks[0]);
    assert_eq!(t.len(), 1);
    assert_eq!(t[0].0, ireg(100));
    assert_eq!(t[0].1, vec![(0, true), (2, false)]);
    let t1 = Func::build_next_occurs(&f.blocks[1]);
    let x = t1.iter().find(|(r, _)| *r == ireg(100)).unwrap();
    assert_eq!(x.1, vec![(0, false), (0, false)]);
    let y = t1.iter().find(|(r, _)| *r == ireg(101)).unwrap();
    assert_eq!(y.1, vec![(0, true)]);
    Func::refresh_next_occurs(&mut t, 0);
    assert_eq!(t[0].1, vec![(2, false)]);
    Func::refresh_next_occurs(&mut t, 5);
    assert!(t.is_empty());
}

#[test]
fn colours_replace_virtual_registers_by_id() {
    let mut f = func("f", vec![block("b0", vec![add(101, 100, 100), li(5, 3)])]);
    let mut colors = HashMap::new();
    colors.insert(100, 10);
    colors.insert(5, 6);
    f.v2p(&colors);
    assert_eq!(ops_of(&f.blocks[0].insts[0]), vec![r(101), r(10), r(10)]);
    // physical registers keep their colour
    assert_eq!(ops_of(&f.blocks[0].insts[1]), vec![r(5), imm(3)]);
}

#[test]
fn a_virtual_register_is_renamed_everywhere() {
    let mut f = two_block_func();
    f.replace_v_reg(&ireg(100), &ireg(200));
    assert_eq!(ops_of(&f.blocks[0].insts[0]), vec![r(200), imm(1)]);
    assert_eq!(ops_of(&f.blocks[1].insts[0]), vec![r(101), r(200), r(200)]);
}

#[test]
fn registers_live_after_each_instruction() {
    let mut f = two_block_func();
    f.calc_live_base();
    let lives = f.build_live_out_for_insts();
    assert_eq!(lives[0][0], vec![ireg(100)]);
    assert_eq!(lives[0][1], vec![ireg(100)]);
    assert!(lives[1][0].is_empty());
}

fn call_across_func() -> Func {
    // t0 holds a value across the call of g
    let mut f = func("f", vec![block("b0", vec![li(5, 1), call("g"), add(6, 5, 5)])]);
    f.stack_addr = vec![StackSlot::new(0, 8)];
    f
}

#[test]
fn caller_saved_registers_are_stored_before_a_call_and_loaded_after() {
    let mut f = call_across_func();
    f.handle_call_v3(&vec![("g".to_string(), vec![ireg(5)])]);
    assert_eq!(f.stack_addr, vec![StackSlot::new(0, 8), StackSlot::new(8, 8)]);
    let insts = &f.blocks[0].insts;
    assert_eq!(insts.len(), 5);
    assert_eq!(insts[1].inst_type, InstrsType::StoreToStack);
    assert_eq!(ops_of(&insts[1]), vec![r(5), imm(8)]);
    assert_eq!(insts[2].inst_type, InstrsType::Call);
    assert_eq!(insts[3].inst_type, InstrsType::LoadFromStack);
    assert_eq!(ops_of(&insts[3]), vec![r(5), imm(8)]);
    assert_eq!(ops_of(&insts[4]), vec![r(6), r(5), r(5)]);
}

#[test]
fn registers_the_callee_leaves_alone_are_not_saved() {
    let mut f = call_across_func();
    f.handle_call_v3(&vec![("g".to_string(), vec![ireg(6)])]);
    assert_eq!(f.stack_addr.len(), 1);
    assert_eq!(f.blocks[0].insts.len(), 3);
}

#[test]
fn every_function_saves_around_its_calls() {
    let mut m = AsmModule::new();
    m.name_func.push(call_across_func());
    let mut g = Func::new("g", Context::new());
    g.stack_addr = vec![StackSlot::new(0, 0)];
    m.name_func.push(g);
    m.caller_regs_to_saveds = vec![("f".to_string(), vec![]), ("g".to_string(), vec![ireg(5), ireg(6)])];
    m.handle_call_v3();
    assert_eq!(m.name_func[0].blocks[0].insts.len(), 5);
    assert_eq!(m.name_func[0].stack_addr.len(), 2);
    assert_eq!(m.name_func[1].stack_addr.len(), 1);
}

#[test]
fn registers_held_across_each_call_are_reported() {
    let mut f = func("f", vec![block("b0", vec![li(5, 1), li(9, 2), call("g"), add(6, 5, 5), call("h")])]);
    let table = vec![
        ("g".to_string(), vec![ireg(5), ireg(9)]),
        ("h".to_string(), vec![ireg(5)]),
    ];
    let sites = f.analyse_for_handle_call(&table);
    // the last call of the block comes first
    assert_eq!(sites.len(), 2);
    assert_eq!(sites[0].0, (0, 4));
    assert!(sites[0].1.is_empty());
    assert_eq!(sites[1].0, (0, 2));
    assert_eq!(sites[1].1, vec![ireg(5)]);
}

#[test]
fn registers_coloured_caller_saved_are_saved_around_calls() {
    let mut f = func("f", vec![block("b0", vec![li(100, 1), call("g"), add(101, 100, 100)])]);
    f.stack_addr = vec![StackSlot::new(0, 8)];
    let mut colours = HashMap::new();
    colours.insert(100, 5);
    colours.insert(101, 6);
    f.handle_call(&colours);
    let insts = &f.blocks[0].insts;
    assert_eq!(insts.len(), 5);
    assert_eq!(insts[1].inst_type, InstrsType::StoreToStack);
    assert_eq!(ops_of(&insts[1]), vec![r(5), imm(8)]);
    assert_eq!(insts[3].inst_type, InstrsType::LoadFromStack);
    assert_eq!(ops_of(&insts[3]), vec![r(5), imm(8)]);
    assert_eq!(f.stack_addr, vec![StackSlot::new(0, 8), StackSlot::new(8, 8)]);
}

#[test]
fn remainder_by_a_negative_constant_goes_through_the_negated_quotient() {
    let mut pool = BackendPool::new();
    let mut bb = BB::new("b", "f");
    bb.resolve_opt_rem(r(200), r(201), -3, &mut pool);
    // quotient (magic number of 3, then negated), product by -3, subtraction
    assert!(bb.insts.iter().any(|i| i.inst_type == InstrsType::OpReg(SingleOp::Neg)));
    let last = bb.insts.last().unwrap();
    assert_eq!(last.inst_type, InstrsType::Binary(BinaryOp::Sub));
    assert_eq!(last.operands[0], r(200));
    assert_eq!(last.operands[1], r(201));
    let mut bb4 = BB::new("b", "f");
    bb4.resolve_opt_rem(r(200), r(201), -4, &mut pool);
    assert_eq!(bb4.insts.last().unwrap().inst_type, InstrsType::Binary(BinaryOp::Sub));
    assert!(bb4.insts.iter().any(|i| i.inst_type == InstrsType::Binary(BinaryOp::And)));
}
