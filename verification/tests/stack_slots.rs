use riscv_backend::block::BB;
use riscv_backend::func::Func;
use riscv_backend::instrs::{InstrsType, LIRInst, Operand};
use riscv_backend::module::AsmModule;
use riscv_backend::operand::{IImm, Reg, ScalarType};
use riscv_backend::structs::{Context, StackSlot};

fn r(id: i32) -> Operand {
    Operand::Reg(Reg::new(id, ScalarType::Int))
}

fn imm(v: i32) -> Operand {
    Operand::IImm(IImm::new(v))
}

fn store(reg: i32, pos: i32) -> LIRInst {
    LIRInst::new(InstrsType::StoreToStack, vec![r(reg), imm(pos)])
}

fn load(reg: i32, pos: i32) -> LIRInst {
    LIRInst::new(InstrsType::LoadFromStack, vec![r(reg), imm(pos)])
}

fn jump(label: &str) -> LIRInst {
    LIRInst::new(InstrsType::Jump, vec![Operand::Addr(label.to_string())])
}

fn word(pos: i32) -> StackSlot {
    StackSlot::new(pos, 8)
}

fn block(label: &str, insts: Vec<LIRInst>) -> BB {
    let mut bb = BB::new(label, "f");
    bb.insts = insts;
    bb
}

fn func(blocks: Vec<BB>) -> Func {
    let mut f = Func::new("f", Context::new());
    f.blocks = blocks;
    f
}

fn offset(i: &LIRInst) -> i32 {
    i.get_stack_offset().get_data()
}

fn sorted(mut v: Vec<StackSlot>) -> Vec<i32> {
    v.sort_by_key(|s| s.get_pos());
    v.iter().map(|s| s.get_pos()).collect()
}

fn two_blocks() -> Func {
    let mut b0 = block("b0", vec![store(5, 16), jump("b1")]);
    let mut b1 = block("b1", vec![load(6, 16), load(7, 24)]);
    b0.out_edge = vec![1];
    b1.in_edge = vec![0];
    func(vec![b0, b1])
}

#[test]
fn first_access_decides_use_or_def_of_a_word() {
    let f = func(vec![block("b0", vec![store(1, 16), load(2, 16), load(3, 24), store(4, 24)])]);
    let (uses, defs) = Func::build_live_use_def_for_stackslots(&f);
    assert_eq!(sorted(uses[0].clone()), vec![24]);
    assert_eq!(sorted(defs[0].clone()), vec![16]);
}

#[test]
fn words_live_across_an_edge() {
    let f = two_blocks();
    let (uses, defs, live_in, live_out) = Func::calc_stackslot_interval(&f);
    assert_eq!(sorted(uses[1].clone()), vec![16, 24]);
    assert_eq!(sorted(defs[0].clone()), vec![16]);
    assert_eq!(sorted(live_out[0].clone()), vec![16, 24]);
    assert_eq!(sorted(live_in[0].clone()), vec![24]);
    assert_eq!(sorted(live_in[1].clone()), vec![16, 24]);
    assert!(live_out[1].is_empty());
}

#[test]
fn live_sets_follow_the_given_use_and_def_sets() {
    let f = two_blocks();
    let uses = vec![vec![], vec![word(40)]];
    let defs = vec![vec![word(40)], vec![]];
    let (live_in, live_out) = Func::build_live_in_live_out_for_stackslots_from_live_use_and_live_def(&f, &uses, &defs);
    assert_eq!(sorted(live_out[0].clone()), vec![40]);
    assert!(live_in[0].is_empty());
    assert_eq!(sorted(live_in[1].clone()), vec![40]);
}

#[test]
fn stores_never_read_again_are_removed() {
    // the first store to 16 is overwritten before any load; 24 is never
    // loaded; -8 lies outside the frame and is kept
    let mut f = func(vec![block("b0", vec![store(1, 16), store(2, 16), load(3, 16), store(4, 24), store(5, -8)])]);
    assert!(f.remove_unuse_store());
    let insts = &f.blocks[0].insts;
    assert_eq!(insts.len(), 3);
    assert_eq!(insts[0].inst_type, InstrsType::StoreToStack);
    assert_eq!(insts[1].inst_type, InstrsType::LoadFromStack);
    assert_eq!(offset(&insts[2]), -8);
    assert!(!f.remove_unuse_store());
}

#[test]
fn stores_read_in_a_later_block_stay() {
    let mut f = two_blocks();
    assert!(!f.remove_unuse_store());
    assert_eq!(f.blocks[0].insts.len(), 2);
}

#[test]
fn words_live_together_interfere() {
    let f = func(vec![block("b0", vec![
        store(1, 16), store(2, 24), load(1, 16), load(2, 24), store(3, 32), load(3, 32),
    ])]);
    let rs = vec![word(16), word(24), word(32)];
    let g = Func::calc_stackslot_interef_with_rearrangable_set(&f, &rs, &vec![vec![]]);
    assert_eq!(g.len(), 3);
    let nbrs = |p: i32| sorted(g.iter().find(|(k, _)| k.get_pos() == p).unwrap().1.clone());
    assert_eq!(nbrs(16), vec![24]);
    assert_eq!(nbrs(24), vec![16]);
    assert!(nbrs(32).is_empty());
}

#[test]
fn words_outside_the_set_are_not_in_the_graph() {
    let f = func(vec![block("b0", vec![store(1, 16), store(2, 24), load(1, 16), load(2, 24)])]);
    let g = Func::calc_stackslot_interef_with_rearrangable_set(&f, &vec![word(16)], &vec![vec![]]);
    assert_eq!(g.len(), 1);
    assert_eq!(g[0].0, word(16));
    assert!(g[0].1.is_empty());
}

#[test]
fn interfering_words_get_different_places() {
    let mut f = func(vec![block("b0", vec![
        store(1, 16), store(2, 24), load(1, 16), load(2, 24), store(3, 32), load(3, 32),
    ])]);
    f.stack_addr = vec![StackSlot::new(0, 16), word(16), word(24), word(32)];
    f.rearrange_stack_slot();
    // the base stays, and two places are enough for the three words
    assert_eq!(f.stack_addr.len(), 3);
    assert_eq!(f.stack_addr[0], StackSlot::new(0, 16));
    assert_eq!(f.stack_addr[1], word(16));
    assert_eq!(f.stack_addr[2], word(24));
    let insts = &f.blocks[0].insts;
    let (a, b, c) = (offset(&insts[0]), offset(&insts[1]), offset(&insts[4]));
    assert_ne!(a, b);
    assert_eq!(offset(&insts[2]), a);
    assert_eq!(offset(&insts[3]), b);
    assert_eq!(offset(&insts[5]), c);
    for p in [a, b, c] {
        assert!(p == 16 || p == 24);
    }
}

#[test]
fn words_never_live_together_share_one_place() {
    let mut f = func(vec![block("b0", vec![store(1, 40), load(1, 40), store(2, 48), load(2, 48)])]);
    f.stack_addr = vec![StackSlot::new(0, 8), word(40), word(48)];
    f.rearrange_stack_slot();
    assert_eq!(f.stack_addr, vec![StackSlot::new(0, 8), word(8)]);
    assert!(f.blocks[0].insts.iter().all(|i| offset(i) == 8));
}

#[test]
fn words_before_the_base_stay_in_place() {
    let mut f = func(vec![block("b0", vec![store(1, 8), load(1, 8), store(2, 24), load(2, 24)])]);
    f.stack_addr = vec![word(8), StackSlot::new(0, 16), word(24)];
    f.rearrange_stack_slot();
    assert_eq!(f.stack_addr, vec![word(8), StackSlot::new(0, 16), word(16)]);
    assert_eq!(offset(&f.blocks[0].insts[0]), 8);
    assert_eq!(offset(&f.blocks[0].insts[2]), 16);
}

#[test]
fn every_function_of_a_program_is_packed() {
    let mut m = AsmModule::new();
    let mut f = func(vec![block("b0", vec![store(1, 40), load(1, 40)])]);
    f.stack_addr = vec![StackSlot::new(0, 8), word(40)];
    m.name_func.push(f);
    let mut g = Func::new("g", Context::new());
    g.stack_addr = vec![StackSlot::new(0, 0)];
    m.name_func.push(g);
    m.rearrange_stack_slot();
    assert_eq!(offset(&m.name_func[0].blocks[0].insts[0]), 8);
    assert_eq!(m.name_func[1].stack_addr, vec![StackSlot::new(0, 0)]);
}
