use riscv_backend::asm_text::{
    addi_line, array_lines, beqz_line, bnez_line, branch_line, call_line, jump_line, load_line, op1_line, op2_lines,
    ret_text, show_block_line, show_func_lines, store_line,
};

#[test]
fn ret_is_written_with_four_spaces() {
    assert_eq!(ret_text(), "    ret");
}

#[test]
fn word_operations_take_a_w_suffix() {
    assert_eq!(op2_lines("add", "a0", "a1", "a2", false, false), vec!["    addw a0, a1, a2".to_string()]);
    assert_eq!(op2_lines("add", "a0", "a1", "a2", false, true), vec!["    add a0, a1, a2".to_string()]);
    assert_eq!(op2_lines("add", "a0", "a1", "5", true, false), vec!["    addiw a0, a1, 5".to_string()]);
    assert_eq!(op2_lines("add", "a0", "a1", "5", true, true), vec!["    addi a0, a1, 5".to_string()]);
}

#[test]
fn logical_operations_keep_their_name() {
    assert_eq!(op2_lines("xor", "a0", "a1", "a2", false, false), vec!["    xor a0, a1, a2".to_string()]);
    assert_eq!(op2_lines("and", "a0", "a1", "3", true, false), vec!["    andi a0, a1, 3".to_string()]);
    assert_eq!(op2_lines("sh2add", "a0", "a1", "a2", false, false), vec!["    sh2add a0, a1, a2".to_string()]);
}

#[test]
fn missing_float_comparisons_are_negated() {
    assert_eq!(
        op2_lines("fne.s", "a0", "fa0", "fa1", false, false),
        vec!["    feq.s a0, fa0, fa1".to_string(), "    xori a0, a0, 1".to_string()]
    );
    assert_eq!(
        op2_lines("fgt.s", "a0", "fa0", "fa1", false, false),
        vec!["    fle.s a0, fa0, fa1".to_string(), "    xori a0, a0, 1".to_string()]
    );
    assert_eq!(
        op2_lines("fge.s", "a0", "fa0", "fa1", false, false),
        vec!["    flt.s a0, fa1, fa0".to_string(), "    xori a0, a0, 1".to_string()]
    );
}

#[test]
fn one_operand_instructions() {
    assert_eq!(op1_line("fcvt.w.s", "a0", "fa0"), "    fcvt.w.s a0, fa0, rtz");
    assert_eq!(op1_line("addiw", "a0", "7"), "    addiw a0, zero, 7");
    assert_eq!(op1_line("mv", "a0", "a1"), "    mv a0, a1");
}

#[test]
fn immediates_and_offsets_are_decimal() {
    assert_eq!(addi_line("sp", "sp", -32), "    addi sp, sp, -32");
    assert_eq!(store_line("a0", "sp", 8, false, false), "\tsw a0, 8(sp)");
    assert_eq!(store_line("a0", "sp", -8, false, true), "\tsd a0, -8(sp)");
    assert_eq!(store_line("fa0", "sp", 0, true, false), "\tfsw fa0, 0(sp)");
    assert_eq!(load_line("a0", "sp", 12, false, false), "\tlw a0, 12(sp)");
    assert_eq!(load_line("ra", "sp", 24, false, true), "\tld ra, 24(sp)");
    assert_eq!(load_line("fa1", "s0", -4, true, true), "\tflw fa1, -4(s0)");
}

#[test]
fn jumps_and_labels() {
    assert_eq!(branch_line("lt", "a0", "a1", ".L3"), "    blt    a0, a1, .L3");
    assert_eq!(beqz_line("a0", ".L1"), "    beqz a0, .L1");
    assert_eq!(bnez_line("a0", ".L2"), "    bnez a0, .L2");
    assert_eq!(jump_line(".L4"), "\tj .L4");
    assert_eq!(call_line("putint"), "\tcall putint");
    assert_eq!(show_block_line(".L5"), ".L5:");
    assert_eq!(
        show_func_lines("main"),
        vec!["\t.text", "\t.align\t1", "\t.globl\tmain", "    .type main, @function", "main:"]
    );
}

#[test]
fn an_array_lists_its_words_then_zeroes_the_rest() {
    assert_eq!(
        array_lines(&vec![1, -2], "a", 5),
        vec!["a:", "\t.word\t1", "\t.word\t-2", "\t.zero\t12"]
    );
    assert_eq!(array_lines(&vec![3], "b", 1), vec!["b:", "\t.word\t3"]);
    assert_eq!(array_lines(&vec![], "c", 0), vec!["c:"]);
}
