use std::collections::HashSet;

use riscv_backend::regset::copy_regs;

#[test]
pub fn test_eq_of_set() {
    let mut s1: HashSet<i32> = HashSet::new();
    let mut s2: HashSet<i32> = HashSet::new();
    s1.insert(3);
    assert!(s1 != s2);
    s2.insert(3);
    assert!(s1 == s2)
}

#[test]
fn test_gg() {
    let mut m: Vec<i32> = Vec::new();
    m.push(33);
    m.push(44);
    m.push(555);
    let mut cindex = m.len() - 1;
    for (index, _v) in m.iter().enumerate().rev() {
        assert!(cindex == index);
        if cindex == 0 {
            break;
        }
        cindex -= 1;
    }
}

#[test]
fn copied_register_sets_are_equal() {
    let v = vec![
        riscv_backend::operand::Reg::new(100, riscv_backend::operand::ScalarType::Int),
        riscv_backend::operand::Reg::new(9, riscv_backend::operand::ScalarType::Int),
    ];
    assert_eq!(copy_regs(&v), v);
}
