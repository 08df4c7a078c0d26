use vstd::prelude::*;
use crate::instrs::contains_reg;
use crate::operand::Reg;

verus! {

/// A set of registers held in a vector without repetition.
pub open spec fn is_set(v: Seq<Reg>) -> bool {
    v.no_duplicates()
}

/// Adds `r` to the set `v`; tells whether it was new.
pub fn set_insert(v: &mut Vec<Reg>, r: Reg) -> (added: bool)
    requires
        is_set(old(v)@),
    ensures
        is_set(final(v)@),
        added == !old(v)@.contains(r),
        forall|x: Reg| #[trigger] final(v)@.contains(x) <==> (old(v)@.contains(x) || x == r),
        added ==> final(v)@ == old(v)@.push(r),
        !added ==> final(v)@ == old(v)@,
{
    if contains_reg(v, &r) {
        false
    } else {
        let ghost before = v@;
        v.push(r);
        proof {
            assert forall|x: Reg| #[trigger] v@.contains(x) <==> (before.contains(x) || x == r) by {
                if before.contains(x) {
                    let k = choose|k: int| 0 <= k < before.len() && before[k] == x;
                    assert(v@[k] == x);
                }
                if x == r {
                    assert(v@[before.len() as int] == x);
                }
            }
            assert forall|i: int, j: int| 0 <= i < v@.len() && 0 <= j < v@.len() && i != j implies v@[i] != v@[j] by {
                if i < before.len() && j < before.len() {
                } else if i == before.len() {
                    assert(before.contains(v@[j]) || j == i);
                } else {
                    assert(before.contains(v@[i]) || j == i);
                }
            }
        }
        true
    }
}

/// Removes `r` from the set `v`.
pub fn set_remove(v: &mut Vec<Reg>, r: Reg)
    requires
        is_set(old(v)@),
    ensures
        is_set(final(v)@),
        forall|x: Reg| #[trigger] final(v)@.contains(x) <==> (old(v)@.contains(x) && x != r),
{
    let mut out: Vec<Reg> = Vec::new();
    let mut i: usize = 0;
    while i < v.len()
        invariant
            i <= v@.len(),
            is_set(v@),
            is_set(out@),
            forall|x: Reg| #[trigger] out@.contains(x) <==> (exists|k: int| 0 <= k < i && v@[k] == x && x != r),
        decreases v@.len() - i,
    {
        let x = v[i];
        if x != r {
            let ghost before = out@;
            assert(!before.contains(x)) by {
                if before.contains(x) {
                    let k = choose|k: int| 0 <= k < i && v@[k] == x && x != r;
                    assert(v@[k] == v@[i as int]);
                }
            }
            out.push(x);
            proof {
                assert forall|y: Reg| #[trigger] out@.contains(y) <==> (exists|k: int| 0 <= k < i + 1 && v@[k] == y && y != r) by {
                    if out@.contains(y) {
                        let j = choose|j: int| 0 <= j < out@.len() && out@[j] == y;
                        if j < before.len() {
                            assert(before.contains(y));
                        } else {
                            assert(v@[i as int] == y);
                        }
                    }
                    if exists|k: int| 0 <= k < i + 1 && v@[k] == y && y != r {
                        let k = choose|k: int| 0 <= k < i + 1 && v@[k] == y && y != r;
                        if k < i {
                            assert(before.contains(y));
                            let j = choose|j: int| 0 <= j < before.len() && before[j] == y;
                            assert(out@[j] == y);
                        } else {
                            assert(out@[before.len() as int] == y);
                        }
                    }
                }
                assert forall|a: int, b: int| 0 <= a < out@.len() && 0 <= b < out@.len() && a != b implies out@[a] != out@[b] by {
                    if a == before.len() {
                        assert(before.contains(out@[b]));
                    } else if b == before.len() {
                        assert(before.contains(out@[a]));
                    }
                }
            }
        } else {
            proof {
                assert forall|y: Reg| #[trigger] out@.contains(y) <==> (exists|k: int| 0 <= k < i + 1 && v@[k] == y && y != r) by {
                    if exists|k: int| 0 <= k < i + 1 && v@[k] == y && y != r {
                        let k = choose|k: int| 0 <= k < i + 1 && v@[k] == y && y != r;
                        assert(k < i);
                    }
                }
            }
        }
        i += 1;
    }
    proof {
        assert forall|x: Reg| #[trigger] out@.contains(x) <==> (v@.contains(x) && x != r) by {
            if v@.contains(x) && x != r {
                let k = choose|k: int| 0 <= k < v@.len() && v@[k] == x;
                assert(exists|k: int| 0 <= k < v@.len() && v@[k] == x && x != r);
            }
        }
    }
    *v = out;
}

/// Adds every register of `s` to the set `v`.
pub fn set_insert_all(v: &mut Vec<Reg>, s: &Vec<Reg>)
    requires
        is_set(old(v)@),
    ensures
        is_set(final(v)@),
        forall|x: Reg| #[trigger] final(v)@.contains(x) <==> (old(v)@.contains(x) || s@.contains(x)),
{
    let mut i: usize = 0;
    while i < s.len()
        invariant
            i <= s@.len(),
            is_set(v@),
            forall|x: Reg| #[trigger] v@.contains(x) <==> (old(v)@.contains(x) || exists|k: int| 0 <= k < i && s@[k] == x),
        decreases s@.len() - i,
    {
        set_insert(v, s[i]);
        proof {
            assert forall|x: Reg| #[trigger] v@.contains(x) <==> (old(v)@.contains(x) || exists|k: int| 0 <= k < i + 1 && s@[k] == x) by {
                if exists|k: int| 0 <= k < i + 1 && s@[k] == x {
                    let k = choose|k: int| 0 <= k < i + 1 && s@[k] == x;
                    if k < i {
                        assert(exists|k: int| 0 <= k < i && s@[k] == x);
                    }
                }
            }
        }
        i += 1;
    }
}

/// Removes every register of `s` from the set `v`.
pub fn set_remove_all(v: &mut Vec<Reg>, s: &Vec<Reg>)
    requires
        is_set(old(v)@),
    ensures
        is_set(final(v)@),
        forall|x: Reg| #[trigger] final(v)@.contains(x) <==> (old(v)@.contains(x) && !s@.contains(x)),
{
    let mut i: usize = 0;
    while i < s.len()
        invariant
            i <= s@.len(),
            is_set(v@),
            forall|x: Reg| #[trigger] v@.contains(x) <==> (old(v)@.contains(x) && !exists|k: int| 0 <= k < i && s@[k] == x),
        decreases s@.len() - i,
    {
        set_remove(v, s[i]);
        proof {
            assert forall|x: Reg| #[trigger] v@.contains(x) <==> (old(v)@.contains(x) && !exists|k: int| 0 <= k < i + 1 && s@[k] == x) by {
                if exists|k: int| 0 <= k < i + 1 && s@[k] == x {
                    let k = choose|k: int| 0 <= k < i + 1 && s@[k] == x;
                    if k < i {
                        assert(exists|k: int| 0 <= k < i && s@[k] == x);
                    }
                }
            }
        }
        i += 1;
    }
}

/// A copy of `v`.
pub fn copy_regs(v: &Vec<Reg>) -> (r: Vec<Reg>)
    ensures
        r@ == v@,
{
    let mut out: Vec<Reg> = Vec::new();
    let mut i: usize = 0;
    while i < v.len()
        invariant
            i <= v@.len(),
            out@ == v@.subrange(0, i as int),
        decreases v@.len() - i,
    {
        out.push(v[i]);
        i += 1;
        assert(out@ =~= v@.subrange(0, i as int));
    }
    assert(v@.subrange(0, v@.len() as int) =~= v@);
    out
}

} // verus!
