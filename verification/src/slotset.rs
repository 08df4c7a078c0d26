use vstd::prelude::*;
use crate::structs::StackSlot;

verus! {

/// A set of stack slots held in a vector without repetition.
pub open spec fn is_slot_set(v: Seq<StackSlot>) -> bool {
    v.no_duplicates()
}

/// The contents of each vector of `v`.
pub open spec fn slot_sets(v: Seq<Vec<StackSlot>>) -> Seq<Seq<StackSlot>> {
    v.map_values(|x: Vec<StackSlot>| x@)
}

/// Whether `v` holds `t`.
pub fn slot_contains(v: &Vec<StackSlot>, t: &StackSlot) -> (b: bool)
    ensures
        b == v@.contains(*t),
{
    let mut i: usize = 0;
    while i < v.len()
        invariant
            i <= v@.len(),
            forall|j: int| 0 <= j < i ==> v@[j] != *t,
        decreases v@.len() - i,
    {
        if v[i] == *t {
            return true;
        }
        i += 1;
    }
    false
}

/// Adds `s` to the set `v`; tells whether it was new.
pub fn slot_insert(v: &mut Vec<StackSlot>, s: StackSlot) -> (added: bool)
    requires
        is_slot_set(old(v)@),
    ensures
        is_slot_set(final(v)@),
        added == !old(v)@.contains(s),
        forall|x: StackSlot| #[trigger] final(v)@.contains(x) <==> (old(v)@.contains(x) || x == s),
        added ==> final(v)@ == old(v)@.push(s),
        !added ==> final(v)@ == old(v)@,
{
    if slot_contains(v, &s) {
        false
    } else {
        let ghost before = v@;
        v.push(s);
        proof {
            assert forall|x: StackSlot| #[trigger] v@.contains(x) <==> (before.contains(x) || x == s) by {
                if before.contains(x) {
                    let k = choose|k: int| 0 <= k < before.len() && before[k] == x;
                    assert(v@[k] == x);
                }
                if x == s {
                    assert(v@[before.len() as int] == x);
                }
            }
            assert forall|i: int, j: int| 0 <= i < v@.len() && 0 <= j < v@.len() && i != j implies v@[i] != v@[j] by {
                if i < before.len() && j < before.len() {
                } else if i == before.len() {
                    assert(before.contains(v@[j]) || j == i);
                } else {
                    assert(before.contains(v@[i]) || j == i);
                }
            }
        }
        true
    }
}

/// Removes `s` from the set `v`.
pub fn slot_remove(v: &mut Vec<StackSlot>, s: StackSlot)
    requires
        is_slot_set(old(v)@),
    ensures
        is_slot_set(final(v)@),
        forall|x: StackSlot| #[trigger] final(v)@.contains(x) <==> (old(v)@.contains(x) && x != s),
{
    let mut i: usize = 0;
    while i < v.len()
        invariant
            i <= v@.len(),
            *v == *old(v),
            is_slot_set(v@),
            forall|j: int| 0 <= j < i ==> v@[j] != s,
        decreases v@.len() - i,
    {
        if v[i] == s {
            let ghost before = v@;
            v.remove(i);
            proof {
                assert(v@ =~= before.subrange(0, i as int) + before.subrange(i as int + 1, before.len() as int));
                assert(before[i as int] == s);
                assert(v@.len() == before.len() - 1);
                assert forall|k: int| 0 <= k < v@.len() implies #[trigger] v@[k] == before[if k < i { k } else { k + 1 }] by {
                    if k < i {
                        assert(v@[k] == before.subrange(0, i as int)[k]);
                    } else {
                        assert(v@[k] == before.subrange(i as int + 1, before.len() as int)[k - i]);
                    }
                }
                assert forall|x: StackSlot| #[trigger] v@.contains(x) <==> (before.contains(x) && x != s) by {
                    if v@.contains(x) {
                        let k = choose|k: int| 0 <= k < v@.len() && v@[k] == x;
                        if k < i {
                            assert(before[k] == x);
                        } else {
                            assert(before[k + 1] == x);
                            assert(k + 1 != i);
                        }
                        assert(x != s);
                    }
                    if before.contains(x) && x != s {
                        let k = choose|k: int| 0 <= k < before.len() && before[k] == x;
                        if k < i {
                            assert(v@[k] == x);
                        } else {
                            assert(k != i);
                            assert(v@[k - 1] == x);
                        }
                    }
                }
                assert forall|a: int, b: int| 0 <= a < v@.len() && 0 <= b < v@.len() && a != b implies v@[a] != v@[b] by {
                    let a2 = if a < i { a } else { a + 1 };
                    let b2 = if b < i { b } else { b + 1 };
                    assert(v@[a] == before[a2]);
                    assert(v@[b] == before[b2]);
                    assert(a2 != b2);
                }
            }
            return;
        }
        i += 1;
    }
}

/// A copy of `v`.
pub fn copy_slots(v: &Vec<StackSlot>) -> (r: Vec<StackSlot>)
    ensures
        r@ == v@,
{
    let mut out: Vec<StackSlot> = Vec::new();
    let mut i: usize = 0;
    while i < v.len()
        invariant
            i <= v@.len(),
            out@ == v@.subrange(0, i as int),
        decreases v@.len() - i,
    {
        out.push(v[i]);
        i += 1;
        assert(out@ =~= v@.subrange(0, i as int));
    }
    assert(v@.subrange(0, v@.len() as int) =~= v@);
    out
}

} // verus!
