use vstd::prelude::*;
use crate::block::BB;
use crate::func::Func;
use crate::instrs::LIRInst;
use crate::operand::Reg;

verus! {

/// One `(i, d)` for each time `r` appears in `regs`.
pub open spec fn marks(regs: Seq<Reg>, r: Reg, i: usize, d: bool) -> Seq<(usize, bool)>
    decreases regs.len(),
{
    if regs.len() == 0 {
        Seq::empty()
    } else {
        marks(regs.drop_last(), r, i, d) + (if regs.last() == r { seq![(i, d)] } else { Seq::empty() })
    }
}

/// The appearances of `r` in the first `k` instructions, in order: at each
/// instruction its reads (`false`) come before its writes (`true`).
pub open spec fn occurrences(insts: Seq<LIRInst>, r: Reg, k: int) -> Seq<(usize, bool)>
    decreases k,
{
    if k <= 0 {
        Seq::empty()
    } else {
        occurrences(insts, r, k - 1) + marks(insts[k - 1].spec_reg_use(), r, (k - 1) as usize, false)
            + marks(insts[k - 1].spec_reg_def(), r, (k - 1) as usize, true)
    }
}

/// The list of next appearances of `r` in `bb`, closed by a read at the
/// end of the block when `r` is live out.
pub open spec fn next_occurs_of(bb: BB, r: Reg) -> Seq<(usize, bool)> {
    occurrences(bb.insts@, r, bb.insts@.len() as int)
        + (if bb.live_out@.contains(r) { seq![(bb.insts@.len() as usize, false)] } else { Seq::empty() })
}

/// Instruction `i` of `bb` reads or writes `r`.
pub open spec fn appears_at(bb: BB, i: int, r: Reg) -> bool {
    bb.insts@[i].spec_reg_use().contains(r) || bb.insts@[i].spec_reg_def().contains(r)
}

/// `r` is live into `bb` or appears in it.
pub open spec fn occurs_in(bb: BB, r: Reg) -> bool {
    ||| bb.live_in@.contains(r)
    ||| exists|i: int| 0 <= i < bb.insts@.len() && #[trigger] appears_at(bb, i, r)
}

/// A table keyed by register holds each register once.
pub open spec fn regs_distinct<V>(t: Seq<(Reg, V)>) -> bool {
    forall|a: int, b: int| 0 <= a < t.len() && 0 <= b < t.len() && a != b ==> t[a].0 != t[b].0
}

/// What is left of a list of appearances once those at or before `cur`
/// have been taken off its front.
pub open spec fn drop_upto(l: Seq<(usize, bool)>, cur: usize) -> Seq<(usize, bool)>
    decreases l.len(),
{
    if l.len() > 0 && l[0].0 <= cur {
        drop_upto(l.drop_first(), cur)
    } else {
        l
    }
}

/// `e` is the entry at some index below `upto` of `orig`, refreshed.
pub open spec fn refreshed_from(orig: Seq<(Reg, Vec<(usize, bool)>)>, e: (Reg, Vec<(usize, bool)>), cur: usize, upto: int) -> bool {
    exists|x: int| 0 <= x < upto && #[trigger] orig[x].0 == e.0 && e.1@ == drop_upto(orig[x].1@, cur)
}

/// The list of appearances of `r` in `bb`.
fn occurs_list(bb: &BB, r: Reg) -> (l: Vec<(usize, bool)>)
    requires
        forall|i: int| 0 <= i < bb.insts@.len() ==> #[trigger] bb.insts@[i].def_well_formed(),
    ensures
        l@ == next_occurs_of(*bb, r),
{
    let n = bb.insts.len();
    let mut l: Vec<(usize, bool)> = Vec::new();
    let mut k: usize = 0;
    while k < n
        invariant
            n == bb.insts@.len(),
            forall|i: int| 0 <= i < n ==> #[trigger] bb.insts@[i].def_well_formed(),
            k <= n,
            l@ == occurrences(bb.insts@, r, k as int),
        decreases n - k,
    {
        let uses = bb.insts[k].get_reg_use();
        let defs = bb.insts[k].get_reg_def();
        let ghost l0 = l@;
        let mut m: usize = 0;
        while m < uses.len()
            invariant
                m <= uses@.len(),
                l@ == l0 + marks(uses@.take(m as int), r, k, false),
            decreases uses@.len() - m,
        {
            if uses[m] == r {
                l.push((k, false));
            }
            proof {
                assert(uses@.take(m + 1).drop_last() =~= uses@.take(m as int));
                assert(uses@.take(m + 1).last() == uses@[m as int]);
                assert(l@ =~= l0 + marks(uses@.take(m + 1), r, k, false));
            }
            m += 1;
        }
        assert(uses@.take(uses@.len() as int) =~= uses@);
        let ghost l1 = l@;
        let mut m: usize = 0;
        while m < defs.len()
            invariant
                m <= defs@.len(),
                l@ == l1 + marks(defs@.take(m as int), r, k, true),
            decreases defs@.len() - m,
        {
            if defs[m] == r {
                l.push((k, true));
            }
            proof {
                assert(defs@.take(m + 1).drop_last() =~= defs@.take(m as int));
                assert(defs@.take(m + 1).last() == defs@[m as int]);
                assert(l@ =~= l1 + marks(defs@.take(m + 1), r, k, true));
            }
            m += 1;
        }
        assert(defs@.take(defs@.len() as int) =~= defs@);
        proof {
            assert(occurrences(bb.insts@, r, k + 1) == occurrences(bb.insts@, r, k as int)
                + marks(bb.insts@[k as int].spec_reg_use(), r, k, false)
                + marks(bb.insts@[k as int].spec_reg_def(), r, k, true));
        }
        k += 1;
    }
    if crate::instrs::contains_reg(&bb.live_out, &r) {
        l.push((n, false));
    }
    proof {
        assert(l@ =~= next_occurs_of(*bb, r));
    }
    l
}

impl Func {
    /// For every register live into `bb` or appearing in it, the list of
    /// its appearances in order (the index of the instruction, and whether
    /// it is written there), closed by a read at the end of the block when
    /// it is live out.
    pub fn build_next_occurs(bb: &BB) -> (t: Vec<(Reg, Vec<(usize, bool)>)>)
        requires
            forall|i: int| 0 <= i < bb.insts@.len() ==> #[trigger] bb.insts@[i].def_well_formed(),
            crate::regset::is_set(bb.live_out@),
            forall|r: Reg| #[trigger] bb.live_out@.contains(r) ==> occurs_in(*bb, r),
        ensures
            regs_distinct(t@),
            forall|r: Reg| (exists|j: int| 0 <= j < t@.len() && #[trigger] t@[j].0 == r) <==> occurs_in(*bb, r),
            forall|j: int| 0 <= j < t@.len() ==> (#[trigger] t@[j]).1@ == next_occurs_of(*bb, t@[j].0),
    {
        let n = bb.insts.len();
        let mut keys: Vec<Reg> = Vec::new();
        crate::regset::set_insert_all(&mut keys, &bb.live_in);
        let mut k: usize = 0;
        while k < n
            invariant
                n == bb.insts@.len(),
                forall|i: int| 0 <= i < n ==> #[trigger] bb.insts@[i].def_well_formed(),
                k <= n,
                crate::regset::is_set(keys@),
                forall|r: Reg| #[trigger] keys@.contains(r) <==> (bb.live_in@.contains(r) || exists|x: int| 0 <= x < k
                    && #[trigger] appears_at(*bb, x, r)),
            decreases n - k,
        {
            let uses = bb.insts[k].get_reg_use();
            let defs = bb.insts[k].get_reg_def();
            let ghost k0 = keys@;
            crate::regset::set_insert_all(&mut keys, &uses);
            crate::regset::set_insert_all(&mut keys, &defs);
            proof {
                assert forall|r: Reg| #[trigger] keys@.contains(r) <==> (bb.live_in@.contains(r) || exists|x: int| 0 <= x < k + 1
                    && #[trigger] appears_at(*bb, x, r)) by {
                    if exists|x: int| 0 <= x < k + 1 && #[trigger] appears_at(*bb, x, r) {
                        let x = choose|x: int| 0 <= x < k + 1 && #[trigger] appears_at(*bb, x, r);
                        if x < k {
                            assert(k0.contains(r));
                        }
                    }
                    if keys@.contains(r) && !k0.contains(r) {
                        assert(appears_at(*bb, k as int, r));
                    }
                }
            }
            k += 1;
        }
        let mut t: Vec<(Reg, Vec<(usize, bool)>)> = Vec::new();
        let mut i: usize = 0;
        while i < keys.len()
            invariant
                i <= keys@.len(),
                forall|x: int| 0 <= x < bb.insts@.len() ==> #[trigger] bb.insts@[x].def_well_formed(),
                t@.len() == i,
                forall|j: int| 0 <= j < i ==> (#[trigger] t@[j]).0 == keys@[j] && t@[j].1@ == next_occurs_of(*bb, keys@[j]),
            decreases keys@.len() - i,
        {
            let r = keys[i];
            let l = occurs_list(bb, r);
            t.push((r, l));
            i += 1;
        }
        proof {
            assert forall|a: int, b: int| 0 <= a < t@.len() && 0 <= b < t@.len() && a != b implies t@[a].0 != t@[b].0 by {
                assert(t@[a].0 == keys@[a] && t@[b].0 == keys@[b]);
            }
            assert forall|r: Reg| (exists|j: int| 0 <= j < t@.len() && #[trigger] t@[j].0 == r) <==> occurs_in(*bb, r) by {
                if exists|j: int| 0 <= j < t@.len() && #[trigger] t@[j].0 == r {
                    let j = choose|j: int| 0 <= j < t@.len() && #[trigger] t@[j].0 == r;
                    assert(keys@.contains(r));
                }
                if occurs_in(*bb, r) {
                    assert(keys@.contains(r));
                    let j = choose|j: int| 0 <= j < keys@.len() && keys@[j] == r;
                    assert(t@[j].0 == r);
                }
            }
        }
        t
    }

    /// Takes off the front of each list the appearances at or before
    /// `cur_index`, and drops the registers whose list is then empty.
    pub fn refresh_next_occurs(next_occurs: &mut Vec<(Reg, Vec<(usize, bool)>)>, cur_index: usize)
        ensures
            final(next_occurs)@.len() <= old(next_occurs)@.len(),
            forall|j: int| 0 <= j < final(next_occurs)@.len() ==> refreshed_from(old(next_occurs)@,
                #[trigger] final(next_occurs)@[j], cur_index, old(next_occurs)@.len() as int),
            forall|i: int| 0 <= i < old(next_occurs)@.len() && drop_upto(old(next_occurs)@[i].1@, cur_index).len() > 0
                ==> exists|j: int| 0 <= j < final(next_occurs)@.len()
                    && #[trigger] final(next_occurs)@[j].0 == old(next_occurs)@[i].0
                    && final(next_occurs)@[j].1@ == drop_upto(old(next_occurs)@[i].1@, cur_index),
            forall|j: int| 0 <= j < final(next_occurs)@.len() ==> (#[trigger] final(next_occurs)@[j]).1@.len() > 0,
            regs_distinct(old(next_occurs)@) ==> regs_distinct(final(next_occurs)@),
    {
        let ghost orig = next_occurs@;
        let mut out: Vec<(Reg, Vec<(usize, bool)>)> = Vec::new();
        let mut i: usize = 0;
        while i < next_occurs.len()
            invariant
                orig == next_occurs@,
                i <= orig.len(),
                out@.len() <= i,
                forall|j: int| 0 <= j < out@.len() ==> refreshed_from(orig, #[trigger] out@[j], cur_index, i as int),
                forall|x: int| 0 <= x < i && drop_upto(orig[x].1@, cur_index).len() > 0
                    ==> exists|j: int| 0 <= j < out@.len() && #[trigger] out@[j].0 == orig[x].0
                        && out@[j].1@ == drop_upto(orig[x].1@, cur_index),
                forall|j: int| 0 <= j < out@.len() ==> (#[trigger] out@[j]).1@.len() > 0,
                regs_distinct(orig) ==> regs_distinct(out@),

            decreases orig.len() - i,
        {
            let r = next_occurs[i].0;
            let mut l: Vec<(usize, bool)> = crate::func_split::copy_vec(&next_occurs[i].1);
            while l.len() > 0 && l[0].0 <= cur_index
                invariant
                    drop_upto(l@, cur_index) == drop_upto(orig[i as int].1@, cur_index),
                decreases l@.len(),
            {
                let ghost l0 = l@;
                l.remove(0);
                assert(l@ =~= l0.drop_first());
            }
            assert(drop_upto(l@, cur_index) == l@);
            let ghost out0 = out@;
            if l.len() > 0 {
                out.push((r, l));
            }
            proof {
                assert forall|j: int| 0 <= j < out@.len() implies refreshed_from(orig, #[trigger] out@[j], cur_index, i + 1) by {
                    if j < out0.len() {
                        assert(out@[j] == out0[j]);
                        assert(refreshed_from(orig, out0[j], cur_index, i as int));
                        let x = choose|x: int| 0 <= x < i && #[trigger] orig[x].0 == out0[j].0 && out0[j].1@ == drop_upto(orig[x].1@, cur_index);
                        assert(orig[x].0 == out@[j].0);
                    } else {
                        assert(orig[i as int].0 == out@[j].0);
                    }
                }
                assert forall|x: int| 0 <= x < i + 1 && drop_upto(orig[x].1@, cur_index).len() > 0
                    implies exists|j: int| 0 <= j < out@.len() && #[trigger] out@[j].0 == orig[x].0
                        && out@[j].1@ == drop_upto(orig[x].1@, cur_index) by {
                    if x < i {
                        let j = choose|j: int| 0 <= j < out0.len() && #[trigger] out0[j].0 == orig[x].0
                            && out0[j].1@ == drop_upto(orig[x].1@, cur_index);
                        assert(out@[j] == out0[j]);
                    } else {
                        assert(out@[out0.len() as int].0 == orig[x].0);
                    }
                }
                if regs_distinct(orig) {
                    assert forall|a: int, b: int| 0 <= a < out@.len() && 0 <= b < out@.len() && a != b implies out@[a].0 != out@[b].0 by {
                        if a < out0.len() && b < out0.len() {
                            assert(out@[a] == out0[a] && out@[b] == out0[b]);
                        } else if a < out0.len() {
                            assert(out@[a] == out0[a]);
                            assert(refreshed_from(orig, out0[a], cur_index, i as int));
                            let x = choose|x: int| 0 <= x < i && #[trigger] orig[x].0 == out0[a].0 && out0[a].1@ == drop_upto(orig[x].1@, cur_index);
                            assert(orig[x].0 != orig[i as int].0);
                        } else if b < out0.len() {
                            assert(out@[b] == out0[b]);
                            assert(refreshed_from(orig, out0[b], cur_index, i as int));
                            let x = choose|x: int| 0 <= x < i && #[trigger] orig[x].0 == out0[b].0 && out0[b].1@ == drop_upto(orig[x].1@, cur_index);
                            assert(orig[x].0 != orig[i as int].0);
                        }
                    }
                }
                assert forall|j: int| 0 <= j < out@.len() implies (#[trigger] out@[j]).1@.len() > 0 by {
                    if j < out0.len() {
                        assert(out@[j] == out0[j]);
                    }
                }
            }
            i += 1;
        }
        *next_occurs = out;
    }
}

} // verus!
