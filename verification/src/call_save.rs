use vstd::prelude::*;
use crate::analysis::live_at;
use crate::block::BB;
use crate::call_graph::{named_in_reach, reaches_extern};
use crate::func::{Func, names_reg};
use crate::instrs::contains_reg;
use crate::liveness::{live_sets_pinned, reserved_reg, same_but_live};
use crate::module::{AsmModule, func_at, has_func, labels_distinct, call_target, calls_in, calls_named};
use crate::operand::Reg;
use crate::regset::{is_set, set_insert_all, set_remove_all, copy_regs};

verus! {

/// `x` holds a value across instruction `k` of `bb`: it is live after the
/// instruction and not written by it.
pub open spec fn live_across(bb: BB, k: int, x: Reg) -> bool {
    live_at(bb.insts@, bb.live_out@, k + 1, x) && !bb.insts@[k].spec_reg_def().contains(x)
}

/// Instruction `k` of block `b` of `f` calls `name` while `x` holds a value across it.
pub open spec fn live_call(f: Func, b: int, k: int, name: Seq<char>, x: Reg) -> bool {
    &&& 0 <= b < f.blocks@.len()
    &&& 0 <= k < f.blocks@[b].insts@.len()
    &&& call_target(f.blocks@[b].insts@[k].inst_type, f.blocks@[b].insts@[k].operands@, name)
    &&& live_across(f.blocks@[b], k, x)
}

/// Some call of `name` in `f` has `x` holding a value across it.
pub open spec fn live_over_call(f: Func, name: Seq<char>, x: Reg) -> bool {
    exists|b: int, k: int| #[trigger] live_call(f, b, k, name, x)
}

/// Some function with a body calls `name` while `x` holds a value.
pub open spec fn live_at_some_call(fs: Seq<Func>, name: Seq<char>, x: Reg) -> bool {
    exists|j: int| 0 <= j < fs.len() && !fs[j].is_extern && #[trigger] live_over_call(fs[j], name, x)
}

/// The callee-saved registers that the function at `i` saves: those it
/// names, and those that a call of it may overwrite while they hold a value
/// at the call.
pub open spec fn callee_to_save(fs0: Seq<Func>, cm: Seq<(String, Vec<String>)>, fs: Seq<Func>, i: int, x: Reg) -> bool {
    ||| names_reg(fs0[i].blocks@, x) && x.spec_is_callee_save()
    ||| (!fs0[i].is_extern && x.spec_is_callee_save() && named_in_reach(fs0, cm, fs0[i], x) && x != Reg::spec_sp()
        && live_at_some_call(fs, fs0[i].label@, x))
}

/// The caller-saved registers saved around the calls of the function at
/// `i`: those it names, and those that a call of it may overwrite while
/// they hold a value at the call.
pub open spec fn caller_to_save(fs0: Seq<Func>, cm: Seq<(String, Vec<String>)>, fs: Seq<Func>, i: int, x: Reg) -> bool {
    ||| names_reg(fs0[i].blocks@, x) && x.spec_is_caller_save()
    ||| (x.spec_is_caller_save() && x != Reg::spec_ra()
        && (if fs0[i].is_extern || reaches_extern(fs0, cm, fs0[i].label@) {
            x.spec_has_own_class()
        } else {
            named_in_reach(fs0, cm, fs0[i], x)
        })
        && live_at_some_call(fs, fs0[i].label@, x))
}

/// Two functions with the same name, kind and instructions.
pub open spec fn same_code_func(a: Func, b: Func) -> bool {
    &&& a.label == b.label
    &&& a.is_extern == b.is_extern
    &&& a.blocks@.len() == b.blocks@.len()
    &&& forall|k: int| 0 <= k < a.blocks@.len() ==> (#[trigger] a.blocks@[k]).insts@ == b.blocks@[k].insts@
}

/// Functions with the same instructions name the same registers and call
/// the same functions.
proof fn lemma_same_code(a: Func, b: Func)
    requires
        same_code_func(a, b),
    ensures
        forall|x: Reg| names_reg(a.blocks@, x) <==> #[trigger] names_reg(b.blocks@, x),
        forall|name: Seq<char>| calls_in(a, name) <==> #[trigger] calls_in(b, name),
        calls_named(a) <==> calls_named(b),
{
    assert forall|x: Reg| names_reg(a.blocks@, x) <==> #[trigger] names_reg(b.blocks@, x) by {
        if names_reg(a.blocks@, x) {
            let (bb, i) = choose|bb: int, i: int| 0 <= bb < a.blocks@.len() && 0 <= i < a.blocks@[bb].insts@.len()
                && #[trigger] a.blocks@[bb].insts@[i].spec_regs().contains(x);
            assert(a.blocks@[bb].insts@ == b.blocks@[bb].insts@);
            assert(b.blocks@[bb].insts@[i].spec_regs().contains(x));
        }
        if names_reg(b.blocks@, x) {
            let (bb, i) = choose|bb: int, i: int| 0 <= bb < b.blocks@.len() && 0 <= i < b.blocks@[bb].insts@.len()
                && #[trigger] b.blocks@[bb].insts@[i].spec_regs().contains(x);
            assert(a.blocks@[bb].insts@ == b.blocks@[bb].insts@);
            assert(a.blocks@[bb].insts@[i].spec_regs().contains(x));
        }
    }
    assert forall|name: Seq<char>| calls_in(a, name) <==> #[trigger] calls_in(b, name) by {
        if calls_in(a, name) {
            let (bb, k) = choose|bb: int, k: int| 0 <= bb < a.blocks@.len() && 0 <= k < a.blocks@[bb].insts@.len()
                && #[trigger] call_target(a.blocks@[bb].insts@[k].inst_type, a.blocks@[bb].insts@[k].operands@, name);
            assert(a.blocks@[bb].insts@ == b.blocks@[bb].insts@);
            assert(call_target(b.blocks@[bb].insts@[k].inst_type, b.blocks@[bb].insts@[k].operands@, name));
        }
        if calls_in(b, name) {
            let (bb, k) = choose|bb: int, k: int| 0 <= bb < b.blocks@.len() && 0 <= k < b.blocks@[bb].insts@.len()
                && #[trigger] call_target(b.blocks@[bb].insts@[k].inst_type, b.blocks@[bb].insts@[k].operands@, name);
            assert(a.blocks@[bb].insts@ == b.blocks@[bb].insts@);
            assert(call_target(a.blocks@[bb].insts@[k].inst_type, a.blocks@[bb].insts@[k].operands@, name));
        }
    }
    if calls_named(b) {
        assert forall|bb: int, k: int| 0 <= bb < a.blocks@.len() && 0 <= k < a.blocks@[bb].insts@.len()
            && (#[trigger] a.blocks@[bb].insts@[k]).inst_type is Call
            implies a.blocks@[bb].insts@[k].operands@.len() > 0 && a.blocks@[bb].insts@[k].operands@[0] is Addr by {
            assert(a.blocks@[bb].insts@ == b.blocks@[bb].insts@);
            assert(b.blocks@[bb].insts@[k].inst_type is Call);
        }
    }
    if calls_named(a) {
        assert forall|bb: int, k: int| 0 <= bb < b.blocks@.len() && 0 <= k < b.blocks@[bb].insts@.len()
            && (#[trigger] b.blocks@[bb].insts@[k]).inst_type is Call
            implies b.blocks@[bb].insts@[k].operands@.len() > 0 && b.blocks@[bb].insts@[k].operands@[0] is Addr by {
            assert(a.blocks@[bb].insts@ == b.blocks@[bb].insts@);
            assert(a.blocks@[bb].insts@[k].inst_type is Call);
        }
    }
}

/// Calls counted in the functions before `j` stay counted when only the
/// function at `j` changes, and those of `j` join them.
proof fn lemma_sites_step(before: Seq<Func>, after: Seq<Func>, fs0: Seq<Func>, j: int, name: Seq<char>, x: Reg)
    requires
        0 <= j < before.len(),
        before.len() == after.len(),
        after.len() == fs0.len(),
        !fs0[j].is_extern,
        forall|k: int| 0 <= k < after.len() && k != j ==> #[trigger] after[k] == before[k],
    ensures
        (exists|jj: int| 0 <= jj < j + 1 && !fs0[jj].is_extern && #[trigger] live_over_call(after[jj], name, x))
            <==> ((exists|jj: int| 0 <= jj < j && !fs0[jj].is_extern && #[trigger] live_over_call(before[jj], name, x))
                || live_over_call(after[j], name, x)),
{
    if exists|jj: int| 0 <= jj < j + 1 && !fs0[jj].is_extern && #[trigger] live_over_call(after[jj], name, x) {
        let jj = choose|jj: int| 0 <= jj < j + 1 && !fs0[jj].is_extern && #[trigger] live_over_call(after[jj], name, x);
        if jj < j {
            assert(after[jj] == before[jj]);
            assert(live_over_call(before[jj], name, x));
        }
    }
    if exists|jj: int| 0 <= jj < j && !fs0[jj].is_extern && #[trigger] live_over_call(before[jj], name, x) {
        let jj = choose|jj: int| 0 <= jj < j && !fs0[jj].is_extern && #[trigger] live_over_call(before[jj], name, x);
        assert(after[jj] == before[jj]);
        assert(live_over_call(after[jj], name, x));
    }
}

/// An outside function adds no call.
proof fn lemma_sites_skip(fs: Seq<Func>, fs0: Seq<Func>, j: int, name: Seq<char>, x: Reg)
    requires
        0 <= j < fs0.len(),
        fs0[j].is_extern,
    ensures
        (exists|jj: int| 0 <= jj < j + 1 && !fs0[jj].is_extern && #[trigger] live_over_call(fs[jj], name, x))
            <==> (exists|jj: int| 0 <= jj < j && !fs0[jj].is_extern && #[trigger] live_over_call(fs[jj], name, x)),
{
    if exists|jj: int| 0 <= jj < j + 1 && !fs0[jj].is_extern && #[trigger] live_over_call(fs[jj], name, x) {
        let jj = choose|jj: int| 0 <= jj < j + 1 && !fs0[jj].is_extern && #[trigger] live_over_call(fs[jj], name, x);
        assert(jj != j);
    }
}

/// Over all the functions, the calls counted are those of `live_at_some_call`.
proof fn lemma_some_call(fs: Seq<Func>, fs0: Seq<Func>, name: Seq<char>, x: Reg)
    requires
        fs.len() == fs0.len(),
        forall|k: int| 0 <= k < fs.len() ==> same_code_func(#[trigger] fs[k], fs0[k]),
    ensures
        (exists|jj: int| 0 <= jj < fs.len() && !fs0[jj].is_extern && #[trigger] live_over_call(fs[jj], name, x))
            <==> live_at_some_call(fs, name, x),
{
    if live_at_some_call(fs, name, x) {
        let jj = choose|jj: int| 0 <= jj < fs.len() && !fs[jj].is_extern && #[trigger] live_over_call(fs[jj], name, x);
        assert(same_code_func(fs[jj], fs0[jj]));
    }
    if exists|jj: int| 0 <= jj < fs.len() && !fs0[jj].is_extern && #[trigger] live_over_call(fs[jj], name, x) {
        let jj = choose|jj: int| 0 <= jj < fs.len() && !fs0[jj].is_extern && #[trigger] live_over_call(fs[jj], name, x);
        assert(same_code_func(fs[jj], fs0[jj]));
    }
}

/// The registers of `a` that are in `live`.
fn keep_live(a: &Vec<Reg>, live: &Vec<Reg>) -> (r: Vec<Reg>)
    requires
        is_set(a@),
    ensures
        is_set(r@),
        forall|x: Reg| #[trigger] r@.contains(x) <==> a@.contains(x) && live@.contains(x),
{
    let mut gone: Vec<Reg> = Vec::new();
    let mut i: usize = 0;
    while i < a.len()
        invariant
            i <= a@.len(),
            forall|x: Reg| #[trigger] gone@.contains(x) ==> !live@.contains(x),
            forall|k: int| 0 <= k < i && !live@.contains(a@[k]) ==> gone@.contains(a@[k]),
        decreases a@.len() - i,
    {
        let ghost g0 = gone@;
        if !contains_reg(live, &a[i]) {
            gone.push(a[i]);
        }
        proof {
            assert forall|x: Reg| #[trigger] gone@.contains(x) implies !live@.contains(x) by {
                let t = choose|t: int| 0 <= t < gone@.len() && gone@[t] == x;
                if t < g0.len() {
                    assert(g0[t] == x);
                    assert(g0.contains(x));
                }
            }
            assert forall|k: int| 0 <= k < i + 1 && !live@.contains(a@[k]) implies gone@.contains(a@[k]) by {
                if k < i {
                    let t = choose|t: int| 0 <= t < g0.len() && g0[t] == a@[k];
                    assert(gone@[t] == a@[k]);
                } else {
                    assert(gone@[gone@.len() - 1] == a@[k]);
                }
            }
        }
        i += 1;
    }
    let mut r = copy_regs(a);
    set_remove_all(&mut r, &gone);
    proof {
        assert forall|x: Reg| #[trigger] r@.contains(x) <==> a@.contains(x) && live@.contains(x) by {
            if a@.contains(x) && !live@.contains(x) {
                let k = choose|k: int| 0 <= k < a@.len() && a@[k] == x;
                assert(gone@.contains(a@[k]));
            }
        }
    }
    r
}

impl AsmModule {
    /// For each block of `func` and each of its instructions, the registers
    /// that hold a value across it (live after it and not written by it).
    pub fn analyse_inst_with_live_now(func: &Func) -> (r: Vec<Vec<Vec<Reg>>>)
        requires
            func.wf(),
            forall|b: int| 0 <= b < func.blocks@.len() ==> is_set(#[trigger] func.blocks@[b].live_out@),
        ensures
            r@.len() == func.blocks@.len(),
            forall|b: int| 0 <= b < r@.len() ==> (#[trigger] r@[b])@.len() == func.blocks@[b].insts@.len(),
            forall|b: int, k: int| 0 <= b < r@.len() && 0 <= k < r@[b]@.len() ==> is_set(#[trigger] r@[b]@[k]@),
            forall|b: int, k: int, x: Reg| 0 <= b < r@.len() && 0 <= k < r@[b]@.len() ==>
                (#[trigger] r@[b]@[k]@.contains(x) <==> live_across(func.blocks@[b], k, x)),
    {
        let mut out: Vec<Vec<Vec<Reg>>> = Vec::new();
        let nb = func.blocks.len();
        let mut b: usize = 0;
        while b < nb
            invariant
                nb == func.blocks@.len(),
                func.wf(),
                forall|bb: int| 0 <= bb < nb ==> is_set(#[trigger] func.blocks@[bb].live_out@),
                b <= nb,
                out@.len() == b,
                forall|bb: int| 0 <= bb < b ==> (#[trigger] out@[bb])@.len() == func.blocks@[bb].insts@.len(),
                forall|bb: int, k: int| 0 <= bb < b && 0 <= k < out@[bb]@.len() ==> is_set(#[trigger] out@[bb]@[k]@),
                forall|bb: int, k: int, x: Reg| 0 <= bb < b && 0 <= k < out@[bb]@.len() ==>
                    (#[trigger] out@[bb]@[k]@.contains(x) <==> live_across(func.blocks@[bb], k, x)),
            decreases nb - b,
        {
            let bb = &func.blocks[b];
            proof {
                assert forall|i: int| 0 <= i < bb.insts@.len() implies #[trigger] bb.insts@[i].def_well_formed() by {
                    assert(func.blocks@[b as int].insts@[i].def_well_formed());
                }
            }
            let after = Func::analyse_inst_with_live_now_backorder(bb);
            let mut row: Vec<Vec<Reg>> = Vec::new();
            let ni = bb.insts.len();
            let mut k: usize = 0;
            while k < ni
                invariant
                    ni == bb.insts@.len(),
                    after@.len() == ni,
                    forall|i: int| 0 <= i < ni ==> #[trigger] bb.insts@[i].def_well_formed(),
                    forall|i: int| 0 <= i < ni ==> is_set(#[trigger] after@[i]@),
                    forall|i: int, x: Reg| 0 <= i < ni ==>
                        (#[trigger] after@[i]@.contains(x) <==> live_at(bb.insts@, bb.live_out@, i + 1, x)),
                    k <= ni,
                    row@.len() == k,
                    forall|i: int| 0 <= i < k ==> is_set(#[trigger] row@[i]@),
                    forall|i: int, x: Reg| 0 <= i < k ==> (#[trigger] row@[i]@.contains(x) <==> live_across(*bb, i, x)),
                decreases ni - k,
            {
                let mut now = copy_regs(&after[k]);
                let defs = bb.insts[k].get_reg_def();
                set_remove_all(&mut now, &defs);
                row.push(now);
                k += 1;
            }
            out.push(row);
            b += 1;
        }
        out
    }

    /// Adds, for each function `h` that the function at `j` calls, the
    /// registers of `used[h]` that hold a value across such a call to `acc[h]`.
    fn collect_sites(&self, j: usize, lives: &Vec<Vec<Vec<Reg>>>, used: &Vec<(String, Vec<Reg>)>, acc: &mut Vec<Vec<Reg>>)
        requires
            labels_distinct(self.name_func@),
            j < self.name_func@.len(),
            calls_named(self.name_func@[j as int]),
            forall|name: Seq<char>| #[trigger] calls_in(self.name_func@[j as int], name) ==> has_func(self.name_func@, name),
            lives@.len() == self.name_func@[j as int].blocks@.len(),
            forall|b: int| 0 <= b < lives@.len() ==> (#[trigger] lives@[b])@.len() == self.name_func@[j as int].blocks@[b].insts@.len(),
            forall|b: int, k: int, x: Reg| 0 <= b < lives@.len() && 0 <= k < lives@[b]@.len() ==>
                (#[trigger] lives@[b]@[k]@.contains(x) <==> live_across(self.name_func@[j as int].blocks@[b], k, x)),
            used@.len() == self.name_func@.len(),
            forall|h: int| 0 <= h < used@.len() ==> is_set(#[trigger] used@[h].1@),
            old(acc)@.len() == self.name_func@.len(),
            forall|h: int| 0 <= h < old(acc)@.len() ==> is_set(#[trigger] old(acc)@[h]@),
        ensures
            final(acc)@.len() == old(acc)@.len(),
            forall|h: int| 0 <= h < final(acc)@.len() ==> is_set(#[trigger] final(acc)@[h]@),
            forall|h: int, x: Reg| 0 <= h < final(acc)@.len() ==> (#[trigger] final(acc)@[h]@.contains(x) <==>
                old(acc)@[h]@.contains(x)
                || (used@[h].1@.contains(x) && live_over_call(self.name_func@[j as int], self.name_func@[h].label@, x))),
    {
        let ghost f = self.name_func@[j as int];
        let ghost fs = self.name_func@;
        let ghost acc0 = acc@;
        let nb = self.name_func[j].blocks.len();
        let mut b: usize = 0;
        while b < nb
            invariant
                f == self.name_func@[j as int],
                fs == self.name_func@,
                labels_distinct(fs),
                j < fs.len(),
                calls_named(f),
                forall|name: Seq<char>| #[trigger] calls_in(f, name) ==> has_func(fs, name),
                nb == f.blocks@.len(),
                lives@.len() == nb,
                forall|bb: int| 0 <= bb < nb ==> (#[trigger] lives@[bb])@.len() == f.blocks@[bb].insts@.len(),
                forall|bb: int, k: int, x: Reg| 0 <= bb < nb && 0 <= k < lives@[bb]@.len() ==>
                    (#[trigger] lives@[bb]@[k]@.contains(x) <==> live_across(f.blocks@[bb], k, x)),
                used@.len() == fs.len(),
                forall|h: int| 0 <= h < used@.len() ==> is_set(#[trigger] used@[h].1@),
                b <= nb,
                acc@.len() == fs.len(),
                forall|h: int| 0 <= h < acc@.len() ==> is_set(#[trigger] acc@[h]@),
                forall|h: int, x: Reg| 0 <= h < acc@.len() ==> (#[trigger] acc@[h]@.contains(x) <==>
                    acc0[h]@.contains(x) || (used@[h].1@.contains(x)
                        && exists|bb: int, k: int| 0 <= bb < b && #[trigger] live_call(f, bb, k, fs[h].label@, x))),
            decreases nb - b,
        {
            let ni = self.name_func[j].blocks[b].insts.len();
            let mut k: usize = 0;
            while k < ni
                invariant
                    f == self.name_func@[j as int],
                    fs == self.name_func@,
                    labels_distinct(fs),
                    j < fs.len(),
                    calls_named(f),
                    forall|name: Seq<char>| #[trigger] calls_in(f, name) ==> has_func(fs, name),
                    nb == f.blocks@.len(),
                    b < nb,
                    ni == f.blocks@[b as int].insts@.len(),
                    lives@.len() == nb,
                    forall|bb: int| 0 <= bb < nb ==> (#[trigger] lives@[bb])@.len() == f.blocks@[bb].insts@.len(),
                    forall|bb: int, kk: int, x: Reg| 0 <= bb < nb && 0 <= kk < lives@[bb]@.len() ==>
                        (#[trigger] lives@[bb]@[kk]@.contains(x) <==> live_across(f.blocks@[bb], kk, x)),
                    used@.len() == fs.len(),
                    forall|h: int| 0 <= h < used@.len() ==> is_set(#[trigger] used@[h].1@),
                    k <= ni,
                    acc@.len() == fs.len(),
                    forall|h: int| 0 <= h < acc@.len() ==> is_set(#[trigger] acc@[h]@),
                    forall|h: int, x: Reg| 0 <= h < acc@.len() ==> (#[trigger] acc@[h]@.contains(x) <==>
                        acc0[h]@.contains(x) || (used@[h].1@.contains(x)
                            && ((exists|bb: int, kk: int| 0 <= bb < b && #[trigger] live_call(f, bb, kk, fs[h].label@, x))
                                || exists|kk: int| 0 <= kk < k && #[trigger] live_call(f, b as int, kk, fs[h].label@, x)))),
                decreases ni - k,
            {
                let inst = &self.name_func[j].blocks[b].insts[k];
                proof {
                    if inst.inst_type is Call {
                        assert(f.blocks@[b as int].insts@[k as int].inst_type is Call);
                    }
                }
                let ghost acc1 = acc@;
                match inst.get_func_name() {
                    Some(name) => {
                        proof {
                            assert(call_target(inst.inst_type, inst.operands@, name@));
                            assert(calls_in(f, name@));
                        }
                        let h = self.find_func(&name).unwrap();
                        let add = keep_live(&used[h].1, &lives[b][k]);
                        let mut cur = copy_regs(&acc[h]);
                        set_insert_all(&mut cur, &add);
                        acc.set(h, cur);
                        proof {
                            assert forall|hh: int, x: Reg| 0 <= hh < acc@.len() implies (#[trigger] acc@[hh]@.contains(x) <==>
                                acc0[hh]@.contains(x) || (used@[hh].1@.contains(x)
                                    && ((exists|bb: int, kk: int| 0 <= bb < b && #[trigger] live_call(f, bb, kk, fs[hh].label@, x))
                                        || exists|kk: int| 0 <= kk < k + 1 && #[trigger] live_call(f, b as int, kk, fs[hh].label@, x)))) by {
                                assert(acc1[hh]@.contains(x) <==>
                                    acc0[hh]@.contains(x) || (used@[hh].1@.contains(x)
                                        && ((exists|bb: int, kk: int| 0 <= bb < b && #[trigger] live_call(f, bb, kk, fs[hh].label@, x))
                                            || exists|kk: int| 0 <= kk < k && #[trigger] live_call(f, b as int, kk, fs[hh].label@, x))));
                                let here = live_call(f, b as int, k as int, fs[hh].label@, x);
                                assert(here <==> (fs[hh].label@ == name@ && live_across(f.blocks@[b as int], k as int, x)));
                                if fs[hh].label@ == name@ {
                                    assert(func_at(fs, name@, hh));
                                    assert(hh == h);
                                }
                                if exists|kk: int| 0 <= kk < k + 1 && #[trigger] live_call(f, b as int, kk, fs[hh].label@, x) {
                                    let kk = choose|kk: int| 0 <= kk < k + 1 && #[trigger] live_call(f, b as int, kk, fs[hh].label@, x);
                                    if kk < k {
                                        assert(exists|kk: int| 0 <= kk < k && #[trigger] live_call(f, b as int, kk, fs[hh].label@, x));
                                    }
                                }
                                if here {
                                    assert(live_call(f, b as int, k as int, fs[hh].label@, x));
                                }
                            }
                        }
                    },
                    None => {
                        proof {
                            assert forall|hh: int, x: Reg| 0 <= hh < acc@.len() implies (#[trigger] acc@[hh]@.contains(x) <==>
                                acc0[hh]@.contains(x) || (used@[hh].1@.contains(x)
                                    && ((exists|bb: int, kk: int| 0 <= bb < b && #[trigger] live_call(f, bb, kk, fs[hh].label@, x))
                                        || exists|kk: int| 0 <= kk < k + 1 && #[trigger] live_call(f, b as int, kk, fs[hh].label@, x)))) by {
                                assert(!live_call(f, b as int, k as int, fs[hh].label@, x));
                                if exists|kk: int| 0 <= kk < k + 1 && #[trigger] live_call(f, b as int, kk, fs[hh].label@, x) {
                                    let kk = choose|kk: int| 0 <= kk < k + 1 && #[trigger] live_call(f, b as int, kk, fs[hh].label@, x);
                                    assert(kk < k);
                                }
                            }
                        }
                    },
                }
                k += 1;
            }
            proof {
                assert forall|h: int, x: Reg| 0 <= h < acc@.len() implies (#[trigger] acc@[h]@.contains(x) <==>
                    acc0[h]@.contains(x) || (used@[h].1@.contains(x)
                        && exists|bb: int, kk: int| 0 <= bb < b + 1 && #[trigger] live_call(f, bb, kk, fs[h].label@, x))) by {
                    if exists|bb: int, kk: int| 0 <= bb < b + 1 && #[trigger] live_call(f, bb, kk, fs[h].label@, x) {
                        let (bb, kk) = choose|bb: int, kk: int| 0 <= bb < b + 1 && #[trigger] live_call(f, bb, kk, fs[h].label@, x);
                        if bb == b {
                            assert(exists|kk: int| 0 <= kk < ni && #[trigger] live_call(f, b as int, kk, fs[h].label@, x));
                        }
                    }
                }
            }
            b += 1;
        }
        proof {
            assert forall|h: int, x: Reg| 0 <= h < acc@.len() implies (#[trigger] acc@[h]@.contains(x) <==>
                acc0[h]@.contains(x) || (used@[h].1@.contains(x) && live_over_call(f, fs[h].label@, x))) by {
                if live_over_call(f, fs[h].label@, x) {
                    let (bb, kk) = choose|bb: int, kk: int| #[trigger] live_call(f, bb, kk, fs[h].label@, x);
                    assert(exists|bb: int, kk: int| 0 <= bb < nb && #[trigger] live_call(f, bb, kk, fs[h].label@, x));
                }
            }
        }
    }

    /// Works out the registers each function saves: the callee-saved ones
    /// it names, and around its calls the caller-saved ones it names; then,
    /// for every call in a function with a body (its liveness recomputed
    /// for the call pass), those the called function may overwrite that
    /// hold a value across the call.
    #[verifier::rlimit(50)]
    pub fn anaylyse_for_handle_call_v4(&mut self)
        requires
            old(self).wf(),
            old(self).calls_resolved(),
            forall|i: int| 0 <= i < old(self).name_func@.len() && !old(self).name_func@[i].is_extern ==> {
                &&& calls_named(#[trigger] old(self).name_func@[i])
                &&& forall|name: Seq<char>| #[trigger] calls_in(old(self).name_func@[i], name) ==> has_func(old(self).name_func@, name)
            },
        ensures
            final(self).name_func@.len() == old(self).name_func@.len(),
            final(self).call_map@ == old(self).call_map@,
            forall|i: int| 0 <= i < final(self).name_func@.len() ==> (if old(self).name_func@[i].is_extern {
                #[trigger] final(self).name_func@[i] == old(self).name_func@[i]
            } else {
                &&& final(self).name_func@[i].same_but_blocks(&old(self).name_func@[i])
                &&& final(self).name_func@[i].blocks@.len() == old(self).name_func@[i].blocks@.len()
                &&& forall|b: int| 0 <= b < final(self).name_func@[i].blocks@.len()
                    ==> same_but_live(#[trigger] final(self).name_func@[i].blocks@[b], old(self).name_func@[i].blocks@[b])
                &&& live_sets_pinned(final(self).name_func@[i].blocks@, |r: Reg| reserved_reg(r))
            }),
            final(self).callee_regs_to_saveds@.len() == old(self).name_func@.len(),
            final(self).caller_regs_to_saveds@.len() == old(self).name_func@.len(),
            forall|i: int| 0 <= i < final(self).callee_regs_to_saveds@.len() ==> {
                &&& (#[trigger] final(self).callee_regs_to_saveds@[i]).0@ == old(self).name_func@[i].label@
                &&& is_set(final(self).callee_regs_to_saveds@[i].1@)
                &&& forall|x: Reg| #[trigger] final(self).callee_regs_to_saveds@[i].1@.contains(x)
                    <==> callee_to_save(old(self).name_func@, old(self).call_map@, final(self).name_func@, i, x)
            },
            forall|i: int| 0 <= i < final(self).caller_regs_to_saveds@.len() ==> {
                &&& (#[trigger] final(self).caller_regs_to_saveds@[i]).0@ == old(self).name_func@[i].label@
                &&& is_set(final(self).caller_regs_to_saveds@[i].1@)
                &&& forall|x: Reg| #[trigger] final(self).caller_regs_to_saveds@[i].1@.contains(x)
                    <==> caller_to_save(old(self).name_func@, old(self).call_map@, final(self).name_func@, i, x)
            },
    {
        let ghost fs0 = self.name_func@;
        let ghost cm0 = self.call_map@;
        let caller_used = self.build_caller_used();
        let callee_used = self.build_callee_used();
        let n = self.name_func.len();
        let mut ce: Vec<Vec<Reg>> = Vec::new();
        let mut cr: Vec<Vec<Reg>> = Vec::new();
        let mut i: usize = 0;
        while i < n
            invariant
                n == self.name_func@.len(),
                fs0 == self.name_func@,
                self.wf(),
                i <= n,
                ce@.len() == i,
                cr@.len() == i,
                forall|h: int| 0 <= h < i ==> is_set(#[trigger] ce@[h]@),
                forall|h: int, x: Reg| 0 <= h < i ==> (#[trigger] ce@[h]@.contains(x) <==> names_reg(fs0[h].blocks@, x) && x.spec_is_callee_save()),
                forall|h: int| 0 <= h < i ==> is_set(#[trigger] cr@[h]@),
                forall|h: int, x: Reg| 0 <= h < i ==> (#[trigger] cr@[h]@.contains(x) <==> names_reg(fs0[h].blocks@, x) && x.spec_is_caller_save()),
            decreases n - i,
        {
            assert(self.name_func@[i as int].wf());
            let ghost ce0 = ce@;
            let ghost cr0 = cr@;
            let a = self.name_func[i].draw_used_callees();
            let c = self.name_func[i].draw_used_callers();
            ce.push(a);
            cr.push(c);
            proof {
                assert forall|h: int| 0 <= h < i + 1 implies is_set(#[trigger] ce@[h]@) && is_set(cr@[h]@) by {
                    if h < i {
                        assert(ce@[h] == ce0[h]);
                        assert(cr@[h] == cr0[h]);
                    }
                }
                assert forall|h: int, x: Reg| 0 <= h < i + 1 implies (#[trigger] ce@[h]@.contains(x)
                    <==> names_reg(fs0[h].blocks@, x) && x.spec_is_callee_save()) by {
                    if h < i {
                        assert(ce@[h] == ce0[h]);
                    }
                }
                assert forall|h: int, x: Reg| 0 <= h < i + 1 implies (#[trigger] cr@[h]@.contains(x)
                    <==> names_reg(fs0[h].blocks@, x) && x.spec_is_caller_save()) by {
                    if h < i {
                        assert(cr@[h] == cr0[h]);
                    }
                }
            }
            i += 1;
        }
        let mut j: usize = 0;
        while j < n
            invariant
                n == self.name_func@.len(),
                n == fs0.len(),
                self.wf(),
                self.call_map@ == cm0,
                j <= n,
                forall|k: int| 0 <= k < n ==> same_code_func(#[trigger] self.name_func@[k], fs0[k]),
                forall|k: int| 0 <= k < n && !fs0[k].is_extern ==> {
                    &&& calls_named(#[trigger] fs0[k])
                    &&& forall|name: Seq<char>| #[trigger] calls_in(fs0[k], name) ==> has_func(fs0, name)
                },
                forall|k: int| j <= k < n ==> #[trigger] self.name_func@[k] == fs0[k],
                forall|k: int| 0 <= k < j ==> (if fs0[k].is_extern {
                    #[trigger] self.name_func@[k] == fs0[k]
                } else {
                    &&& self.name_func@[k].same_but_blocks(&fs0[k])
                    &&& self.name_func@[k].blocks@.len() == fs0[k].blocks@.len()
                    &&& forall|b: int| 0 <= b < self.name_func@[k].blocks@.len()
                        ==> same_but_live(#[trigger] self.name_func@[k].blocks@[b], fs0[k].blocks@[b])
                    &&& live_sets_pinned(self.name_func@[k].blocks@, |r: Reg| reserved_reg(r))
                }),
                callee_used@.len() == n,
                caller_used@.len() == n,
                forall|h: int| 0 <= h < n ==> is_set(#[trigger] callee_used@[h].1@)
                    && callee_used@[h].0@ == fs0[h].label@
                    && forall|x: Reg| #[trigger] callee_used@[h].1@.contains(x) <==> !fs0[h].is_extern
                        && x.spec_is_callee_save() && named_in_reach(fs0, cm0, fs0[h], x) && x != Reg::spec_sp(),
                forall|h: int| 0 <= h < n ==> is_set(#[trigger] caller_used@[h].1@)
                    && caller_used@[h].0@ == fs0[h].label@
                    && forall|x: Reg| #[trigger] caller_used@[h].1@.contains(x) <==> x.spec_is_caller_save() && x != Reg::spec_ra()
                        && (if fs0[h].is_extern || reaches_extern(fs0, cm0, fs0[h].label@) {
                            x.spec_has_own_class()
                        } else {
                            named_in_reach(fs0, cm0, fs0[h], x)
                        }),
                ce@.len() == n,
                cr@.len() == n,
                forall|h: int| 0 <= h < n ==> is_set(#[trigger] ce@[h]@),
                forall|h: int| 0 <= h < n ==> is_set(#[trigger] cr@[h]@),
                forall|h: int, x: Reg| 0 <= h < n ==> (#[trigger] ce@[h]@.contains(x) <==>
                    (names_reg(fs0[h].blocks@, x) && x.spec_is_callee_save())
                    || (callee_used@[h].1@.contains(x) && exists|jj: int| 0 <= jj < j && !fs0[jj].is_extern
                        && #[trigger] live_over_call(self.name_func@[jj], fs0[h].label@, x))),
                forall|h: int, x: Reg| 0 <= h < n ==> (#[trigger] cr@[h]@.contains(x) <==>
                    (names_reg(fs0[h].blocks@, x) && x.spec_is_caller_save())
                    || (caller_used@[h].1@.contains(x) && exists|jj: int| 0 <= jj < j && !fs0[jj].is_extern
                        && #[trigger] live_over_call(self.name_func@[jj], fs0[h].label@, x))),
            decreases n - j,
        {
            let ghost before = self.name_func@;
            let ghost ce0 = ce@;
            let ghost cr0 = cr@;
            if !self.name_func[j].is_extern {
                assert(self.name_func@[j as int].wf());
                self.name_func[j].calc_live_for_handle_call();
                proof {
                    let fj = self.name_func@[j as int];
                    lemma_same_code(fj, fs0[j as int]);
                    assert forall|a: int, b: int| 0 <= a < n && 0 <= b < n && a != b
                        implies self.name_func@[a].label@ != self.name_func@[b].label@ by {
                        assert(self.name_func@[a].label == before[a].label);
                        assert(self.name_func@[b].label == before[b].label);
                    }
                    assert forall|k: int| 0 <= k < n && k != j implies #[trigger] self.name_func@[k] == before[k] by {}
                    assert forall|k: int| 0 <= k < n implies same_code_func(#[trigger] self.name_func@[k], fs0[k]) by {
                        if k == j {
                            assert(same_code_func(fj, fs0[j as int]));
                        } else {
                            assert(self.name_func@[k] == before[k]);
                        }
                    }
                    assert(calls_named(fs0[j as int]));
                    assert forall|name: Seq<char>| #[trigger] calls_in(fj, name) implies has_func(self.name_func@, name) by {
                        assert(calls_in(fs0[j as int], name));
                        let w = choose|w: int| #[trigger] func_at(fs0, name, w);
                        assert(self.name_func@[w].label == fs0[w].label);
                        assert(func_at(self.name_func@, name, w));
                    }
                }
                let lives = AsmModule::analyse_inst_with_live_now(&self.name_func[j]);
                self.collect_sites(j, &lives, &callee_used, &mut ce);
                self.collect_sites(j, &lives, &caller_used, &mut cr);
                proof {
                    assert forall|h: int, x: Reg| 0 <= h < n implies (#[trigger] ce@[h]@.contains(x) <==>
                        (names_reg(fs0[h].blocks@, x) && x.spec_is_callee_save())
                        || (callee_used@[h].1@.contains(x) && exists|jj: int| 0 <= jj < j + 1 && !fs0[jj].is_extern
                            && #[trigger] live_over_call(self.name_func@[jj], fs0[h].label@, x))) by {
                        assert(self.name_func@[h].label == fs0[h].label) by {
                            assert(same_code_func(self.name_func@[h], fs0[h]));
                        }
                        lemma_sites_step(before, self.name_func@, fs0, j as int, fs0[h].label@, x);
                    }
                    assert forall|h: int, x: Reg| 0 <= h < n implies (#[trigger] cr@[h]@.contains(x) <==>
                        (names_reg(fs0[h].blocks@, x) && x.spec_is_caller_save())
                        || (caller_used@[h].1@.contains(x) && exists|jj: int| 0 <= jj < j + 1 && !fs0[jj].is_extern
                            && #[trigger] live_over_call(self.name_func@[jj], fs0[h].label@, x))) by {
                        assert(self.name_func@[h].label == fs0[h].label) by {
                            assert(same_code_func(self.name_func@[h], fs0[h]));
                        }
                        lemma_sites_step(before, self.name_func@, fs0, j as int, fs0[h].label@, x);
                    }
                }
            } else {
                proof {
                    assert forall|h: int, x: Reg| 0 <= h < n implies (#[trigger] ce@[h]@.contains(x) <==>
                        (names_reg(fs0[h].blocks@, x) && x.spec_is_callee_save())
                        || (callee_used@[h].1@.contains(x) && exists|jj: int| 0 <= jj < j + 1 && !fs0[jj].is_extern
                            && #[trigger] live_over_call(self.name_func@[jj], fs0[h].label@, x))) by {
                        lemma_sites_skip(self.name_func@, fs0, j as int, fs0[h].label@, x);
                    }
                    assert forall|h: int, x: Reg| 0 <= h < n implies (#[trigger] cr@[h]@.contains(x) <==>
                        (names_reg(fs0[h].blocks@, x) && x.spec_is_caller_save())
                        || (caller_used@[h].1@.contains(x) && exists|jj: int| 0 <= jj < j + 1 && !fs0[jj].is_extern
                            && #[trigger] live_over_call(self.name_func@[jj], fs0[h].label@, x))) by {
                        lemma_sites_skip(self.name_func@, fs0, j as int, fs0[h].label@, x);
                    }
                }
            }
            j += 1;
        }
        let mut t1: Vec<(String, Vec<Reg>)> = Vec::new();
        let mut t2: Vec<(String, Vec<Reg>)> = Vec::new();
        let mut i: usize = 0;
        while i < n
            invariant
                n == self.name_func@.len(),
                n == fs0.len(),
                ce@.len() == n,
                cr@.len() == n,
                forall|k: int| 0 <= k < n ==> same_code_func(#[trigger] self.name_func@[k], fs0[k]),
                i <= n,
                t1@.len() == i,
                t2@.len() == i,
                forall|k: int| 0 <= k < i ==> (#[trigger] t1@[k]).0@ == fs0[k].label@ && t1@[k].1@ == ce@[k]@,
                forall|k: int| 0 <= k < i ==> (#[trigger] t2@[k]).0@ == fs0[k].label@ && t2@[k].1@ == cr@[k]@,
            decreases n - i,
        {
            assert(same_code_func(self.name_func@[i as int], fs0[i as int]));
            t1.push((self.name_func[i].label.clone(), copy_regs(&ce[i])));
            t2.push((self.name_func[i].label.clone(), copy_regs(&cr[i])));
            i += 1;
        }
        self.callee_regs_to_saveds = t1;
        self.caller_regs_to_saveds = t2;
        proof {
            assert forall|i: int| 0 <= i < n implies (#[trigger] self.callee_regs_to_saveds@[i]).0@ == fs0[i].label@
                && is_set(self.callee_regs_to_saveds@[i].1@)
                && forall|x: Reg| #[trigger] self.callee_regs_to_saveds@[i].1@.contains(x)
                    <==> callee_to_save(fs0, cm0, self.name_func@, i, x) by {
                assert forall|x: Reg| #[trigger] self.callee_regs_to_saveds@[i].1@.contains(x)
                    <==> callee_to_save(fs0, cm0, self.name_func@, i, x) by {
                    assert(ce@[i]@.contains(x) <==>
                        (names_reg(fs0[i].blocks@, x) && x.spec_is_callee_save())
                        || (callee_used@[i].1@.contains(x) && exists|jj: int| 0 <= jj < n && !fs0[jj].is_extern
                            && #[trigger] live_over_call(self.name_func@[jj], fs0[i].label@, x)));
                    lemma_some_call(self.name_func@, fs0, fs0[i].label@, x);
                }
            }
            assert forall|i: int| 0 <= i < n implies (#[trigger] self.caller_regs_to_saveds@[i]).0@ == fs0[i].label@
                && is_set(self.caller_regs_to_saveds@[i].1@)
                && forall|x: Reg| #[trigger] self.caller_regs_to_saveds@[i].1@.contains(x)
                    <==> caller_to_save(fs0, cm0, self.name_func@, i, x) by {
                assert forall|x: Reg| #[trigger] self.caller_regs_to_saveds@[i].1@.contains(x)
                    <==> caller_to_save(fs0, cm0, self.name_func@, i, x) by {
                    assert(cr@[i]@.contains(x) <==>
                        (names_reg(fs0[i].blocks@, x) && x.spec_is_caller_save())
                        || (caller_used@[i].1@.contains(x) && exists|jj: int| 0 <= jj < n && !fs0[jj].is_extern
                            && #[trigger] live_over_call(self.name_func@[jj], fs0[i].label@, x)));
                    lemma_some_call(self.name_func@, fs0, fs0[i].label@, x);
                }
            }
        }
    }
}

} // verus!
