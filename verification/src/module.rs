use vstd::prelude::*;
use crate::func::{Func, names_reg};
use crate::instrs::{InstrsType, Operand};
use crate::intervals::short_lived;
use crate::liveness::{live_sets_pinned, reserved_reg};
use crate::operand::Reg;
use crate::regset::is_set;
use crate::spill::{spill_ready_func, spill_handled};
use crate::structs::Context;

verus! {

/// The functions of a program, by name, with the call graph and the
/// registers each function must save around calls.
pub struct AsmModule {
    /// The functions, each under its own label.
    pub name_func: Vec<Func>,
    /// For each function, the names of the functions it calls.
    pub call_map: Vec<(String, Vec<String>)>,
    /// For each function, the callee-saved registers it must save.
    pub callee_regs_to_saveds: Vec<(String, Vec<Reg>)>,
    /// For each function, the caller-saved registers saved around its calls.
    pub caller_regs_to_saveds: Vec<(String, Vec<Reg>)>,
}

/// The function at `i` of `fs` is named `name`.
pub open spec fn func_at(fs: Seq<Func>, name: Seq<char>, i: int) -> bool {
    0 <= i < fs.len() && fs[i].label@ == name
}

/// Some function of `fs` is named `name`.
pub open spec fn has_func(fs: Seq<Func>, name: Seq<char>) -> bool {
    exists|i: int| #[trigger] func_at(fs, name, i)
}

/// The function named `name` has a body in this program.
pub open spec fn internal(fs: Seq<Func>, name: Seq<char>) -> bool {
    exists|i: int| #[trigger] func_at(fs, name, i) && !fs[i].is_extern
}

/// The function named `name` is an outside one (a library routine).
pub open spec fn external(fs: Seq<Func>, name: Seq<char>) -> bool {
    exists|i: int| #[trigger] func_at(fs, name, i) && fs[i].is_extern
}

/// No two functions share a name.
pub open spec fn labels_distinct(fs: Seq<Func>) -> bool {
    forall|i: int, j: int| 0 <= i < fs.len() && 0 <= j < fs.len() && i != j ==> fs[i].label@ != fs[j].label@
}

/// No two entries of a table keyed by name share a key.
pub open spec fn keys_distinct<V>(m: Seq<(String, V)>) -> bool {
    forall|i: int, j: int| 0 <= i < m.len() && 0 <= j < m.len() && i != j ==> m[i].0@ != m[j].0@
}

/// The call table has an entry for `a`.
pub open spec fn has_calls(cm: Seq<(String, Vec<String>)>, a: Seq<char>) -> bool {
    exists|i: int| 0 <= i < cm.len() && #[trigger] cm[i].0@ == a
}

/// The entry at `i` of the call table says that `a` calls `b`.
pub open spec fn call_entry(cm: Seq<(String, Vec<String>)>, i: int, a: Seq<char>, b: Seq<char>) -> bool {
    &&& 0 <= i < cm.len()
    &&& cm[i].0@ == a
    &&& exists|j: int| 0 <= j < cm[i].1@.len() && #[trigger] cm[i].1@[j]@ == b
}

/// By the call table, `a` calls `b`.
pub open spec fn calls(cm: Seq<(String, Vec<String>)>, a: Seq<char>, b: Seq<char>) -> bool {
    exists|i: int| #[trigger] call_entry(cm, i, a, b)
}

/// Some instruction of `f` calls the function named `name`.
pub open spec fn calls_in(f: Func, name: Seq<char>) -> bool {
    exists|b: int, k: int| 0 <= b < f.blocks@.len() && 0 <= k < f.blocks@[b].insts@.len()
        && #[trigger] call_target(f.blocks@[b].insts@[k].inst_type, f.blocks@[b].insts@[k].operands@, name)
}

/// An instruction of kind `t` over `ops` calls the function named `name`.
pub open spec fn call_target(t: InstrsType, ops: Seq<Operand>, name: Seq<char>) -> bool {
    &&& t is Call
    &&& ops.len() > 0
    &&& ops[0] matches Operand::Addr(s) && s@ == name
}

/// Every call of `f` names its target.
pub open spec fn calls_named(f: Func) -> bool {
    forall|b: int, k: int| 0 <= b < f.blocks@.len() && 0 <= k < f.blocks@[b].insts@.len()
        && (#[trigger] f.blocks@[b].insts@[k]).inst_type is Call
        ==> f.blocks@[b].insts@[k].operands@.len() > 0 && f.blocks@[b].insts@[k].operands@[0] is Addr
}

/// No two names of `v` are the same.
pub open spec fn names_distinct(v: Seq<String>) -> bool {
    forall|i: int, j: int| 0 <= i < v.len() && 0 <= j < v.len() && i != j ==> v[i]@ != v[j]@
}

/// The outside functions every program may call.
pub open spec fn extern_func_names() -> Seq<Seq<char>> {
    seq![
        "memset@plt"@, "memcpy@plt"@, "putint"@, "getint"@, "getarray"@, "putarray"@, "getch"@,
        "putch"@, "getfloat"@, "putfloat"@, "getfarray"@, "putfarray"@, "putf"@,
        "_sysy_starttime"@, "_sysy_stoptime"@,
    ]
}

/// Some name of `v` is `name`.
pub open spec fn in_names(v: Seq<String>, name: Seq<char>) -> bool {
    exists|j: int| 0 <= j < v.len() && #[trigger] v[j]@ == name
}

/// Whether some name of `v` is `s`.
fn contains_name(v: &Vec<String>, s: &String) -> (b: bool)
    ensures
        b == exists|j: int| 0 <= j < v@.len() && v@[j]@ == s@,
{
    let mut i: usize = 0;
    while i < v.len()
        invariant
            i <= v@.len(),
            forall|j: int| 0 <= j < i ==> v@[j]@ != s@,
        decreases v@.len() - i,
    {
        if v[i] == *s {
            return true;
        }
        i += 1;
    }
    false
}

/// `new` is `old` with its value lifetimes built (after the call-pass
/// liveness) and its short-lived registers added to the temporaries.
pub open spec fn tmp_vars_marked(new: Func, old: Func) -> bool {
    &&& new.wf()
    &&& new.same_but_blocks_tmp(&old)
    &&& new.blocks@.len() == old.blocks@.len()
    &&& forall|b: int| 0 <= b < new.blocks@.len() ==> (#[trigger] new.blocks@[b]).insts@ == old.blocks@[b].insts@
    &&& live_sets_pinned(new.blocks@, |r: Reg| reserved_reg(r))
    &&& is_set(new.tmp_vars@)
    &&& forall|r: Reg| #[trigger] new.tmp_vars@.contains(r) <==> old.tmp_vars@.contains(r) || short_lived(new.blocks@, r)
}

impl AsmModule {
    /// The functions have distinct names and well-formed bodies, and the
    /// tables have one entry per name.
    pub open spec fn wf(&self) -> bool {
        &&& labels_distinct(self.name_func@)
        &&& forall|i: int| 0 <= i < self.name_func@.len() ==> (#[trigger] self.name_func@[i]).wf()
        &&& keys_distinct(self.call_map@)
        &&& keys_distinct(self.callee_regs_to_saveds@)
        &&& keys_distinct(self.caller_regs_to_saveds@)
    }

    /// Every function with a body has an entry in the call table, and
    /// every function called is one of the program.
    pub open spec fn calls_resolved(&self) -> bool {
        &&& forall|i: int| 0 <= i < self.name_func@.len() && !self.name_func@[i].is_extern
            ==> has_calls(self.call_map@, (#[trigger] self.name_func@[i]).label@)
        &&& forall|a: Seq<char>, b: Seq<char>| #[trigger] calls(self.call_map@, a, b) ==> has_func(self.name_func@, b)
    }

    /// A program with no function.
    pub fn new() -> (r: Self)
        ensures
            r.wf(),
            r.name_func@.len() == 0,
            r.call_map@.len() == 0,
            r.callee_regs_to_saveds@.len() == 0,
            r.caller_regs_to_saveds@.len() == 0,
    {
        AsmModule {
            name_func: Vec::new(),
            call_map: Vec::new(),
            callee_regs_to_saveds: Vec::new(),
            caller_regs_to_saveds: Vec::new(),
        }
    }

    /// The index of the function named `name`.
    pub(crate) fn find_func(&self, name: &String) -> (r: Option<usize>)
        requires
            labels_distinct(self.name_func@),
        ensures
            r is None <==> !has_func(self.name_func@, name@),
            r matches Some(i) ==> func_at(self.name_func@, name@, i as int),
            r matches Some(i) ==> forall|j: int| #[trigger] func_at(self.name_func@, name@, j) ==> j == i,
    {
        let mut i: usize = 0;
        while i < self.name_func.len()
            invariant
                i <= self.name_func@.len(),
                labels_distinct(self.name_func@),
                forall|j: int| 0 <= j < i ==> self.name_func@[j].label@ != name@,
            decreases self.name_func@.len() - i,
        {
            if self.name_func[i].label == *name {
                assert(func_at(self.name_func@, name@, i as int));
                return Some(i);
            }
            i += 1;
        }
        proof {
            assert forall|j: int| !#[trigger] func_at(self.name_func@, name@, j) by {}
        }
        None
    }

    /// The index of the call table's entry for `name`.
    pub(crate) fn find_calls(&self, name: &String) -> (r: Option<usize>)
        requires
            keys_distinct(self.call_map@),
        ensures
            r is None <==> !has_calls(self.call_map@, name@),
            r matches Some(i) ==> i < self.call_map@.len() && self.call_map@[i as int].0@ == name@,
    {
        let mut i: usize = 0;
        while i < self.call_map.len()
            invariant
                i <= self.call_map@.len(),
                forall|j: int| 0 <= j < i ==> self.call_map@[j].0@ != name@,
            decreases self.call_map@.len() - i,
        {
            if self.call_map[i].0 == *name {
                return Some(i);
            }
            i += 1;
        }
        None
    }

    /// Clears the temporaries of every function with a body.
    pub fn clear_tmp_var(&mut self)
        ensures
            final(self).name_func@.len() == old(self).name_func@.len(),
            final(self).call_map@ == old(self).call_map@,
            final(self).callee_regs_to_saveds@ == old(self).callee_regs_to_saveds@,
            final(self).caller_regs_to_saveds@ == old(self).caller_regs_to_saveds@,
            forall|i: int| 0 <= i < final(self).name_func@.len() ==> {
                &&& (#[trigger] final(self).name_func@[i]).same_but_blocks_tmp(&old(self).name_func@[i])
                &&& final(self).name_func@[i].blocks@ == old(self).name_func@[i].blocks@
                &&& final(self).name_func@[i].tmp_vars@ == (if old(self).name_func@[i].is_extern {
                    old(self).name_func@[i].tmp_vars@
                } else {
                    Seq::<Reg>::empty()
                })
            },
    {
        let n = self.name_func.len();
        let mut i: usize = 0;
        while i < n
            invariant
                n == self.name_func@.len(),
                i <= n,
                self.call_map@ == old(self).call_map@,
                self.callee_regs_to_saveds@ == old(self).callee_regs_to_saveds@,
                self.caller_regs_to_saveds@ == old(self).caller_regs_to_saveds@,
                forall|k: int| i <= k < n ==> #[trigger] self.name_func@[k] == old(self).name_func@[k],
                forall|k: int| 0 <= k < i ==> {
                    &&& (#[trigger] self.name_func@[k]).same_but_blocks_tmp(&old(self).name_func@[k])
                    &&& self.name_func@[k].blocks@ == old(self).name_func@[k].blocks@
                    &&& self.name_func@[k].tmp_vars@ == (if old(self).name_func@[k].is_extern {
                        old(self).name_func@[k].tmp_vars@
                    } else {
                        Seq::<Reg>::empty()
                    })
                },
            decreases n - i,
        {
            if !self.name_func[i].is_extern {
                self.name_func[i].tmp_vars.clear();
            }
            i += 1;
        }
    }

    /// Removes the outside functions.
    pub fn remove_useless_func(&mut self)
        ensures
            final(self).name_func@ == old(self).name_func@.filter(|f: Func| !f.is_extern),
            final(self).call_map@ == old(self).call_map@,
            final(self).callee_regs_to_saveds@ == old(self).callee_regs_to_saveds@,
            final(self).caller_regs_to_saveds@ == old(self).caller_regs_to_saveds@,
            old(self).wf() ==> final(self).wf(),
    {
        let ghost orig = self.name_func@;
        let ghost n = orig.len();
        let ghost mut k: int = 0;
        let mut w: usize = 0;
        while w < self.name_func.len()
            invariant
                orig == old(self).name_func@,
                n == orig.len(),
                self.call_map@ == old(self).call_map@,
                self.callee_regs_to_saveds@ == old(self).callee_regs_to_saveds@,
                self.caller_regs_to_saveds@ == old(self).caller_regs_to_saveds@,
                0 <= k <= n,
                w <= self.name_func@.len(),
                self.name_func@ == orig.subrange(0, k).filter(|f: Func| !f.is_extern) + orig.subrange(k, n as int),
                w == orig.subrange(0, k).filter(|f: Func| !f.is_extern).len(),
                old(self).wf() ==> labels_distinct(self.name_func@),
                old(self).wf() ==> forall|i: int| 0 <= i < self.name_func@.len() ==> (#[trigger] self.name_func@[i]).wf(),
            decreases n - k,
        {
            proof {
                assert(self.name_func@[w as int] == orig[k]);
                reveal(Seq::filter);
                assert(orig.subrange(0, k + 1).drop_last() =~= orig.subrange(0, k));
                assert(orig.subrange(0, k + 1).last() == orig[k]);
            }
            let ghost before = self.name_func@;
            if self.name_func[w].is_extern {
                self.name_func.remove(w);
                proof {
                    assert(self.name_func@ =~= orig.subrange(0, k + 1).filter(|f: Func| !f.is_extern) + orig.subrange(k + 1, n as int));
                    if old(self).wf() {
                        assert forall|i: int, j: int| 0 <= i < self.name_func@.len() && 0 <= j < self.name_func@.len() && i != j
                            implies self.name_func@[i].label@ != self.name_func@[j].label@ by {
                            let ii = if i < w { i } else { i + 1 };
                            let jj = if j < w { j } else { j + 1 };
                            assert(self.name_func@[i] == before[ii]);
                            assert(self.name_func@[j] == before[jj]);
                        }
                        assert forall|i: int| 0 <= i < self.name_func@.len() implies (#[trigger] self.name_func@[i]).wf() by {
                            let ii = if i < w { i } else { i + 1 };
                            assert(self.name_func@[i] == before[ii]);
                        }
                    }
                }
            } else {
                w += 1;
                proof {
                    assert(self.name_func@ =~= orig.subrange(0, k + 1).filter(|f: Func| !f.is_extern) + orig.subrange(k + 1, n as int));
                }
            }
            proof {
                k = k + 1;
            }
        }
        proof {
            if k < n {
                assert(self.name_func@.len() == w + (n - k));
            }
            assert(orig.subrange(0, n as int) =~= orig);
            assert(orig.subrange(n as int, n as int) =~= Seq::<Func>::empty());
            assert(self.name_func@ =~= orig.filter(|f: Func| !f.is_extern));
        }
    }

    /// Gives the registers of every function with a body their value
    /// lifetimes and marks the short-lived ones as temporaries.
    pub fn cal_tmp_var(&mut self)
        requires
            old(self).wf(),
            forall|i: int| 0 <= i < old(self).name_func@.len() && !old(self).name_func@[i].is_extern ==> {
                &&& is_set((#[trigger] old(self).name_func@[i]).tmp_vars@)
                &&& forall|b: int| 0 <= b < old(self).name_func@[i].blocks@.len()
                    ==> (#[trigger] old(self).name_func@[i].blocks@[b]).insts@.len() < i32::MAX
            },
        ensures
            final(self).wf(),
            final(self).name_func@.len() == old(self).name_func@.len(),
            final(self).call_map@ == old(self).call_map@,
            final(self).callee_regs_to_saveds@ == old(self).callee_regs_to_saveds@,
            final(self).caller_regs_to_saveds@ == old(self).caller_regs_to_saveds@,
            forall|i: int| 0 <= i < final(self).name_func@.len() ==> (if old(self).name_func@[i].is_extern {
                #[trigger] final(self).name_func@[i] == old(self).name_func@[i]
            } else {
                tmp_vars_marked(final(self).name_func@[i], old(self).name_func@[i])
            }),
    {
        let n = self.name_func.len();
        let mut i: usize = 0;
        while i < n
            invariant
                n == self.name_func@.len(),
                i <= n,
                self.wf(),
                self.call_map@ == old(self).call_map@,
                self.callee_regs_to_saveds@ == old(self).callee_regs_to_saveds@,
                self.caller_regs_to_saveds@ == old(self).caller_regs_to_saveds@,
                forall|k: int| 0 <= k < n ==> (#[trigger] self.name_func@[k]).label == old(self).name_func@[k].label,
                forall|k: int| i <= k < n ==> #[trigger] self.name_func@[k] == old(self).name_func@[k],
                forall|k: int| 0 <= k < n && !old(self).name_func@[k].is_extern ==> {
                    &&& is_set((#[trigger] old(self).name_func@[k]).tmp_vars@)
                    &&& forall|b: int| 0 <= b < old(self).name_func@[k].blocks@.len()
                        ==> (#[trigger] old(self).name_func@[k].blocks@[b]).insts@.len() < i32::MAX
                },
                forall|k: int| 0 <= k < i ==> (if old(self).name_func@[k].is_extern {
                    #[trigger] self.name_func@[k] == old(self).name_func@[k]
                } else {
                    tmp_vars_marked(self.name_func@[k], old(self).name_func@[k])
                }),
            decreases n - i,
        {
            if !self.name_func[i].is_extern {
                assert(self.name_func@[i as int] == old(self).name_func@[i as int]);
                let ghost before = self.name_func@;
                self.name_func[i].cal_tmp_var();
                proof {
                    assert forall|a: int, b: int| 0 <= a < n && 0 <= b < n && a != b
                        implies self.name_func@[a].label@ != self.name_func@[b].label@ by {
                        assert(self.name_func@[a].label == before[a].label);
                        assert(self.name_func@[b].label == before[b].label);
                    }
                }
            }
            i += 1;
        }
    }

    /// Runs the spill pass on every function with a body.
    pub fn handle_spill_v3(&mut self)
        requires
            labels_distinct(old(self).name_func@),
            forall|i: int| 0 <= i < old(self).name_func@.len() && !old(self).name_func@[i].is_extern
                ==> spill_ready_func(#[trigger] old(self).name_func@[i]),
        ensures
            labels_distinct(final(self).name_func@),
            final(self).name_func@.len() == old(self).name_func@.len(),
            final(self).call_map@ == old(self).call_map@,
            final(self).callee_regs_to_saveds@ == old(self).callee_regs_to_saveds@,
            final(self).caller_regs_to_saveds@ == old(self).caller_regs_to_saveds@,
            forall|i: int| 0 <= i < final(self).name_func@.len() ==> (if old(self).name_func@[i].is_extern {
                #[trigger] final(self).name_func@[i] == old(self).name_func@[i]
            } else {
                spill_handled(final(self).name_func@[i], old(self).name_func@[i])
            }),
    {
        let n = self.name_func.len();
        let mut i: usize = 0;
        while i < n
            invariant
                n == self.name_func@.len(),
                i <= n,
                labels_distinct(self.name_func@),
                self.call_map@ == old(self).call_map@,
                self.callee_regs_to_saveds@ == old(self).callee_regs_to_saveds@,
                self.caller_regs_to_saveds@ == old(self).caller_regs_to_saveds@,
                forall|k: int| 0 <= k < n ==> (#[trigger] self.name_func@[k]).label == old(self).name_func@[k].label,
                forall|k: int| i <= k < n ==> #[trigger] self.name_func@[k] == old(self).name_func@[k],
                forall|k: int| 0 <= k < n && !old(self).name_func@[k].is_extern
                    ==> spill_ready_func(#[trigger] old(self).name_func@[k]),
                forall|k: int| 0 <= k < i ==> (if old(self).name_func@[k].is_extern {
                    #[trigger] self.name_func@[k] == old(self).name_func@[k]
                } else {
                    spill_handled(self.name_func@[k], old(self).name_func@[k])
                }),
            decreases n - i,
        {
            if !self.name_func[i].is_extern {
                assert(self.name_func@[i as int] == old(self).name_func@[i as int]);
                assert(spill_ready_func(old(self).name_func@[i as int]));
                let ghost before = self.name_func@;
                self.name_func[i].handle_spill_v3();
                proof {
                    assert(spill_handled(self.name_func@[i as int], old(self).name_func@[i as int]));
                    assert forall|a: int, b: int| 0 <= a < n && 0 <= b < n && a != b
                        implies self.name_func@[a].label@ != self.name_func@[b].label@ by {
                        assert(self.name_func@[a].label == before[a].label);
                        assert(self.name_func@[b].label == before[b].label);
                    }
                }
            }
            i += 1;
        }
    }

    /// The names of the functions that `f` calls, once each.
    fn collect_calls(f: &Func) -> (r: Vec<String>)
        requires
            calls_named(*f),
        ensures
            names_distinct(r@),
            forall|name: Seq<char>| #[trigger] in_names(r@, name) <==> calls_in(*f, name),
    {
        let mut out: Vec<String> = Vec::new();
        let mut b: usize = 0;
        while b < f.blocks.len()
            invariant
                b <= f.blocks@.len(),
                calls_named(*f),
                names_distinct(out@),
                forall|name: Seq<char>| #[trigger] in_names(out@, name) <==>
                    exists|bb: int, k: int| 0 <= bb < b && 0 <= k < f.blocks@[bb].insts@.len()
                        && #[trigger] call_target(f.blocks@[bb].insts@[k].inst_type, f.blocks@[bb].insts@[k].operands@, name),
            decreases f.blocks@.len() - b,
        {
            let mut k: usize = 0;
            while k < f.blocks[b].insts.len()
                invariant
                    b < f.blocks@.len(),
                    k <= f.blocks@[b as int].insts@.len(),
                    calls_named(*f),
                    names_distinct(out@),
                    forall|name: Seq<char>| #[trigger] in_names(out@, name) <==>
                        ((exists|bb: int, kk: int| 0 <= bb < b && 0 <= kk < f.blocks@[bb].insts@.len()
                            && #[trigger] call_target(f.blocks@[bb].insts@[kk].inst_type, f.blocks@[bb].insts@[kk].operands@, name))
                        || (exists|kk: int| 0 <= kk < k
                            && #[trigger] call_target(f.blocks@[b as int].insts@[kk].inst_type, f.blocks@[b as int].insts@[kk].operands@, name))),
                decreases f.blocks@[b as int].insts@.len() - k,
            {
                let inst = &f.blocks[b].insts[k];
                proof {
                    if inst.inst_type is Call {
                        assert(f.blocks@[b as int].insts@[k as int].inst_type is Call);
                    }
                }
                let ghost out0 = out@;
                let fname = inst.get_func_name();
                match &fname {
                    Some(name) => {
                        if !contains_name(&out, name) {
                            out.push(name.clone());
                        }
                    },
                    None => {},
                }
                proof {
                    assert forall|name: Seq<char>| #[trigger] in_names(out@, name)
                        <==> (in_names(out0, name) || call_target(inst.inst_type, inst.operands@, name)) by {
                        match fname {
                            Some(s) => {
                                assert(call_target(inst.inst_type, inst.operands@, name) <==> s@ == name);
                                if in_names(out0, name) {
                                    let j = choose|j: int| 0 <= j < out0.len() && #[trigger] out0[j]@ == name;
                                    assert(out@[j] == out0[j]);
                                }
                                if s@ == name && !in_names(out0, name) {
                                    assert(out@[out0.len() as int]@ == name);
                                }
                                if in_names(out@, name) {
                                    let j = choose|j: int| 0 <= j < out@.len() && #[trigger] out@[j]@ == name;
                                    if j < out0.len() {
                                        assert(out0[j] == out@[j]);
                                    }
                                }
                            },
                            None => {
                                assert(!call_target(inst.inst_type, inst.operands@, name));
                            },
                        }
                    }
                    assert forall|name: Seq<char>| #[trigger] in_names(out@, name) <==>
                        ((exists|bb: int, kk: int| 0 <= bb < b && 0 <= kk < f.blocks@[bb].insts@.len()
                            && #[trigger] call_target(f.blocks@[bb].insts@[kk].inst_type, f.blocks@[bb].insts@[kk].operands@, name))
                        || (exists|kk: int| 0 <= kk < k + 1
                            && #[trigger] call_target(f.blocks@[b as int].insts@[kk].inst_type, f.blocks@[b as int].insts@[kk].operands@, name))) by {
                        assert(in_names(out0, name) <==>
                            ((exists|bb: int, kk: int| 0 <= bb < b && 0 <= kk < f.blocks@[bb].insts@.len()
                                && #[trigger] call_target(f.blocks@[bb].insts@[kk].inst_type, f.blocks@[bb].insts@[kk].operands@, name))
                            || (exists|kk: int| 0 <= kk < k
                                && #[trigger] call_target(f.blocks@[b as int].insts@[kk].inst_type, f.blocks@[b as int].insts@[kk].operands@, name))));
                        if exists|kk: int| 0 <= kk < k + 1
                            && #[trigger] call_target(f.blocks@[b as int].insts@[kk].inst_type, f.blocks@[b as int].insts@[kk].operands@, name) {
                            let kk = choose|kk: int| 0 <= kk < k + 1
                                && #[trigger] call_target(f.blocks@[b as int].insts@[kk].inst_type, f.blocks@[b as int].insts@[kk].operands@, name);
                            if kk < k {
                                assert(exists|kk: int| 0 <= kk < k
                                    && #[trigger] call_target(f.blocks@[b as int].insts@[kk].inst_type, f.blocks@[b as int].insts@[kk].operands@, name));
                            }
                        }
                        if call_target(inst.inst_type, inst.operands@, name) {
                            assert(call_target(f.blocks@[b as int].insts@[k as int].inst_type, f.blocks@[b as int].insts@[k as int].operands@, name));
                        }
                    }
                    assert forall|i: int, j: int| 0 <= i < out@.len() && 0 <= j < out@.len() && i != j implies out@[i]@ != out@[j]@ by {
                        if i < out0.len() && j < out0.len() {
                            assert(out@[i] == out0[i] && out@[j] == out0[j]);
                        } else if i < out0.len() {
                            assert(out@[i] == out0[i]);
                            assert(!in_names(out0, out@[j]@));
                        } else if j < out0.len() {
                            assert(out@[j] == out0[j]);
                            assert(!in_names(out0, out@[i]@));
                        }
                    }
                }
                k += 1;
            }
            proof {
                assert forall|name: Seq<char>| #[trigger] in_names(out@, name) <==>
                    exists|bb: int, kk: int| 0 <= bb < b + 1 && 0 <= kk < f.blocks@[bb].insts@.len()
                        && #[trigger] call_target(f.blocks@[bb].insts@[kk].inst_type, f.blocks@[bb].insts@[kk].operands@, name) by {
                    if exists|bb: int, kk: int| 0 <= bb < b + 1 && 0 <= kk < f.blocks@[bb].insts@.len()
                        && #[trigger] call_target(f.blocks@[bb].insts@[kk].inst_type, f.blocks@[bb].insts@[kk].operands@, name) {
                        let (bb, kk) = choose|bb: int, kk: int| 0 <= bb < b + 1 && 0 <= kk < f.blocks@[bb].insts@.len()
                            && #[trigger] call_target(f.blocks@[bb].insts@[kk].inst_type, f.blocks@[bb].insts@[kk].operands@, name);
                        if bb == b {
                            assert(call_target(f.blocks@[b as int].insts@[kk].inst_type, f.blocks@[b as int].insts@[kk].operands@, name));
                        }
                    }
                }
            }
            b += 1;
        }
        out
    }

    /// Builds the call table: for each function, the names it calls.
    pub fn build_own_call_map(&mut self)
        requires
            forall|i: int| 0 <= i < old(self).name_func@.len() ==> calls_named(#[trigger] old(self).name_func@[i]),
        ensures
            final(self).name_func@ == old(self).name_func@,
            final(self).callee_regs_to_saveds@ == old(self).callee_regs_to_saveds@,
            final(self).caller_regs_to_saveds@ == old(self).caller_regs_to_saveds@,
            final(self).call_map@.len() == final(self).name_func@.len(),
            forall|i: int| 0 <= i < final(self).call_map@.len() ==> {
                &&& (#[trigger] final(self).call_map@[i]).0@ == final(self).name_func@[i].label@
                &&& names_distinct(final(self).call_map@[i].1@)
                &&& forall|name: Seq<char>| #[trigger] in_names(final(self).call_map@[i].1@, name) <==> calls_in(final(self).name_func@[i], name)
            },
            old(self).wf() ==> final(self).wf(),
    {
        let mut map: Vec<(String, Vec<String>)> = Vec::new();
        let n = self.name_func.len();
        let mut i: usize = 0;
        while i < n
            invariant
                n == self.name_func@.len(),
                i <= n,
                forall|k: int| 0 <= k < n ==> calls_named(#[trigger] self.name_func@[k]),
                map@.len() == i,
                forall|k: int| 0 <= k < i ==> {
                    &&& (#[trigger] map@[k]).0@ == self.name_func@[k].label@
                    &&& names_distinct(map@[k].1@)
                    &&& forall|name: Seq<char>| #[trigger] in_names(map@[k].1@, name) <==> calls_in(self.name_func@[k], name)
                },
            decreases n - i,
        {
            let names = AsmModule::collect_calls(&self.name_func[i]);
            map.push((self.name_func[i].label.clone(), names));
            i += 1;
        }
        self.call_map = map;
        proof {
            if old(self).wf() {
                assert forall|a: int, b: int| 0 <= a < self.call_map@.len() && 0 <= b < self.call_map@.len() && a != b
                    implies self.call_map@[a].0@ != self.call_map@[b].0@ by {
                    assert(self.call_map@[a].0@ == self.name_func@[a].label@);
                    assert(self.call_map@[b].0@ == self.name_func@[b].label@);
                }
            }
        }
    }

    /// Puts `f` under its name: it replaces the function of that name, if
    /// there is one, else it is added last.
    fn put_func(&mut self, f: Func)
        requires
            labels_distinct(old(self).name_func@),
        ensures
            labels_distinct(final(self).name_func@),
            final(self).call_map@ == old(self).call_map@,
            final(self).callee_regs_to_saveds@ == old(self).callee_regs_to_saveds@,
            final(self).caller_regs_to_saveds@ == old(self).caller_regs_to_saveds@,
            has_func(old(self).name_func@, f.label@) ==> exists|i: int| #[trigger] func_at(old(self).name_func@, f.label@, i)
                && final(self).name_func@ == old(self).name_func@.update(i, f),
            !has_func(old(self).name_func@, f.label@) ==> final(self).name_func@ == old(self).name_func@.push(f),
    {
        match self.find_func(&f.label) {
            Some(i) => {
                let ghost before = self.name_func@;
                self.name_func.set(i, f);
                proof {
                    assert(func_at(before, f.label@, i as int));
                    assert forall|a: int, b: int| 0 <= a < self.name_func@.len() && 0 <= b < self.name_func@.len() && a != b
                        implies self.name_func@[a].label@ != self.name_func@[b].label@ by {
                        if a == i {
                            assert(!func_at(before, f.label@, b));
                        } else if b == i {
                            assert(!func_at(before, f.label@, a));
                        }
                    }
                }
            },
            None => {
                let ghost before = self.name_func@;
                self.name_func.push(f);
                proof {
                    assert forall|a: int, b: int| 0 <= a < self.name_func@.len() && 0 <= b < self.name_func@.len() && a != b
                        implies self.name_func@[a].label@ != self.name_func@[b].label@ by {
                        if a == before.len() {
                            assert(!func_at(before, f.label@, b));
                        } else if b == before.len() {
                            assert(!func_at(before, f.label@, a));
                        }
                    }
                }
            },
        }
    }

    /// Adds the outside functions (library routines) every program may
    /// call, each under its name, with no body.
    pub fn add_external_func(&mut self)
        requires
            labels_distinct(old(self).name_func@),
        ensures
            labels_distinct(final(self).name_func@),
            final(self).call_map@ == old(self).call_map@,
            final(self).callee_regs_to_saveds@ == old(self).callee_regs_to_saveds@,
            final(self).caller_regs_to_saveds@ == old(self).caller_regs_to_saveds@,
            forall|k: int| 0 <= k < extern_func_names().len() ==> #[trigger] external(final(self).name_func@, extern_func_names()[k]),
            forall|i: int| 0 <= i < final(self).name_func@.len() && extern_func_names().contains((#[trigger] final(self).name_func@[i]).label@)
                ==> final(self).name_func@[i].is_extern && final(self).name_func@[i].blocks@.len() == 0,
            forall|i: int| 0 <= i < final(self).name_func@.len() && !extern_func_names().contains((#[trigger] final(self).name_func@[i]).label@)
                ==> old(self).name_func@.contains(final(self).name_func@[i]),
            forall|j: int| 0 <= j < old(self).name_func@.len() && !extern_func_names().contains((#[trigger] old(self).name_func@[j]).label@)
                ==> final(self).name_func@.contains(old(self).name_func@[j]),
            old(self).wf() ==> final(self).wf(),
    {
        let names: Vec<&str> = vec![
            "memset@plt", "memcpy@plt", "putint", "getint", "getarray", "putarray", "getch",
            "putch", "getfloat", "putfloat", "getfarray", "putfarray", "putf",
            "_sysy_starttime", "_sysy_stoptime",
        ];
        let ghost want = extern_func_names();
        assert(names@.len() == want.len());
        assert(forall|k: int| 0 <= k < want.len() ==> #[trigger] names@[k]@ == want[k]);
        let mut t: usize = 0;
        while t < names.len()
            invariant
                names@.len() == want.len(),
                want == extern_func_names(),
                forall|k: int| 0 <= k < want.len() ==> #[trigger] names@[k]@ == want[k],
                t <= names@.len(),
                labels_distinct(self.name_func@),
                self.call_map@ == old(self).call_map@,
                self.callee_regs_to_saveds@ == old(self).callee_regs_to_saveds@,
                self.caller_regs_to_saveds@ == old(self).caller_regs_to_saveds@,
                forall|k: int| 0 <= k < t ==> #[trigger] external(self.name_func@, want[k]),
                forall|i: int| 0 <= i < self.name_func@.len() && want.take(t as int).contains((#[trigger] self.name_func@[i]).label@)
                    ==> self.name_func@[i].is_extern && self.name_func@[i].blocks@.len() == 0,
                forall|i: int| 0 <= i < self.name_func@.len() && !want.take(t as int).contains((#[trigger] self.name_func@[i]).label@)
                    ==> old(self).name_func@.contains(self.name_func@[i]),
                forall|j: int| 0 <= j < old(self).name_func@.len() && !want.take(t as int).contains((#[trigger] old(self).name_func@[j]).label@)
                    ==> self.name_func@.contains(old(self).name_func@[j]),
                old(self).wf() ==> forall|i: int| 0 <= i < self.name_func@.len() ==> (#[trigger] self.name_func@[i]).wf(),
            decreases names@.len() - t,
        {
            let mut f = Func::new(names[t], Context::new());
            f.is_extern = true;
            let ghost before = self.name_func@;
            let ghost nm = want[t as int];
            assert(f.label@ == nm);
            self.put_func(f);
            proof {
                let new = self.name_func@;
                assert(want.take(t + 1) =~= want.take(t as int).push(nm));
                assert forall|x: Seq<char>| #[trigger] want.take(t + 1).contains(x) <==> (want.take(t as int).contains(x) || x == nm) by {
                    if want.take(t + 1).contains(x) {
                        let j = choose|j: int| 0 <= j < want.take(t + 1).len() && #[trigger] want.take(t + 1)[j] == x;
                        if j < t {
                            assert(want.take(t as int)[j] == x);
                        }
                    }
                    if want.take(t as int).contains(x) {
                        let j = choose|j: int| 0 <= j < want.take(t as int).len() && #[trigger] want.take(t as int)[j] == x;
                        assert(want.take(t + 1)[j] == x);
                    }
                    if x == nm {
                        assert(want.take(t + 1)[t as int] == x);
                    }
                }
                // where `f` went, and that every other position kept its function
                let pos: int = if has_func(before, nm) {
                    choose|i: int| #[trigger] func_at(before, nm, i) && new == before.update(i, f)
                } else {
                    before.len() as int
                };
                assert(0 <= pos < new.len() && new[pos] == f);
                assert forall|i: int| 0 <= i < new.len() && i != pos implies #[trigger] new[i] == before[i]
                    && before[i].label@ != nm by {
                    if has_func(before, nm) {
                        assert(before[i].label@ != before[pos].label@);
                    } else {
                        assert(!func_at(before, nm, i));
                    }
                }
                assert(func_at(new, nm, pos));
                assert forall|k: int| 0 <= k < t + 1 implies #[trigger] external(new, want[k]) by {
                    if k < t {
                        assert(external(before, want[k]));
                        let i1 = choose|i: int| #[trigger] func_at(before, want[k], i) && before[i].is_extern;
                        if i1 == pos {
                            assert(func_at(new, want[k], pos));
                        } else {
                            assert(func_at(new, want[k], i1));
                        }
                    } else {
                        assert(func_at(new, want[k], pos));
                    }
                }
                assert forall|i: int| 0 <= i < new.len() && want.take(t + 1).contains((#[trigger] new[i]).label@)
                    implies new[i].is_extern && new[i].blocks@.len() == 0 by {
                    if i != pos {
                        assert(new[i] == before[i]);
                    }
                }
                assert forall|i: int| 0 <= i < new.len() && !want.take(t + 1).contains((#[trigger] new[i]).label@)
                    implies old(self).name_func@.contains(new[i]) by {
                    assert(i != pos);
                    assert(new[i] == before[i]);
                }
                assert forall|j: int| 0 <= j < old(self).name_func@.len() && !want.take(t + 1).contains((#[trigger] old(self).name_func@[j]).label@)
                    implies new.contains(old(self).name_func@[j]) by {
                    let i2 = choose|i: int| 0 <= i < before.len() && #[trigger] before[i] == old(self).name_func@[j];
                    if has_func(before, nm) {
                        assert(i2 != pos);
                    }
                    assert(new[i2] == before[i2]);
                }
                if old(self).wf() {
                    assert forall|i: int| 0 <= i < new.len() implies (#[trigger] new[i]).wf() by {
                        if i != pos {
                            assert(new[i] == before[i]);
                        }
                    }
                }
            }
            t += 1;
        }
        proof {
            assert(want.take(want.len() as int) =~= want);
        }
    }
}

} // verus!
