use vstd::prelude::*;
use crate::func::{Func, names_reg};
use crate::module::{AsmModule, func_at, has_func, internal, external, labels_distinct, keys_distinct,
    has_calls, call_entry, calls, in_names};
use crate::operand::Reg;
use crate::regset::{is_set, set_insert_all, set_remove};

verus! {

/// Step `i` of the chain `p`: the function before it calls it.
pub open spec fn chain_step(cm: Seq<(String, Vec<String>)>, p: Seq<Seq<char>>, i: int) -> bool {
    calls(cm, p[i - 1], p[i])
}

/// A chain of calls from `a` through functions with a body: `a` calls
/// `p[0]`, each name of `p` calls the next, and each has a body.
pub open spec fn call_chain(fs: Seq<Func>, cm: Seq<(String, Vec<String>)>, a: Seq<char>, p: Seq<Seq<char>>) -> bool {
    &&& p.len() > 0
    &&& calls(cm, a, p[0])
    &&& forall|i: int| 0 < i < p.len() ==> #[trigger] chain_step(cm, p, i)
    &&& forall|i: int| 0 <= i < p.len() ==> internal(fs, #[trigger] p[i])
}

/// `g`, a function with a body, is reached from `a` by calls that go
/// through functions with a body only.
pub open spec fn reaches(fs: Seq<Func>, cm: Seq<(String, Vec<String>)>, a: Seq<char>, g: Seq<char>) -> bool {
    exists|p: Seq<Seq<char>>| #[trigger] call_chain(fs, cm, a, p) && p.last() == g
}

/// `a` calls an outside function.
pub open spec fn calls_extern(fs: Seq<Func>, cm: Seq<(String, Vec<String>)>, a: Seq<char>) -> bool {
    exists|e: Seq<char>| #[trigger] external(fs, e) && calls(cm, a, e)
}

/// `a` calls an outside function, directly or from a function it reaches.
pub open spec fn reaches_extern(fs: Seq<Func>, cm: Seq<(String, Vec<String>)>, a: Seq<char>) -> bool {
    calls_extern(fs, cm, a) || exists|g: Seq<char>| #[trigger] reaches(fs, cm, a, g) && calls_extern(fs, cm, g)
}

/// The function named `g` names the register `x`.
pub open spec fn names_reg_of(fs: Seq<Func>, g: Seq<char>, x: Reg) -> bool {
    exists|i: int| #[trigger] func_at(fs, g, i) && names_reg(fs[i].blocks@, x)
}

/// `x` is named by `f` or by a function that `f` reaches.
pub open spec fn named_in_reach(fs: Seq<Func>, cm: Seq<(String, Vec<String>)>, f: Func, x: Reg) -> bool {
    names_reg(f.blocks@, x) || exists|g: Seq<char>| #[trigger] reaches(fs, cm, f.label@, g) && names_reg_of(fs, g, x)
}

/// `x` is of the saved class asked for: caller-saved or callee-saved.
pub open spec fn saved_class(x: Reg, callers: bool) -> bool {
    if callers { x.spec_is_caller_save() } else { x.spec_is_callee_save() }
}

/// The name `x` is the label of a function of `found`.
pub open spec fn in_found(fs: Seq<Func>, found: Seq<usize>, x: Seq<char>) -> bool {
    exists|k: int| 0 <= k < found.len() && #[trigger] fs[found[k] as int].label@ == x
}

/// A sequence of distinct integers in `[0, n)` has at most `n` entries.
pub proof fn lemma_distinct_len(s: Seq<int>, n: int)
    requires
        0 <= n,
        forall|i: int| 0 <= i < s.len() ==> 0 <= #[trigger] s[i] < n,
        forall|i: int, j: int| 0 <= i < s.len() && 0 <= j < s.len() && i != j ==> s[i] != s[j],
    ensures
        s.len() <= n,
    decreases n,
{
    if s.len() > 0 {
        assert(s[0] < n);
        if exists|j: int| 0 <= j < s.len() && s[j] == n - 1 {
            let j = choose|j: int| 0 <= j < s.len() && s[j] == n - 1;
            let t = s.subrange(0, j) + s.subrange(j + 1, s.len() as int);
            assert forall|i: int| 0 <= i < t.len() implies 0 <= #[trigger] t[i] < n - 1 by {
                if i < j {
                    assert(t[i] == s[i]);
                } else {
                    assert(t[i] == s[i + 1]);
                }
            }
            assert forall|a: int, b: int| 0 <= a < t.len() && 0 <= b < t.len() && a != b implies t[a] != t[b] by {
                let aa = if a < j { a } else { a + 1 };
                let bb = if b < j { b } else { b + 1 };
                assert(t[a] == s[aa] && t[b] == s[bb]);
            }
            lemma_distinct_len(t, n - 1);
            assert(t.len() == s.len() - 1);
        } else {
            lemma_distinct_len(s, n - 1);
        }
    }
}

/// The same for indices.
proof fn lemma_distinct_idx_len(s: Seq<usize>, n: int)
    requires
        0 <= n,
        forall|i: int| 0 <= i < s.len() ==> s[i] < n,
        forall|i: int, j: int| 0 <= i < s.len() && 0 <= j < s.len() && i != j ==> s[i] != s[j],
    ensures
        s.len() <= n,
{
    let t = s.map_values(|x: usize| x as int);
    assert forall|i: int| 0 <= i < t.len() implies 0 <= #[trigger] t[i] < n by {
        assert(t[i] == s[i] as int);
    }
    lemma_distinct_len(t, n);
}

/// With one entry per key, `a` calls `x` exactly when `x` is in `a`'s entry.
proof fn lemma_calls_entry(cm: Seq<(String, Vec<String>)>, idx: int, a: Seq<char>, x: Seq<char>)
    requires
        keys_distinct(cm),
        0 <= idx < cm.len(),
        cm[idx].0@ == a,
    ensures
        calls(cm, a, x) <==> in_names(cm[idx].1@, x),
{
    if calls(cm, a, x) {
        let i = choose|i: int| #[trigger] call_entry(cm, i, a, x);
        assert(i == idx);
    }
    if in_names(cm[idx].1@, x) {
        assert(call_entry(cm, idx, a, x));
    }
}

/// With distinct labels, the function named by the label at `i` has a
/// body exactly when the one at `i` has.
proof fn lemma_kind_at(fs: Seq<Func>, x: Seq<char>, i: int)
    requires
        labels_distinct(fs),
        func_at(fs, x, i),
    ensures
        internal(fs, x) <==> !fs[i].is_extern,
        external(fs, x) <==> fs[i].is_extern,
        forall|j: int| #[trigger] func_at(fs, x, j) ==> j == i,
{
    assert forall|j: int| #[trigger] func_at(fs, x, j) implies j == i by {
        if j != i {
            assert(fs[j].label@ != fs[i].label@);
        }
    }
}

/// A chain extended by one more call to a function with a body.
proof fn lemma_chain_push(fs: Seq<Func>, cm: Seq<(String, Vec<String>)>, a: Seq<char>, p: Seq<Seq<char>>, x: Seq<char>)
    requires
        call_chain(fs, cm, a, p),
        calls(cm, p.last(), x),
        internal(fs, x),
    ensures
        call_chain(fs, cm, a, p.push(x)),
        p.push(x).last() == x,
{
    let q = p.push(x);
    assert forall|i: int| 0 < i < q.len() implies #[trigger] chain_step(cm, q, i) by {
        if i < p.len() {
            assert(chain_step(cm, p, i));
        }
    }
    assert forall|i: int| 0 <= i < q.len() implies internal(fs, #[trigger] q[i]) by {
        if i < p.len() {
            assert(internal(fs, p[i]));
        }
    }
}

/// Every name of a chain from `a` is found, when the found functions hold
/// the callees of `a` and are closed under calls (to functions with a body).
proof fn lemma_chain_found(fs: Seq<Func>, cm: Seq<(String, Vec<String>)>, a: Seq<char>, found: Seq<usize>, p: Seq<Seq<char>>, n: int)
    requires
        call_chain(fs, cm, a, p),
        0 <= n < p.len(),
        forall|x: Seq<char>| calls(cm, a, x) && internal(fs, x) ==> #[trigger] in_found(fs, found, x),
        forall|k: int, x: Seq<char>| 0 <= k < found.len() && #[trigger] calls(cm, fs[found[k] as int].label@, x) && internal(fs, x)
            ==> in_found(fs, found, x),
    ensures
        in_found(fs, found, p[n]),
    decreases n,
{
    assert(internal(fs, p[n]));
    if n == 0 {
        assert(in_found(fs, found, p[0]));
    } else {
        lemma_chain_found(fs, cm, a, found, p, n - 1);
        let k = choose|k: int| 0 <= k < found.len() && #[trigger] fs[found[k] as int].label@ == p[n - 1];
        assert(chain_step(cm, p, n));
        assert(in_found(fs, found, p[n]));
    }
}

/// A chain from `b` put behind a call from `a` to `b` is a chain from `a`.
proof fn lemma_chain_prepend(fs: Seq<Func>, cm: Seq<(String, Vec<String>)>, a: Seq<char>, b: Seq<char>, p: Seq<Seq<char>>)
    requires
        calls(cm, a, b),
        internal(fs, b),
        call_chain(fs, cm, b, p),
    ensures
        call_chain(fs, cm, a, seq![b] + p),
        (seq![b] + p).last() == p.last(),
{
    let q = seq![b] + p;
    assert(q[0] == b);
    assert forall|i: int| 0 < i < q.len() implies #[trigger] chain_step(cm, q, i) by {
        assert(q[i] == p[i - 1]);
        if i == 1 {
            assert(q[0] == b);
        } else {
            assert(q[i - 1] == p[i - 2]);
            assert(chain_step(cm, p, i - 1));
        }
    }
    assert forall|i: int| 0 <= i < q.len() implies internal(fs, #[trigger] q[i]) by {
        if i > 0 {
            assert(q[i] == p[i - 1]);
        }
    }
}

/// Law: a function reaches, through the functions it calls, whatever
/// those functions reach.
pub proof fn lemma_reaches_through_call(fs: Seq<Func>, cm: Seq<(String, Vec<String>)>, a: Seq<char>, b: Seq<char>, c: Seq<char>)
    requires
        calls(cm, a, b),
        internal(fs, b),
        reaches(fs, cm, b, c),
    ensures
        reaches(fs, cm, a, c),
{
    let p = choose|p: Seq<Seq<char>>| #[trigger] call_chain(fs, cm, b, p) && p.last() == c;
    lemma_chain_prepend(fs, cm, a, b, p);
}

/// Law: the registers a call of `f` may overwrite include those a call of
/// any function with a body that `f` calls may overwrite.
pub proof fn lemma_named_in_reach_through_call(fs: Seq<Func>, cm: Seq<(String, Vec<String>)>, f: Func, i: int, x: Reg)
    requires
        0 <= i < fs.len(),
        !fs[i].is_extern,
        calls(cm, f.label@, fs[i].label@),
        named_in_reach(fs, cm, fs[i], x),
    ensures
        named_in_reach(fs, cm, f, x),
{
    let g = fs[i];
    assert(func_at(fs, g.label@, i));
    assert(internal(fs, g.label@));
    if names_reg(g.blocks@, x) {
        let p = seq![g.label@];
        assert(call_chain(fs, cm, f.label@, p));
        assert(reaches(fs, cm, f.label@, g.label@));
        assert(names_reg_of(fs, g.label@, x));
    } else {
        let h = choose|h: Seq<char>| #[trigger] reaches(fs, cm, g.label@, h) && names_reg_of(fs, h, x);
        lemma_reaches_through_call(fs, cm, f.label@, g.label@, h);
    }
}

/// Law: a function that calls a function with a body reaching an outside
/// function reaches one too.
pub proof fn lemma_reaches_extern_through_call(fs: Seq<Func>, cm: Seq<(String, Vec<String>)>, a: Seq<char>, b: Seq<char>)
    requires
        calls(cm, a, b),
        internal(fs, b),
        reaches_extern(fs, cm, b),
    ensures
        reaches_extern(fs, cm, a),
{
    let p = seq![b];
    assert(call_chain(fs, cm, a, p));
    assert(reaches(fs, cm, a, b));
    if !calls_extern(fs, cm, b) {
        let g = choose|g: Seq<char>| #[trigger] reaches(fs, cm, b, g) && calls_extern(fs, cm, g);
        lemma_reaches_through_call(fs, cm, a, b, g);
    }
}

impl AsmModule {
    /// Adds to `found` each function with a body named in `names` that is
    /// not there yet; tells whether `names` holds an outside function.
    fn absorb_callees(&self, found: &mut Vec<usize>, names: &Vec<String>) -> (saw_extern: bool)
        requires
            labels_distinct(self.name_func@),
            forall|j: int| 0 <= j < names@.len() ==> has_func(self.name_func@, #[trigger] names@[j]@),
            forall|k: int| 0 <= k < old(found)@.len() ==> (#[trigger] old(found)@[k]) < self.name_func@.len()
                && !self.name_func@[old(found)@[k] as int].is_extern,
            forall|a: int, b: int| 0 <= a < old(found)@.len() && 0 <= b < old(found)@.len() && a != b
                ==> old(found)@[a] != old(found)@[b],
        ensures
            old(found)@.len() <= final(found)@.len(),
            forall|k: int| 0 <= k < old(found)@.len() ==> #[trigger] final(found)@[k] == old(found)@[k],
            forall|k: int| 0 <= k < final(found)@.len() ==> (#[trigger] final(found)@[k]) < self.name_func@.len()
                && !self.name_func@[final(found)@[k] as int].is_extern,
            forall|a: int, b: int| 0 <= a < final(found)@.len() && 0 <= b < final(found)@.len() && a != b
                ==> final(found)@[a] != final(found)@[b],
            forall|k: int| old(found)@.len() <= k < final(found)@.len()
                ==> in_names(names@, self.name_func@[#[trigger] final(found)@[k] as int].label@),
            forall|x: Seq<char>| in_names(names@, x) && internal(self.name_func@, x)
                ==> #[trigger] in_found(self.name_func@, final(found)@, x),
            forall|x: Seq<char>| #[trigger] in_found(self.name_func@, old(found)@, x) ==> in_found(self.name_func@, final(found)@, x),
            saw_extern <==> exists|x: Seq<char>| in_names(names@, x) && #[trigger] external(self.name_func@, x),
    {
        let ghost fs = self.name_func@;
        let ghost f0 = found@;
        let mut saw = false;
        let mut j: usize = 0;
        while j < names.len()
            invariant
                fs == self.name_func@,
                labels_distinct(fs),
                j <= names@.len(),
                forall|jj: int| 0 <= jj < names@.len() ==> has_func(fs, #[trigger] names@[jj]@),
                f0.len() <= found@.len(),
                forall|k: int| 0 <= k < f0.len() ==> #[trigger] found@[k] == f0[k],
                forall|k: int| 0 <= k < found@.len() ==> (#[trigger] found@[k]) < fs.len() && !fs[found@[k] as int].is_extern,
                forall|a: int, b: int| 0 <= a < found@.len() && 0 <= b < found@.len() && a != b ==> found@[a] != found@[b],
                forall|k: int| f0.len() <= k < found@.len() ==> in_names(names@, fs[#[trigger] found@[k] as int].label@),
                forall|jj: int| 0 <= jj < j && internal(fs, names@[jj]@) ==> #[trigger] in_found(fs, found@, names@[jj]@),
                forall|x: Seq<char>| #[trigger] in_found(fs, f0, x) ==> in_found(fs, found@, x),
                saw <==> exists|jj: int| 0 <= jj < j && #[trigger] external(fs, names@[jj]@),
            decreases names@.len() - j,
        {
            assert(has_func(fs, names@[j as int]@));
            let idx = self.find_func(&names[j]).unwrap();
            proof {
                lemma_kind_at(fs, names@[j as int]@, idx as int);
            }
            let ghost before = found@;
            if self.name_func[idx].is_extern {
                saw = true;
            } else {
                let mut present = false;
                let mut k: usize = 0;
                while k < found.len()
                    invariant
                        k <= found@.len(),
                        present <==> exists|kk: int| 0 <= kk < k && found@[kk] == idx,
                    decreases found@.len() - k,
                {
                    if found[k] == idx {
                        present = true;
                    }
                    k += 1;
                }
                if !present {
                    found.push(idx);
                    proof {
                        assert(in_names(names@, fs[idx as int].label@)) by {
                            assert(names@[j as int]@ == fs[idx as int].label@);
                        }
                    }
                } else {
                    proof {
                        let kk = choose|kk: int| 0 <= kk < found@.len() && found@[kk] == idx;
                        assert(fs[found@[kk] as int].label@ == names@[j as int]@);
                    }
                }
            }
            proof {
                assert(fs[idx as int].label@ == names@[j as int]@);
                if !fs[idx as int].is_extern && !before.contains(idx) {
                    assert(found@[before.len() as int] == idx);
                }
                assert forall|jj: int| 0 <= jj < j + 1 && internal(fs, names@[jj]@) implies #[trigger] in_found(fs, found@, names@[jj]@) by {
                    if jj < j {
                        assert(in_found(fs, before, names@[jj]@));
                        let k = choose|k: int| 0 <= k < before.len() && #[trigger] fs[before[k] as int].label@ == names@[jj]@;
                        assert(found@[k] == before[k]);
                    } else {
                        if before.contains(idx) {
                            let k = choose|k: int| 0 <= k < before.len() && before[k] == idx;
                            assert(found@[k] == idx);
                            assert(fs[found@[k] as int].label@ == names@[jj]@);
                        } else {
                            assert(found@[before.len() as int] == idx);
                            assert(fs[found@[before.len() as int] as int].label@ == names@[jj]@);
                        }
                    }
                }
                assert forall|x: Seq<char>| #[trigger] in_found(fs, f0, x) implies in_found(fs, found@, x) by {
                    assert(in_found(fs, before, x));
                    let k = choose|k: int| 0 <= k < before.len() && #[trigger] fs[before[k] as int].label@ == x;
                    assert(found@[k] == before[k]);
                }
                if saw {
                    if exists|jj: int| 0 <= jj < j && #[trigger] external(fs, names@[jj]@) {
                        let jj = choose|jj: int| 0 <= jj < j && #[trigger] external(fs, names@[jj]@);
                        assert(external(fs, names@[jj]@));
                    } else {
                        assert(external(fs, names@[j as int]@));
                    }
                }
            }
            j += 1;
        }
        proof {
            assert forall|x: Seq<char>| in_names(names@, x) && internal(fs, x) implies #[trigger] in_found(fs, found@, x) by {
                let jj = choose|jj: int| 0 <= jj < names@.len() && #[trigger] names@[jj]@ == x;
                assert(internal(fs, names@[jj]@));
            }
            if saw {
                let jj = choose|jj: int| 0 <= jj < names@.len() && #[trigger] external(fs, names@[jj]@);
                assert(in_names(names@, names@[jj]@));
            }
            if exists|x: Seq<char>| in_names(names@, x) && #[trigger] external(fs, x) {
                let x = choose|x: Seq<char>| in_names(names@, x) && #[trigger] external(fs, x);
                let jj = choose|jj: int| 0 <= jj < names@.len() && #[trigger] names@[jj]@ == x;
                assert(external(fs, names@[jj]@));
            }
        }
        saw
    }

    /// The functions with a body that `func` reaches by calls through
    /// functions with a body, once each, and whether it calls an outside
    /// function on the way.
    fn reach_set(&self, func: &Func) -> (r: (Vec<usize>, bool))
        requires
            self.wf(),
            self.calls_resolved(),
            has_calls(self.call_map@, func.label@),
        ensures
            forall|k: int| 0 <= k < r.0@.len() ==> (#[trigger] r.0@[k]) < self.name_func@.len()
                && !self.name_func@[r.0@[k] as int].is_extern,
            forall|a: int, b: int| 0 <= a < r.0@.len() && 0 <= b < r.0@.len() && a != b ==> r.0@[a] != r.0@[b],
            forall|g: Seq<char>| #[trigger] reaches(self.name_func@, self.call_map@, func.label@, g)
                <==> in_found(self.name_func@, r.0@, g),
            r.1 <==> reaches_extern(self.name_func@, self.call_map@, func.label@),
    {
        let ghost fs = self.name_func@;
        let ghost cm = self.call_map@;
        let ghost a = func.label@;
        let ci = self.find_calls(&func.label).unwrap();
        proof {
            assert forall|j: int| 0 <= j < cm[ci as int].1@.len() implies has_func(fs, #[trigger] cm[ci as int].1@[j]@) by {
                assert(call_entry(cm, ci as int, a, cm[ci as int].1@[j]@));
                assert(calls(cm, a, cm[ci as int].1@[j]@));
            }
        }
        let mut found: Vec<usize> = Vec::new();
        let mut saw = self.absorb_callees(&mut found, &self.call_map[ci].1);
        proof {
            assert forall|k: int| 0 <= k < found@.len() implies #[trigger] reaches(fs, cm, a, fs[found@[k] as int].label@) by {
                let x = fs[found@[k] as int].label@;
                lemma_calls_entry(cm, ci as int, a, x);
                assert(func_at(fs, x, found@[k] as int));
                let p = seq![x];
                assert(call_chain(fs, cm, a, p));
            }
            assert forall|x: Seq<char>| calls(cm, a, x) && internal(fs, x) implies #[trigger] in_found(fs, found@, x) by {
                lemma_calls_entry(cm, ci as int, a, x);
            }
            if saw {
                let x = choose|x: Seq<char>| in_names(cm[ci as int].1@, x) && #[trigger] external(fs, x);
                lemma_calls_entry(cm, ci as int, a, x);
            }
            if calls_extern(fs, cm, a) {
                let e = choose|e: Seq<char>| #[trigger] external(fs, e) && calls(cm, a, e);
                lemma_calls_entry(cm, ci as int, a, e);
            }
            lemma_distinct_idx_len(found@, fs.len() as int);
        }
        let mut d: usize = 0;
        while d < found.len()
            invariant
                fs == self.name_func@,
                cm == self.call_map@,
                a == func.label@,
                self.wf(),
                self.calls_resolved(),
                d <= found@.len(),
                found@.len() <= fs.len(),
                forall|k: int| 0 <= k < found@.len() ==> (#[trigger] found@[k]) < fs.len() && !fs[found@[k] as int].is_extern,
                forall|x: int, y: int| 0 <= x < found@.len() && 0 <= y < found@.len() && x != y ==> found@[x] != found@[y],
                forall|k: int| 0 <= k < found@.len() ==> #[trigger] reaches(fs, cm, a, fs[found@[k] as int].label@),
                forall|x: Seq<char>| calls(cm, a, x) && internal(fs, x) ==> #[trigger] in_found(fs, found@, x),
                forall|k: int, x: Seq<char>| 0 <= k < d && #[trigger] calls(cm, fs[found@[k] as int].label@, x) && internal(fs, x)
                    ==> in_found(fs, found@, x),
                saw <==> (calls_extern(fs, cm, a)
                    || exists|k: int| 0 <= k < d && #[trigger] calls_extern(fs, cm, fs[found@[k] as int].label@)),
            decreases fs.len() - d,
        {
            let g = found[d];
            let ghost lg = fs[g as int].label@;
            proof {
                assert(func_at(fs, lg, g as int));
                assert(has_calls(cm, fs[g as int].label@));
            }
            let gi = self.find_calls(&self.name_func[g].label).unwrap();
            proof {
                assert forall|j: int| 0 <= j < cm[gi as int].1@.len() implies has_func(fs, #[trigger] cm[gi as int].1@[j]@) by {
                    assert(call_entry(cm, gi as int, lg, cm[gi as int].1@[j]@));
                    assert(calls(cm, lg, cm[gi as int].1@[j]@));
                }
            }
            let ghost before = found@;
            let s2 = self.absorb_callees(&mut found, &self.call_map[gi].1);
            proof {
                assert(before[d as int] == g);
                assert(reaches(fs, cm, a, lg));
                let p = choose|p: Seq<Seq<char>>| #[trigger] call_chain(fs, cm, a, p) && p.last() == lg;
                assert forall|k: int| 0 <= k < found@.len() implies #[trigger] reaches(fs, cm, a, fs[found@[k] as int].label@) by {
                    if k < before.len() {
                        assert(found@[k] == before[k]);
                    } else {
                        let x = fs[found@[k] as int].label@;
                        lemma_calls_entry(cm, gi as int, lg, x);
                        assert(func_at(fs, x, found@[k] as int));
                        lemma_chain_push(fs, cm, a, p, x);
                        assert(call_chain(fs, cm, a, p.push(x)));
                    }
                }
                assert forall|x: Seq<char>| calls(cm, a, x) && internal(fs, x) implies #[trigger] in_found(fs, found@, x) by {
                    assert(in_found(fs, before, x));
                }
                assert forall|k: int, x: Seq<char>| 0 <= k < d + 1 && #[trigger] calls(cm, fs[found@[k] as int].label@, x) && internal(fs, x)
                    implies in_found(fs, found@, x) by {
                    assert(found@[k] == before[k]);
                    if k < d {
                        assert(calls(cm, fs[before[k] as int].label@, x));
                        assert(in_found(fs, before, x));
                    } else {
                        lemma_calls_entry(cm, gi as int, lg, x);
                    }
                }
                assert forall|k: int| 0 <= k < d + 1 implies
                    (#[trigger] calls_extern(fs, cm, fs[found@[k] as int].label@) <==> calls_extern(fs, cm, fs[before[k] as int].label@)) by {
                    assert(found@[k] == before[k]);
                }
                if s2 {
                    let x = choose|x: Seq<char>| in_names(cm[gi as int].1@, x) && #[trigger] external(fs, x);
                    lemma_calls_entry(cm, gi as int, lg, x);
                    assert(calls_extern(fs, cm, fs[found@[d as int] as int].label@));
                }
                if calls_extern(fs, cm, lg) {
                    let e = choose|e: Seq<char>| #[trigger] external(fs, e) && calls(cm, lg, e);
                    lemma_calls_entry(cm, gi as int, lg, e);
                }
                if exists|k: int| 0 <= k < d + 1 && #[trigger] calls_extern(fs, cm, fs[found@[k] as int].label@) {
                    let k = choose|k: int| 0 <= k < d + 1 && #[trigger] calls_extern(fs, cm, fs[found@[k] as int].label@);
                    if k < d {
                        assert(calls_extern(fs, cm, fs[found@[k] as int].label@));
                    }
                }
                if exists|k: int| 0 <= k < d && #[trigger] calls_extern(fs, cm, fs[before[k] as int].label@) {
                    let k = choose|k: int| 0 <= k < d && #[trigger] calls_extern(fs, cm, fs[before[k] as int].label@);
                    assert(calls_extern(fs, cm, fs[found@[k] as int].label@));
                }
                lemma_distinct_idx_len(found@, fs.len() as int);
            }
            saw = saw || s2;
            d += 1;
        }
        proof {
            assert forall|gname: Seq<char>| #[trigger] reaches(fs, cm, a, gname) <==> in_found(fs, found@, gname) by {
                if reaches(fs, cm, a, gname) {
                    let p = choose|p: Seq<Seq<char>>| #[trigger] call_chain(fs, cm, a, p) && p.last() == gname;
                    lemma_chain_found(fs, cm, a, found@, p, p.len() - 1);
                }
                if in_found(fs, found@, gname) {
                    let k = choose|k: int| 0 <= k < found@.len() && #[trigger] fs[found@[k] as int].label@ == gname;
                    assert(reaches(fs, cm, a, fs[found@[k] as int].label@));
                }
            }
            if saw && !calls_extern(fs, cm, a) {
                let k = choose|k: int| 0 <= k < d && #[trigger] calls_extern(fs, cm, fs[found@[k] as int].label@);
                assert(reaches(fs, cm, a, fs[found@[k] as int].label@));
            }
            if reaches_extern(fs, cm, a) && !calls_extern(fs, cm, a) {
                let gname = choose|gname: Seq<char>| #[trigger] reaches(fs, cm, a, gname) && calls_extern(fs, cm, gname);
                assert(in_found(fs, found@, gname));
                let k = choose|k: int| 0 <= k < found@.len() && #[trigger] fs[found@[k] as int].label@ == gname;
                assert(calls_extern(fs, cm, fs[found@[k] as int].label@));
            }
        }
        (found, saw)
    }

    /// `base` with the registers of the saved class named by the functions of `found`.
    fn union_over(&self, found: &Vec<usize>, base: Vec<Reg>, callers: bool) -> (r: Vec<Reg>)
        requires
            self.wf(),
            is_set(base@),
            forall|k: int| 0 <= k < found@.len() ==> (#[trigger] found@[k]) < self.name_func@.len(),
        ensures
            is_set(r@),
            forall|x: Reg| #[trigger] r@.contains(x) <==> base@.contains(x)
                || (saved_class(x, callers) && exists|k: int| 0 <= k < found@.len()
                    && names_reg(#[trigger] self.name_func@[found@[k] as int].blocks@, x)),
    {
        let mut used = base;
        let mut k: usize = 0;
        while k < found.len()
            invariant
                self.wf(),
                k <= found@.len(),
                forall|kk: int| 0 <= kk < found@.len() ==> (#[trigger] found@[kk]) < self.name_func@.len(),
                is_set(used@),
                forall|x: Reg| #[trigger] used@.contains(x) <==> base@.contains(x)
                    || (saved_class(x, callers) && exists|kk: int| 0 <= kk < k
                        && names_reg(#[trigger] self.name_func@[found@[kk] as int].blocks@, x)),
            decreases found@.len() - k,
        {
            let g = found[k];
            assert(self.name_func@[g as int].wf());
            let more = if callers {
                self.name_func[g].draw_used_callers()
            } else {
                self.name_func[g].draw_used_callees()
            };
            let ghost u0 = used@;
            set_insert_all(&mut used, &more);
            proof {
                assert forall|x: Reg| #[trigger] used@.contains(x) <==> base@.contains(x)
                    || (saved_class(x, callers) && exists|kk: int| 0 <= kk < k + 1
                        && names_reg(#[trigger] self.name_func@[found@[kk] as int].blocks@, x)) by {
                    assert(u0.contains(x) <==> base@.contains(x)
                        || (saved_class(x, callers) && exists|kk: int| 0 <= kk < k
                            && names_reg(#[trigger] self.name_func@[found@[kk] as int].blocks@, x)));
                    if saved_class(x, callers) && exists|kk: int| 0 <= kk < k + 1
                        && names_reg(#[trigger] self.name_func@[found@[kk] as int].blocks@, x) {
                        let kk = choose|kk: int| 0 <= kk < k + 1
                            && names_reg(#[trigger] self.name_func@[found@[kk] as int].blocks@, x);
                        if kk < k {
                            assert(exists|kk: int| 0 <= kk < k
                                && names_reg(#[trigger] self.name_func@[found@[kk] as int].blocks@, x));
                        } else {
                            assert(more@.contains(x));
                        }
                    }
                    if more@.contains(x) {
                        assert(names_reg(self.name_func@[found@[k as int] as int].blocks@, x));
                    }
                }
            }
            k += 1;
        }
        used
    }

    /// For the functions `found` (those `func` reaches), the registers
    /// they name are those named by the reached functions.
    proof fn lemma_found_names(&self, func: &Func, found: Seq<usize>, x: Reg)
        requires
            self.wf(),
            forall|k: int| 0 <= k < found.len() ==> (#[trigger] found[k]) < self.name_func@.len(),
            forall|g: Seq<char>| #[trigger] reaches(self.name_func@, self.call_map@, func.label@, g)
                <==> in_found(self.name_func@, found, g),
        ensures
            (exists|k: int| 0 <= k < found.len() && names_reg(#[trigger] self.name_func@[found[k] as int].blocks@, x))
                <==> exists|g: Seq<char>| #[trigger] reaches(self.name_func@, self.call_map@, func.label@, g)
                    && names_reg_of(self.name_func@, g, x),
    {
        let fs = self.name_func@;
        if exists|k: int| 0 <= k < found.len() && names_reg(#[trigger] fs[found[k] as int].blocks@, x) {
            let k = choose|k: int| 0 <= k < found.len() && names_reg(#[trigger] fs[found[k] as int].blocks@, x);
            let g = fs[found[k] as int].label@;
            assert(in_found(fs, found, g));
            assert(func_at(fs, g, found[k] as int));
            assert(reaches(fs, self.call_map@, func.label@, g) && names_reg_of(fs, g, x));
        }
        if exists|g: Seq<char>| #[trigger] reaches(fs, self.call_map@, func.label@, g) && names_reg_of(fs, g, x) {
            let g = choose|g: Seq<char>| #[trigger] reaches(fs, self.call_map@, func.label@, g) && names_reg_of(fs, g, x);
            let k = choose|k: int| 0 <= k < found.len() && #[trigger] fs[found[k] as int].label@ == g;
            let i = choose|i: int| #[trigger] func_at(fs, g, i) && names_reg(fs[i].blocks@, x);
            assert(func_at(fs, g, found[k] as int));
            lemma_kind_at(fs, g, i);
            assert(names_reg(fs[found[k] as int].blocks@, x));
        }
    }

    /// The callee-saved registers that calling `func` may overwrite: those
    /// named by `func` and by every function it reaches through functions
    /// with a body. Nothing for an outside function.
    pub fn draw_callee_used(&self, func: &Func) -> (r: Vec<Reg>)
        requires
            self.wf(),
            self.calls_resolved(),
            func.wf(),
            !func.is_extern ==> has_calls(self.call_map@, func.label@),
        ensures
            is_set(r@),
            func.is_extern ==> r@.len() == 0,
            !func.is_extern ==> forall|x: Reg| #[trigger] r@.contains(x)
                <==> x.spec_is_callee_save() && named_in_reach(self.name_func@, self.call_map@, *func, x),
    {
        if func.is_extern {
            return Vec::new();
        }
        let base = func.draw_used_callees();
        let (found, _) = self.reach_set(func);
        let r = self.union_over(&found, base, false);
        proof {
            assert forall|x: Reg| #[trigger] r@.contains(x)
                <==> x.spec_is_callee_save() && named_in_reach(self.name_func@, self.call_map@, *func, x) by {
                self.lemma_found_names(func, found@, x);
            }
        }
        r
    }

    /// The caller-saved registers that calling `func` may overwrite: all of
    /// them when it is an outside function or reaches one, else those named
    /// by `func` and by every function it reaches.
    pub fn draw_caller_used(&self, func: &Func) -> (r: Vec<Reg>)
        requires
            self.wf(),
            self.calls_resolved(),
            func.wf(),
            !func.is_extern ==> has_calls(self.call_map@, func.label@),
        ensures
            is_set(r@),
            func.is_extern || reaches_extern(self.name_func@, self.call_map@, func.label@) ==>
                forall|x: Reg| #[trigger] r@.contains(x) <==> x.spec_is_caller_save() && x.spec_has_own_class(),
            !func.is_extern && !reaches_extern(self.name_func@, self.call_map@, func.label@) ==>
                forall|x: Reg| #[trigger] r@.contains(x)
                    <==> x.spec_is_caller_save() && named_in_reach(self.name_func@, self.call_map@, *func, x),
    {
        if func.is_extern {
            return Reg::get_all_callers_saved();
        }
        let (found, saw_extern) = self.reach_set(func);
        if saw_extern {
            return Reg::get_all_callers_saved();
        }
        let base = func.draw_used_callers();
        let r = self.union_over(&found, base, true);
        proof {
            assert forall|x: Reg| #[trigger] r@.contains(x)
                <==> x.spec_is_caller_save() && named_in_reach(self.name_func@, self.call_map@, *func, x) by {
                self.lemma_found_names(func, found@, x);
            }
        }
        r
    }

    /// For each function (by name), the callee-saved registers a call to
    /// it may overwrite, the stack pointer left out.
    pub fn build_callee_used(&self) -> (r: Vec<(String, Vec<Reg>)>)
        requires
            self.wf(),
            self.calls_resolved(),
        ensures
            r@.len() == self.name_func@.len(),
            forall|i: int| 0 <= i < r@.len() ==> {
                &&& (#[trigger] r@[i]).0@ == self.name_func@[i].label@
                &&& is_set(r@[i].1@)
                &&& forall|x: Reg| #[trigger] r@[i].1@.contains(x) <==> !self.name_func@[i].is_extern
                    && x.spec_is_callee_save() && named_in_reach(self.name_func@, self.call_map@, self.name_func@[i], x)
                    && x != Reg::spec_sp()
            },
    {
        let mut out: Vec<(String, Vec<Reg>)> = Vec::new();
        let n = self.name_func.len();
        let mut i: usize = 0;
        while i < n
            invariant
                n == self.name_func@.len(),
                self.wf(),
                self.calls_resolved(),
                i <= n,
                out@.len() == i,
                forall|k: int| 0 <= k < i ==> {
                    &&& (#[trigger] out@[k]).0@ == self.name_func@[k].label@
                    &&& is_set(out@[k].1@)
                    &&& forall|x: Reg| #[trigger] out@[k].1@.contains(x) <==> !self.name_func@[k].is_extern
                        && x.spec_is_callee_save() && named_in_reach(self.name_func@, self.call_map@, self.name_func@[k], x)
                        && x != Reg::spec_sp()
                },
            decreases n - i,
        {
            assert(self.name_func@[i as int].wf());
            let mut used = self.draw_callee_used(&self.name_func[i]);
            set_remove(&mut used, Reg::get_sp());
            out.push((self.name_func[i].label.clone(), used));
            i += 1;
        }
        out
    }

    /// For each function (by name), the caller-saved registers a call to it
    /// may overwrite, the return address left out.
    pub fn build_caller_used(&self) -> (r: Vec<(String, Vec<Reg>)>)
        requires
            self.wf(),
            self.calls_resolved(),
        ensures
            r@.len() == self.name_func@.len(),
            forall|i: int| 0 <= i < r@.len() ==> {
                &&& (#[trigger] r@[i]).0@ == self.name_func@[i].label@
                &&& is_set(r@[i].1@)
                &&& forall|x: Reg| #[trigger] r@[i].1@.contains(x) <==> x.spec_is_caller_save() && x != Reg::spec_ra()
                    && (if self.name_func@[i].is_extern || reaches_extern(self.name_func@, self.call_map@, self.name_func@[i].label@) {
                        x.spec_has_own_class()
                    } else {
                        named_in_reach(self.name_func@, self.call_map@, self.name_func@[i], x)
                    })
            },
    {
        let mut out: Vec<(String, Vec<Reg>)> = Vec::new();
        let n = self.name_func.len();
        let mut i: usize = 0;
        while i < n
            invariant
                n == self.name_func@.len(),
                self.wf(),
                self.calls_resolved(),
                i <= n,
                out@.len() == i,
                forall|k: int| 0 <= k < i ==> {
                    &&& (#[trigger] out@[k]).0@ == self.name_func@[k].label@
                    &&& is_set(out@[k].1@)
                    &&& forall|x: Reg| #[trigger] out@[k].1@.contains(x) <==> x.spec_is_caller_save() && x != Reg::spec_ra()
                        && (if self.name_func@[k].is_extern || reaches_extern(self.name_func@, self.call_map@, self.name_func@[k].label@) {
                            x.spec_has_own_class()
                        } else {
                            named_in_reach(self.name_func@, self.call_map@, self.name_func@[k], x)
                        })
                },
            decreases n - i,
        {
            assert(self.name_func@[i as int].wf());
            let mut used = self.draw_caller_used(&self.name_func[i]);
            set_remove(&mut used, Reg::get_ra());
            out.push((self.name_func[i].label.clone(), used));
            i += 1;
        }
        out
    }
}

} // verus!
