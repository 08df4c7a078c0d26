use vstd::prelude::*;
use vstd::set_lib::{set_int_range, lemma_int_range, lemma_len_subset};
use crate::block::BB;
use crate::func::{Func, blocks_ok};
use crate::instrs::{LIRInst, contains_reg};
use crate::operand::{Reg, ScalarType, FLOAT_BASE};
use crate::regset::{is_set, set_insert, set_insert_all, set_remove_all, copy_regs};

verus! {

/// `r` is read by some instruction of `s[i..]` before any instruction of
/// `s[i..]` writes it (an instruction reads its sources before it writes).
pub open spec fn exposed_from(s: Seq<LIRInst>, i: int, r: Reg) -> bool {
    exists|k: int| i <= k < s.len() && #[trigger] s[k].spec_reg_use().contains(r)
        && forall|j: int| i <= j < k ==> !(#[trigger] s[j].spec_reg_def().contains(r))
}

/// Whether `inst` reads or writes `r`.
pub open spec fn touches(inst: LIRInst, r: Reg) -> bool {
    inst.spec_reg_def().contains(r) || inst.spec_reg_use().contains(r)
}

/// The first instruction of `s[i..]` that names `r` writes it and does not read it.
pub open spec fn killed_from(s: Seq<LIRInst>, i: int, r: Reg) -> bool {
    exists|k: int| i <= k < s.len() && #[trigger] s[k].spec_reg_def().contains(r) && !s[k].spec_reg_use().contains(r)
        && forall|j: int| i <= j < k ==> !touches(#[trigger] s[j], r)
}

/// Control may flow from block `p` to block `s`: `p` is a predecessor of `s`.
pub open spec fn edge(blocks: Seq<BB>, p: int, s: int) -> bool {
    0 <= p < blocks.len() && 0 <= s < blocks.len() && blocks[s].in_edge@.contains(p as usize)
}

/// Block `b` reads `r` before it writes it.
pub open spec fn exposes(blocks: Seq<BB>, b: int, r: Reg) -> bool {
    exposed_from(blocks[b].insts@, 0, r)
}

/// Block `b` writes `r` before it reads it.
pub open spec fn kills(blocks: Seq<BB>, b: int, r: Reg) -> bool {
    killed_from(blocks[b].insts@, 0, r)
}

/// `path` follows edges from its first block to a block that reads `r`,
/// and none of the blocks before the last writes `r` before reading it.
pub open spec fn live_path(blocks: Seq<BB>, r: Reg, path: Seq<int>) -> bool
    decreases path.len(),
{
    if path.len() == 0 {
        false
    } else if path.len() == 1 {
        0 <= path[0] < blocks.len() && exposes(blocks, path[0], r)
    } else {
        &&& edge(blocks, path[0], path[1])
        &&& !kills(blocks, path[0], r)
        &&& live_path(blocks, r, path.drop_first())
    }
}

/// The value of `r` on entry to block `b` may be read later.
pub open spec fn live_into(blocks: Seq<BB>, b: int, r: Reg) -> bool {
    exists|path: Seq<int>| #[trigger] live_path(blocks, r, path) && path[0] == b
}

/// The value of `r` on exit from block `b` may be read later.
pub open spec fn live_out_of(blocks: Seq<BB>, b: int, r: Reg) -> bool {
    exists|s: int| #[trigger] edge(blocks, b, s) && live_into(blocks, s, r)
}

/// Everything of a block but its four liveness sets.
pub open spec fn same_but_live(a: BB, b: BB) -> bool {
    &&& a.label == b.label
    &&& a.func_label == b.func_label
    &&& a.showed == b.showed
    &&& a.insts@ == b.insts@
    &&& a.in_edge@ == b.in_edge@
    &&& a.out_edge@ == b.out_edge@
    &&& a.reg_intervals@ == b.reg_intervals@
    &&& a.phis@ == b.phis@
}

/// The liveness sets of every block are what the flow of the function makes them.
pub open spec fn live_sets_exact(blocks: Seq<BB>) -> bool {
    forall|b: int| 0 <= b < blocks.len() ==> {
        &&& is_set((#[trigger] blocks[b]).live_use@)
        &&& is_set(blocks[b].live_def@)
        &&& is_set(blocks[b].live_in@)
        &&& is_set(blocks[b].live_out@)
        &&& forall|r: Reg| #[trigger] blocks[b].live_use@.contains(r) <==> exposes(blocks, b, r)
        &&& forall|r: Reg| #[trigger] blocks[b].live_def@.contains(r) <==> kills(blocks, b, r)
        &&& forall|r: Reg| #[trigger] blocks[b].live_in@.contains(r) <==> live_into(blocks, b, r)
        &&& forall|r: Reg| #[trigger] blocks[b].live_out@.contains(r) <==> live_out_of(blocks, b, r)
    }
}

pub proof fn lemma_use_def_step(s: Seq<LIRInst>, i: int, r: Reg)
    requires
        0 <= i < s.len(),
    ensures
        exposed_from(s, i, r) <==> (s[i].spec_reg_use().contains(r)
            || (!s[i].spec_reg_def().contains(r) && exposed_from(s, i + 1, r))),
        killed_from(s, i, r) <==> (!s[i].spec_reg_use().contains(r)
            && (s[i].spec_reg_def().contains(r) || killed_from(s, i + 1, r))),
{
    if exposed_from(s, i, r) {
        let k = choose|k: int| i <= k < s.len() && #[trigger] s[k].spec_reg_use().contains(r)
            && forall|j: int| i <= j < k ==> !(#[trigger] s[j].spec_reg_def().contains(r));
        if k > i {
            assert(!s[i].spec_reg_def().contains(r));
            assert(exposed_from(s, i + 1, r));
        }
    }
    if s[i].spec_reg_use().contains(r) {
        assert(exposed_from(s, i, r));
    } else if !s[i].spec_reg_def().contains(r) && exposed_from(s, i + 1, r) {
        let k = choose|k: int| i + 1 <= k < s.len() && #[trigger] s[k].spec_reg_use().contains(r)
            && forall|j: int| i + 1 <= j < k ==> !(#[trigger] s[j].spec_reg_def().contains(r));
        assert forall|j: int| i <= j < k implies !(#[trigger] s[j].spec_reg_def().contains(r)) by {
            if j > i {
            }
        }
        assert(exposed_from(s, i, r));
    }
    if killed_from(s, i, r) {
        let k = choose|k: int| i <= k < s.len() && #[trigger] s[k].spec_reg_def().contains(r) && !s[k].spec_reg_use().contains(r)
            && forall|j: int| i <= j < k ==> !touches(#[trigger] s[j], r);
        if k > i {
            assert(!touches(s[i], r));
            assert(killed_from(s, i + 1, r));
        }
    }
    if !s[i].spec_reg_use().contains(r) && s[i].spec_reg_def().contains(r) {
        assert(killed_from(s, i, r));
    } else if !s[i].spec_reg_use().contains(r) && killed_from(s, i + 1, r) {
        let k = choose|k: int| i + 1 <= k < s.len() && #[trigger] s[k].spec_reg_def().contains(r) && !s[k].spec_reg_use().contains(r)
            && forall|j: int| i + 1 <= j < k ==> !touches(#[trigger] s[j], r);
        assert(!s[i].spec_reg_def().contains(r));
        assert forall|j: int| i <= j < k implies !touches(#[trigger] s[j], r) by {
            if j > i {
            }
        }
        assert(killed_from(s, i, r));
    }
}

/// The registers `insts` reads before writing them, and those it writes
/// before reading them.
fn local_use_def(insts: &Vec<LIRInst>) -> (r: (Vec<Reg>, Vec<Reg>))
    requires
        forall|i: int| 0 <= i < insts@.len() ==> #[trigger] insts@[i].def_well_formed(),
    ensures
        is_set(r.0@),
        is_set(r.1@),
        forall|x: Reg| #[trigger] r.0@.contains(x) <==> exposed_from(insts@, 0, x),
        forall|x: Reg| #[trigger] r.1@.contains(x) <==> killed_from(insts@, 0, x),
{
    let mut live_use: Vec<Reg> = Vec::new();
    let mut live_def: Vec<Reg> = Vec::new();
    let mut idx: usize = insts.len();
    while idx > 0
        invariant
            idx <= insts@.len(),
            forall|i: int| 0 <= i < insts@.len() ==> #[trigger] insts@[i].def_well_formed(),
            is_set(live_use@),
            is_set(live_def@),
            forall|x: Reg| #[trigger] live_use@.contains(x) <==> exposed_from(insts@, idx as int, x),
            forall|x: Reg| #[trigger] live_def@.contains(x) <==> killed_from(insts@, idx as int, x),
        decreases idx,
    {
        let i = idx - 1;
        assert(insts@[i as int].def_well_formed());
        let defs = insts[i].get_reg_def();
        let uses = insts[i].get_reg_use();
        set_remove_all(&mut live_use, &defs);
        set_insert_all(&mut live_def, &defs);
        set_remove_all(&mut live_def, &uses);
        set_insert_all(&mut live_use, &uses);
        proof {
            assert forall|x: Reg| #[trigger] live_use@.contains(x) <==> exposed_from(insts@, i as int, x) by {
                lemma_use_def_step(insts@, i as int, x);
            }
            assert forall|x: Reg| #[trigger] live_def@.contains(x) <==> killed_from(insts@, i as int, x) by {
                lemma_use_def_step(insts@, i as int, x);
            }
        }
        idx = i;
    }
    (live_use, live_def)
}

proof fn lemma_code_bounds(b: int, i: int, n: int, m: int)
    by (nonlinear_arith)
    requires
        0 <= b < n,
        0 <= i < m,
    ensures
        0 <= b * m + i < n * m,
{
    assert(b * m <= (n - 1) * m);
}

proof fn lemma_code_inj(b1: int, i1: int, b2: int, i2: int, m: int)
    by (nonlinear_arith)
    requires
        0 <= b1,
        0 <= b2,
        0 <= i1 < m,
        0 <= i2 < m,
        b1 * m + i1 == b2 * m + i2,
    ensures
        b1 == b2,
        i1 == i2,
{
    if b1 < b2 {
        assert(b2 * m >= (b1 + 1) * m);
    } else if b2 < b1 {
        assert(b1 * m >= (b2 + 1) * m);
    }
}

/// A queue of distinct (block, item) pairs over `n` blocks and the
/// items of `univ` has at most `n * |univ|` entries.
pub proof fn lemma_queue_bound<T>(q: Seq<(usize, T)>, n: int, univ: Seq<T>)
    requires
        n >= 0,
        q.no_duplicates(),
        forall|k: int| 0 <= k < q.len() ==> (#[trigger] q[k]).0 < n && univ.contains(q[k].1),
    ensures
        q.len() <= n * univ.len(),
{
    let m = univ.len() as int;
    if q.len() == 0 {
        assert(0 <= n * m) by (nonlinear_arith) requires n >= 0, m >= 0;
        return;
    }
    assert(n > 0) by {
        assert(q[0].0 < n);
    }
    let codes = q.map_values(|x: (usize, T)| x.0 as int * m + univ.index_of(x.1));
    assert forall|a: int, b: int| 0 <= a < codes.len() && 0 <= b < codes.len() && a != b implies codes[a] != codes[b] by {
        let ia = univ.index_of(q[a].1);
        let ib = univ.index_of(q[b].1);
        assert(univ.contains(q[a].1));
        assert(univ.contains(q[b].1));
        assert(0 <= ia < m && univ[ia] == q[a].1);
        assert(0 <= ib < m && univ[ib] == q[b].1);
        if codes[a] == codes[b] {
            lemma_code_inj(q[a].0 as int, ia, q[b].0 as int, ib, m);
            assert(q[a] == q[b]);
        }
    }
    assert(codes.no_duplicates());
    codes.unique_seq_to_set();
    lemma_int_range(0, n * m);
    assert forall|c: int| codes.to_set().contains(c) implies set_int_range(0, n * m).contains(c) by {
        let k = choose|k: int| 0 <= k < codes.len() && codes[k] == c;
        let ik = univ.index_of(q[k].1);
        assert(univ.contains(q[k].1));
        lemma_code_bounds(q[k].0 as int, ik, n, m);
    }
    lemma_len_subset(codes.to_set(), set_int_range(0, n * m));
}

proof fn lemma_prepend_path(blocks: Seq<BB>, r: Reg, p: int, path: Seq<int>)
    requires
        live_path(blocks, r, path),
        edge(blocks, p, path[0]),
        !kills(blocks, p, r),
    ensures
        live_path(blocks, r, seq![p] + path),
        (seq![p] + path)[0] == p,
{
    let np = seq![p] + path;
    assert(np.drop_first() =~= path);
    assert(np[1] == path[0]);
}

/// Once every edge carries what its target needs, everything with a path
/// is in the computed sets.
proof fn lemma_complete(blocks: Seq<BB>, ins: Seq<Vec<Reg>>, outs: Seq<Vec<Reg>>, r: Reg, path: Seq<int>)
    requires
        ins.len() == blocks.len(),
        outs.len() == blocks.len(),
        live_path(blocks, r, path),
        forall|k: int, x: Reg| 0 <= k < blocks.len() && exposes(blocks, k, x) ==> #[trigger] ins[k]@.contains(x),
        forall|k: int, x: Reg| 0 <= k < blocks.len() && outs[k]@.contains(x) && !kills(blocks, k, x) ==> #[trigger] ins[k]@.contains(x),
        forall|p: int, s: int, x: Reg| #![trigger edge(blocks, p, s), ins[s]@.contains(x)]
            edge(blocks, p, s) && ins[s]@.contains(x) ==> outs[p]@.contains(x),
    ensures
        ins[path[0]]@.contains(r),
    decreases path.len(),
{
    if path.len() == 1 {
    } else {
        let rest = path.drop_first();
        lemma_complete(blocks, ins, outs, r, rest);
        assert(rest[0] == path[1]);
        assert(edge(blocks, path[0], path[1]));
        assert(outs[path[0]]@.contains(r));
    }
}

impl Func {
    /// Computes, for every block, the registers it reads before writing
    /// (`live_use`), writes before reading (`live_def`), and those live on
    /// entry (`live_in`) and on exit (`live_out`), by a work list over the
    /// predecessor edges.
    #[verifier::rlimit(50)]
    pub fn calc_live_base(&mut self)
        requires
            old(self).wf(),
        ensures
            final(self).wf(),
            final(self).same_but_blocks(old(self)),
            final(self).blocks@.len() == old(self).blocks@.len(),
            forall|b: int| 0 <= b < final(self).blocks@.len()
                ==> same_but_live(#[trigger] final(self).blocks@[b], old(self).blocks@[b]),
            live_sets_exact(final(self).blocks@),
    {
        let n = self.blocks.len();
        let mut uses: Vec<Vec<Reg>> = Vec::new();
        let mut defs: Vec<Vec<Reg>> = Vec::new();
        let mut ins: Vec<Vec<Reg>> = Vec::new();
        let mut outs: Vec<Vec<Reg>> = Vec::new();
        let mut queue: Vec<(usize, Reg)> = Vec::new();
        let ghost mut univ: Seq<Reg> = Seq::empty();
        let ghost blocks = self.blocks@;
        let mut b: usize = 0;
        while b < n
            invariant
                n == blocks.len(),
                blocks == self.blocks@,
                *self == *old(self),
                blocks_ok(blocks),
                b <= n,
                uses@.len() == b,
                defs@.len() == b,
                ins@.len() == b,
                outs@.len() == b,
                forall|k: int| 0 <= k < b ==> is_set(#[trigger] uses@[k]@),
                forall|k: int| 0 <= k < b ==> is_set(#[trigger] defs@[k]@),
                forall|k: int| 0 <= k < b ==> is_set(#[trigger] ins@[k]@),
                forall|k: int| 0 <= k < b ==> (#[trigger] outs@[k]@).len() == 0,
                forall|k: int, x: Reg| 0 <= k < b ==> (#[trigger] uses@[k]@.contains(x) <==> exposes(blocks, k, x)),
                forall|k: int, x: Reg| 0 <= k < b ==> (#[trigger] ins@[k]@.contains(x) <==> exposes(blocks, k, x)),
                forall|k: int, x: Reg| 0 <= k < b ==> (#[trigger] defs@[k]@.contains(x) <==> kills(blocks, k, x)),
                forall|k: int, x: Reg| 0 <= k < b && #[trigger] ins@[k]@.contains(x) ==> univ.contains(x),
                queue@.no_duplicates(),
                forall|j: int| 0 <= j < queue@.len() ==> (#[trigger] queue@[j]).0 < b
                    && ins@[queue@[j].0 as int]@.contains(queue@[j].1),
                forall|k: int, x: Reg| 0 <= k < b && #[trigger] ins@[k]@.contains(x) ==> queue@.contains((k as usize, x)),
            decreases n - b,
        {
            proof {
                assert forall|i: int| 0 <= i < blocks[b as int].insts@.len() implies #[trigger] blocks[b as int].insts@[i].def_well_formed() by {
                    assert(blocks[b as int].insts@[i].def_well_formed());
                }
            }
            let (u, d) = local_use_def(&self.blocks[b].insts);
            let ghost q0 = queue@;
            let mut j: usize = 0;
            while j < u.len()
                invariant
                    b < n,
                    j <= u@.len(),
                    is_set(u@),
                    q0.no_duplicates(),
                    forall|k: int| 0 <= k < q0.len() ==> (#[trigger] q0[k]).0 < b,
                    queue@.no_duplicates(),
                    queue@.len() == q0.len() + j,
                    forall|k: int| 0 <= k < q0.len() ==> queue@[k] == q0[k],
                    forall|k: int| q0.len() <= k < queue@.len() ==> (#[trigger] queue@[k]) == (b, u@[k - q0.len()]),
                decreases u@.len() - j,
            {
                let ghost before = queue@;
                queue.push((b, u[j]));
                proof {
                    assert forall|a: int, c: int| 0 <= a < queue@.len() && 0 <= c < queue@.len() && a != c
                        implies queue@[a] != queue@[c] by {
                        if a == before.len() && c < q0.len() {
                            assert(queue@[c] == q0[c]);
                            assert(q0[c].0 < b);
                        } else if c == before.len() && a < q0.len() {
                            assert(queue@[a] == q0[a]);
                            assert(q0[a].0 < b);
                        } else if a == before.len() && c >= q0.len() {
                            assert(u@[c - q0.len()] != u@[j as int]);
                        } else if c == before.len() && a >= q0.len() {
                            assert(u@[a - q0.len()] != u@[j as int]);
                        } else {
                            assert(before[a] != before[c]);
                        }
                    }
                }
                j += 1;
            }
            let ghost univ0 = univ;
            proof {
                univ = univ + u@;
            }
            ins.push(copy_regs(&u));
            outs.push(Vec::new());
            uses.push(u);
            defs.push(d);
            proof {
                assert forall|k: int, x: Reg| 0 <= k < b + 1 && #[trigger] ins@[k]@.contains(x) implies univ.contains(x) by {
                    if k < b {
                        let t = choose|t: int| 0 <= t < univ0.len() && univ0[t] == x;
                        assert(univ[t] == x);
                    } else {
                        let t = choose|t: int| 0 <= t < u@.len() && u@[t] == x;
                        assert(univ[univ.len() - u@.len() + t] == x);
                    }
                }
                assert forall|jj: int| 0 <= jj < queue@.len() implies (#[trigger] queue@[jj]).0 < b + 1
                    && ins@[queue@[jj].0 as int]@.contains(queue@[jj].1) by {
                    if jj >= q0.len() {
                        assert(u@[jj - q0.len()] == queue@[jj].1);
                    } else {
                        assert(queue@[jj] == q0[jj]);
                    }
                }
                assert forall|k: int, x: Reg| 0 <= k < b + 1 && #[trigger] ins@[k]@.contains(x) implies queue@.contains((k as usize, x)) by {
                    if k < b {
                        let t = choose|t: int| 0 <= t < q0.len() && q0[t] == (k as usize, x);
                        assert(queue@[t] == (k as usize, x));
                    } else {
                        let t = choose|t: int| 0 <= t < u@.len() && u@[t] == x;
                        assert(queue@[q0.len() + t] == (k as usize, x));
                    }
                }
            }
            b += 1;
        }
        proof {
            lemma_queue_bound(queue@, n as int, univ);
            assert forall|k: int| 0 <= k < n implies is_set(#[trigger] outs@[k]@) by {
                assert(outs@[k]@.len() == 0);
            }
            assert forall|k: int, x: Reg| 0 <= k < n implies (#[trigger] ins@[k]@.contains(x) <==>
                (exposes(blocks, k, x) || (outs@[k]@.contains(x) && !kills(blocks, k, x)))) by {
                assert(outs@[k]@.len() == 0);
            }
            assert forall|k: int, x: Reg| 0 <= k < n && #[trigger] ins@[k]@.contains(x) implies live_into(blocks, k, x) by {
                assert(live_path(blocks, x, seq![k]));
            }
            assert forall|p: int, s: int, x: Reg| #![trigger edge(blocks, p, s), ins@[s]@.contains(x)]
                edge(blocks, p, s) && ins@[s]@.contains(x) implies outs@[p]@.contains(x)
                    || queue@.subrange(0, queue@.len() as int).contains((s as usize, x)) by {
                assert(queue@.subrange(0, queue@.len() as int) =~= queue@);
            }
        }
        let mut head: usize = 0;
        while head < queue.len()
            invariant
                n == blocks.len(),
                blocks == self.blocks@,
                *self == *old(self),
                blocks_ok(blocks),
                uses@.len() == n,
                defs@.len() == n,
                ins@.len() == n,
                outs@.len() == n,
                forall|k: int| 0 <= k < n ==> is_set(#[trigger] uses@[k]@),
                forall|k: int| 0 <= k < n ==> is_set(#[trigger] defs@[k]@),
                forall|k: int| 0 <= k < n ==> is_set(#[trigger] ins@[k]@),
                forall|k: int| 0 <= k < n ==> is_set(#[trigger] outs@[k]@),
                forall|k: int, x: Reg| 0 <= k < n ==> (#[trigger] uses@[k]@.contains(x) <==> exposes(blocks, k, x)),
                forall|k: int, x: Reg| 0 <= k < n ==> (#[trigger] defs@[k]@.contains(x) <==> kills(blocks, k, x)),
                forall|k: int, x: Reg| 0 <= k < n && #[trigger] ins@[k]@.contains(x) ==> univ.contains(x),
                forall|k: int, x: Reg| 0 <= k < n ==> (#[trigger] ins@[k]@.contains(x) <==>
                    (exposes(blocks, k, x) || (outs@[k]@.contains(x) && !kills(blocks, k, x)))),
                forall|k: int, x: Reg| 0 <= k < n && #[trigger] ins@[k]@.contains(x) ==> live_into(blocks, k, x),
                forall|k: int, x: Reg| 0 <= k < n && #[trigger] outs@[k]@.contains(x) ==> live_out_of(blocks, k, x),
                queue@.no_duplicates(),
                forall|j: int| 0 <= j < queue@.len() ==> (#[trigger] queue@[j]).0 < n
                    && ins@[queue@[j].0 as int]@.contains(queue@[j].1),
                head <= queue@.len(),
                queue@.len() <= n * univ.len(),
                forall|p: int, s: int, x: Reg| #![trigger edge(blocks, p, s), ins@[s]@.contains(x)]
                    edge(blocks, p, s) && ins@[s]@.contains(x) ==> outs@[p]@.contains(x)
                        || queue@.subrange(head as int, queue@.len() as int).contains((s as usize, x)),
            decreases n * univ.len() - head,
        {
            let (s, r) = queue[head];
            let ghost h0 = head;
            head += 1;
            proof {
                assert(ins@[s as int]@.contains(r));
                assert forall|p: int, s2: int, x: Reg| #![trigger edge(blocks, p, s2), ins@[s2]@.contains(x)]
                    edge(blocks, p, s2) && ins@[s2]@.contains(x) implies outs@[p]@.contains(x)
                        || queue@.subrange(head as int, queue@.len() as int).contains((s2 as usize, x))
                        || (s2 == s && x == r && exists|t: int| 0 <= t < blocks[s as int].in_edge@.len() && blocks[s as int].in_edge@[t] == p) by {
                    if !outs@[p]@.contains(x) {
                        let t = choose|t: int| 0 <= t < queue@.len() - h0 && queue@.subrange(h0 as int, queue@.len() as int)[t] == (s2 as usize, x);
                        if t == 0 {
                            assert(queue@[h0 as int] == (s2 as usize, x));
                            let tt = choose|tt: int| 0 <= tt < blocks[s as int].in_edge@.len() && blocks[s as int].in_edge@[tt] == p as usize;
                        } else {
                            assert(queue@.subrange(head as int, queue@.len() as int)[t - 1] == (s2 as usize, x));
                        }
                    }
                }
            }
            let preds = self.blocks[s].in_edge.len();
            let mut j: usize = 0;
            while j < preds
                invariant
                    n == blocks.len(),
                    blocks == self.blocks@,
                    *self == *old(self),
                    blocks_ok(blocks),
                    s < n,
                    preds == blocks[s as int].in_edge@.len(),
                    j <= preds,
                    ins@[s as int]@.contains(r),
                    uses@.len() == n,
                    defs@.len() == n,
                    ins@.len() == n,
                    outs@.len() == n,
                    forall|k: int| 0 <= k < n ==> is_set(#[trigger] uses@[k]@),
                    forall|k: int| 0 <= k < n ==> is_set(#[trigger] defs@[k]@),
                    forall|k: int| 0 <= k < n ==> is_set(#[trigger] ins@[k]@),
                    forall|k: int| 0 <= k < n ==> is_set(#[trigger] outs@[k]@),
                    forall|k: int, x: Reg| 0 <= k < n ==> (#[trigger] uses@[k]@.contains(x) <==> exposes(blocks, k, x)),
                    forall|k: int, x: Reg| 0 <= k < n ==> (#[trigger] defs@[k]@.contains(x) <==> kills(blocks, k, x)),
                    forall|k: int, x: Reg| 0 <= k < n && #[trigger] ins@[k]@.contains(x) ==> univ.contains(x),
                    forall|k: int, x: Reg| 0 <= k < n ==> (#[trigger] ins@[k]@.contains(x) <==>
                        (exposes(blocks, k, x) || (outs@[k]@.contains(x) && !kills(blocks, k, x)))),
                    forall|k: int, x: Reg| 0 <= k < n && #[trigger] ins@[k]@.contains(x) ==> live_into(blocks, k, x),
                    forall|k: int, x: Reg| 0 <= k < n && #[trigger] outs@[k]@.contains(x) ==> live_out_of(blocks, k, x),
                    queue@.no_duplicates(),
                    forall|jj: int| 0 <= jj < queue@.len() ==> (#[trigger] queue@[jj]).0 < n
                        && ins@[queue@[jj].0 as int]@.contains(queue@[jj].1),
                    1 <= head <= queue@.len(),
                    queue@.len() <= n * univ.len(),
                    forall|t: int| 0 <= t < j ==> outs@[blocks[s as int].in_edge@[t] as int]@.contains(r),
                    forall|p: int, s2: int, x: Reg| #![trigger edge(blocks, p, s2), ins@[s2]@.contains(x)]
                        edge(blocks, p, s2) && ins@[s2]@.contains(x) ==> outs@[p]@.contains(x)
                            || queue@.subrange(head as int, queue@.len() as int).contains((s2 as usize, x))
                            || (s2 == s && x == r && exists|t: int| j <= t < preds && blocks[s as int].in_edge@[t] == p),
                decreases preds - j,
            {
                let p = self.blocks[s].in_edge[j];
                assert(p < n) by {
                    assert(blocks[s as int].in_edge@[j as int] < blocks.len());
                }
                let ghost outs_before = outs@;
                let ghost ins_before = ins@;
                let ghost queue_before = queue@;
                let added = set_insert(&mut outs[p], r);
                proof {
                    assert(edge(blocks, p as int, s as int)) by {
                        assert(blocks[s as int].in_edge@[j as int] == p);
                    }
                }
                if added && !contains_reg(&defs[p], &r) {
                    let added2 = set_insert(&mut ins[p], r);
                    if added2 {
                        proof {
                            assert(!queue@.contains((p, r))) by {
                                if queue@.contains((p, r)) {
                                    let t = choose|t: int| 0 <= t < queue@.len() && queue@[t] == (p, r);
                                    assert(ins_before[p as int]@.contains(r));
                                }
                            }
                        }
                        queue.push((p, r));
                        proof {
                            assert forall|a: int, c: int| 0 <= a < queue@.len() && 0 <= c < queue@.len() && a != c
                                implies queue@[a] != queue@[c] by {
                                if a == queue_before.len() {
                                    assert(queue_before.contains(queue@[c]) || c == a);
                                } else if c == queue_before.len() {
                                    assert(queue_before.contains(queue@[a]) || c == a);
                                }
                            }
                            lemma_queue_bound(queue@, n as int, univ);
                        }
                    }
                }
                proof {
                    let ghost lp = choose|path: Seq<int>| #[trigger] live_path(blocks, r, path) && path[0] == s as int;
                    assert(live_into(blocks, s as int, r));
                    assert forall|k: int, x: Reg| 0 <= k < n && #[trigger] ins@[k]@.contains(x) implies live_into(blocks, k, x) by {
                        if k == p && x == r && !ins_before[k]@.contains(x) {
                            lemma_prepend_path(blocks, r, p as int, lp);
                            assert(live_path(blocks, r, seq![p as int] + lp));
                        } else {
                            assert(ins_before[k]@.contains(x));
                        }
                    }
                    assert forall|k: int, x: Reg| 0 <= k < n && #[trigger] outs@[k]@.contains(x) implies live_out_of(blocks, k, x) by {
                        if k == p && x == r {
                            assert(edge(blocks, p as int, s as int));
                        } else {
                            assert(outs_before[k]@.contains(x));
                        }
                    }
                    assert forall|k: int, x: Reg| 0 <= k < n && #[trigger] ins@[k]@.contains(x) implies univ.contains(x) by {
                        if !ins_before[k]@.contains(x) {
                            assert(ins_before[s as int]@.contains(r));
                        }
                    }
                    assert forall|jj: int| 0 <= jj < queue@.len() implies (#[trigger] queue@[jj]).0 < n
                        && ins@[queue@[jj].0 as int]@.contains(queue@[jj].1) by {
                        if jj < queue_before.len() {
                            assert(queue@[jj] == queue_before[jj]);
                            assert(ins_before[queue@[jj].0 as int]@.contains(queue@[jj].1));
                        }
                    }
                    assert forall|t: int| 0 <= t < j + 1 implies outs@[blocks[s as int].in_edge@[t] as int]@.contains(r) by {
                        if t < j {
                            assert(outs_before[blocks[s as int].in_edge@[t] as int]@.contains(r));
                        }
                    }
                    assert forall|p2: int, s2: int, x: Reg| #![trigger edge(blocks, p2, s2), ins@[s2]@.contains(x)]
                        edge(blocks, p2, s2) && ins@[s2]@.contains(x) implies outs@[p2]@.contains(x)
                            || queue@.subrange(head as int, queue@.len() as int).contains((s2 as usize, x))
                            || (s2 == s && x == r && exists|t: int| j + 1 <= t < preds && blocks[s as int].in_edge@[t] == p2) by {
                        if ins_before[s2]@.contains(x) {
                            if outs_before[p2]@.contains(x) {
                                assert(outs@[p2]@.contains(x));
                            } else if queue_before.subrange(head as int, queue_before.len() as int).contains((s2 as usize, x)) {
                                let t = choose|t: int| 0 <= t < queue_before.len() - head && queue_before.subrange(head as int, queue_before.len() as int)[t] == (s2 as usize, x);
                                assert(queue@.subrange(head as int, queue@.len() as int)[t] == (s2 as usize, x));
                            } else {
                                let t = choose|t: int| j <= t < preds && blocks[s as int].in_edge@[t] == p2;
                                if t == j {
                                    assert(p2 == p);
                                    assert(outs@[p2]@.contains(x));
                                } else {
                                    assert(j + 1 <= t < preds);
                                }
                            }
                        } else {
                            assert(s2 == p && x == r);
                            assert(queue@[queue@.len() - 1] == (p, r));
                            assert(queue@.subrange(head as int, queue@.len() as int)[queue@.len() - 1 - head] == (s2 as usize, x));
                        }
                    }
                }
                j += 1;
            }
            proof {
                assert forall|p: int, s2: int, x: Reg| #![trigger edge(blocks, p, s2), ins@[s2]@.contains(x)]
                    edge(blocks, p, s2) && ins@[s2]@.contains(x) implies outs@[p]@.contains(x)
                        || queue@.subrange(head as int, queue@.len() as int).contains((s2 as usize, x)) by {
                    if s2 == s && x == r {
                        let t = choose|t: int| 0 <= t < preds && blocks[s as int].in_edge@[t] == p as usize;
                        assert(outs@[blocks[s as int].in_edge@[t] as int]@.contains(r));
                    }
                }
            }
        }
        proof {
            assert forall|k: int, x: Reg| 0 <= k < n implies (#[trigger] ins@[k]@.contains(x) <==> live_into(blocks, k, x)) by {
                if live_into(blocks, k, x) {
                    let path = choose|path: Seq<int>| #[trigger] live_path(blocks, x, path) && path[0] == k;
                    assert forall|p: int, s2: int, y: Reg| #![trigger edge(blocks, p, s2), ins@[s2]@.contains(y)]
                        edge(blocks, p, s2) && ins@[s2]@.contains(y) implies outs@[p]@.contains(y) by {
                        assert(!queue@.subrange(head as int, queue@.len() as int).contains((s2 as usize, y)));
                    }
                    lemma_complete(blocks, ins@, outs@, x, path);
                }
            }
            assert forall|k: int, x: Reg| 0 <= k < n implies (#[trigger] outs@[k]@.contains(x) <==> live_out_of(blocks, k, x)) by {
                if live_out_of(blocks, k, x) {
                    let s2 = choose|s2: int| #[trigger] edge(blocks, k, s2) && live_into(blocks, s2, x);
                    assert(ins@[s2]@.contains(x));
                    assert(!queue@.subrange(head as int, queue@.len() as int).contains((s2 as usize, x)));
                }
            }
        }
        let mut w: usize = 0;
        while w < n
            invariant
                n == blocks.len(),
                self.blocks@.len() == n,
                blocks == old(self).blocks@,
                self.same_but_blocks(old(self)),
                w <= n,
                uses@.len() == n,
                defs@.len() == n,
                ins@.len() == n,
                outs@.len() == n,
                forall|k: int| 0 <= k < n ==> same_but_live(#[trigger] self.blocks@[k], blocks[k]),
                forall|k: int| w <= k < n ==> #[trigger] self.blocks@[k] == blocks[k],
                forall|k: int| 0 <= k < w ==> {
                    &&& (#[trigger] self.blocks@[k]).live_use@ == uses@[k]@
                    &&& self.blocks@[k].live_def@ == defs@[k]@
                    &&& self.blocks@[k].live_in@ == ins@[k]@
                    &&& self.blocks@[k].live_out@ == outs@[k]@
                },
            decreases n - w,
        {
            self.blocks[w].live_use = copy_regs(&uses[w]);
            self.blocks[w].live_def = copy_regs(&defs[w]);
            self.blocks[w].live_in = copy_regs(&ins[w]);
            self.blocks[w].live_out = copy_regs(&outs[w]);
            w += 1;
        }
        proof {
            lemma_same_flow(blocks, self.blocks@);
        }
    }
}

/// Blocks that agree but for their liveness sets have the same flow.
pub proof fn lemma_same_flow(a: Seq<BB>, b: Seq<BB>)
    requires
        a.len() == b.len(),
        forall|k: int| 0 <= k < a.len() ==> same_but_live(#[trigger] b[k], a[k]),
    ensures
        forall|k: int, x: Reg| 0 <= k < a.len() ==> (exposes(a, k, x) <==> #[trigger] exposes(b, k, x)),
        forall|k: int, x: Reg| 0 <= k < a.len() ==> (kills(a, k, x) <==> #[trigger] kills(b, k, x)),
        forall|p: int, s: int| edge(a, p, s) <==> #[trigger] edge(b, p, s),
        forall|k: int, x: Reg| 0 <= k < a.len() ==> (live_into(a, k, x) <==> #[trigger] live_into(b, k, x)),
        forall|k: int, x: Reg| 0 <= k < a.len() ==> (live_out_of(a, k, x) <==> #[trigger] live_out_of(b, k, x)),
        blocks_ok(a) ==> blocks_ok(b),
{
    assert forall|k: int| 0 <= k < a.len() implies same_code(#[trigger] b[k], a[k]) by {
        assert(same_but_live(b[k], a[k]));
    }
    lemma_same_code_flow(a, b);
}

/// The instructions and edges of two blocks agree.
pub open spec fn same_code(a: BB, b: BB) -> bool {
    &&& a.insts@ == b.insts@
    &&& a.in_edge@ == b.in_edge@
    &&& a.out_edge@ == b.out_edge@
}

/// Blocks with the same instructions and edges have the same flow.
pub proof fn lemma_same_code_flow(a: Seq<BB>, b: Seq<BB>)
    requires
        a.len() == b.len(),
        forall|k: int| 0 <= k < a.len() ==> same_code(#[trigger] b[k], a[k]),
    ensures
        forall|k: int, x: Reg| 0 <= k < a.len() ==> (exposes(a, k, x) <==> #[trigger] exposes(b, k, x)),
        forall|k: int, x: Reg| 0 <= k < a.len() ==> (kills(a, k, x) <==> #[trigger] kills(b, k, x)),
        forall|p: int, s: int| edge(a, p, s) <==> #[trigger] edge(b, p, s),
        forall|k: int, x: Reg| 0 <= k < a.len() ==> (live_into(a, k, x) <==> #[trigger] live_into(b, k, x)),
        forall|k: int, x: Reg| 0 <= k < a.len() ==> (live_out_of(a, k, x) <==> #[trigger] live_out_of(b, k, x)),
        blocks_ok(a) ==> blocks_ok(b),
{
    assert forall|k: int, x: Reg| 0 <= k < a.len() implies (exposes(a, k, x) <==> #[trigger] exposes(b, k, x)) by {
        assert(same_code(b[k], a[k]));
    }
    assert forall|k: int, x: Reg| 0 <= k < a.len() implies (kills(a, k, x) <==> #[trigger] kills(b, k, x)) by {
        assert(same_code(b[k], a[k]));
    }
    assert forall|p: int, s: int| edge(a, p, s) <==> #[trigger] edge(b, p, s) by {
        if 0 <= s < a.len() {
            assert(same_code(b[s], a[s]));
        }
    }
    assert forall|x: Reg, path: Seq<int>| live_path(a, x, path) <==> #[trigger] live_path(b, x, path) by {
        lemma_same_path(a, b, x, path);
    }
    assert forall|k: int, x: Reg| 0 <= k < a.len() implies (live_into(a, k, x) <==> #[trigger] live_into(b, k, x)) by {
        if live_into(a, k, x) {
            let path = choose|path: Seq<int>| #[trigger] live_path(a, x, path) && path[0] == k;
            assert(live_path(b, x, path));
        }
        if live_into(b, k, x) {
            let path = choose|path: Seq<int>| #[trigger] live_path(b, x, path) && path[0] == k;
            assert(live_path(a, x, path));
        }
    }
    assert forall|k: int, x: Reg| 0 <= k < a.len() implies (live_out_of(a, k, x) <==> #[trigger] live_out_of(b, k, x)) by {
        if live_out_of(a, k, x) {
            let s = choose|s: int| #[trigger] edge(a, k, s) && live_into(a, s, x);
            assert(edge(b, k, s));
        }
        if live_out_of(b, k, x) {
            let s = choose|s: int| #[trigger] edge(b, k, s) && live_into(b, s, x);
            assert(edge(a, k, s));
        }
    }
    if blocks_ok(a) {
        assert forall|bb: int, i: int| 0 <= bb < b.len() && 0 <= i < b[bb].insts@.len()
            implies #[trigger] b[bb].insts@[i].def_well_formed() by {
            assert(same_code(b[bb], a[bb]));
            assert(a[bb].insts@[i].def_well_formed());
        }
        assert forall|bb: int, k: int| 0 <= bb < b.len() && 0 <= k < b[bb].in_edge@.len()
            implies #[trigger] b[bb].in_edge@[k] < b.len() by {
            assert(same_code(b[bb], a[bb]));
            assert(a[bb].in_edge@[k] < a.len());
        }
        assert forall|bb: int, k: int| 0 <= bb < b.len() && 0 <= k < b[bb].out_edge@.len()
            implies #[trigger] b[bb].out_edge@[k] < b.len() by {
            assert(same_code(b[bb], a[bb]));
            assert(a[bb].out_edge@[k] < a.len());
        }
    }
}

proof fn lemma_same_path(a: Seq<BB>, b: Seq<BB>, x: Reg, path: Seq<int>)
    requires
        a.len() == b.len(),
        forall|k: int| 0 <= k < a.len() ==> same_code(#[trigger] b[k], a[k]),
    ensures
        live_path(a, x, path) <==> live_path(b, x, path),
    decreases path.len(),
{
    if path.len() == 1 {
        if 0 <= path[0] < a.len() {
            assert(same_code(b[path[0]], a[path[0]]));
        }
    } else if path.len() > 1 {
        lemma_same_path(a, b, x, path.drop_first());
        if 0 <= path[0] < a.len() {
            assert(same_code(b[path[0]], a[path[0]]));
        }
        if 0 <= path[1] < a.len() {
            assert(same_code(b[path[1]], a[path[1]]));
        }
    }
}

/// The liveness sets of every block are what the flow of the function
/// makes them, with the registers `pinned` holds added to every entry and
/// exit set.
pub open spec fn live_sets_pinned(blocks: Seq<BB>, pinned: spec_fn(Reg) -> bool) -> bool {
    forall|b: int| 0 <= b < blocks.len() ==> {
        &&& is_set((#[trigger] blocks[b]).live_use@)
        &&& is_set(blocks[b].live_def@)
        &&& is_set(blocks[b].live_in@)
        &&& is_set(blocks[b].live_out@)
        &&& forall|r: Reg| #[trigger] blocks[b].live_use@.contains(r) <==> exposes(blocks, b, r)
        &&& forall|r: Reg| #[trigger] blocks[b].live_def@.contains(r) <==> kills(blocks, b, r)
        &&& forall|r: Reg| #[trigger] blocks[b].live_in@.contains(r) <==> (live_into(blocks, b, r) || pinned(r))
        &&& forall|r: Reg| #[trigger] blocks[b].live_out@.contains(r) <==> (live_out_of(blocks, b, r) || pinned(r))
    }
}

/// zero, ra, sp, gp, tp and s0: never free inside a function.
pub open spec fn reserved_reg(r: Reg) -> bool {
    r.r_type == ScalarType::Int && ((0 <= r.id <= 4) || r.id == 8)
}

/// The reserved registers, and t0-t2 and fs2-fs4 kept as scratch for spills.
pub open spec fn alloc_reserved_reg(r: Reg) -> bool {
    ||| r.r_type == ScalarType::Int && 0 <= r.id <= 8
    ||| r.r_type == ScalarType::Float && 18 + FLOAT_BASE <= r.id <= 20 + FLOAT_BASE
}

impl Func {
    /// Adds the registers of `pinned` to the entry and exit sets of every block.
    fn pin_live(&mut self, pinned: &Vec<Reg>)
        requires
            forall|b: int| 0 <= b < old(self).blocks@.len() ==> is_set((#[trigger] old(self).blocks@[b]).live_in@)
                && is_set(old(self).blocks@[b].live_out@),
        ensures
            final(self).same_but_blocks(old(self)),
            final(self).blocks@.len() == old(self).blocks@.len(),
            forall|b: int| 0 <= b < final(self).blocks@.len() ==> {
                &&& same_but_live(#[trigger] final(self).blocks@[b], old(self).blocks@[b])
                &&& final(self).blocks@[b].live_use@ == old(self).blocks@[b].live_use@
                &&& final(self).blocks@[b].live_def@ == old(self).blocks@[b].live_def@
                &&& is_set(final(self).blocks@[b].live_in@)
                &&& is_set(final(self).blocks@[b].live_out@)
                &&& forall|r: Reg| #[trigger] final(self).blocks@[b].live_in@.contains(r)
                    <==> (old(self).blocks@[b].live_in@.contains(r) || pinned@.contains(r))
                &&& forall|r: Reg| #[trigger] final(self).blocks@[b].live_out@.contains(r)
                    <==> (old(self).blocks@[b].live_out@.contains(r) || pinned@.contains(r))
            },
    {
        let mut b: usize = 0;
        while b < self.blocks.len()
            invariant
                b <= self.blocks@.len(),
                self.same_but_blocks(old(self)),
                self.blocks@.len() == old(self).blocks@.len(),
                forall|k: int| b <= k < self.blocks@.len() ==> #[trigger] self.blocks@[k] == old(self).blocks@[k],
                forall|k: int| 0 <= k < old(self).blocks@.len() ==> is_set((#[trigger] old(self).blocks@[k]).live_in@)
                    && is_set(old(self).blocks@[k].live_out@),
                forall|k: int| 0 <= k < b ==> {
                    &&& same_but_live(#[trigger] self.blocks@[k], old(self).blocks@[k])
                    &&& self.blocks@[k].live_use@ == old(self).blocks@[k].live_use@
                    &&& self.blocks@[k].live_def@ == old(self).blocks@[k].live_def@
                    &&& is_set(self.blocks@[k].live_in@)
                    &&& is_set(self.blocks@[k].live_out@)
                    &&& forall|r: Reg| #[trigger] self.blocks@[k].live_in@.contains(r)
                        <==> (old(self).blocks@[k].live_in@.contains(r) || pinned@.contains(r))
                    &&& forall|r: Reg| #[trigger] self.blocks@[k].live_out@.contains(r)
                        <==> (old(self).blocks@[k].live_out@.contains(r) || pinned@.contains(r))
                },
            decreases self.blocks@.len() - b,
        {
            assert(is_set(old(self).blocks@[b as int].live_in@));
            set_insert_all(&mut self.blocks[b].live_in, pinned);
            set_insert_all(&mut self.blocks[b].live_out, pinned);
            b += 1;
        }
    }

    /// The registers of `ids` (integers) and of `fids` (floats).
    fn pinned_regs(lo: i32, hi: i32, extra: bool, flo: i32, fhi: i32) -> (r: Vec<Reg>)
        requires
            0 <= lo,
            hi < 100,
            0 <= flo,
            fhi < 100,
        ensures
            forall|x: Reg| #[trigger] r@.contains(x) <==> (
                (x.r_type == ScalarType::Int && lo <= x.id <= hi)
                || (extra && x.r_type == ScalarType::Int && x.id == 8)
                || (x.r_type == ScalarType::Float && flo <= x.id <= fhi)),
    {
        let mut v: Vec<Reg> = Vec::new();
        let mut id = lo;
        while id <= hi
            invariant
                lo <= id <= hi + 1 || (id == lo && lo > hi),
                hi < 100,
                forall|x: Reg| #[trigger] v@.contains(x) <==> (x.r_type == ScalarType::Int && lo <= x.id < id),
            decreases hi + 1 - id,
        {
            let ghost before = v@;
            v.push(Reg::new(id, ScalarType::Int));
            proof {
                assert forall|x: Reg| #[trigger] v@.contains(x) <==> (x.r_type == ScalarType::Int && lo <= x.id < id + 1) by {
                    if x.r_type == ScalarType::Int && lo <= x.id < id + 1 {
                        if x.id == id {
                            assert(v@[before.len() as int] == x);
                        } else {
                            assert(before.contains(x));
                            let k = choose|k: int| 0 <= k < before.len() && before[k] == x;
                            assert(v@[k] == x);
                        }
                    }
                    if v@.contains(x) {
                        let k = choose|k: int| 0 <= k < v@.len() && v@[k] == x;
                        if k < before.len() {
                            assert(before.contains(x));
                        }
                    }
                }
            }
            id += 1;
        }
        let ghost ints = v@;
        if extra {
            v.push(Reg::new(8, ScalarType::Int));
        }
        let ghost with_extra = v@;
        proof {
            assert forall|x: Reg| #[trigger] with_extra.contains(x) <==> (ints.contains(x) || (extra && x == Reg { id: 8, r_type: ScalarType::Int })) by {
                if extra {
                    if with_extra.contains(x) {
                        let k = choose|k: int| 0 <= k < with_extra.len() && with_extra[k] == x;
                        if k < ints.len() {
                            assert(ints[k] == x);
                        }
                    }
                    if ints.contains(x) {
                        let k = choose|k: int| 0 <= k < ints.len() && ints[k] == x;
                        assert(with_extra[k] == x);
                    }
                    if x == (Reg { id: 8, r_type: ScalarType::Int }) {
                        assert(with_extra[ints.len() as int] == x);
                    }
                }
            }
        }
        let mut fid = flo;
        while fid <= fhi
            invariant
                flo <= fid <= fhi + 1 || (fid == flo && flo > fhi),
                fhi < 100,
                forall|x: Reg| #[trigger] v@.contains(x) <==> (with_extra.contains(x) || (x.r_type == ScalarType::Float && flo <= x.id < fid)),
            decreases fhi + 1 - fid,
        {
            let ghost before = v@;
            v.push(Reg::new(fid, ScalarType::Float));
            proof {
                assert forall|x: Reg| #[trigger] v@.contains(x) <==> (with_extra.contains(x) || (x.r_type == ScalarType::Float && flo <= x.id < fid + 1)) by {
                    if with_extra.contains(x) || (x.r_type == ScalarType::Float && flo <= x.id < fid + 1) {
                        if x.r_type == ScalarType::Float && x.id == fid {
                            assert(v@[before.len() as int] == x);
                        } else {
                            assert(before.contains(x));
                            let k = choose|k: int| 0 <= k < before.len() && before[k] == x;
                            assert(v@[k] == x);
                        }
                    }
                    if v@.contains(x) {
                        let k = choose|k: int| 0 <= k < v@.len() && v@[k] == x;
                        if k < before.len() {
                            assert(before.contains(x));
                        }
                    }
                }
            }
            fid += 1;
        }
        v
    }

    /// Liveness for the call pass: zero, ra, sp, gp, tp and s0 are taken as
    /// live everywhere.
    pub fn calc_live_for_handle_call(&mut self)
        requires
            old(self).wf(),
        ensures
            final(self).wf(),
            final(self).same_but_blocks(old(self)),
            final(self).blocks@.len() == old(self).blocks@.len(),
            forall|b: int| 0 <= b < final(self).blocks@.len()
                ==> same_but_live(#[trigger] final(self).blocks@[b], old(self).blocks@[b]),
            live_sets_pinned(final(self).blocks@, |r: Reg| reserved_reg(r)),
    {
        self.calc_live_base();
        let pinned = Func::pinned_regs(0, 4, true, 1, 0);
        self.pin_live_checked(&pinned, Ghost(|r: Reg| reserved_reg(r)));
    }

    /// Liveness for the spill pass: zero, ra, sp, gp, tp and s0 are taken as
    /// live everywhere.
    pub fn calc_live_for_handle_spill(&mut self)
        requires
            old(self).wf(),
        ensures
            final(self).wf(),
            final(self).same_but_blocks(old(self)),
            final(self).blocks@.len() == old(self).blocks@.len(),
            forall|b: int| 0 <= b < final(self).blocks@.len()
                ==> same_but_live(#[trigger] final(self).blocks@[b], old(self).blocks@[b]),
            live_sets_pinned(final(self).blocks@, |r: Reg| reserved_reg(r)),
    {
        self.calc_live_base();
        let pinned = Func::pinned_regs(0, 4, true, 1, 0);
        self.pin_live_checked(&pinned, Ghost(|r: Reg| reserved_reg(r)));
    }

    /// Liveness for allocation: x0-x8 and fs2-fs4 are taken as live
    /// everywhere (reserved, or scratch for spills).
    pub fn calc_live_for_alloc_reg(&mut self)
        requires
            old(self).wf(),
        ensures
            final(self).wf(),
            final(self).same_but_blocks(old(self)),
            final(self).blocks@.len() == old(self).blocks@.len(),
            forall|b: int| 0 <= b < final(self).blocks@.len()
                ==> same_but_live(#[trigger] final(self).blocks@[b], old(self).blocks@[b]),
            live_sets_pinned(final(self).blocks@, |r: Reg| alloc_reserved_reg(r)),
    {
        self.calc_live_base();
        let pinned = Func::pinned_regs(0, 8, false, 18 + FLOAT_BASE, 20 + FLOAT_BASE);
        self.pin_live_checked(&pinned, Ghost(|r: Reg| alloc_reserved_reg(r)));
    }

    /// `pin_live` after `calc_live_base`.
    fn pin_live_checked(&mut self, pinned: &Vec<Reg>, Ghost(p): Ghost<spec_fn(Reg) -> bool>)
        requires
            old(self).wf(),
            live_sets_exact(old(self).blocks@),
            forall|r: Reg| #[trigger] pinned@.contains(r) <==> p(r),
        ensures
            final(self).wf(),
            final(self).same_but_blocks(old(self)),
            final(self).blocks@.len() == old(self).blocks@.len(),
            forall|b: int| 0 <= b < final(self).blocks@.len()
                ==> same_but_live(#[trigger] final(self).blocks@[b], old(self).blocks@[b]),
            live_sets_pinned(final(self).blocks@, p),
    {
        let ghost before = self.blocks@;
        proof {
            assert forall|b: int| 0 <= b < before.len() implies is_set((#[trigger] before[b]).live_in@)
                && is_set(before[b].live_out@) by {
                assert(live_sets_exact(before));
            }
        }
        self.pin_live(pinned);
        proof {
            lemma_same_flow(before, self.blocks@);
            assert forall|b: int| 0 <= b < self.blocks@.len() implies {
                &&& is_set((#[trigger] self.blocks@[b]).live_use@)
                &&& is_set(self.blocks@[b].live_def@)
                &&& is_set(self.blocks@[b].live_in@)
                &&& is_set(self.blocks@[b].live_out@)
                &&& forall|r: Reg| #[trigger] self.blocks@[b].live_use@.contains(r) <==> exposes(self.blocks@, b, r)
                &&& forall|r: Reg| #[trigger] self.blocks@[b].live_def@.contains(r) <==> kills(self.blocks@, b, r)
                &&& forall|r: Reg| #[trigger] self.blocks@[b].live_in@.contains(r) <==> (live_into(self.blocks@, b, r) || p(r))
                &&& forall|r: Reg| #[trigger] self.blocks@[b].live_out@.contains(r) <==> (live_out_of(self.blocks@, b, r) || p(r))
            } by {
                assert(live_sets_exact(before));
                assert(same_but_live(before[b], before[b]));
                assert forall|r: Reg| #[trigger] self.blocks@[b].live_use@.contains(r) <==> exposes(self.blocks@, b, r) by {
                    assert(before[b].live_use@.contains(r) <==> exposes(before, b, r));
                }
                assert forall|r: Reg| #[trigger] self.blocks@[b].live_def@.contains(r) <==> kills(self.blocks@, b, r) by {
                    assert(before[b].live_def@.contains(r) <==> kills(before, b, r));
                }
                assert forall|r: Reg| #[trigger] self.blocks@[b].live_in@.contains(r) <==> (live_into(self.blocks@, b, r) || p(r)) by {
                    assert(before[b].live_in@.contains(r) <==> live_into(before, b, r));
                }
                assert forall|r: Reg| #[trigger] self.blocks@[b].live_out@.contains(r) <==> (live_out_of(self.blocks@, b, r) || p(r)) by {
                    assert(before[b].live_out@.contains(r) <==> live_out_of(before, b, r));
                }
            }
        }
    }
}

} // verus!
