use vstd::prelude::*;
use crate::block::BB;
use crate::func::Func;
use crate::instrs::LIRInst;
use crate::liveness::{live_sets_pinned, reserved_reg, same_but_live, same_code, exposed_from, live_path, live_into, live_out_of, exposes, kills};
use crate::operand::Reg;
use crate::regset::{is_set, set_insert};

verus! {

/// The first index `>= j` of an instruction of `insts` that writes `r`,
/// else the number of instructions.
pub open spec fn next_def(insts: Seq<LIRInst>, r: Reg, j: int) -> int
    decreases insts.len() - j,
{
    if j >= insts.len() {
        insts.len() as int
    } else if insts[j].spec_reg_def().contains(r) {
        j
    } else {
        next_def(insts, r, j + 1)
    }
}

/// The last index in `(lo, hi]` of an instruction of `insts` that reads
/// `r`, else `lo`.
pub open spec fn last_use(insts: Seq<LIRInst>, r: Reg, lo: int, hi: int) -> int
    decreases hi - lo,
{
    if hi <= lo {
        lo
    } else if insts[hi].spec_reg_use().contains(r) {
        hi
    } else {
        last_use(insts, r, lo, hi - 1)
    }
}

/// A value of `r` is born at `born` in `bb`: on entry (`-1`, when `r` is
/// live in) or by the instruction at `born`.
pub open spec fn born_at(bb: BB, r: Reg, born: int) -> bool {
    ||| (born == -1 && bb.live_in@.contains(r))
    ||| (0 <= born < bb.insts@.len() && bb.insts@[born].spec_reg_def().contains(r))
}

/// Where the value of `r` born at `born` dies: at its last read before the
/// next write of `r` (a read by that writing instruction counts), or at the
/// end of the block when no write follows and `r` is live out.
pub open spec fn die_at(bb: BB, r: Reg, born: int) -> int {
    let n = bb.insts@.len() as int;
    let nd = next_def(bb.insts@, r, born + 1);
    if nd >= n && bb.live_out@.contains(r) {
        n
    } else if nd >= n {
        last_use(bb.insts@, r, born, n - 1)
    } else {
        last_use(bb.insts@, r, born, nd)
    }
}

/// `r` holds a value at position `idx` of `bb`: it is live in or written before.
pub open spec fn present(bb: BB, r: Reg, idx: int) -> bool {
    bb.live_in@.contains(r) || exists|m: int| 0 <= m < idx && #[trigger] bb.insts@[m].spec_reg_def().contains(r)
}

/// Every register read in `bb` is live in or written before.
pub open spec fn uses_covered(bb: BB) -> bool {
    forall|i: int, r: Reg| 0 <= i < bb.insts@.len() && #[trigger] bb.insts@[i].spec_reg_use().contains(r)
        ==> bb.live_in@.contains(r) || exists|k: int| 0 <= k < i && bb.insts@[k].spec_reg_def().contains(r)
}

/// `iv` lists, once each, the lifetimes of the values of `bb`: a value is
/// keyed by its register and birth, and ends where it dies.
pub open spec fn intervals_exact(bb: BB, iv: Seq<((Reg, i32), (Reg, i32))>) -> bool {
    &&& forall|k: int| 0 <= k < iv.len() ==> {
        &&& (#[trigger] iv[k]).0.0 == iv[k].1.0
        &&& born_at(bb, iv[k].0.0, iv[k].0.1 as int)
        &&& iv[k].1.1 == die_at(bb, iv[k].0.0, iv[k].0.1 as int)
    }
    &&& forall|r: Reg, born: int| #[trigger] born_at(bb, r, born)
        ==> exists|k: int| 0 <= k < iv.len() && #[trigger] iv[k].0 == (r, born as i32)
    &&& forall|a: int, b: int| 0 <= a < iv.len() && 0 <= b < iv.len() && a != b ==> iv[a].0 != iv[b].0
}

proof fn lemma_next_def_none(insts: Seq<LIRInst>, r: Reg, j: int, m: int)
    requires
        j <= m <= insts.len(),
        forall|k: int| j <= k < m ==> !#[trigger] insts[k].spec_reg_def().contains(r),
    ensures
        m < insts.len() && insts[m].spec_reg_def().contains(r) ==> next_def(insts, r, j) == m,
        m == insts.len() ==> next_def(insts, r, j) == insts.len(),
        next_def(insts, r, j) >= m,
    decreases m - j,
{
    if j < m {
        lemma_next_def_none(insts, r, j + 1, m);
    } else if m < insts.len() && !insts[m].spec_reg_def().contains(r) {
        lemma_next_def_ge(insts, r, m + 1);
    }
}

proof fn lemma_next_def_ge(insts: Seq<LIRInst>, r: Reg, j: int)
    ensures
        j <= insts.len() ==> next_def(insts, r, j) >= j,
        next_def(insts, r, j) <= insts.len() || j > insts.len(),
    decreases insts.len() - j,
{
    if j < insts.len() && !insts[j].spec_reg_def().contains(r) {
        lemma_next_def_ge(insts, r, j + 1);
    }
}

/// Where the open value of `r` (one entry per register) is.
fn find_open(open: &Vec<(Reg, i32, i32)>, r: &Reg) -> (i: Option<usize>)
    ensures
        i is None <==> forall|k: int| 0 <= k < open@.len() ==> open@[k].0 != *r,
        i matches Some(k) ==> k < open@.len() && open@[k as int].0 == *r,
{
    let mut k: usize = 0;
    while k < open.len()
        invariant
            k <= open@.len(),
            forall|j: int| 0 <= j < k ==> open@[j].0 != *r,
        decreases open@.len() - k,
    {
        if open[k].0 == *r {
            return Some(k);
        }
        k += 1;
    }
    None
}

impl BB {
    /// Builds the lifetimes of the values of the block from its liveness
    /// sets and instructions.
    #[verifier::rlimit(50)]
    pub fn build_reg_intervals(&mut self)
        requires
            is_set(old(self).live_in@),
            uses_covered(*old(self)),
            old(self).insts@.len() < i32::MAX,
            forall|i: int| 0 <= i < old(self).insts@.len() ==> #[trigger] old(self).insts@[i].def_well_formed(),
        ensures
            intervals_exact(*final(self), final(self).reg_intervals@),
            final(self).insts@ == old(self).insts@,
            final(self).live_in@ == old(self).live_in@,
            final(self).live_out@ == old(self).live_out@,
            final(self).live_use@ == old(self).live_use@,
            final(self).live_def@ == old(self).live_def@,
            final(self).label == old(self).label,
            final(self).func_label == old(self).func_label,
            final(self).showed == old(self).showed,
            final(self).in_edge@ == old(self).in_edge@,
            final(self).out_edge@ == old(self).out_edge@,
            final(self).phis@ == old(self).phis@,
    {
        let ghost bb = *self;
        let ghost insts = self.insts@;
        let n = self.insts.len();
        let mut res: Vec<((Reg, i32), (Reg, i32))> = Vec::new();
        let mut open: Vec<(Reg, i32, i32)> = Vec::new();
        let mut j: usize = 0;
        while j < self.live_in.len()
            invariant
                self.insts@ == insts,
                self.live_in@ == bb.live_in@,
                is_set(self.live_in@),
                j <= self.live_in@.len(),
                open@.len() == j,
                forall|k: int| 0 <= k < j ==> #[trigger] open@[k] == (self.live_in@[k], -1i32, -1i32),
            decreases self.live_in@.len() - j,
        {
            open.push((self.live_in[j], -1, -1));
            j += 1;
        }
        proof {
            assert forall|r: Reg| #[trigger] present(bb, r, 0)
                implies exists|k: int| 0 <= k < open@.len() && #[trigger] open@[k].0 == r by {
                let k = choose|k: int| 0 <= k < bb.live_in@.len() && bb.live_in@[k] == r;
                assert(open@[k].0 == r);
            }
            assert forall|r: Reg, born: int| #[trigger] born_at(bb, r, born) && next_def(insts, r, born + 1) < 0
                implies exists|k: int| 0 <= k < res@.len() && #[trigger] res@[k].0 == (r, born as i32) by {
                lemma_next_def_ge(insts, r, born + 1);
            }
            assert forall|a: int, b: int| 0 <= a < open@.len() && 0 <= b < open@.len() && a != b implies open@[a].0 != open@[b].0 by {
                assert(open@[a] == (self.live_in@[a], -1i32, -1i32));
                assert(open@[b] == (self.live_in@[b], -1i32, -1i32));
            }
        }
        let mut idx: usize = 0;
        while idx < n
            invariant
                n == insts.len(),
                n < i32::MAX,
                self.insts@ == insts,
                self.live_in@ == bb.live_in@,
                self.live_out@ == bb.live_out@,
                uses_covered(bb),
                bb.insts@ == insts,
                forall|i: int| 0 <= i < n ==> #[trigger] insts[i].def_well_formed(),
                idx <= n,
                forall|a: int, b: int| 0 <= a < open@.len() && 0 <= b < open@.len() && a != b ==> open@[a].0 != open@[b].0,
                forall|k: int| 0 <= k < open@.len() ==> {
                    &&& born_at(bb, (#[trigger] open@[k]).0, open@[k].1 as int)
                    &&& open@[k].1 < idx
                    &&& forall|m: int| open@[k].1 < m < idx ==> !(#[trigger] insts[m].spec_reg_def().contains(open@[k].0))
                    &&& (open@[k].1 == -1 ==> forall|m: int| 0 <= m < idx ==> !(#[trigger] insts[m].spec_reg_def().contains(open@[k].0)))
                    &&& open@[k].2 == last_use(insts, open@[k].0, open@[k].1 as int, idx - 1)
                },
                forall|r: Reg| #[trigger] present(bb, r, idx as int)
                    ==> exists|k: int| 0 <= k < open@.len() && #[trigger] open@[k].0 == r,
                forall|k: int| 0 <= k < res@.len() ==> {
                    &&& (#[trigger] res@[k]).0.0 == res@[k].1.0
                    &&& born_at(bb, res@[k].0.0, res@[k].0.1 as int)
                    &&& next_def(insts, res@[k].0.0, res@[k].0.1 + 1) < idx
                    &&& res@[k].1.1 == last_use(insts, res@[k].0.0, res@[k].0.1 as int, next_def(insts, res@[k].0.0, res@[k].0.1 + 1))
                },
                forall|r: Reg, born: int| #[trigger] born_at(bb, r, born) && next_def(insts, r, born + 1) < idx
                    ==> exists|k: int| 0 <= k < res@.len() && #[trigger] res@[k].0 == (r, born as i32),
                forall|a: int, b: int| 0 <= a < res@.len() && 0 <= b < res@.len() && a != b ==> res@[a].0 != res@[b].0,
            decreases n - idx,
        {
            assert(insts[idx as int].def_well_formed());
            let uses = self.insts[idx].get_reg_use();
            let defs = self.insts[idx].get_reg_def();
            let ghost open0 = open@;
            proof {
                assert forall|r: Reg| #[trigger] insts[idx as int].spec_reg_use().contains(r)
                    implies exists|k: int| 0 <= k < open0.len() && #[trigger] open0[k].0 == r by {
                    if !bb.live_in@.contains(r) {
                        let m = choose|m: int| 0 <= m < idx && bb.insts@[m].spec_reg_def().contains(r);
                        assert(insts[m].spec_reg_def().contains(r));
                    }
                    assert(present(bb, r, idx as int));
                }
            }
            let mut u: usize = 0;
            while u < uses.len()
                invariant
                    uses@ == insts[idx as int].spec_reg_use(),
                    u <= uses@.len(),
                    idx < n,
                    n < i32::MAX,
                    open@.len() == open0.len(),
                    forall|k: int| 0 <= k < open@.len() ==> #[trigger] open@[k].0 == open0[k].0 && open@[k].1 == open0[k].1,
                    forall|k: int| 0 <= k < open@.len() ==> #[trigger] open@[k].2 == (if exists|t: int| 0 <= t < u && uses@[t] == open0[k].0 { idx as i32 } else { open0[k].2 }),
                    forall|r: Reg| #[trigger] insts[idx as int].spec_reg_use().contains(r) ==> exists|k: int| 0 <= k < open0.len() && #[trigger] open0[k].0 == r,
                    forall|a: int, b: int| 0 <= a < open0.len() && 0 <= b < open0.len() && a != b ==> open0[a].0 != open0[b].0,
                decreases uses@.len() - u,
            {
                let r = uses[u];
                assert(insts[idx as int].spec_reg_use().contains(r)) by {
                    assert(uses@[u as int] == r);
                }
                proof {
                    let kk = choose|kk: int| 0 <= kk < open0.len() && #[trigger] open0[kk].0 == r;
                    assert(open@[kk].0 == r);
                }
                let k = find_open(&open, &r).unwrap();
                let ghost before = open@;
                let e = open[k];
                open.set(k, (e.0, e.1, idx as i32));
                proof {
                    assert forall|kk: int| 0 <= kk < open@.len() implies #[trigger] open@[kk].0 == open0[kk].0 && open@[kk].1 == open0[kk].1 by {
                        if kk != k {
                            assert(open@[kk] == before[kk]);
                        }
                    }
                    assert forall|kk: int| 0 <= kk < open@.len() implies #[trigger] open@[kk].2 == (if exists|t: int| 0 <= t < u + 1 && uses@[t] == open0[kk].0 { idx as i32 } else { open0[kk].2 }) by {
                        if exists|t: int| 0 <= t < u + 1 && uses@[t] == open0[kk].0 {
                            let t = choose|t: int| 0 <= t < u + 1 && uses@[t] == open0[kk].0;
                            if t < u {
                                assert(exists|t: int| 0 <= t < u && uses@[t] == open0[kk].0);
                            }
                        } else {
                            assert(open0[kk].0 != r);
                            assert(kk != k);
                            assert(open@[kk] == before[kk]);
                        }
                    }
                }
                u += 1;
            }
            proof {
                assert forall|k: int| 0 <= k < open@.len() implies #[trigger] open@[k].2 == last_use(insts, open@[k].0, open@[k].1 as int, idx as int) by {
                    assert(open0[k].1 < idx);
                    if uses@.contains(open0[k].0) {
                        let t = choose|t: int| 0 <= t < uses@.len() && uses@[t] == open0[k].0;
                        assert(exists|t: int| 0 <= t < uses@.len() && uses@[t] == open0[k].0);
                    } else {
                        if exists|t: int| 0 <= t < uses@.len() && uses@[t] == open0[k].0 {
                            let t = choose|t: int| 0 <= t < uses@.len() && uses@[t] == open0[k].0;
                            assert(uses@.contains(open0[k].0));
                        }
                    }
                }
            }
            let ghost open1 = open@;
            let ghost res1 = res@;
            if defs.len() > 0 {
                let d = defs[0];
                assert(defs@ == seq![d]) by {
                    assert(defs@.len() <= 1);
                }
                match find_open(&open, &d) {
                    Some(k) => {
                        let e = open.remove(k);
                        res.push(((d, e.1), (d, e.2)));
                        proof {
                            lemma_next_def_none(insts, d, e.1 + 1, idx as int);
                        }
                    },
                    None => {},
                }
                open.push((d, idx as i32, idx as i32));
            }
            proof {
                assert(defs@ == insts[idx as int].spec_reg_def());
                assert(defs@.len() <= 1);
                assert forall|k: int| 0 <= k < open1.len() implies {
                    &&& born_at(bb, (#[trigger] open1[k]).0, open1[k].1 as int)
                    &&& open1[k].1 < idx
                    &&& forall|m: int| open1[k].1 < m < idx ==> !(#[trigger] insts[m].spec_reg_def().contains(open1[k].0))
                    &&& (open1[k].1 == -1 ==> forall|m: int| 0 <= m < idx ==> !(#[trigger] insts[m].spec_reg_def().contains(open1[k].0)))
                    &&& open1[k].2 == last_use(insts, open1[k].0, open1[k].1 as int, idx as int)
                } by {
                    assert(open1[k].0 == open0[k].0 && open1[k].1 == open0[k].1);
                }
                assert forall|r: Reg| #[trigger] present(bb, r, idx as int)
                    implies exists|k: int| 0 <= k < open1.len() && #[trigger] open1[k].0 == r by {
                    let k = choose|k: int| 0 <= k < open0.len() && #[trigger] open0[k].0 == r;
                    assert(open1[k].0 == r);
                }
                assert forall|a: int, b: int| 0 <= a < open1.len() && 0 <= b < open1.len() && a != b implies open1[a].0 != open1[b].0 by {
                    assert(open1[a].0 == open0[a].0);
                    assert(open1[b].0 == open0[b].0);
                }
                lemma_interval_step(bb, insts, idx as int, open1, open@, res1, res@, defs@);
            }
            idx += 1;
        }
        let ghost open_end = open@;
        let ghost res_end = res@;
        let mut k: usize = 0;
        while k < open.len()
            invariant
                n == insts.len(),
                self.insts@ == insts,
                self.live_in@ == bb.live_in@,
                self.live_out@ == bb.live_out@,
                bb.insts@ == insts,
                open@ == open_end,
                k <= open@.len(),
                res@.len() == res_end.len() + k,
                forall|t: int| 0 <= t < res_end.len() ==> #[trigger] res@[t] == res_end[t],
                forall|t: int| 0 <= t < k ==> #[trigger] res@[res_end.len() + t] == ((open@[t].0, open@[t].1), (open@[t].0,
                    if bb.live_out@.contains(open@[t].0) { n as i32 } else { open@[t].2 })),
            decreases open@.len() - k,
        {
            let e = open[k];
            let mut die = e.2;
            if crate::instrs::contains_reg(&self.live_out, &e.0) {
                die = n as i32;
            }
            res.push(((e.0, e.1), (e.0, die)));
            k += 1;
        }
        proof {
            lemma_interval_end(bb, insts, open_end, res_end, res@);
        }
        self.reg_intervals = res;
        proof {
            lemma_intervals_same(bb, *self, self.reg_intervals@);
        }
    }
}

proof fn lemma_interval_step(bb: BB, insts: Seq<LIRInst>, idx: int, open1: Seq<(Reg, i32, i32)>, open2: Seq<(Reg, i32, i32)>,
    res1: Seq<((Reg, i32), (Reg, i32))>, res2: Seq<((Reg, i32), (Reg, i32))>, defs: Seq<Reg>)
    requires
        bb.insts@ == insts,
        0 <= idx < insts.len(),
        insts.len() < i32::MAX,
        defs == insts[idx].spec_reg_def(),
        defs.len() <= 1,
        forall|a: int, b: int| 0 <= a < open1.len() && 0 <= b < open1.len() && a != b ==> open1[a].0 != open1[b].0,
        forall|k: int| 0 <= k < open1.len() ==> {
            &&& born_at(bb, (#[trigger] open1[k]).0, open1[k].1 as int)
            &&& open1[k].1 < idx
            &&& forall|m: int| open1[k].1 < m < idx ==> !(#[trigger] insts[m].spec_reg_def().contains(open1[k].0))
            &&& (open1[k].1 == -1 ==> forall|m: int| 0 <= m < idx ==> !(#[trigger] insts[m].spec_reg_def().contains(open1[k].0)))
            &&& open1[k].2 == last_use(insts, open1[k].0, open1[k].1 as int, idx)
        },
        forall|r: Reg| #[trigger] present(bb, r, idx as int)
            ==> exists|k: int| 0 <= k < open1.len() && #[trigger] open1[k].0 == r,
        forall|k: int| 0 <= k < res1.len() ==> {
            &&& (#[trigger] res1[k]).0.0 == res1[k].1.0
            &&& born_at(bb, res1[k].0.0, res1[k].0.1 as int)
            &&& next_def(insts, res1[k].0.0, res1[k].0.1 + 1) < idx
            &&& res1[k].1.1 == last_use(insts, res1[k].0.0, res1[k].0.1 as int, next_def(insts, res1[k].0.0, res1[k].0.1 + 1))
        },
        forall|r: Reg, born: int| #[trigger] born_at(bb, r, born) && next_def(insts, r, born + 1) < idx
            ==> exists|k: int| 0 <= k < res1.len() && #[trigger] res1[k].0 == (r, born as i32),
        forall|a: int, b: int| 0 <= a < res1.len() && 0 <= b < res1.len() && a != b ==> res1[a].0 != res1[b].0,
        defs.len() == 0 ==> open2 == open1 && res2 == res1,
        defs.len() == 1 ==> {
            let d = defs[0];
            ||| (exists|k: int| 0 <= k < open1.len() && open1[k].0 == d && {
                &&& open2 == open1.remove(k).push((d, idx as i32, idx as i32))
                &&& res2 == res1.push(((d, open1[k].1), (d, open1[k].2)))
            })
            ||| ((forall|k: int| 0 <= k < open1.len() ==> open1[k].0 != d)
                && open2 == open1.push((d, idx as i32, idx as i32)) && res2 == res1)
        },
    ensures
        forall|a: int, b: int| 0 <= a < open2.len() && 0 <= b < open2.len() && a != b ==> open2[a].0 != open2[b].0,
        forall|k: int| 0 <= k < open2.len() ==> {
            &&& born_at(bb, (#[trigger] open2[k]).0, open2[k].1 as int)
            &&& open2[k].1 < idx + 1
            &&& forall|m: int| open2[k].1 < m < idx + 1 ==> !(#[trigger] insts[m].spec_reg_def().contains(open2[k].0))
            &&& (open2[k].1 == -1 ==> forall|m: int| 0 <= m < idx + 1 ==> !(#[trigger] insts[m].spec_reg_def().contains(open2[k].0)))
            &&& open2[k].2 == last_use(insts, open2[k].0, open2[k].1 as int, idx)
        },
        forall|r: Reg| #[trigger] present(bb, r, idx + 1)
            ==> exists|k: int| 0 <= k < open2.len() && #[trigger] open2[k].0 == r,
        forall|k: int| 0 <= k < res2.len() ==> {
            &&& (#[trigger] res2[k]).0.0 == res2[k].1.0
            &&& born_at(bb, res2[k].0.0, res2[k].0.1 as int)
            &&& next_def(insts, res2[k].0.0, res2[k].0.1 + 1) < idx + 1
            &&& res2[k].1.1 == last_use(insts, res2[k].0.0, res2[k].0.1 as int, next_def(insts, res2[k].0.0, res2[k].0.1 + 1))
        },
        forall|r: Reg, born: int| #[trigger] born_at(bb, r, born) && next_def(insts, r, born + 1) < idx + 1
            ==> exists|k: int| 0 <= k < res2.len() && #[trigger] res2[k].0 == (r, born as i32),
        forall|a: int, b: int| 0 <= a < res2.len() && 0 <= b < res2.len() && a != b ==> res2[a].0 != res2[b].0,
{
    assert forall|r: Reg, born: int| born_at(bb, r, born) && next_def(insts, r, born + 1) == idx
        implies defs.len() == 1 && r == defs[0] by {
        lemma_next_def_hit(insts, r, born + 1);
        assert(insts[idx].spec_reg_def().contains(r));
    }
    if defs.len() == 0 {
        assert forall|k: int| 0 <= k < open2.len() implies {
            &&& born_at(bb, (#[trigger] open2[k]).0, open2[k].1 as int)
            &&& open2[k].1 < idx + 1
            &&& forall|m: int| open2[k].1 < m < idx + 1 ==> !(#[trigger] insts[m].spec_reg_def().contains(open2[k].0))
            &&& (open2[k].1 == -1 ==> forall|m: int| 0 <= m < idx + 1 ==> !(#[trigger] insts[m].spec_reg_def().contains(open2[k].0)))
            &&& open2[k].2 == last_use(insts, open2[k].0, open2[k].1 as int, idx)
        } by {
            assert(open2[k] == open1[k]);
        }
        assert forall|r: Reg| #[trigger] present(bb, r, idx + 1)
            implies exists|k: int| 0 <= k < open2.len() && #[trigger] open2[k].0 == r by {
            if !bb.live_in@.contains(r) {
                let m = choose|m: int| 0 <= m < idx + 1 && #[trigger] bb.insts@[m].spec_reg_def().contains(r);
                assert(m < idx);
            }
            assert(present(bb, r, idx));
        }
        assert forall|r: Reg, born: int| #[trigger] born_at(bb, r, born) && next_def(insts, r, born + 1) < idx + 1
            implies exists|k: int| 0 <= k < res2.len() && #[trigger] res2[k].0 == (r, born as i32) by {
        }
    } else {
        let d = defs[0];
        assert(insts[idx].spec_reg_def().contains(d));
        if exists|k: int| 0 <= k < open1.len() && open1[k].0 == d && {
            &&& open2 == open1.remove(k).push((d, idx as i32, idx as i32))
            &&& res2 == res1.push(((d, open1[k].1), (d, open1[k].2)))
        } {
            let k0 = choose|k: int| 0 <= k < open1.len() && open1[k].0 == d && {
                &&& open2 == open1.remove(k).push((d, idx as i32, idx as i32))
                &&& res2 == res1.push(((d, open1[k].1), (d, open1[k].2)))
            };
            let born0 = open1[k0].1 as int;
            assert(born_at(bb, d, born0));
            lemma_next_def_none(insts, d, born0 + 1, idx);
            assert(next_def(insts, d, born0 + 1) == idx);
            let rem = open1.remove(k0);
            assert forall|k: int| 0 <= k < rem.len() implies #[trigger] rem[k] == open1[if k < k0 { k } else { k + 1 }] by {}
            assert forall|k: int| 0 <= k < open2.len() implies {
                &&& born_at(bb, (#[trigger] open2[k]).0, open2[k].1 as int)
                &&& open2[k].1 < idx + 1
                &&& forall|m: int| open2[k].1 < m < idx + 1 ==> !(#[trigger] insts[m].spec_reg_def().contains(open2[k].0))
                &&& (open2[k].1 == -1 ==> forall|m: int| 0 <= m < idx + 1 ==> !(#[trigger] insts[m].spec_reg_def().contains(open2[k].0)))
                &&& open2[k].2 == last_use(insts, open2[k].0, open2[k].1 as int, idx)
            } by {
                if k < rem.len() {
                    let j = if k < k0 { k } else { k + 1 };
                    assert(open2[k] == open1[j]);
                    assert(open1[j].0 != d);
                    assert forall|m: int| open2[k].1 < m < idx + 1 implies !(#[trigger] insts[m].spec_reg_def().contains(open2[k].0)) by {
                        if m == idx {
                            assert(defs == seq![d]);
                        }
                    }
                    if open2[k].1 == -1 {
                        assert forall|m: int| 0 <= m < idx + 1 implies !(#[trigger] insts[m].spec_reg_def().contains(open2[k].0)) by {
                            if m == idx {
                                assert(defs == seq![d]);
                            }
                        }
                    }
                } else {
                    assert(open2[k] == (d, idx as i32, idx as i32));
                }
            }
            assert forall|a: int, b: int| 0 <= a < open2.len() && 0 <= b < open2.len() && a != b implies open2[a].0 != open2[b].0 by {
                if a < rem.len() && b < rem.len() {
                    let ja = if a < k0 { a } else { a + 1 };
                    let jb = if b < k0 { b } else { b + 1 };
                    assert(open2[a] == open1[ja]);
                    assert(open2[b] == open1[jb]);
                } else if a < rem.len() {
                    let ja = if a < k0 { a } else { a + 1 };
                    assert(open2[a] == open1[ja]);
                    assert(open1[ja].0 != open1[k0].0);
                } else if b < rem.len() {
                    let jb = if b < k0 { b } else { b + 1 };
                    assert(open2[b] == open1[jb]);
                    assert(open1[jb].0 != open1[k0].0);
                }
            }
            assert forall|r: Reg| #[trigger] present(bb, r, idx + 1)
                implies exists|k: int| 0 <= k < open2.len() && #[trigger] open2[k].0 == r by {
                if r == d {
                    assert(open2[rem.len() as int].0 == r);
                } else {
                    if !bb.live_in@.contains(r) {
                        let m = choose|m: int| 0 <= m < idx + 1 && #[trigger] insts[m].spec_reg_def().contains(r);
                        if m == idx {
                            assert(defs == seq![d]);
                        }
                    }
                    assert(present(bb, r, idx));
                    let j = choose|j: int| 0 <= j < open1.len() && #[trigger] open1[j].0 == r;
                    assert(j != k0);
                    let k = if j < k0 { j } else { j - 1 };
                    assert(open2[k] == open1[j]);
                }
            }
            assert forall|k: int| 0 <= k < res2.len() implies {
                &&& (#[trigger] res2[k]).0.0 == res2[k].1.0
                &&& born_at(bb, res2[k].0.0, res2[k].0.1 as int)
                &&& next_def(insts, res2[k].0.0, res2[k].0.1 + 1) < idx + 1
                &&& res2[k].1.1 == last_use(insts, res2[k].0.0, res2[k].0.1 as int, next_def(insts, res2[k].0.0, res2[k].0.1 + 1))
            } by {
                if k < res1.len() {
                    assert(res2[k] == res1[k]);
                }
            }
            assert forall|r: Reg, born: int| #[trigger] born_at(bb, r, born) && next_def(insts, r, born + 1) < idx + 1
                implies exists|k: int| 0 <= k < res2.len() && #[trigger] res2[k].0 == (r, born as i32) by {
                if next_def(insts, r, born + 1) < idx {
                    let k = choose|k: int| 0 <= k < res1.len() && #[trigger] res1[k].0 == (r, born as i32);
                    assert(res2[k] == res1[k]);
                } else {
                    assert(r == d);
                    lemma_next_def_ge(insts, d, born + 1);
                    if born < born0 {
                        lemma_next_def_le(insts, d, born + 1, born0);
                    } else if born > born0 {
                        assert(0 <= born < idx);
                        assert(!insts[born].spec_reg_def().contains(d));
                    }
                    assert(born == born0);
                    assert(res2[res1.len() as int].0 == (r, born as i32));
                }
            }
            assert forall|a: int, b: int| 0 <= a < res2.len() && 0 <= b < res2.len() && a != b implies res2[a].0 != res2[b].0 by {
                if a == res1.len() && b < res1.len() {
                    assert(res2[b] == res1[b]);
                } else if b == res1.len() && a < res1.len() {
                    assert(res2[a] == res1[a]);
                } else if a < res1.len() && b < res1.len() {
                    assert(res2[a] == res1[a]);
                    assert(res2[b] == res1[b]);
                }
            }
        } else {
            assert(forall|k: int| 0 <= k < open1.len() ==> open1[k].0 != d);
            assert(!present(bb, d, idx)) by {
                if present(bb, d, idx) {
                    let k = choose|k: int| 0 <= k < open1.len() && #[trigger] open1[k].0 == d;
                }
            }
            assert(!bb.live_in@.contains(d));
            assert forall|m: int| 0 <= m < idx implies !(#[trigger] insts[m].spec_reg_def().contains(d)) by {
                if insts[m].spec_reg_def().contains(d) {
                    let k = choose|k: int| 0 <= k < open1.len() && #[trigger] open1[k].0 == d;
                }
            }
            assert forall|k: int| 0 <= k < open2.len() implies {
                &&& born_at(bb, (#[trigger] open2[k]).0, open2[k].1 as int)
                &&& open2[k].1 < idx + 1
                &&& forall|m: int| open2[k].1 < m < idx + 1 ==> !(#[trigger] insts[m].spec_reg_def().contains(open2[k].0))
                &&& (open2[k].1 == -1 ==> forall|m: int| 0 <= m < idx + 1 ==> !(#[trigger] insts[m].spec_reg_def().contains(open2[k].0)))
                &&& open2[k].2 == last_use(insts, open2[k].0, open2[k].1 as int, idx)
            } by {
                if k < open1.len() {
                    assert(open2[k] == open1[k]);
                    assert(open1[k].0 != d);
                    assert forall|m: int| open2[k].1 < m < idx + 1 implies !(#[trigger] insts[m].spec_reg_def().contains(open2[k].0)) by {
                        if m == idx {
                            assert(defs == seq![d]);
                        }
                    }
                    if open2[k].1 == -1 {
                        assert forall|m: int| 0 <= m < idx + 1 implies !(#[trigger] insts[m].spec_reg_def().contains(open2[k].0)) by {
                            if m == idx {
                                assert(defs == seq![d]);
                            }
                        }
                    }
                }
            }
            assert forall|a: int, b: int| 0 <= a < open2.len() && 0 <= b < open2.len() && a != b implies open2[a].0 != open2[b].0 by {
                if a < open1.len() && b < open1.len() {
                    assert(open2[a] == open1[a]);
                    assert(open2[b] == open1[b]);
                } else if a < open1.len() {
                    assert(open2[a] == open1[a]);
                } else if b < open1.len() {
                    assert(open2[b] == open1[b]);
                }
            }
            assert forall|r: Reg| #[trigger] present(bb, r, idx + 1)
                implies exists|k: int| 0 <= k < open2.len() && #[trigger] open2[k].0 == r by {
                if r == d {
                    assert(open2[open1.len() as int].0 == r);
                } else {
                    if !bb.live_in@.contains(r) {
                        let m = choose|m: int| 0 <= m < idx + 1 && #[trigger] insts[m].spec_reg_def().contains(r);
                        if m == idx {
                            assert(defs == seq![d]);
                        }
                    }
                    assert(present(bb, r, idx));
                    let j = choose|j: int| 0 <= j < open1.len() && #[trigger] open1[j].0 == r;
                    assert(open2[j] == open1[j]);
                }
            }
            assert forall|r: Reg, born: int| #[trigger] born_at(bb, r, born) && next_def(insts, r, born + 1) < idx + 1
                implies exists|k: int| 0 <= k < res2.len() && #[trigger] res2[k].0 == (r, born as i32) by {
                if next_def(insts, r, born + 1) == idx {
                    assert(r == d);
                    lemma_next_def_ge(insts, d, born + 1);
                    assert(born < idx);
                    if born >= 0 {
                        assert(insts[born].spec_reg_def().contains(d));
                    }
                }
            }
        }
    }
}

proof fn lemma_next_def_hit(insts: Seq<LIRInst>, r: Reg, j: int)
    requires
        0 <= j <= insts.len(),
    ensures
        next_def(insts, r, j) >= j,
        next_def(insts, r, j) < insts.len() ==> insts[next_def(insts, r, j)].spec_reg_def().contains(r),
        forall|m: int| j <= m < next_def(insts, r, j) && m < insts.len() ==> !(#[trigger] insts[m].spec_reg_def().contains(r)),
        j <= insts.len() ==> next_def(insts, r, j) <= insts.len(),
    decreases insts.len() - j,
{
    if j < insts.len() && !insts[j].spec_reg_def().contains(r) {
        lemma_next_def_hit(insts, r, j + 1);
    }
}

proof fn lemma_next_def_le(insts: Seq<LIRInst>, r: Reg, j: int, m: int)
    requires
        j <= m < insts.len(),
        insts[m].spec_reg_def().contains(r),
    ensures
        next_def(insts, r, j) <= m,
    decreases m - j,
{
    if j < m && !insts[j].spec_reg_def().contains(r) {
        lemma_next_def_le(insts, r, j + 1, m);
    }
}


proof fn lemma_interval_end(bb: BB, insts: Seq<LIRInst>, open: Seq<(Reg, i32, i32)>, res_end: Seq<((Reg, i32), (Reg, i32))>,
    res: Seq<((Reg, i32), (Reg, i32))>)
    requires
        bb.insts@ == insts,
        insts.len() < i32::MAX,
        forall|a: int, b: int| 0 <= a < open.len() && 0 <= b < open.len() && a != b ==> open[a].0 != open[b].0,
        forall|k: int| 0 <= k < open.len() ==> {
            &&& born_at(bb, (#[trigger] open[k]).0, open[k].1 as int)
            &&& open[k].1 < insts.len()
            &&& forall|m: int| open[k].1 < m < insts.len() ==> !(#[trigger] insts[m].spec_reg_def().contains(open[k].0))
            &&& open[k].2 == last_use(insts, open[k].0, open[k].1 as int, insts.len() - 1)
        },
        forall|r: Reg| #[trigger] present(bb, r, insts.len() as int)
            ==> exists|k: int| 0 <= k < open.len() && #[trigger] open[k].0 == r,
        forall|k: int| 0 <= k < res_end.len() ==> {
            &&& (#[trigger] res_end[k]).0.0 == res_end[k].1.0
            &&& born_at(bb, res_end[k].0.0, res_end[k].0.1 as int)
            &&& next_def(insts, res_end[k].0.0, res_end[k].0.1 + 1) < insts.len()
            &&& res_end[k].1.1 == last_use(insts, res_end[k].0.0, res_end[k].0.1 as int, next_def(insts, res_end[k].0.0, res_end[k].0.1 + 1))
        },
        forall|r: Reg, born: int| #[trigger] born_at(bb, r, born) && next_def(insts, r, born + 1) < insts.len()
            ==> exists|k: int| 0 <= k < res_end.len() && #[trigger] res_end[k].0 == (r, born as i32),
        forall|a: int, b: int| 0 <= a < res_end.len() && 0 <= b < res_end.len() && a != b ==> res_end[a].0 != res_end[b].0,
        res.len() == res_end.len() + open.len(),
        forall|t: int| 0 <= t < res_end.len() ==> #[trigger] res[t] == res_end[t],
        forall|t: int| 0 <= t < open.len() ==> #[trigger] res[res_end.len() + t] == ((open[t].0, open[t].1), (open[t].0,
            if bb.live_out@.contains(open[t].0) { insts.len() as i32 } else { open[t].2 })),
    ensures
        intervals_exact(bb, res),
{
    let n = insts.len() as int;
    let e = res_end.len() as int;
    assert forall|t: int| 0 <= t < open.len() implies next_def(insts, #[trigger] open[t].0, open[t].1 + 1) == n by {
        lemma_next_def_none(insts, open[t].0, open[t].1 + 1, n);
    }
    assert forall|k: int| 0 <= k < res.len() implies {
        &&& (#[trigger] res[k]).0.0 == res[k].1.0
        &&& born_at(bb, res[k].0.0, res[k].0.1 as int)
        &&& res[k].1.1 == die_at(bb, res[k].0.0, res[k].0.1 as int)
    } by {
        if k < e {
            assert(res[k] == res_end[k]);
        } else {
            let t = k - e;
            assert(res[e + t] == res[k]);
            assert(next_def(insts, open[t].0, open[t].1 + 1) == n);
        }
    }
    assert forall|r: Reg, born: int| #[trigger] born_at(bb, r, born)
        implies exists|k: int| 0 <= k < res.len() && #[trigger] res[k].0 == (r, born as i32) by {
        if next_def(insts, r, born + 1) < n {
            let k = choose|k: int| 0 <= k < res_end.len() && #[trigger] res_end[k].0 == (r, born as i32);
            assert(res[k] == res_end[k]);
        } else {
            if born >= 0 {
                assert(insts[born].spec_reg_def().contains(r));
            }
            assert(present(bb, r, n));
            let t = choose|t: int| 0 <= t < open.len() && #[trigger] open[t].0 == r;
            let born0 = open[t].1 as int;
            lemma_next_def_ge(insts, r, born + 1);
            assert(born_at(bb, open[t].0, born0));
            assert(born0 < n);
            if born < born0 {
                assert(born0 >= 0);
                assert(insts[born0].spec_reg_def().contains(r));
                lemma_next_def_le(insts, r, born + 1, born0);
            } else if born > born0 {
                assert(born0 < born < n);
                assert(!(insts[born].spec_reg_def().contains(open[t].0)));
            }
            assert(res[e + t].0 == (r, born as i32));
        }
    }
    assert forall|a: int, b: int| 0 <= a < res.len() && 0 <= b < res.len() && a != b implies res[a].0 != res[b].0 by {
        if a < e && b < e {
            assert(res[a] == res_end[a]);
            assert(res[b] == res_end[b]);
        } else if a < e {
            assert(res[a] == res_end[a]);
            assert(res[e + (b - e)] == res[b]);
            assert(next_def(insts, open[b - e].0, open[b - e].1 + 1) == n);
        } else if b < e {
            assert(res[b] == res_end[b]);
            assert(res[e + (a - e)] == res[a]);
            assert(next_def(insts, open[a - e].0, open[a - e].1 + 1) == n);
        } else {
            assert(res[e + (a - e)] == res[a]);
            assert(res[e + (b - e)] == res[b]);
        }
    }
}

proof fn lemma_intervals_same(a: BB, b: BB, iv: Seq<((Reg, i32), (Reg, i32))>)
    requires
        intervals_exact(a, iv),
        a.insts@ == b.insts@,
        a.live_in@ == b.live_in@,
        a.live_out@ == b.live_out@,
    ensures
        intervals_exact(b, iv),
{
    assert forall|r: Reg, born: int| born_at(a, r, born) <==> #[trigger] born_at(b, r, born) by {}
    assert forall|r: Reg, born: int| die_at(a, r, born) == #[trigger] die_at(b, r, born) by {}
    assert forall|r: Reg, born: int| #[trigger] born_at(b, r, born)
        implies exists|k: int| 0 <= k < iv.len() && #[trigger] iv[k].0 == (r, born as i32) by {
        assert(born_at(a, r, born));
    }
}

/// After a liveness pass, every register a block reads is live in or
/// written before the read.
proof fn lemma_pinned_uses_covered(blocks: Seq<BB>, p: spec_fn(Reg) -> bool, b: int)
    requires
        live_sets_pinned(blocks, p),
        0 <= b < blocks.len(),
    ensures
        uses_covered(blocks[b]),
{
    let bb = blocks[b];
    assert forall|i: int, r: Reg| 0 <= i < bb.insts@.len() && #[trigger] bb.insts@[i].spec_reg_use().contains(r)
        implies bb.live_in@.contains(r) || exists|k: int| 0 <= k < i && bb.insts@[k].spec_reg_def().contains(r) by {
        if !exists|k: int| 0 <= k < i && bb.insts@[k].spec_reg_def().contains(r) {
            assert(exposed_from(bb.insts@, 0, r));
            assert(live_path(blocks, r, seq![b]));
            assert(live_into(blocks, b, r));
        }
    }
}

/// A register whose value, born by an instruction of some block, dies
/// within three instructions of its birth.
pub open spec fn short_lived(blocks: Seq<BB>, r: Reg) -> bool {
    exists|b: int, born: int| 0 <= b < blocks.len() && 0 <= born && #[trigger] born_at(blocks[b], r, born)
        && die_at(blocks[b], r, born) - born < 3
}

impl Func {
    /// Builds the lifetimes of the values of every block (after a liveness pass).
    pub fn build_reg_intervals(&mut self)
        requires
            old(self).wf(),
            forall|b: int| 0 <= b < old(self).blocks@.len() ==> {
                &&& is_set((#[trigger] old(self).blocks@[b]).live_in@)
                &&& uses_covered(old(self).blocks@[b])
                &&& old(self).blocks@[b].insts@.len() < i32::MAX
            },
        ensures
            final(self).wf(),
            final(self).same_but_blocks(old(self)),
            final(self).blocks@.len() == old(self).blocks@.len(),
            forall|b: int| 0 <= b < final(self).blocks@.len() ==> {
                &&& intervals_exact(#[trigger] final(self).blocks@[b], final(self).blocks@[b].reg_intervals@)
                &&& final(self).blocks@[b].insts@ == old(self).blocks@[b].insts@
                &&& final(self).blocks@[b].live_in@ == old(self).blocks@[b].live_in@
                &&& final(self).blocks@[b].live_out@ == old(self).blocks@[b].live_out@
                &&& final(self).blocks@[b].live_use@ == old(self).blocks@[b].live_use@
                &&& final(self).blocks@[b].live_def@ == old(self).blocks@[b].live_def@
                &&& final(self).blocks@[b].label == old(self).blocks@[b].label
                &&& final(self).blocks@[b].func_label == old(self).blocks@[b].func_label
                &&& final(self).blocks@[b].showed == old(self).blocks@[b].showed
                &&& final(self).blocks@[b].in_edge@ == old(self).blocks@[b].in_edge@
                &&& final(self).blocks@[b].out_edge@ == old(self).blocks@[b].out_edge@
                &&& final(self).blocks@[b].phis@ == old(self).blocks@[b].phis@
            },
    {
        let n = self.blocks.len();
        let mut b: usize = 0;
        while b < n
            invariant
                n == old(self).blocks@.len(),
                self.blocks@.len() == n,
                self.same_but_blocks(old(self)),
                b <= n,
                old(self).wf(),
                forall|k: int| 0 <= k < n ==> {
                    &&& is_set((#[trigger] old(self).blocks@[k]).live_in@)
                    &&& uses_covered(old(self).blocks@[k])
                    &&& old(self).blocks@[k].insts@.len() < i32::MAX
                },
                forall|k: int| b <= k < n ==> #[trigger] self.blocks@[k] == old(self).blocks@[k],
                forall|k: int| 0 <= k < b ==> {
                    &&& intervals_exact(#[trigger] self.blocks@[k], self.blocks@[k].reg_intervals@)
                    &&& self.blocks@[k].insts@ == old(self).blocks@[k].insts@
                    &&& self.blocks@[k].live_in@ == old(self).blocks@[k].live_in@
                    &&& self.blocks@[k].live_out@ == old(self).blocks@[k].live_out@
                    &&& self.blocks@[k].live_use@ == old(self).blocks@[k].live_use@
                    &&& self.blocks@[k].live_def@ == old(self).blocks@[k].live_def@
                    &&& self.blocks@[k].label == old(self).blocks@[k].label
                    &&& self.blocks@[k].func_label == old(self).blocks@[k].func_label
                    &&& self.blocks@[k].showed == old(self).blocks@[k].showed
                    &&& self.blocks@[k].in_edge@ == old(self).blocks@[k].in_edge@
                    &&& self.blocks@[k].out_edge@ == old(self).blocks@[k].out_edge@
                    &&& self.blocks@[k].phis@ == old(self).blocks@[k].phis@
                },
            decreases n - b,
        {
            proof {
                assert forall|i: int| 0 <= i < self.blocks@[b as int].insts@.len() implies #[trigger] self.blocks@[b as int].insts@[i].def_well_formed() by {
                    assert(old(self).blocks@[b as int].insts@[i].def_well_formed());
                }
            }
            self.blocks[b].build_reg_intervals();
            b += 1;
        }
        proof {
            assert forall|bb: int, i: int| 0 <= bb < self.blocks@.len() && 0 <= i < self.blocks@[bb].insts@.len()
                implies #[trigger] self.blocks@[bb].insts@[i].def_well_formed() by {
                assert(old(self).blocks@[bb].insts@[i].def_well_formed());
            }
            assert forall|bb: int, k: int| 0 <= bb < self.blocks@.len() && 0 <= k < self.blocks@[bb].in_edge@.len()
                implies #[trigger] self.blocks@[bb].in_edge@[k] < self.blocks@.len() by {
                assert(old(self).blocks@[bb].in_edge@[k] < n);
            }
            assert forall|bb: int, k: int| 0 <= bb < self.blocks@.len() && 0 <= k < self.blocks@[bb].out_edge@.len()
                implies #[trigger] self.blocks@[bb].out_edge@[k] < self.blocks@.len() by {
                assert(old(self).blocks@[bb].out_edge@[k] < n);
            }
        }
    }

    /// Marks as temporary every register with a value, born in a block,
    /// that dies within three instructions (liveness for the call pass
    /// first, then the lifetimes).
    pub fn cal_tmp_var(&mut self)
        requires
            old(self).wf(),
            is_set(old(self).tmp_vars@),
            forall|b: int| 0 <= b < old(self).blocks@.len() ==> (#[trigger] old(self).blocks@[b]).insts@.len() < i32::MAX,
        ensures
            final(self).wf(),
            final(self).same_but_blocks_tmp(old(self)),
            final(self).blocks@.len() == old(self).blocks@.len(),
            forall|b: int| 0 <= b < final(self).blocks@.len() ==> (#[trigger] final(self).blocks@[b]).insts@ == old(self).blocks@[b].insts@,
            live_sets_pinned(final(self).blocks@, |r: Reg| reserved_reg(r)),
            is_set(final(self).tmp_vars@),
            forall|r: Reg| #[trigger] final(self).tmp_vars@.contains(r) <==> old(self).tmp_vars@.contains(r) || short_lived(final(self).blocks@, r),
    {
        self.calc_live_for_handle_call();
        let ghost live_blocks = self.blocks@;
        proof {
            assert forall|b: int| 0 <= b < self.blocks@.len() implies {
                &&& is_set((#[trigger] self.blocks@[b]).live_in@)
                &&& uses_covered(self.blocks@[b])
                &&& self.blocks@[b].insts@.len() < i32::MAX
            } by {
                lemma_pinned_uses_covered(self.blocks@, |r: Reg| reserved_reg(r), b);
                assert(same_but_live(self.blocks@[b], old(self).blocks@[b]));
            }
        }
        self.build_reg_intervals();
        proof {
            lemma_pinned_same(live_blocks, self.blocks@, |r: Reg| reserved_reg(r));
        }
        let n = self.blocks.len();
        let mut b: usize = 0;
        while b < n
            invariant
                n == self.blocks@.len(),
                b <= n,
                self.wf(),
                forall|k: int| 0 <= k < n ==> intervals_exact(#[trigger] self.blocks@[k], self.blocks@[k].reg_intervals@),
                forall|k: int| 0 <= k < n ==> (#[trigger] self.blocks@[k]).insts@.len() < i32::MAX,
                is_set(self.tmp_vars@),
                self.same_but_blocks_tmp(old(self)),
                forall|r: Reg| #[trigger] self.tmp_vars@.contains(r) <==> old(self).tmp_vars@.contains(r)
                    || short_before(self.blocks@, r, b as int),
                forall|k: int| 0 <= k < n ==> (#[trigger] self.blocks@[k]).insts@ == old(self).blocks@[k].insts@,
                live_sets_pinned(self.blocks@, |r: Reg| reserved_reg(r)),
            decreases n - b,
        {
            let ghost bb = self.blocks@[b as int];
            let m = self.blocks[b].reg_intervals.len();
            let mut k: usize = 0;
            while k < m
                invariant
                    n == self.blocks@.len(),
                    b < n,
                    bb == self.blocks@[b as int],
                    m == bb.reg_intervals@.len(),
                    k <= m,
                    self.wf(),
                    forall|kk: int| 0 <= kk < n ==> intervals_exact(#[trigger] self.blocks@[kk], self.blocks@[kk].reg_intervals@),
                    forall|kk: int| 0 <= kk < n ==> (#[trigger] self.blocks@[kk]).insts@.len() < i32::MAX,
                    is_set(self.tmp_vars@),
                    self.same_but_blocks_tmp(old(self)),
                    forall|r: Reg| #[trigger] self.tmp_vars@.contains(r) <==> old(self).tmp_vars@.contains(r)
                        || short_before(self.blocks@, r, b as int)
                        || short_entry_before(bb.reg_intervals@, r, k as int),
                    forall|kk: int| 0 <= kk < n ==> (#[trigger] self.blocks@[kk]).insts@ == old(self).blocks@[kk].insts@,
                    live_sets_pinned(self.blocks@, |r: Reg| reserved_reg(r)),
                decreases m - k,
            {
                let e = self.blocks[b].reg_intervals[k];
                let ghost tv0 = self.tmp_vars@;
                let hit = e.0.1 != -1 && (e.1.1 as i64) - (e.0.1 as i64) < 3;
                if hit {
                    set_insert(&mut self.tmp_vars, e.0.0);
                }
                proof {
                    assert(e == bb.reg_intervals@[k as int]);
                    assert forall|r: Reg| #[trigger] self.tmp_vars@.contains(r) <==> old(self).tmp_vars@.contains(r)
                        || short_before(self.blocks@, r, b as int)
                        || short_entry_before(bb.reg_intervals@, r, k + 1) by {
                        assert(tv0.contains(r) <==> old(self).tmp_vars@.contains(r)
                            || short_before(self.blocks@, r, b as int)
                            || short_entry_before(bb.reg_intervals@, r, k as int));
                        assert(self.tmp_vars@.contains(r) <==> (tv0.contains(r) || (hit && r == e.0.0)));
                        lemma_short_entry_step(bb.reg_intervals@, r, k as int);
                    }
                }
                k += 1;
            }
            proof {
                assert forall|r: Reg| #[trigger] self.tmp_vars@.contains(r) <==> old(self).tmp_vars@.contains(r)
                    || short_before(self.blocks@, r, b + 1) by {
                    assert(self.tmp_vars@.contains(r) <==> old(self).tmp_vars@.contains(r)
                        || short_before(self.blocks@, r, b as int)
                        || short_entry_before(bb.reg_intervals@, r, m as int));
                    lemma_short_block_step(self.blocks@, r, b as int);
                }
            }
            b += 1;
        }
        proof {
            assert forall|r: Reg| #[trigger] self.tmp_vars@.contains(r) <==> old(self).tmp_vars@.contains(r)
                || short_lived(self.blocks@, r) by {
                assert(self.tmp_vars@.contains(r) <==> old(self).tmp_vars@.contains(r)
                    || short_before(self.blocks@, r, n as int));
            }
        }
    }
}

/// Some block before `b` holds a value of `r` that dies within three
/// instructions of its birth by an instruction.
pub open spec fn short_before(blocks: Seq<BB>, r: Reg, b: int) -> bool {
    exists|b2: int, born: int| 0 <= b2 < b && 0 <= born && #[trigger] born_at(blocks[b2], r, born)
        && die_at(blocks[b2], r, born) - born < 3
}

/// The lifetime at `t` of `iv` is one of `r`, born by an instruction,
/// that ends within three instructions.
pub open spec fn short_entry(iv: Seq<((Reg, i32), (Reg, i32))>, t: int, r: Reg) -> bool {
    iv[t].0.0 == r && iv[t].0.1 != -1 && iv[t].1.1 - iv[t].0.1 < 3
}

/// One of the first `k` lifetimes of `iv` is a short one of `r`.
pub open spec fn short_entry_before(iv: Seq<((Reg, i32), (Reg, i32))>, r: Reg, k: int) -> bool {
    exists|t: int| 0 <= t < k && #[trigger] short_entry(iv, t, r)
}

proof fn lemma_short_entry_step(iv: Seq<((Reg, i32), (Reg, i32))>, r: Reg, k: int)
    requires
        0 <= k,
    ensures
        short_entry_before(iv, r, k + 1) <==> (short_entry_before(iv, r, k) || short_entry(iv, k, r)),
{
    if short_entry_before(iv, r, k + 1) {
        let t = choose|t: int| 0 <= t < k + 1 && #[trigger] short_entry(iv, t, r);
        if t < k {
            assert(short_entry_before(iv, r, k));
        }
    }
    if short_entry_before(iv, r, k) {
        let t = choose|t: int| 0 <= t < k && #[trigger] short_entry(iv, t, r);
        assert(short_entry(iv, t, r));
    }
    if short_entry(iv, k, r) {
        assert(short_entry(iv, k, r));
    }
}

proof fn lemma_short_block_step(blocks: Seq<BB>, r: Reg, b: int)
    requires
        0 <= b < blocks.len(),
        intervals_exact(blocks[b], blocks[b].reg_intervals@),
        blocks[b].insts@.len() < i32::MAX,
    ensures
        short_before(blocks, r, b + 1) <==> (short_before(blocks, r, b)
            || short_entry_before(blocks[b].reg_intervals@, r, blocks[b].reg_intervals@.len() as int)),
{
    let bb = blocks[b];
    let iv = bb.reg_intervals@;
    if short_entry_before(iv, r, iv.len() as int) {
        let t = choose|t: int| 0 <= t < iv.len() && #[trigger] short_entry(iv, t, r);
        assert(iv[t].0.0 == iv[t].1.0);
        assert(born_at(bb, iv[t].0.0, iv[t].0.1 as int));
        assert(iv[t].1.1 == die_at(bb, iv[t].0.0, iv[t].0.1 as int));
        assert(born_at(bb, iv[t].0.0, iv[t].0.1 as int) && iv[t].0.1 >= 0);
        assert(born_at(blocks[b], r, iv[t].0.1 as int));
        assert(short_before(blocks, r, b + 1));
    }
    if short_before(blocks, r, b + 1) {
        let (b2, born) = choose|b2: int, born: int| 0 <= b2 < b + 1 && 0 <= born && #[trigger] born_at(blocks[b2], r, born)
            && die_at(blocks[b2], r, born) - born < 3;
        if b2 == b {
            assert(born < bb.insts@.len());
            let t = choose|t: int| 0 <= t < iv.len() && #[trigger] iv[t].0 == (r, born as i32);
            assert(iv[t].0.0 == r);
            assert(iv[t].0.1 == born);
            assert(iv[t].1.1 == die_at(bb, iv[t].0.0, iv[t].0.1 as int));
            assert(short_entry(iv, t, r));
        } else {
            assert(short_before(blocks, r, b));
        }
    }
    if short_before(blocks, r, b) {
        let (b2, born) = choose|b2: int, born: int| 0 <= b2 < b && 0 <= born && #[trigger] born_at(blocks[b2], r, born)
            && die_at(blocks[b2], r, born) - born < 3;
        assert(born_at(blocks[b2], r, born));
    }
}

proof fn lemma_pinned_same(a: Seq<BB>, b: Seq<BB>, p: spec_fn(Reg) -> bool)
    requires
        live_sets_pinned(a, p),
        a.len() == b.len(),
        forall|k: int| 0 <= k < a.len() ==> same_code(#[trigger] b[k], a[k]),
        forall|k: int| 0 <= k < a.len() ==> {
            &&& (#[trigger] b[k]).live_in@ == a[k].live_in@
            &&& b[k].live_out@ == a[k].live_out@
            &&& b[k].live_use@ == a[k].live_use@
            &&& b[k].live_def@ == a[k].live_def@
        },
    ensures
        live_sets_pinned(b, p),
{
    crate::liveness::lemma_same_code_flow(a, b);
    assert forall|k: int| 0 <= k < b.len() implies {
        &&& is_set((#[trigger] b[k]).live_use@)
        &&& is_set(b[k].live_def@)
        &&& is_set(b[k].live_in@)
        &&& is_set(b[k].live_out@)
        &&& forall|r: Reg| #[trigger] b[k].live_use@.contains(r) <==> exposes(b, k, r)
        &&& forall|r: Reg| #[trigger] b[k].live_def@.contains(r) <==> kills(b, k, r)
        &&& forall|r: Reg| #[trigger] b[k].live_in@.contains(r) <==> (live_into(b, k, r) || p(r))
        &&& forall|r: Reg| #[trigger] b[k].live_out@.contains(r) <==> (live_out_of(b, k, r) || p(r))
    } by {
        assert(live_sets_pinned(a, p));
        assert forall|r: Reg| #[trigger] b[k].live_use@.contains(r) <==> exposes(b, k, r) by {
            assert(a[k].live_use@.contains(r) <==> exposes(a, k, r));
        }
        assert forall|r: Reg| #[trigger] b[k].live_def@.contains(r) <==> kills(b, k, r) by {
            assert(a[k].live_def@.contains(r) <==> kills(a, k, r));
        }
        assert forall|r: Reg| #[trigger] b[k].live_in@.contains(r) <==> (live_into(b, k, r) || p(r)) by {
            assert(a[k].live_in@.contains(r) <==> (live_into(a, k, r) || p(r)));
        }
        assert forall|r: Reg| #[trigger] b[k].live_out@.contains(r) <==> (live_out_of(b, k, r) || p(r)) by {
            assert(a[k].live_out@.contains(r) <==> (live_out_of(a, k, r) || p(r)));
        }
    }
}

} // verus!
