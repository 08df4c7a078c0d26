use std::collections::{HashMap, HashSet};
use vstd::prelude::*;
use crate::analysis::{live_at, lemma_live_at_step};
use crate::block::{BB, ADDR_SIZE, has_slot, slot_of, find_slot, spill_ready, spill_block};
use crate::structs::StackSlot;
use crate::func::{Func, blocks_ok};
use crate::liveness::{live_sets_pinned, alloc_reserved_reg, same_but_live, touches};
use crate::instrs::LIRInst;
use crate::operand::{Reg, ScalarType};
use crate::instrs::{Operand, insts_view, spilled_regs};
use crate::regset::{is_set, set_insert, set_remove_all, copy_regs};
use crate::heap::{heap_items, heap_new, heap_push, heap_pop_max, heap_is_empty, set_elems};

verus! {

broadcast use vstd::std_specs::hash::group_hash_axioms;

/// An interference graph: `nodes[k]` conflicts with the registers of `adj[k]`.
pub open spec fn graph_ok(nodes: Seq<Reg>, adj: Seq<Vec<Reg>>) -> bool {
    &&& nodes.no_duplicates()
    &&& adj.len() == nodes.len()
    &&& forall|k: int| 0 <= k < adj.len() ==> is_set(#[trigger] adj[k]@)
    &&& forall|k: int, x: Reg| 0 <= k < adj.len() && #[trigger] adj[k]@.contains(x) ==> nodes.contains(x) && x != nodes[k]
    &&& forall|a: Reg, b: Reg| #[trigger] adjacent(nodes, adj, a, b) ==> adjacent(nodes, adj, b, a)
}

/// `a` and `b` conflict in the graph.
pub open spec fn adjacent(nodes: Seq<Reg>, adj: Seq<Vec<Reg>>, a: Reg, b: Reg) -> bool {
    exists|k: int| 0 <= k < nodes.len() && nodes[k] == a && #[trigger] adj[k]@.contains(b)
}

/// The second graph has the nodes and conflicts of the first, and maybe more.
pub open spec fn graph_grows(n1: Seq<Reg>, a1: Seq<Vec<Reg>>, n2: Seq<Reg>, a2: Seq<Vec<Reg>>) -> bool {
    &&& n1.len() <= n2.len()
    &&& forall|k: int| 0 <= k < n1.len() ==> #[trigger] n2[k] == n1[k]
    &&& forall|k: int, x: Reg| 0 <= k < n1.len() && #[trigger] a1[k]@.contains(x) ==> a2[k]@.contains(x)
}

pub proof fn lemma_graph_grows(n1: Seq<Reg>, a1: Seq<Vec<Reg>>, n2: Seq<Reg>, a2: Seq<Vec<Reg>>)
    requires
        graph_grows(n1, a1, n2, a2),
    ensures
        forall|a: Reg, b: Reg| #[trigger] adjacent(n1, a1, a, b) ==> adjacent(n2, a2, a, b),
        forall|x: Reg| n1.contains(x) ==> #[trigger] n2.contains(x),
{
    assert forall|a: Reg, b: Reg| #[trigger] adjacent(n1, a1, a, b) implies adjacent(n2, a2, a, b) by {
        let k = choose|k: int| 0 <= k < n1.len() && n1[k] == a && #[trigger] a1[k]@.contains(b);
        assert(a2[k]@.contains(b));
    }
    assert forall|x: Reg| n1.contains(x) implies #[trigger] n2.contains(x) by {
        let k = choose|k: int| 0 <= k < n1.len() && n1[k] == x;
        assert(n2[k] == x);
    }
}

/// The index of `r` among `nodes`.
fn node_index(nodes: &Vec<Reg>, r: &Reg) -> (i: Option<usize>)
    ensures
        i is None <==> !nodes@.contains(*r),
        i matches Some(k) ==> k < nodes@.len() && nodes@[k as int] == *r,
{
    let mut k: usize = 0;
    while k < nodes.len()
        invariant
            k <= nodes@.len(),
            forall|j: int| 0 <= j < k ==> nodes@[j] != *r,
        decreases nodes@.len() - k,
    {
        if nodes[k] == *r {
            return Some(k);
        }
        k += 1;
    }
    None
}

/// Makes `r` a node of the graph.
fn ensure_node(nodes: &mut Vec<Reg>, adj: &mut Vec<Vec<Reg>>, r: Reg)
    requires
        graph_ok(old(nodes)@, old(adj)@),
    ensures
        graph_ok(final(nodes)@, final(adj)@),
        final(nodes)@.contains(r),
        graph_grows(old(nodes)@, old(adj)@, final(nodes)@, final(adj)@),
        forall|x: Reg| #[trigger] final(nodes)@.contains(x) <==> old(nodes)@.contains(x) || x == r,
        forall|a: Reg, b: Reg| #[trigger] adjacent(final(nodes)@, final(adj)@, a, b) <==> adjacent(old(nodes)@, old(adj)@, a, b),
{
    match node_index(nodes, &r) {
        Some(_) => {},
        None => {
            let ghost n0 = nodes@;
            let ghost a0 = adj@;
            nodes.push(r);
            adj.push(Vec::new());
            proof {
                assert forall|k: int| 0 <= k < adj@.len() implies is_set(#[trigger] adj@[k]@) by {
                    if k < a0.len() {
                        assert(adj@[k] == a0[k]);
                    } else {
                        assert(adj@[k]@.len() == 0);
                    }
                }
                assert forall|k: int, x: Reg| 0 <= k < adj@.len() && #[trigger] adj@[k]@.contains(x) implies nodes@.contains(x) && x != nodes@[k] by {
                    if k < a0.len() {
                        assert(adj@[k] == a0[k]);
                        assert(n0.contains(x));
                        let j = choose|j: int| 0 <= j < n0.len() && n0[j] == x;
                        assert(nodes@[j] == x);
                    } else {
                        assert(adj@[k]@.len() == 0);
                    }
                }
                assert forall|a: Reg, b: Reg| #[trigger] adjacent(nodes@, adj@, a, b) <==> adjacent(n0, a0, a, b) by {
                    if adjacent(nodes@, adj@, a, b) {
                        let k = choose|k: int| 0 <= k < nodes@.len() && nodes@[k] == a && #[trigger] adj@[k]@.contains(b);
                        if k == n0.len() {
                            assert(adj@[k]@.len() == 0);
                        } else {
                            assert(a0[k]@.contains(b));
                        }
                    }
                    if adjacent(n0, a0, a, b) {
                        let k = choose|k: int| 0 <= k < n0.len() && n0[k] == a && #[trigger] a0[k]@.contains(b);
                        assert(adj@[k] == a0[k]);
                    }
                }
                assert forall|x: Reg| #[trigger] nodes@.contains(x) <==> n0.contains(x) || x == r by {
                    if n0.contains(x) {
                        let j = choose|j: int| 0 <= j < n0.len() && n0[j] == x;
                        assert(nodes@[j] == x);
                    }
                    if x == r {
                        assert(nodes@[n0.len() as int] == x);
                    }
                    if nodes@.contains(x) {
                        let j = choose|j: int| 0 <= j < nodes@.len() && nodes@[j] == x;
                        if j < n0.len() {
                            assert(n0[j] == x);
                        }
                    }
                }
                assert forall|k: int, x: Reg| 0 <= k < n0.len() && #[trigger] a0[k]@.contains(x) implies adj@[k]@.contains(x) by {
                    assert(adj@[k] == a0[k]);
                }
                assert forall|i: int, j: int| 0 <= i < nodes@.len() && 0 <= j < nodes@.len() && i != j implies nodes@[i] != nodes@[j] by {
                    if i == n0.len() {
                        assert(n0.contains(nodes@[j]) || j == i);
                    } else if j == n0.len() {
                        assert(n0.contains(nodes@[i]) || j == i);
                    }
                }
            }
        },
    }
}

/// Records that `a` and `b` conflict.
fn add_edge(nodes: &Vec<Reg>, adj: &mut Vec<Vec<Reg>>, a: Reg, b: Reg)
    requires
        graph_ok(nodes@, old(adj)@),
        nodes@.contains(a),
        nodes@.contains(b),
        a != b,
    ensures
        graph_ok(nodes@, final(adj)@),
        graph_grows(nodes@, old(adj)@, nodes@, final(adj)@),
        adjacent(nodes@, final(adj)@, a, b),
        adjacent(nodes@, final(adj)@, b, a),
        forall|x: Reg, y: Reg| #[trigger] adjacent(nodes@, final(adj)@, x, y) ==>
            adjacent(nodes@, old(adj)@, x, y) || (x == a && y == b) || (x == b && y == a),
{
    let ia = node_index(nodes, &a).unwrap();
    let ib = node_index(nodes, &b).unwrap();
    let ghost a0 = adj@;
    set_insert(&mut adj[ia], b);
    let ghost a1 = adj@;
    set_insert(&mut adj[ib], a);
    proof {
        assert forall|k: int| 0 <= k < adj@.len() implies is_set(#[trigger] adj@[k]@) by {
            if k != ia && k != ib {
                assert(adj@[k] == a0[k]);
            }
        }
        assert forall|k: int, x: Reg| 0 <= k < adj@.len() && #[trigger] adj@[k]@.contains(x) implies nodes@.contains(x) && x != nodes@[k] by {
            if k == ib {
                if x != a {
                    assert(a1[k]@.contains(x));
                    if k == ia {
                    } else {
                        assert(a0[k]@.contains(x));
                    }
                }
            } else if k == ia {
                if x != b {
                    assert(a0[k]@.contains(x));
                }
            } else {
                assert(adj@[k] == a0[k]);
            }
        }
        assert forall|k: int, x: Reg| 0 <= k < nodes@.len() && #[trigger] a0[k]@.contains(x) implies adj@[k]@.contains(x) by {
            if k == ia {
                assert(a1[k]@.contains(x));
            }
            if k != ia && k != ib {
                assert(adj@[k] == a0[k]);
            }
        }
        assert(adj@[ia as int]@.contains(b));
        assert(adj@[ib as int]@.contains(a));
        assert forall|x: Reg, y: Reg| #[trigger] adjacent(nodes@, adj@, x, y) implies
            adjacent(nodes@, a0, x, y) || (x == a && y == b) || (x == b && y == a) by {
            let k = choose|k: int| 0 <= k < nodes@.len() && nodes@[k] == x && #[trigger] adj@[k]@.contains(y);
            if k == ib && y == a {
            } else if k == ia && y == b {
            } else if k == ib {
                assert(a1[k]@.contains(y));
                assert(a0[k]@.contains(y));
            } else if k == ia {
                assert(a0[k]@.contains(y));
            } else {
                assert(adj@[k] == a0[k]);
            }
        }
        assert forall|x: Reg, y: Reg| #[trigger] adjacent(nodes@, adj@, x, y) implies adjacent(nodes@, adj@, y, x) by {
            if adjacent(nodes@, a0, x, y) {
                assert(adjacent(nodes@, a0, y, x));
                let k = choose|k: int| 0 <= k < nodes@.len() && nodes@[k] == y && #[trigger] a0[k]@.contains(x);
                assert(adj@[k]@.contains(x));
            }
        }
    }
}

/// A spilled register: its id is among `ids`.
pub open spec fn spilled(ids: Set<i32>, r: Reg) -> bool {
    ids.contains(r.id)
}

/// Some instruction of `blocks` reads `r`.
pub open spec fn used_somewhere(blocks: Seq<BB>, r: Reg) -> bool {
    exists|b: int, i: int| 0 <= b < blocks.len() && 0 <= i < blocks[b].insts@.len()
        && #[trigger] blocks[b].insts@[i].spec_reg_use().contains(r)
}

/// Two spilled registers that are live at one point of a block conflict.
pub open spec fn conflicts_covered(blocks: Seq<BB>, ids: Set<i32>, nodes: Seq<Reg>, adj: Seq<Vec<Reg>>) -> bool {
    forall|b: int, k: int, x: Reg, y: Reg|
        0 <= b < blocks.len() && 0 <= k <= blocks[b].insts@.len() && x != y
        && spilled(ids, x) && spilled(ids, y)
        && #[trigger] live_at(blocks[b].insts@, blocks[b].live_out@, k, x)
        && #[trigger] live_at(blocks[b].insts@, blocks[b].live_out@, k, y)
        ==> adjacent(nodes, adj, x, y)
}

/// `x` and `y` are two spilled registers live at one point of a block.
pub open spec fn spill_conflict(blocks: Seq<BB>, ids: Set<i32>, x: Reg, y: Reg) -> bool {
    &&& x != y
    &&& spilled(ids, x)
    &&& spilled(ids, y)
    &&& exists|b: int, k: int| 0 <= b < blocks.len() && 0 <= k <= blocks[b].insts@.len()
        && #[trigger] live_at(blocks[b].insts@, blocks[b].live_out@, k, x)
        && #[trigger] live_at(blocks[b].insts@, blocks[b].live_out@, k, y)
}

/// Every conflict of the graph is one of `blocks`.
pub open spec fn conflicts_exact(blocks: Seq<BB>, ids: Set<i32>, nodes: Seq<Reg>, adj: Seq<Vec<Reg>>) -> bool {
    forall|x: Reg, y: Reg| #[trigger] adjacent(nodes, adj, x, y) ==> spill_conflict(blocks, ids, x, y)
}

/// An edge of a well-formed graph joins two different registers.
proof fn lemma_adjacent_distinct(nodes: Seq<Reg>, adj: Seq<Vec<Reg>>, x: Reg, y: Reg)
    requires
        graph_ok(nodes, adj),
        adjacent(nodes, adj, x, y),
    ensures
        x != y,
{
    let k = choose|k: int| 0 <= k < nodes.len() && nodes[k] == x && #[trigger] adj[k]@.contains(y);
}

impl Func {
    /// The conflicts between spilled registers: walking each block backwards
    /// from its exit set, a spilled register that becomes live conflicts
    /// with every spilled register live at that point.
    #[verifier::rlimit(30)]
    fn build_interference_for_spill(&mut self) -> (g: (Vec<Reg>, Vec<Vec<Reg>>))
        requires
            old(self).wf(),
        ensures
            final(self).wf(),
            final(self).same_but_blocks(old(self)),
            final(self).blocks@.len() == old(self).blocks@.len(),
            forall|b: int| 0 <= b < final(self).blocks@.len()
                ==> same_but_live(#[trigger] final(self).blocks@[b], old(self).blocks@[b]),
            live_sets_pinned(final(self).blocks@, |r: Reg| alloc_reserved_reg(r)),
            graph_ok(g.0@, g.1@),
            forall|x: Reg| spilled(final(self).spillings@, x) && used_somewhere(final(self).blocks@, x) ==> #[trigger] g.0@.contains(x),
            conflicts_covered(final(self).blocks@, final(self).spillings@, g.0@, g.1@),
            conflicts_exact(final(self).blocks@, final(self).spillings@, g.0@, g.1@),
    {
        self.calc_live_for_alloc_reg();
        let mut nodes: Vec<Reg> = Vec::new();
        let mut adj: Vec<Vec<Reg>> = Vec::new();
        let ghost blocks = self.blocks@;
        let ghost ids = self.spillings@;
        let nb = self.blocks.len();
        let mut b: usize = 0;
        while b < nb
            invariant
                nb == blocks.len(),
                blocks == self.blocks@,
                ids == self.spillings@,
                self.wf(),
                live_sets_pinned(blocks, |r: Reg| alloc_reserved_reg(r)),
                b <= nb,
                graph_ok(nodes@, adj@),
                conflicts_exact(blocks, ids, nodes@, adj@),
                forall|bb: int, i: int, x: Reg| 0 <= bb < b && 0 <= i < blocks[bb].insts@.len()
                    && spilled(ids, x) && #[trigger] blocks[bb].insts@[i].spec_reg_use().contains(x) ==> nodes@.contains(x),
                forall|bb: int, k: int, x: Reg, y: Reg|
                    0 <= bb < b && 0 <= k <= blocks[bb].insts@.len() && x != y
                    && spilled(ids, x) && spilled(ids, y)
                    && #[trigger] live_at(blocks[bb].insts@, blocks[bb].live_out@, k, x)
                    && #[trigger] live_at(blocks[bb].insts@, blocks[bb].live_out@, k, y)
                    ==> adjacent(nodes@, adj@, x, y),
            decreases nb - b,
        {
            let ghost insts = blocks[b as int].insts@;
            let ghost out = blocks[b as int].live_out@;
            let ghost n_start = nodes@;
            let ghost a_start = adj@;
            proof {
                assert(live_sets_pinned(blocks, |r: Reg| alloc_reserved_reg(r)));
                assert(is_set(blocks[b as int].live_out@));
            }
            let mut live_now: Vec<Reg> = Vec::new();
            let lo = self.blocks[b].live_out.len();
            let mut j: usize = 0;
            while j < lo
                invariant
                    nb == blocks.len(),
                    blocks == self.blocks@,
                    ids == self.spillings@,
                    b < nb,
                    lo == out.len(),
                    out == blocks[b as int].live_out@,
                    j <= lo,
                    graph_ok(nodes@, adj@),
                    conflicts_exact(blocks, ids, nodes@, adj@),
                    insts == blocks[b as int].insts@,
                    graph_grows(n_start, a_start, nodes@, adj@),
                    is_set(live_now@),
                    forall|x: Reg| #[trigger] live_now@.contains(x) ==> nodes@.contains(x),
                    forall|x: Reg| #[trigger] live_now@.contains(x) <==> spilled(ids, x) && exists|t: int| 0 <= t < j && out[t] == x,
                    forall|x: Reg, y: Reg| #[trigger] live_now@.contains(x) && #[trigger] live_now@.contains(y) && x != y
                        ==> adjacent(nodes@, adj@, x, y),
                decreases lo - j,
            {
                let reg = self.blocks[b].live_out[j];
                let ghost ln0 = live_now@;
                let ghost ng0 = nodes@;
                let ghost ag0 = adj@;
                if self.spillings.contains(&reg.get_id()) {
                    self.add_conflicts(&mut nodes, &mut adj, &mut live_now, reg);
                    proof {
                        let n = insts.len() as int;
                        assert forall|x: Reg, y: Reg| #[trigger] adjacent(nodes@, adj@, x, y) implies spill_conflict(blocks, ids, x, y) by {
                            if !adjacent(ng0, ag0, x, y) {
                                lemma_adjacent_distinct(nodes@, adj@, x, y);
                                assert(out[j as int] == reg);
                                assert(live_at(insts, out, n, x));
                                assert(live_at(insts, out, n, y));
                            }
                        }
                    }
                }
                proof {
                    assert forall|x: Reg| #[trigger] live_now@.contains(x) <==> spilled(ids, x) && exists|t: int| 0 <= t < j + 1 && out[t] == x by {
                        if exists|t: int| 0 <= t < j + 1 && out[t] == x {
                            let t = choose|t: int| 0 <= t < j + 1 && out[t] == x;
                            if t < j {
                                assert(exists|t: int| 0 <= t < j && out[t] == x);
                            }
                        }
                    }
                }
                j += 1;
            }
            proof {
                assert forall|x: Reg| #[trigger] live_now@.contains(x) <==> spilled(ids, x) && live_at(insts, out, insts.len() as int, x) by {
                    if out.contains(x) {
                        let t = choose|t: int| 0 <= t < out.len() && out[t] == x;
                        assert(exists|t: int| 0 <= t < lo && out[t] == x);
                    }
                }
            }
            let n = self.blocks[b].insts.len();
            proof {
                assert forall|k: int, x: Reg, y: Reg| n <= k <= n && x != y && spilled(ids, x) && spilled(ids, y)
                    && #[trigger] live_at(insts, out, k, x) && #[trigger] live_at(insts, out, k, y)
                    implies adjacent(nodes@, adj@, x, y) by {
                    assert(live_now@.contains(x));
                    assert(live_now@.contains(y));
                }
            }
            let mut idx: usize = n;
            while idx > 0
                invariant
                    nb == blocks.len(),
                    blocks == self.blocks@,
                    ids == self.spillings@,
                    self.wf(),
                    b < nb,
                    n == insts.len(),
                    insts == blocks[b as int].insts@,
                    out == blocks[b as int].live_out@,
                    idx <= n,
                    graph_ok(nodes@, adj@),
                    conflicts_exact(blocks, ids, nodes@, adj@),
                    graph_grows(n_start, a_start, nodes@, adj@),
                    is_set(live_now@),
                    forall|x: Reg| #[trigger] live_now@.contains(x) ==> nodes@.contains(x),
                    forall|x: Reg| #[trigger] live_now@.contains(x) <==> spilled(ids, x) && live_at(insts, out, idx as int, x),
                    forall|x: Reg, y: Reg| #[trigger] live_now@.contains(x) && #[trigger] live_now@.contains(y) && x != y
                        ==> adjacent(nodes@, adj@, x, y),
                    forall|k: int, x: Reg, y: Reg| idx <= k <= n && x != y && spilled(ids, x) && spilled(ids, y)
                        && #[trigger] live_at(insts, out, k, x) && #[trigger] live_at(insts, out, k, y)
                        ==> adjacent(nodes@, adj@, x, y),
                    forall|i: int, x: Reg| idx <= i < n && spilled(ids, x)
                        && #[trigger] insts[i].spec_reg_use().contains(x) ==> nodes@.contains(x),
                decreases idx,
            {
                let i = idx - 1;
                assert(insts[i as int].def_well_formed());
                let defs = self.blocks[b].insts[i].get_reg_def();
                set_remove_all(&mut live_now, &defs);
                let uses = self.blocks[b].insts[i].get_reg_use();
                let ghost n_before = nodes@;
                let ghost a_before = adj@;
                let mut u: usize = 0;
                while u < uses.len()
                    invariant
                        ids == self.spillings@,
                        u <= uses@.len(),
                        graph_ok(nodes@, adj@),
                        conflicts_exact(blocks, ids, nodes@, adj@),
                        nb == blocks.len(),
                        b < nb,
                        insts == blocks[b as int].insts@,
                        out == blocks[b as int].live_out@,
                        n == insts.len(),
                        i < n,
                        idx == i + 1,
                        defs@ == insts[i as int].spec_reg_def(),
                        uses@ == insts[i as int].spec_reg_use(),
                        graph_grows(n_start, a_start, nodes@, adj@),
                        graph_grows(n_before, a_before, nodes@, adj@),
                        is_set(live_now@),
                        forall|x: Reg| #[trigger] live_now@.contains(x) ==> nodes@.contains(x),
                        forall|x: Reg| #[trigger] live_now@.contains(x) <==> spilled(ids, x)
                            && ((live_at(insts, out, idx as int, x) && !defs@.contains(x)) || exists|t: int| 0 <= t < u && uses@[t] == x),
                        forall|x: Reg, y: Reg| #[trigger] live_now@.contains(x) && #[trigger] live_now@.contains(y) && x != y
                            ==> adjacent(nodes@, adj@, x, y),
                        forall|t: int| 0 <= t < u && spilled(ids, #[trigger] uses@[t]) ==> nodes@.contains(uses@[t]),
                    decreases uses@.len() - u,
                {
                    let reg = uses[u];
                    let ghost n_it = nodes@;
                    let ghost a_it = adj@;
                    let ghost ln_it = live_now@;
                    if self.spillings.contains(&reg.get_id()) {
                        self.add_conflicts(&mut nodes, &mut adj, &mut live_now, reg);
                        proof {
                            assert forall|x: Reg, y: Reg| #[trigger] adjacent(nodes@, adj@, x, y) implies spill_conflict(blocks, ids, x, y) by {
                                if !adjacent(n_it, a_it, x, y) {
                                    lemma_adjacent_distinct(nodes@, adj@, x, y);
                                    let other = if x == reg { y } else { x };
                                    assert(ln_it.contains(other));
                                    lemma_live_at_step(insts, out, i as int, reg);
                                    lemma_live_at_step(insts, out, i as int, other);
                                    assert(uses@[u as int] == reg);
                                    if !(live_at(insts, out, idx as int, other) && !defs@.contains(other)) {
                                        let t = choose|t: int| 0 <= t < u && uses@[t] == other;
                                        assert(insts[i as int].spec_reg_use().contains(other));
                                    }
                                    assert(live_at(insts, out, i as int, x));
                                    assert(live_at(insts, out, i as int, y));
                                }
                            }
                        }
                    }
                    proof {
                        lemma_graph_grows(n_it, a_it, nodes@, adj@);
                        assert forall|t: int| 0 <= t < u + 1 && spilled(ids, #[trigger] uses@[t]) implies nodes@.contains(uses@[t]) by {
                            if t < u {
                                assert(n_it.contains(uses@[t]));
                            }
                        }
                    }
                    proof {
                        assert forall|x: Reg| #[trigger] live_now@.contains(x) <==> spilled(ids, x)
                            && ((live_at(insts, out, idx as int, x) && !defs@.contains(x)) || exists|t: int| 0 <= t < u + 1 && uses@[t] == x) by {
                            if exists|t: int| 0 <= t < u + 1 && uses@[t] == x {
                                let t = choose|t: int| 0 <= t < u + 1 && uses@[t] == x;
                                if t < u {
                                    assert(exists|t: int| 0 <= t < u && uses@[t] == x);
                                }
                            }
                        }
                        lemma_graph_grows(n_before, a_before, nodes@, adj@);
                    }
                    u += 1;
                }
                proof {
                    lemma_graph_grows(n_before, a_before, nodes@, adj@);
                    assert forall|x: Reg| #[trigger] live_now@.contains(x) <==> spilled(ids, x) && live_at(insts, out, i as int, x) by {
                        lemma_live_at_step(insts, out, i as int, x);
                        if uses@.contains(x) {
                            let t = choose|t: int| 0 <= t < uses@.len() && uses@[t] == x;
                            assert(exists|t: int| 0 <= t < uses@.len() && uses@[t] == x);
                        }
                    }
                    assert forall|k: int, x: Reg, y: Reg| i <= k <= n && x != y && spilled(ids, x) && spilled(ids, y)
                        && #[trigger] live_at(insts, out, k, x) && #[trigger] live_at(insts, out, k, y)
                        implies adjacent(nodes@, adj@, x, y) by {
                        if k == i {
                            assert(live_now@.contains(x));
                            assert(live_now@.contains(y));
                        } else {
                            assert(adjacent(n_before, a_before, x, y));
                        }
                    }
                    assert forall|ii: int, x: Reg| i <= ii < n && spilled(ids, x)
                        && #[trigger] insts[ii].spec_reg_use().contains(x) implies nodes@.contains(x) by {
                        if ii == i {
                            let t = choose|t: int| 0 <= t < uses@.len() && uses@[t] == x;
                            assert(spilled(ids, uses@[t]));
                        } else {
                            assert(n_before.contains(x));
                        }
                    }
                }
                idx = i;
            }
            proof {
                lemma_graph_grows(n_start, a_start, nodes@, adj@);
                assert forall|bb: int, ii: int, x: Reg| 0 <= bb < b + 1 && 0 <= ii < blocks[bb].insts@.len()
                    && spilled(ids, x) && #[trigger] blocks[bb].insts@[ii].spec_reg_use().contains(x) implies nodes@.contains(x) by {
                    if bb < b {
                        assert(n_start.contains(x));
                    }
                }
                assert forall|bb: int, k: int, x: Reg, y: Reg|
                    0 <= bb < b + 1 && 0 <= k <= blocks[bb].insts@.len() && x != y
                    && spilled(ids, x) && spilled(ids, y)
                    && #[trigger] live_at(blocks[bb].insts@, blocks[bb].live_out@, k, x)
                    && #[trigger] live_at(blocks[bb].insts@, blocks[bb].live_out@, k, y)
                    implies adjacent(nodes@, adj@, x, y) by {
                    if bb < b {
                        assert(adjacent(n_start, a_start, x, y));
                    }
                }
            }
            b += 1;
        }
        proof {
            assert forall|x: Reg| spilled(self.spillings@, x) && used_somewhere(self.blocks@, x) implies #[trigger] nodes@.contains(x) by {
                let (bb, ii) = choose|bb: int, ii: int| 0 <= bb < blocks.len() && 0 <= ii < blocks[bb].insts@.len()
                    && #[trigger] blocks[bb].insts@[ii].spec_reg_use().contains(x);
            }
        }
        (nodes, adj)
    }

    /// Makes the spilled register `reg` live: it conflicts with every other
    /// register of `live_now`, then joins it.
    fn add_conflicts(&self, nodes: &mut Vec<Reg>, adj: &mut Vec<Vec<Reg>>, live_now: &mut Vec<Reg>, reg: Reg)
        requires
            graph_ok(old(nodes)@, old(adj)@),
            is_set(old(live_now)@),
            forall|x: Reg| #[trigger] old(live_now)@.contains(x) ==> old(nodes)@.contains(x),
            forall|x: Reg, y: Reg| #[trigger] old(live_now)@.contains(x) && #[trigger] old(live_now)@.contains(y) && x != y
                ==> adjacent(old(nodes)@, old(adj)@, x, y),
        ensures
            graph_ok(final(nodes)@, final(adj)@),
            graph_grows(old(nodes)@, old(adj)@, final(nodes)@, final(adj)@),
            final(nodes)@.contains(reg),
            is_set(final(live_now)@),
            forall|x: Reg| #[trigger] final(live_now)@.contains(x) <==> old(live_now)@.contains(x) || x == reg,
            forall|x: Reg| #[trigger] final(live_now)@.contains(x) ==> final(nodes)@.contains(x),
            forall|x: Reg, y: Reg| #[trigger] final(live_now)@.contains(x) && #[trigger] final(live_now)@.contains(y) && x != y
                ==> adjacent(final(nodes)@, final(adj)@, x, y),
            forall|x: Reg, y: Reg| #[trigger] adjacent(final(nodes)@, final(adj)@, x, y) ==> adjacent(old(nodes)@, old(adj)@, x, y)
                || (x == reg && old(live_now)@.contains(y)) || (y == reg && old(live_now)@.contains(x)),
    {
        let ghost n0 = nodes@;
        let ghost a0 = adj@;
        ensure_node(nodes, adj, reg);
        proof {
            lemma_graph_grows(n0, a0, nodes@, adj@);
        }
        let ghost n1 = nodes@;
        let ghost a1 = adj@;
        let mut k: usize = 0;
        while k < live_now.len()
            invariant
                graph_ok(nodes@, adj@),
                nodes@ == n1,
                graph_grows(n1, a1, nodes@, adj@),
                graph_grows(n0, a0, nodes@, adj@),
                nodes@.contains(reg),
                k <= live_now@.len(),
                live_now@ == old(live_now)@,
                forall|x: Reg| #[trigger] live_now@.contains(x) ==> nodes@.contains(x),
                forall|t: int| 0 <= t < k && live_now@[t] != reg ==> adjacent(nodes@, adj@, #[trigger] live_now@[t], reg),
                forall|x: Reg, y: Reg| #[trigger] adjacent(nodes@, adj@, x, y) ==> adjacent(n0, a0, x, y)
                    || (x == reg && live_now@.contains(y)) || (y == reg && live_now@.contains(x)),
            decreases live_now@.len() - k,
        {
            let live = live_now[k];
            let ghost a_prev = adj@;
            assert(live_now@.contains(live_now@[k as int]));
            if live != reg {
                add_edge(nodes, adj, live, reg);
            }
            proof {
                lemma_graph_grows(n1, a_prev, nodes@, adj@);
            }
            k += 1;
        }
        let ghost ln0 = live_now@;
        set_insert(live_now, reg);
        proof {
            lemma_graph_grows(n1, a1, nodes@, adj@);
            assert forall|x: Reg, y: Reg| #[trigger] live_now@.contains(x) && #[trigger] live_now@.contains(y) && x != y
                implies adjacent(nodes@, adj@, x, y) by {
                if x == reg {
                    let t = choose|t: int| 0 <= t < ln0.len() && ln0[t] == y;
                    assert(adjacent(nodes@, adj@, ln0[t], reg));
                } else if y == reg {
                    let t = choose|t: int| 0 <= t < ln0.len() && ln0[t] == x;
                    assert(adjacent(nodes@, adj@, ln0[t], reg));
                } else {
                    assert(adjacent(n0, a0, x, y));
                }
            }
        }
    }
}

/// The number of register mentions (reads and writes) of `s`.
pub open spec fn inst_mentions(s: Seq<LIRInst>) -> int
    decreases s.len(),
{
    if s.len() == 0 {
        0
    } else {
        inst_mentions(s.drop_last()) + s.last().spec_reg_use().len() + s.last().spec_reg_def().len()
    }
}

/// The number of register mentions of `blocks`.
pub open spec fn func_mentions(blocks: Seq<BB>) -> int
    decreases blocks.len(),
{
    if blocks.len() == 0 {
        0
    } else {
        func_mentions(blocks.drop_last()) + inst_mentions(blocks.last().insts@)
    }
}

proof fn lemma_inst_mentions_prefix(s: Seq<LIRInst>, i: int)
    requires
        0 <= i <= s.len(),
    ensures
        0 <= inst_mentions(s.subrange(0, i)) <= inst_mentions(s),
        i < s.len() ==> inst_mentions(s.subrange(0, i + 1)) == inst_mentions(s.subrange(0, i))
            + s[i].spec_reg_use().len() + s[i].spec_reg_def().len(),
    decreases s.len(),
{
    if i < s.len() {
        assert(s.subrange(0, i + 1).drop_last() =~= s.subrange(0, i));
        lemma_inst_mentions_prefix(s.drop_last(), i);
        assert(s.drop_last().subrange(0, i) =~= s.subrange(0, i));
        if i + 1 < s.len() {
            lemma_inst_mentions_prefix(s.drop_last(), i + 1);
            assert(s.drop_last().subrange(0, i + 1) =~= s.subrange(0, i + 1));
        } else {
            assert(s.subrange(0, i + 1) =~= s);
        }
    } else {
        assert(s.subrange(0, i) =~= s);
        if s.len() > 0 {
            lemma_inst_mentions_prefix(s.drop_last(), s.len() - 1);
            assert(s.drop_last().subrange(0, s.len() - 1) =~= s.drop_last());
        }
    }
}

proof fn lemma_func_mentions_prefix(blocks: Seq<BB>, b: int)
    requires
        0 <= b <= blocks.len(),
    ensures
        0 <= func_mentions(blocks.subrange(0, b)) <= func_mentions(blocks),
        b < blocks.len() ==> func_mentions(blocks.subrange(0, b + 1)) == func_mentions(blocks.subrange(0, b))
            + inst_mentions(blocks[b].insts@),
    decreases blocks.len(),
{
    lemma_inst_mentions_prefix(if blocks.len() > 0 { blocks.last().insts@ } else { Seq::empty() }, 0);
    if blocks.len() > 0 {
        let l = blocks.last().insts@;
        lemma_inst_mentions_prefix(l, l.len() as int);
        assert(l.subrange(0, l.len() as int) =~= l);
    }
    if b < blocks.len() {
        assert(blocks.subrange(0, b + 1).drop_last() =~= blocks.subrange(0, b));
        lemma_func_mentions_prefix(blocks.drop_last(), b);
        assert(blocks.drop_last().subrange(0, b) =~= blocks.subrange(0, b));
        if b + 1 < blocks.len() {
            lemma_func_mentions_prefix(blocks.drop_last(), b + 1);
            assert(blocks.drop_last().subrange(0, b + 1) =~= blocks.subrange(0, b + 1));
        } else {
            assert(blocks.subrange(0, b + 1) =~= blocks);
        }
    } else {
        assert(blocks.subrange(0, b) =~= blocks);
        if blocks.len() > 0 {
            lemma_func_mentions_prefix(blocks.drop_last(), blocks.len() - 1);
            assert(blocks.drop_last().subrange(0, blocks.len() - 1) =~= blocks.drop_last());
        }
    }
}

/// Some instruction of `blocks` reads or writes `r`.
pub open spec fn mentioned(blocks: Seq<BB>, r: Reg) -> bool {
    exists|b: int, i: int| 0 <= b < blocks.len() && 0 <= i < blocks[b].insts@.len()
        && #[trigger] touches(blocks[b].insts@[i], r)
}

/// A register of a physical id.
pub open spec fn physical_id(id: i32) -> bool {
    0 <= id < 64
}

/// How many of `regs` have the id `id`.
pub open spec fn id_count(regs: Seq<Reg>, id: i32) -> int
    decreases regs.len(),
{
    if regs.len() == 0 {
        0
    } else {
        id_count(regs.drop_last(), id) + (if regs.last().id == id { 1int } else { 0int })
    }
}

/// How many times the instructions of `insts` read or write a register of id `id`.
pub open spec fn insts_id_count(insts: Seq<LIRInst>, id: i32) -> int
    decreases insts.len(),
{
    if insts.len() == 0 {
        0
    } else {
        insts_id_count(insts.drop_last(), id) + id_count(insts.last().spec_reg_use(), id)
            + id_count(insts.last().spec_reg_def(), id)
    }
}

/// How many times the instructions of `blocks` read or write a register of id `id`.
pub open spec fn blocks_id_count(blocks: Seq<BB>, id: i32) -> int
    decreases blocks.len(),
{
    if blocks.len() == 0 {
        0
    } else {
        blocks_id_count(blocks.drop_last(), id) + insts_id_count(blocks.last().insts@, id)
    }
}

/// The count of `id` in `m`, 0 when it has none.
pub open spec fn count_or_zero(m: Map<i32, i32>, id: i32) -> int {
    if m.contains_key(id) { m[id] as int } else { 0 }
}

/// Blocks with the same instructions have the same counts.
proof fn lemma_blocks_id_count_same(a: Seq<BB>, b: Seq<BB>, id: i32)
    requires
        a.len() == b.len(),
        forall|k: int| 0 <= k < a.len() ==> (#[trigger] a[k]).insts@ == b[k].insts@,
    ensures
        blocks_id_count(a, id) == blocks_id_count(b, id),
    decreases a.len(),
{
    if a.len() > 0 {
        assert forall|k: int| 0 <= k < a.len() - 1 implies (#[trigger] a.drop_last()[k]).insts@ == b.drop_last()[k].insts@ by {
            assert(a[k].insts@ == b[k].insts@);
        }
        lemma_blocks_id_count_same(a.drop_last(), b.drop_last(), id);
        assert(a[a.len() - 1].insts@ == b[b.len() - 1].insts@);
    }
}

/// Counts, for each spilled virtual register of `regs`, one more mention,
/// and records the register by its id.
fn count_regs(regs: &Vec<Reg>, ids: &HashSet<i32>, coes: &mut HashMap<i32, i32>, id_regs: &mut HashMap<i32, Reg>,
    Ghost(seen): Ghost<int>)
    requires
        0 <= seen,
        seen + regs@.len() < i32::MAX,
        forall|id: i32| #[trigger] old(coes)@.contains_key(id) ==> 1 <= old(coes)@[id] <= seen,
        forall|id: i32| #[trigger] old(id_regs)@.contains_key(id) <==> old(coes)@.contains_key(id),
        forall|id: i32| #[trigger] old(id_regs)@.contains_key(id) ==> old(id_regs)@[id].id == id,
    ensures
        forall|id: i32| #[trigger] final(coes)@.contains_key(id) ==> 1 <= final(coes)@[id] <= seen + regs@.len(),
        forall|id: i32| #[trigger] final(coes)@.contains_key(id) <==> old(coes)@.contains_key(id)
            || (ids@.contains(id) && !physical_id(id) && exists|k: int| 0 <= k < regs@.len() && regs@[k].id == id),
        forall|id: i32| #[trigger] final(id_regs)@.contains_key(id) <==> final(coes)@.contains_key(id),
        forall|id: i32| #[trigger] final(id_regs)@.contains_key(id) ==> final(id_regs)@[id].id == id
            && (regs@.contains(final(id_regs)@[id]) || (old(id_regs)@.contains_key(id) && final(id_regs)@[id] == old(id_regs)@[id])),
        forall|id: i32| ids@.contains(id) && !physical_id(id) ==>
            #[trigger] count_or_zero(final(coes)@, id) == count_or_zero(old(coes)@, id) + id_count(regs@, id),
{
    let ghost c0 = coes@;
    let ghost r0 = id_regs@;
    let mut k: usize = 0;
    while k < regs.len()
        invariant
            0 <= seen,
            seen + regs@.len() < i32::MAX,
            k <= regs@.len(),
            forall|id: i32| #[trigger] coes@.contains_key(id) ==> 1 <= coes@[id] <= seen + k,
            forall|id: i32| #[trigger] coes@.contains_key(id) <==> c0.contains_key(id)
                || (ids@.contains(id) && !physical_id(id) && exists|j: int| 0 <= j < k && regs@[j].id == id),
            forall|id: i32| #[trigger] id_regs@.contains_key(id) <==> coes@.contains_key(id),
            forall|id: i32| #[trigger] id_regs@.contains_key(id) ==> id_regs@[id].id == id
                && (regs@.contains(id_regs@[id]) || (r0.contains_key(id) && id_regs@[id] == r0[id])),
            forall|id: i32| #[trigger] c0.contains_key(id) ==> 1 <= c0[id] <= seen,
            forall|id: i32| #[trigger] r0.contains_key(id) <==> c0.contains_key(id),
            forall|id: i32| #[trigger] r0.contains_key(id) ==> r0[id].id == id,
            forall|id: i32| ids@.contains(id) && !physical_id(id) ==>
                #[trigger] count_or_zero(coes@, id) == count_or_zero(c0, id) + id_count(regs@.subrange(0, k as int), id),
        decreases regs@.len() - k,
    {
        let reg = regs[k];
        let ghost cpre = coes@;
        proof {
            assert(regs@.subrange(0, k + 1).drop_last() =~= regs@.subrange(0, k as int));
            assert(regs@.subrange(0, k + 1).last() == reg);
        }
        if !reg.is_physic() && ids.contains(&reg.get_id()) {
            let id = reg.get_id();
            id_regs.insert(id, reg);
            let c = match coes.get(&id) {
                Some(v) => *v,
                None => 0,
            };
            assert(c <= seen + k);
            let ghost cb = coes@;
            coes.insert(id, c + 1);
            proof {
                assert forall|id2: i32| #[trigger] coes@.contains_key(id2) implies 1 <= coes@[id2] <= seen + k + 1 by {
                    if id2 != id {
                        assert(cb.contains_key(id2));
                    }
                }
            }
            proof {
                assert(regs@.contains(reg)) by {
                    assert(regs@[k as int] == reg);
                }
            }
        }
        proof {
            assert forall|id: i32| ids@.contains(id) && !physical_id(id) implies
                #[trigger] count_or_zero(coes@, id) == count_or_zero(c0, id) + id_count(regs@.subrange(0, k + 1), id) by {
                assert(count_or_zero(cpre, id) == count_or_zero(c0, id) + id_count(regs@.subrange(0, k as int), id));
            }
            assert forall|id: i32| #[trigger] coes@.contains_key(id) <==> c0.contains_key(id)
                || (ids@.contains(id) && !physical_id(id) && exists|j: int| 0 <= j < k + 1 && regs@[j].id == id) by {
                if exists|j: int| 0 <= j < k + 1 && regs@[j].id == id {
                    let j = choose|j: int| 0 <= j < k + 1 && regs@[j].id == id;
                    if j < k {
                        assert(exists|j: int| 0 <= j < k && regs@[j].id == id);
                    }
                }
            }
        }
        k += 1;
    }
    proof {
        assert(regs@.subrange(0, regs@.len() as int) =~= regs@);
    }
}

impl Func {
    /// For each spilled virtual register, the number of its mentions and the
    /// register itself, by id.
    fn count_spills(&self) -> (r: (HashMap<i32, i32>, HashMap<i32, Reg>))
        requires
            self.wf(),
            func_mentions(self.blocks@) < i32::MAX,
        ensures
            forall|id: i32| #[trigger] r.0@.contains_key(id) <==> self.spillings@.contains(id) && !physical_id(id)
                && exists|x: Reg| x.id == id && #[trigger] mentioned(self.blocks@, x),
            forall|id: i32| #[trigger] r.0@.contains_key(id) ==> 1 <= r.0@[id] < i32::MAX,
            forall|id: i32| #[trigger] r.1@.contains_key(id) <==> r.0@.contains_key(id),
            forall|id: i32| #[trigger] r.1@.contains_key(id) ==> r.1@[id].id == id && mentioned(self.blocks@, r.1@[id]),
            forall|id: i32| #[trigger] r.0@.contains_key(id) ==> r.0@[id] == blocks_id_count(self.blocks@, id),
    {
        let mut coes: HashMap<i32, i32> = HashMap::new();
        let mut id_regs: HashMap<i32, Reg> = HashMap::new();
        let ghost blocks = self.blocks@;
        let mut b: usize = 0;
        while b < self.blocks.len()
            invariant
                blocks == self.blocks@,
                self.wf(),
                func_mentions(blocks) < i32::MAX,
                b <= blocks.len(),
                forall|id: i32| #[trigger] coes@.contains_key(id) ==> 1 <= coes@[id] <= func_mentions(blocks.subrange(0, b as int)),
                forall|id: i32| #[trigger] coes@.contains_key(id) <==> self.spillings@.contains(id) && !physical_id(id)
                    && exists|x: Reg, bb: int, ii: int| x.id == id && 0 <= bb < b && 0 <= ii < blocks[bb].insts@.len()
                        && #[trigger] touches(blocks[bb].insts@[ii], x),
                forall|id: i32| #[trigger] id_regs@.contains_key(id) <==> coes@.contains_key(id),
                forall|id: i32| #[trigger] id_regs@.contains_key(id) ==> id_regs@[id].id == id && mentioned(blocks, id_regs@[id]),
                forall|id: i32| self.spillings@.contains(id) && !physical_id(id) ==>
                    #[trigger] count_or_zero(coes@, id) == blocks_id_count(blocks.subrange(0, b as int), id),
            decreases blocks.len() - b,
        {
            let ghost insts = blocks[b as int].insts@;
            proof {
                lemma_func_mentions_prefix(blocks, b as int);
                lemma_func_mentions_prefix(blocks, b + 1);
            }
            let mut i: usize = 0;
            while i < self.blocks[b].insts.len()
                invariant
                    blocks == self.blocks@,
                    self.wf(),
                    func_mentions(blocks) < i32::MAX,
                    b < blocks.len(),
                    insts == blocks[b as int].insts@,
                    i <= insts.len(),
                    func_mentions(blocks.subrange(0, b + 1)) <= func_mentions(blocks),
                    0 <= func_mentions(blocks.subrange(0, b as int)),
                    func_mentions(blocks.subrange(0, b + 1)) == func_mentions(blocks.subrange(0, b as int)) + inst_mentions(insts),
                    forall|id: i32| #[trigger] coes@.contains_key(id) ==> 1 <= coes@[id]
                        <= func_mentions(blocks.subrange(0, b as int)) + inst_mentions(insts.subrange(0, i as int)),
                    forall|id: i32| #[trigger] coes@.contains_key(id) <==> self.spillings@.contains(id) && !physical_id(id)
                        && ((exists|x: Reg, bb: int, ii: int| x.id == id && 0 <= bb < b && 0 <= ii < blocks[bb].insts@.len()
                            && #[trigger] touches(blocks[bb].insts@[ii], x))
                        || (exists|x: Reg, ii: int| x.id == id && 0 <= ii < i && #[trigger] touches(insts[ii], x))),
                    forall|id: i32| #[trigger] id_regs@.contains_key(id) <==> coes@.contains_key(id),
                    forall|id: i32| #[trigger] id_regs@.contains_key(id) ==> id_regs@[id].id == id && mentioned(blocks, id_regs@[id]),
                    forall|id: i32| self.spillings@.contains(id) && !physical_id(id) ==>
                        #[trigger] count_or_zero(coes@, id) == blocks_id_count(blocks.subrange(0, b as int), id)
                            + insts_id_count(insts.subrange(0, i as int), id),
                decreases insts.len() - i,
            {
                proof {
                    lemma_inst_mentions_prefix(insts, i as int);
                    lemma_inst_mentions_prefix(insts, i + 1);
                }
                assert(insts[i as int].def_well_formed());
                let uses = self.blocks[b].insts[i].get_reg_use();
                let defs = self.blocks[b].insts[i].get_reg_def();
                let ghost seen = func_mentions(blocks.subrange(0, b as int)) + inst_mentions(insts.subrange(0, i as int));
                let ghost c_start = coes@;
                let ghost r_start = id_regs@;
                count_regs(&uses, &self.spillings, &mut coes, &mut id_regs, Ghost(seen));
                let ghost c_mid = coes@;
                let ghost r_mid = id_regs@;
                count_regs(&defs, &self.spillings, &mut coes, &mut id_regs, Ghost(seen + uses@.len()));
                proof {
                    assert(insts.subrange(0, i + 1).drop_last() =~= insts.subrange(0, i as int));
                    assert(insts.subrange(0, i + 1).last() == insts[i as int]);
                    assert forall|id: i32| self.spillings@.contains(id) && !physical_id(id) implies
                        #[trigger] count_or_zero(coes@, id) == blocks_id_count(blocks.subrange(0, b as int), id)
                            + insts_id_count(insts.subrange(0, i + 1), id) by {
                        assert(count_or_zero(c_mid, id) == count_or_zero(c_start, id) + id_count(uses@, id));
                    }
                    assert forall|id: i32| #[trigger] id_regs@.contains_key(id) implies id_regs@[id].id == id && mentioned(blocks, id_regs@[id]) by {
                        let x = id_regs@[id];
                        if defs@.contains(x) {
                            assert(touches(insts[i as int], x));
                        } else if r_mid.contains_key(id) && x == r_mid[id] {
                            if uses@.contains(x) {
                                assert(touches(insts[i as int], x));
                            } else {
                                assert(r_start.contains_key(id) && x == r_start[id]);
                            }
                        }
                    }
                    assert forall|id: i32| #[trigger] coes@.contains_key(id) <==> self.spillings@.contains(id) && !physical_id(id)
                        && ((exists|x: Reg, bb: int, ii: int| x.id == id && 0 <= bb < b && 0 <= ii < blocks[bb].insts@.len()
                            && #[trigger] touches(blocks[bb].insts@[ii], x))
                        || (exists|x: Reg, ii: int| x.id == id && 0 <= ii < i + 1 && #[trigger] touches(insts[ii], x))) by {
                        if exists|x: Reg, ii: int| x.id == id && 0 <= ii < i + 1 && #[trigger] touches(insts[ii], x) {
                            let (x, ii) = choose|x: Reg, ii: int| x.id == id && 0 <= ii < i + 1 && #[trigger] touches(insts[ii], x);
                            if ii < i {
                                assert(exists|x: Reg, ii: int| x.id == id && 0 <= ii < i && #[trigger] touches(insts[ii], x));
                            } else {
                                if uses@.contains(x) {
                                    let k = choose|k: int| 0 <= k < uses@.len() && uses@[k] == x;
                                    assert(exists|k: int| 0 <= k < uses@.len() && uses@[k].id == id);
                                } else {
                                    let k = choose|k: int| 0 <= k < defs@.len() && defs@[k] == x;
                                    assert(exists|k: int| 0 <= k < defs@.len() && defs@[k].id == id);
                                }
                            }
                        }
                        if self.spillings@.contains(id) && !physical_id(id) && exists|k: int| 0 <= k < uses@.len() && uses@[k].id == id {
                            let k = choose|k: int| 0 <= k < uses@.len() && uses@[k].id == id;
                            assert(touches(insts[i as int], uses@[k]));
                        }
                        if self.spillings@.contains(id) && !physical_id(id) && exists|k: int| 0 <= k < defs@.len() && defs@[k].id == id {
                            let k = choose|k: int| 0 <= k < defs@.len() && defs@[k].id == id;
                            assert(touches(insts[i as int], defs@[k]));
                        }
                    }
                }
                i += 1;
            }
            proof {
                assert(insts.subrange(0, insts.len() as int) =~= insts);
                assert(blocks.subrange(0, b + 1).drop_last() =~= blocks.subrange(0, b as int));
                assert(blocks.subrange(0, b + 1).last() == blocks[b as int]);
                assert forall|id: i32| self.spillings@.contains(id) && !physical_id(id) implies
                    #[trigger] count_or_zero(coes@, id) == blocks_id_count(blocks.subrange(0, b + 1), id) by {
                }
                assert forall|id: i32| #[trigger] coes@.contains_key(id) <==> self.spillings@.contains(id) && !physical_id(id)
                    && exists|x: Reg, bb: int, ii: int| x.id == id && 0 <= bb < b + 1 && 0 <= ii < blocks[bb].insts@.len()
                        && #[trigger] touches(blocks[bb].insts@[ii], x) by {
                    if exists|x: Reg, bb: int, ii: int| x.id == id && 0 <= bb < b + 1 && 0 <= ii < blocks[bb].insts@.len()
                        && #[trigger] touches(blocks[bb].insts@[ii], x) {
                        let (x, bb, ii) = choose|x: Reg, bb: int, ii: int| x.id == id && 0 <= bb < b + 1 && 0 <= ii < blocks[bb].insts@.len()
                            && #[trigger] touches(blocks[bb].insts@[ii], x);
                        if bb == b {
                            assert(exists|x: Reg, ii: int| x.id == id && 0 <= ii < i && #[trigger] touches(insts[ii], x));
                        } else {
                            assert(exists|x: Reg, bb: int, ii: int| x.id == id && 0 <= bb < b && 0 <= ii < blocks[bb].insts@.len()
                                && #[trigger] touches(blocks[bb].insts@[ii], x));
                        }
                    }
                    if exists|x: Reg, ii: int| x.id == id && 0 <= ii < i && #[trigger] touches(insts[ii], x) {
                        let (x, ii) = choose|x: Reg, ii: int| x.id == id && 0 <= ii < i && #[trigger] touches(insts[ii], x);
                        assert(touches(blocks[b as int].insts@[ii], x));
                    }
                }
            }
            b += 1;
        }
        proof {
            assert(blocks.subrange(0, blocks.len() as int) =~= blocks);
            lemma_func_mentions_prefix(blocks, blocks.len() as int);
            assert forall|id: i32| #[trigger] coes@.contains_key(id) implies coes@[id] == blocks_id_count(self.blocks@, id) by {
                assert(count_or_zero(coes@, id) == blocks_id_count(blocks.subrange(0, b as int), id));
            }
            assert forall|id: i32| #[trigger] coes@.contains_key(id) <==> self.spillings@.contains(id) && !physical_id(id)
                && exists|x: Reg| x.id == id && #[trigger] mentioned(self.blocks@, x) by {
                if exists|x: Reg| x.id == id && #[trigger] mentioned(self.blocks@, x) {
                    let x = choose|x: Reg| x.id == id && #[trigger] mentioned(self.blocks@, x);
                    let (bb, ii) = choose|bb: int, ii: int| 0 <= bb < blocks.len() && 0 <= ii < blocks[bb].insts@.len()
                        && #[trigger] touches(blocks[bb].insts@[ii], x);
                    assert(exists|x: Reg, bb: int, ii: int| x.id == id && 0 <= bb < b && 0 <= ii < blocks[bb].insts@.len()
                        && #[trigger] touches(blocks[bb].insts@[ii], x));
                }
                if coes@.contains_key(id) {
                    let (x, bb, ii) = choose|x: Reg, bb: int, ii: int| x.id == id && 0 <= bb < b && 0 <= ii < blocks[bb].insts@.len()
                        && #[trigger] touches(blocks[bb].insts@[ii], x);
                    assert(mentioned(self.blocks@, x));
                }
            }
        }
        (coes, id_regs)
    }
}

/// Whether `v` holds `t`.
fn contains_slot(v: &Vec<StackSlot>, t: &StackSlot) -> (b: bool)
    ensures
        b == v@.contains(*t),
{
    let mut i: usize = 0;
    while i < v.len()
        invariant
            i <= v@.len(),
            forall|j: int| 0 <= j < i ==> v@[j] != *t,
        decreases v@.len() - i,
    {
        if v[i] == *t {
            return true;
        }
        i += 1;
    }
    false
}

/// The end of the frame's slots: where the next slot goes.
pub open spec fn frame_end(stack: Seq<StackSlot>) -> int {
    stack.last().pos + stack.last().size
}

/// Spilled registers that conflict in the graph got different slots.
pub open spec fn slots_respect(nodes: Seq<Reg>, adj: Seq<Vec<Reg>>, ids: Set<i32>, map: Seq<(Reg, StackSlot)>) -> bool {
    forall|a: Reg, b: Reg| #![trigger adjacent(nodes, adj, a, b), has_slot(map, a), has_slot(map, b)]
        a != b && spilled(ids, a) && spilled(ids, b) && adjacent(nodes, adj, a, b)
        && has_slot(map, a) && has_slot(map, b) ==> slot_of(map, a) != slot_of(map, b)
}

/// What slot assignment keeps: the slots handed out so far are in `slots`,
/// below the frame's end, and each spilled register with a slot is in `done`.
pub open spec fn slots_state(ids: Set<i32>, map: Seq<(Reg, StackSlot)>, slots: Seq<StackSlot>, stack: Seq<StackSlot>,
    done: Seq<Reg>) -> bool {
    &&& stack.len() > 0 ==> forall|k: int| 0 <= k < slots.len() ==> (#[trigger] slots[k]).pos + ADDR_SIZE <= frame_end(stack)
    &&& stack.len() == 0 ==> slots.len() == 0
    &&& forall|y: Reg| spilled(ids, y) && #[trigger] has_slot(map, y) ==> slots.contains(slot_of(map, y)) && done.contains(y)
    &&& forall|k: int| 0 <= k < done.len() ==> has_slot(map, #[trigger] done[k]) && spilled(ids, done[k])
    &&& done.no_duplicates()
}

proof fn lemma_slot_of_push(map: Seq<(Reg, StackSlot)>, x: Reg, s: StackSlot, y: Reg)
    ensures
        has_slot(map.push((x, s)), y) <==> has_slot(map, y) || y == x,
        has_slot(map, y) ==> slot_of(map.push((x, s)), y) == slot_of(map, y),
        !has_slot(map, x) ==> slot_of(map.push((x, s)), x) == s,
    decreases map.len(),
{
    let m2 = map.push((x, s));
    if has_slot(map, y) {
        let k = choose|k: int| 0 <= k < map.len() && map[k].0 == y;
        assert(m2[k].0 == y);
    }
    if y == x {
        assert(m2[map.len() as int].0 == y);
    }
    if has_slot(m2, y) && y != x {
        let k = choose|k: int| 0 <= k < m2.len() && m2[k].0 == y;
        assert(map[k].0 == y);
    }
    if map.len() > 0 {
        assert(m2.drop_first() =~= map.drop_first().push((x, s)));
        lemma_slot_of_push(map.drop_first(), x, s, y);
        if has_slot(map, y) && map[0].0 != y {
            let k = choose|k: int| 0 <= k < map.len() && map[k].0 == y;
            assert(map.drop_first()[k - 1].0 == y);
        }
        if !has_slot(map, x) {
            assert(!has_slot(map.drop_first(), x)) by {
                if has_slot(map.drop_first(), x) {
                    let k = choose|k: int| 0 <= k < map.drop_first().len() && map.drop_first()[k].0 == x;
                    assert(map[k + 1].0 == x);
                }
            }
        }
    }
}

/// `order` lists, once each, the spilled registers that `blocks` names,
/// the most read and written first.
pub open spec fn spill_order(order: Seq<Reg>, ids: Set<i32>, blocks: Seq<BB>) -> bool {
    &&& order.no_duplicates()
    &&& forall|x: Reg| #[trigger] order.contains(x) <==> spilled(ids, x) && names(blocks, x)
    &&& forall|a: int, b: int| 0 <= a < b < order.len() ==>
        blocks_id_count(blocks, (#[trigger] order[a]).id) >= blocks_id_count(blocks, (#[trigger] order[b]).id)
}

/// `s` is the slot, in `map`, of a register that conflicts with `x`.
pub open spec fn slot_taken(blocks: Seq<BB>, ids: Set<i32>, map: Seq<(Reg, StackSlot)>, x: Reg, s: StackSlot) -> bool {
    exists|y: Reg| spill_conflict(blocks, ids, x, y) && has_slot(map, y) && slot_of(map, y) == s
}

/// `slots[i]` is the first of `slots` that no register conflicting with `x` holds.
pub open spec fn first_free_slot(blocks: Seq<BB>, ids: Set<i32>, map: Seq<(Reg, StackSlot)>, x: Reg,
    slots: Seq<StackSlot>, i: int) -> bool {
    &&& 0 <= i < slots.len()
    &&& !slot_taken(blocks, ids, map, x, slots[i])
    &&& forall|j: int| 0 <= j < i ==> slot_taken(blocks, ids, map, x, #[trigger] slots[j])
}

/// The slots in `slots` after the first `c` are moved behind the others.
pub open spec fn rotated(slots: Seq<StackSlot>, c: int) -> Seq<StackSlot> {
    slots.subrange(c, slots.len() as int) + slots.subrange(0, c)
}

/// What giving `x` a slot does to (the slot table, the slots in turn, the
/// frame): nothing when `x` has one; else `x` takes the first slot in turn
/// that no register conflicting with it holds, and the turn moves past it;
/// when there is none, a new slot at the end of the frame, last in turn.
pub open spec fn slot_next(blocks: Seq<BB>, ids: Set<i32>, x: Reg,
    st: (Seq<(Reg, StackSlot)>, Seq<StackSlot>, Seq<StackSlot>)) -> (Seq<(Reg, StackSlot)>, Seq<StackSlot>, Seq<StackSlot>) {
    if has_slot(st.0, x) {
        st
    } else if exists|i: int| first_free_slot(blocks, ids, st.0, x, st.1, i) {
        let i = choose|i: int| first_free_slot(blocks, ids, st.0, x, st.1, i);
        (st.0.push((x, st.1[i])), rotated(st.1, i + 1), st.2)
    } else {
        let ns = StackSlot { pos: frame_end(st.2) as i32, size: ADDR_SIZE };
        (st.0.push((x, ns)), st.1.push(ns), st.2.push(ns))
    }
}

/// The registers of `order` given slots one after the other from `st`.
pub open spec fn slots_given(blocks: Seq<BB>, ids: Set<i32>, order: Seq<Reg>,
    st: (Seq<(Reg, StackSlot)>, Seq<StackSlot>, Seq<StackSlot>)) -> (Seq<(Reg, StackSlot)>, Seq<StackSlot>, Seq<StackSlot>)
    decreases order.len(),
{
    if order.len() == 0 {
        st
    } else {
        slot_next(blocks, ids, order.last(), slots_given(blocks, ids, order.drop_last(), st))
    }
}

proof fn lemma_first_free_unique(blocks: Seq<BB>, ids: Set<i32>, map: Seq<(Reg, StackSlot)>, x: Reg,
    slots: Seq<StackSlot>, i: int, j: int)
    requires
        first_free_slot(blocks, ids, map, x, slots, i),
        first_free_slot(blocks, ids, map, x, slots, j),
    ensures
        i == j,
{
    if i < j {
        assert(slot_taken(blocks, ids, map, x, slots[i]));
    } else if j < i {
        assert(slot_taken(blocks, ids, map, x, slots[j]));
    }
}

impl Func {
    /// Gives `x` a slot: the first slot of `slots` (taken round-robin)
    /// that no register conflicting with `x` holds, else a new slot at the
    /// end of the frame.
    fn assign_one(&mut self, nodes: &Vec<Reg>, adj: &Vec<Vec<Reg>>, slots: &mut Vec<StackSlot>, x: Reg,
        Ghost(done): Ghost<Seq<Reg>>) -> (r: Ghost<Seq<Reg>>)
        requires
            graph_ok(nodes@, adj@),
            nodes@.contains(x),
            spilled(old(self).spillings@, x),
            slots_state(old(self).spillings@, old(self).spill_stack_map@, old(slots)@, old(self).stack_addr@, done),
            slots_respect(nodes@, adj@, old(self).spillings@, old(self).spill_stack_map@),
            old(self).stack_addr@.len() > 0,
            i32::MIN <= frame_end(old(self).stack_addr@),
            !has_slot(old(self).spill_stack_map@, x) ==> frame_end(old(self).stack_addr@) + ADDR_SIZE <= i32::MAX,
            conflicts_exact(old(self).blocks@, old(self).spillings@, nodes@, adj@),
            conflicts_covered(old(self).blocks@, old(self).spillings@, nodes@, adj@),
        ensures
            (final(self).spill_stack_map@, final(slots)@, final(self).stack_addr@) == slot_next(old(self).blocks@,
                old(self).spillings@, x, (old(self).spill_stack_map@, old(slots)@, old(self).stack_addr@)),
            final(self).blocks@ == old(self).blocks@,
            final(self).spillings@ == old(self).spillings@,
            final(self).label == old(self).label,
            final(self).entry == old(self).entry,
            final(self).context == old(self).context,
            final(self).callee_saved@ == old(self).callee_saved@,
            final(self).array_slot@ == old(self).array_slot@,
            final(self).tmp_vars@ == old(self).tmp_vars@,
            final(self).is_extern == old(self).is_extern,
            final(self).is_header == old(self).is_header,
            final(self).param_cnt == old(self).param_cnt,
            has_slot(final(self).spill_stack_map@, x),
            slots_state(final(self).spillings@, final(self).spill_stack_map@, final(slots)@, final(self).stack_addr@, r@),
            slots_respect(nodes@, adj@, final(self).spillings@, final(self).spill_stack_map@),
            r@.len() <= done.len() + 1,
            has_slot(old(self).spill_stack_map@, x) ==> final(self).spill_stack_map@ == old(self).spill_stack_map@
                && final(self).stack_addr@ == old(self).stack_addr@ && r@ == done,
            !has_slot(old(self).spill_stack_map@, x) ==> {
                &&& final(self).spill_stack_map@ == old(self).spill_stack_map@.push((x, slot_of(final(self).spill_stack_map@, x)))
                &&& r@ == done.push(x)
                &&& (final(self).stack_addr@ == old(self).stack_addr@
                    || final(self).stack_addr@ == old(self).stack_addr@.push(StackSlot { pos: frame_end(old(self).stack_addr@) as i32, size: ADDR_SIZE }))
            },
            final(self).stack_addr@.len() > 0,
            frame_end(final(self).stack_addr@) <= frame_end(old(self).stack_addr@) + ADDR_SIZE,
            frame_end(final(self).stack_addr@) >= frame_end(old(self).stack_addr@),
    {
        let ghost ids = self.spillings@;
        let ghost map0 = self.spill_stack_map@;
        if find_slot(&self.spill_stack_map, &x).is_some() {
            return Ghost(done);
        }
        let ix = node_index(nodes, &x).unwrap();
        let mut inter_slots: Vec<StackSlot> = Vec::new();
        let mut k: usize = 0;
        while k < adj[ix].len()
            invariant
                graph_ok(nodes@, adj@),
                ix < nodes@.len(),
                nodes@[ix as int] == x,
                k <= adj@[ix as int]@.len(),
                map0 == self.spill_stack_map@,
                forall|t: int| 0 <= t < k && has_slot(map0, #[trigger] adj@[ix as int]@[t])
                    ==> inter_slots@.contains(slot_of(map0, adj@[ix as int]@[t])),
                forall|s: StackSlot| #[trigger] inter_slots@.contains(s) ==> exists|y: Reg| adjacent(nodes@, adj@, x, y) && has_slot(map0, y) && slot_of(map0, y) == s,
            decreases adj@[ix as int]@.len() - k,
        {
            let y = adj[ix][k];
            match find_slot(&self.spill_stack_map, &y) {
                Some(s) => {
                    let ghost before = inter_slots@;
                    inter_slots.push(s);
                    proof {
                        assert(adjacent(nodes@, adj@, x, y)) by {
                            assert(adj@[ix as int]@.contains(y)) by {
                                assert(adj@[ix as int]@[k as int] == y);
                            }
                        }
                        assert forall|s2: StackSlot| #[trigger] inter_slots@.contains(s2) implies exists|y2: Reg| adjacent(nodes@, adj@, x, y2) && has_slot(map0, y2) && slot_of(map0, y2) == s2 by {
                            let j = choose|j: int| 0 <= j < inter_slots@.len() && inter_slots@[j] == s2;
                            if j < before.len() {
                                assert(before.contains(s2));
                            }
                        }
                        assert forall|t: int| 0 <= t < k + 1 && has_slot(map0, #[trigger] adj@[ix as int]@[t])
                            implies inter_slots@.contains(slot_of(map0, adj@[ix as int]@[t])) by {
                            if t < k {
                                let j = choose|j: int| 0 <= j < before.len() && before[j] == slot_of(map0, adj@[ix as int]@[t]);
                                assert(inter_slots@[j] == before[j]);
                            } else {
                                assert(inter_slots@[before.len() as int] == s);
                            }
                        }
                    }
                },
                None => {},
            }
            k += 1;
        }
        let ghost slots0 = slots@;
        let ghost blocks0 = self.blocks@;
        proof {
            assert forall|t: StackSlot| #[trigger] inter_slots@.contains(t) <==> slot_taken(blocks0, ids, map0, x, t) by {
                if inter_slots@.contains(t) {
                    let y = choose|y: Reg| adjacent(nodes@, adj@, x, y) && has_slot(map0, y) && slot_of(map0, y) == t;
                    assert(spill_conflict(blocks0, ids, x, y));
                }
                if slot_taken(blocks0, ids, map0, x, t) {
                    let y = choose|y: Reg| spill_conflict(blocks0, ids, x, y) && has_slot(map0, y) && slot_of(map0, y) == t;
                    let (bb, kk) = choose|bb: int, kk: int| 0 <= bb < blocks0.len() && 0 <= kk <= blocks0[bb].insts@.len()
                        && #[trigger] live_at(blocks0[bb].insts@, blocks0[bb].live_out@, kk, x)
                        && #[trigger] live_at(blocks0[bb].insts@, blocks0[bb].live_out@, kk, y);
                    assert(adjacent(nodes@, adj@, x, y));
                    let k2 = choose|k2: int| 0 <= k2 < nodes@.len() && nodes@[k2] == x && #[trigger] adj@[k2]@.contains(y);
                    assert(k2 == ix);
                    let tt = choose|tt: int| 0 <= tt < adj@[ix as int]@.len() && adj@[ix as int]@[tt] == y;
                    assert(inter_slots@.contains(slot_of(map0, adj@[ix as int]@[tt])));
                }
            }
            assert(rotated(slots0, 0) =~= slots0);
        }
        let mut num = slots.len();
        let mut chosen: Option<StackSlot> = None;
        while num > 0
            invariant_except_break
                chosen is None,
                slots@ == rotated(slots0, slots0.len() - num),
                forall|j: int| 0 <= j < slots0.len() - num ==> inter_slots@.contains(#[trigger] slots0[j]),
            invariant
                num <= slots@.len(),
                slots@.len() == slots0.len(),
                forall|t: StackSlot| #[trigger] slots@.contains(t) <==> slots0.contains(t),
            ensures
                slots@.len() == slots0.len(),
                forall|t: StackSlot| #[trigger] slots@.contains(t) <==> slots0.contains(t),
                chosen matches Some(c) ==> slots0.contains(c) && !inter_slots@.contains(c),
                chosen is None ==> slots@ == rotated(slots0, slots0.len() as int)
                    && forall|j: int| 0 <= j < slots0.len() ==> inter_slots@.contains(#[trigger] slots0[j]),
                chosen matches Some(c) ==> exists|i: int| 0 <= i < slots0.len() && slots0[i] == c
                    && (forall|j: int| 0 <= j < i ==> inter_slots@.contains(#[trigger] slots0[j]))
                    && slots@ == rotated(slots0, i + 1),
            decreases num,
        {
            num -= 1;
            let ghost before = slots@;
            let ghost c0 = slots0.len() - num - 1;
            let old_slot = slots.remove(0);
            slots.push(old_slot);
            proof {
                assert(before[0] == slots0[c0]);
                assert(slots@ =~= rotated(slots0, c0 + 1));
                assert(before[0] == old_slot);
                assert(slots@ =~= before.drop_first().push(old_slot));
                assert forall|t: StackSlot| #[trigger] slots@.contains(t) <==> before.contains(t) by {
                    if before.contains(t) {
                        let j = choose|j: int| 0 <= j < before.len() && before[j] == t;
                        if j == 0 {
                            assert(slots@[slots@.len() - 1] == t);
                        } else {
                            assert(slots@[j - 1] == t);
                        }
                    }
                    if slots@.contains(t) {
                        let j = choose|j: int| 0 <= j < slots@.len() && slots@[j] == t;
                        if j == slots@.len() - 1 {
                            assert(before[0] == t);
                        } else {
                            assert(before[j + 1] == t);
                        }
                    }
                }
                assert(slots0.contains(old_slot)) by {
                    assert(before.contains(old_slot));
                }
            }
            if contains_slot(&inter_slots, &old_slot) {
                continue;
            }
            chosen = Some(old_slot);
            break;
        }
        proof {
            assert(rotated(slots0, slots0.len() as int) =~= slots0);
        }
        let ghost stack0 = self.stack_addr@;
        let ghost slots_rot = slots@;
        let s = match chosen {
            Some(c) => c,
            None => {
                let last = self.stack_addr[self.stack_addr.len() - 1];
                let pos = last.get_pos() + last.get_size();
                let st = StackSlot::new(pos, ADDR_SIZE);
                self.stack_addr.push(st);
                slots.push(st);
                proof {
                    assert(self.stack_addr@.last() == st);
                }
                st
            },
        };
        let ghost slots1 = slots@;
        self.spill_stack_map.push((x, s));
        proof {
            let map1 = self.spill_stack_map@;
            assert(map1 == map0.push((x, s)));
            lemma_slot_of_push(map0, x, s, x);
            assert forall|y: Reg| #[trigger] has_slot(map1, y) <==> has_slot(map0, y) || y == x by {
                lemma_slot_of_push(map0, x, s, y);
            }
            assert forall|y: Reg| has_slot(map0, y) implies #[trigger] slot_of(map1, y) == slot_of(map0, y) by {
                lemma_slot_of_push(map0, x, s, y);
            }
            assert(!done.contains(x)) by {
                if done.contains(x) {
                    let j = choose|j: int| 0 <= j < done.len() && done[j] == x;
                    assert(has_slot(map0, done[j]));
                }
            }
            assert forall|t: StackSlot| slots0.contains(t) implies #[trigger] slots1.contains(t) by {
                assert(slots_rot.contains(t));
                let j = choose|j: int| 0 <= j < slots_rot.len() && slots_rot[j] == t;
                assert(slots1[j] == t);
            }
            assert(slots1.contains(s)) by {
                if chosen is None {
                    assert(slots1[slots1.len() - 1] == s);
                }
            }
            let d2 = done.push(x);
            assert forall|k: int| 0 <= k < slots1.len() implies (#[trigger] slots1[k]).pos + ADDR_SIZE <= frame_end(self.stack_addr@) by {
                if chosen is None {
                    if k < slots1.len() - 1 {
                        assert(slots_rot[k] == slots1[k]);
                        assert(slots_rot.contains(slots1[k]));
                        assert(slots0.contains(slots1[k]));
                        let j = choose|j: int| 0 <= j < slots0.len() && slots0[j] == slots1[k];
                    }
                } else {
                    assert(slots_rot.contains(slots1[k]));
                    assert(slots0.contains(slots1[k]));
                    let j = choose|j: int| 0 <= j < slots0.len() && slots0[j] == slots1[k];
                }
            }
            assert forall|y: Reg| spilled(ids, y) && #[trigger] has_slot(map1, y) implies slots1.contains(slot_of(map1, y)) && d2.contains(y) by {
                lemma_slot_of_push(map0, x, s, y);
                if y == x {
                    assert(d2[done.len() as int] == x);
                } else {
                    assert(slots0.contains(slot_of(map0, y)));
                    let j = choose|j: int| 0 <= j < done.len() && done[j] == y;
                    assert(d2[j] == y);
                }
            }
            assert forall|k: int| 0 <= k < d2.len() implies has_slot(map1, #[trigger] d2[k]) && spilled(ids, d2[k]) by {
                if k < done.len() {
                    assert(d2[k] == done[k]);
                }
            }
            assert forall|a: Reg, b: Reg| #![trigger adjacent(nodes@, adj@, a, b), has_slot(map1, a), has_slot(map1, b)]
                a != b && spilled(ids, a) && spilled(ids, b) && adjacent(nodes@, adj@, a, b)
                && has_slot(map1, a) && has_slot(map1, b) implies slot_of(map1, a) != slot_of(map1, b) by {
                lemma_slot_of_push(map0, x, s, a);
                lemma_slot_of_push(map0, x, s, b);
                if a == x || b == x {
                    let other = if a == x { b } else { a };
                    assert(adjacent(nodes@, adj@, x, other));
                    let kk = choose|kk: int| 0 <= kk < nodes@.len() && nodes@[kk] == x && #[trigger] adj@[kk]@.contains(other);
                    assert(kk == ix);
                    let t = choose|t: int| 0 <= t < adj@[ix as int]@.len() && adj@[ix as int]@[t] == other;
                    assert(inter_slots@.contains(slot_of(map0, adj@[ix as int]@[t])));
                    if chosen is None {
                        assert(slots0.contains(slot_of(map0, other)));
                        let j = choose|j: int| 0 <= j < slots0.len() && slots0[j] == slot_of(map0, other);
                        assert(slots0[j].pos + ADDR_SIZE <= frame_end(stack0));
                    }
                }
            }
        }
        proof {
            let st0 = (map0, slots0, stack0);
            if chosen is Some {
                let c = chosen->Some_0;
                let i = choose|i: int| 0 <= i < slots0.len() && slots0[i] == c
                    && (forall|j: int| 0 <= j < i ==> inter_slots@.contains(#[trigger] slots0[j]))
                    && slots_rot == rotated(slots0, i + 1);
                assert(first_free_slot(blocks0, ids, map0, x, slots0, i));
                let i2 = choose|i2: int| first_free_slot(blocks0, ids, map0, x, slots0, i2);
                lemma_first_free_unique(blocks0, ids, map0, x, slots0, i, i2);
                assert(slot_next(blocks0, ids, x, st0) == (self.spill_stack_map@, slots@, self.stack_addr@));
            } else {
                assert(!exists|i: int| first_free_slot(blocks0, ids, map0, x, slots0, i)) by {
                    if exists|i: int| first_free_slot(blocks0, ids, map0, x, slots0, i) {
                        let i = choose|i: int| first_free_slot(blocks0, ids, map0, x, slots0, i);
                        assert(inter_slots@.contains(slots0[i]));
                    }
                }
                assert(slots_rot == slots0);
                assert(slot_next(blocks0, ids, x, st0) == (self.spill_stack_map@, slots@, self.stack_addr@));
            }
        }
        Ghost(done.push(x))
    }
}

/// Some instruction of `blocks` has `r` as an operand.
pub open spec fn operand_reg(blocks: Seq<BB>, r: Reg) -> bool {
    exists|b: int, i: int, k: int| 0 <= b < blocks.len() && 0 <= i < blocks[b].insts@.len()
        && 0 <= k < blocks[b].insts@[i].operands@.len() && #[trigger] blocks[b].insts@[i].operands@[k] == Operand::Reg(r)
}

/// `blocks` names `r`: as an operand, or as a register it reads or writes.
pub open spec fn names(blocks: Seq<BB>, r: Reg) -> bool {
    mentioned(blocks, r) || operand_reg(blocks, r)
}

/// What slot assignment needs of the spilled ids: they are virtual, each
/// names one register (not of the void type), and each is read somewhere.
pub open spec fn spill_ids_ok(blocks: Seq<BB>, ids: Set<i32>) -> bool {
    &&& forall|id: i32| #[trigger] ids.contains(id) ==> !physical_id(id)
    &&& forall|x: Reg, y: Reg| #![trigger names(blocks, x), names(blocks, y)]
        spilled(ids, x) && names(blocks, x) && names(blocks, y) && x.id == y.id ==> x == y
    &&& forall|x: Reg| spilled(ids, x) && #[trigger] names(blocks, x) ==> x.r_type != ScalarType::Void
    &&& forall|id: i32| #[trigger] ids.contains(id) ==> exists|x: Reg| x.id == id && #[trigger] used_somewhere(blocks, x)
}

/// Two spilled registers live at one point of a block never share a slot.
pub open spec fn spill_slots_sound(blocks: Seq<BB>, ids: Set<i32>, map: Seq<(Reg, StackSlot)>) -> bool {
    forall|b: int, k: int, x: Reg, y: Reg|
        0 <= b < blocks.len() && 0 <= k <= blocks[b].insts@.len() && x != y
        && spilled(ids, x) && spilled(ids, y)
        && #[trigger] live_at(blocks[b].insts@, blocks[b].live_out@, k, x)
        && #[trigger] live_at(blocks[b].insts@, blocks[b].live_out@, k, y)
        && has_slot(map, x) && has_slot(map, y)
        ==> slot_of(map, x) != slot_of(map, y)
}

/// `stack` is `base` followed by slots of `ADDR_SIZE` bytes, each at the end
/// of the ones before it.
pub open spec fn grown_frame(base: Seq<StackSlot>, stack: Seq<StackSlot>) -> bool {
    &&& base.len() <= stack.len()
    &&& forall|k: int| 0 <= k < base.len() ==> #[trigger] stack[k] == base[k]
    &&& forall|k: int| base.len() <= k < stack.len() ==>
        #[trigger] stack[k] == StackSlot { pos: frame_end(stack.subrange(0, k)) as i32, size: ADDR_SIZE }
}

proof fn lemma_same_insts_names(a: Seq<BB>, b: Seq<BB>)
    requires
        a.len() == b.len(),
        forall|k: int| 0 <= k < a.len() ==> (#[trigger] b[k]).insts@ == a[k].insts@,
    ensures
        forall|x: Reg| names(a, x) <==> #[trigger] names(b, x),
        forall|x: Reg| used_somewhere(a, x) <==> #[trigger] used_somewhere(b, x),
        forall|x: Reg| mentioned(a, x) <==> #[trigger] mentioned(b, x),
{
    assert forall|x: Reg| mentioned(a, x) <==> #[trigger] mentioned(b, x) by {
        if mentioned(a, x) {
            let (bb, i) = choose|bb: int, i: int| 0 <= bb < a.len() && 0 <= i < a[bb].insts@.len() && #[trigger] touches(a[bb].insts@[i], x);
            assert(b[bb].insts@ == a[bb].insts@);
            assert(touches(b[bb].insts@[i], x));
        }
        if mentioned(b, x) {
            let (bb, i) = choose|bb: int, i: int| 0 <= bb < b.len() && 0 <= i < b[bb].insts@.len() && #[trigger] touches(b[bb].insts@[i], x);
            assert(b[bb].insts@ == a[bb].insts@);
            assert(touches(a[bb].insts@[i], x));
        }
    }
    assert forall|x: Reg| operand_reg(a, x) <==> operand_reg(b, x) by {
        if operand_reg(a, x) {
            let (bb, i, k) = choose|bb: int, i: int, k: int| 0 <= bb < a.len() && 0 <= i < a[bb].insts@.len()
                && 0 <= k < a[bb].insts@[i].operands@.len() && #[trigger] a[bb].insts@[i].operands@[k] == Operand::Reg(x);
            assert(b[bb].insts@ == a[bb].insts@);
            assert(b[bb].insts@[i].operands@[k] == Operand::Reg(x));
        }
        if operand_reg(b, x) {
            let (bb, i, k) = choose|bb: int, i: int, k: int| 0 <= bb < b.len() && 0 <= i < b[bb].insts@.len()
                && 0 <= k < b[bb].insts@[i].operands@.len() && #[trigger] b[bb].insts@[i].operands@[k] == Operand::Reg(x);
            assert(b[bb].insts@ == a[bb].insts@);
            assert(a[bb].insts@[i].operands@[k] == Operand::Reg(x));
        }
    }
    assert forall|x: Reg| used_somewhere(a, x) <==> #[trigger] used_somewhere(b, x) by {
        if used_somewhere(a, x) {
            let (bb, i) = choose|bb: int, i: int| 0 <= bb < a.len() && 0 <= i < a[bb].insts@.len() && #[trigger] a[bb].insts@[i].spec_reg_use().contains(x);
            assert(b[bb].insts@ == a[bb].insts@);
            assert(b[bb].insts@[i].spec_reg_use().contains(x));
        }
        if used_somewhere(b, x) {
            let (bb, i) = choose|bb: int, i: int| 0 <= bb < b.len() && 0 <= i < b[bb].insts@.len() && #[trigger] b[bb].insts@[i].spec_reg_use().contains(x);
            assert(b[bb].insts@ == a[bb].insts@);
            assert(a[bb].insts@[i].spec_reg_use().contains(x));
        }
    }
}

/// Distinct named spilled registers have distinct ids, so there are no more
/// of them than spilled ids.
proof fn lemma_done_bound(blocks: Seq<BB>, ids: Set<i32>, idv: Seq<i32>, done: Seq<Reg>)
    requires
        spill_ids_ok(blocks, ids),
        idv.no_duplicates(),
        forall|x: i32| #[trigger] idv.contains(x) <==> ids.contains(x),
        done.no_duplicates(),
        forall|k: int| 0 <= k < done.len() ==> spilled(ids, #[trigger] done[k]) && names(blocks, done[k]),
    ensures
        done.len() <= idv.len(),
{
    let dids = done.map_values(|r: Reg| r.id);
    assert forall|a: int, b: int| 0 <= a < dids.len() && 0 <= b < dids.len() && a != b implies dids[a] != dids[b] by {
        assert(spilled(ids, done[a]) && names(blocks, done[a]));
        assert(names(blocks, done[b]));
        if dids[a] == dids[b] {
            assert(done[a] == done[b]);
        }
    }
    dids.unique_seq_to_set();
    idv.unique_seq_to_set();
    assert forall|x: i32| dids.to_set().contains(x) implies idv.to_set().contains(x) by {
        let k = choose|k: int| 0 <= k < dids.len() && dids[k] == x;
        assert(spilled(ids, done[k]));
        assert(idv.contains(x));
    }
    vstd::set_lib::lemma_len_subset(dids.to_set(), idv.to_set());
}

/// The index of `c` in `v`.
fn index_of_i32(v: &Vec<i32>, c: i32) -> (r: Option<usize>)
    ensures
        r is None <==> !v@.contains(c),
        r matches Some(t) ==> t < v@.len() && v@[t as int] == c,
{
    let mut t: usize = 0;
    while t < v.len()
        invariant
            t <= v@.len(),
            forall|j: int| 0 <= j < t ==> v@[j] != c,
        decreases v@.len() - t,
    {
        if v[t] == c {
            return Some(t);
        }
        t += 1;
    }
    None
}

impl Func {
    /// Gives every spilled register a stack slot, most used first (by a
    /// heap of use counts); a register takes the first slot (round-robin)
    /// that none of the registers it conflicts with holds, else a new slot
    /// at the end of the frame.
    #[verifier::rlimit(40)]
    fn assign_stack_slot_for_spill(&mut self)
        requires
            old(self).wf(),
            func_mentions(old(self).blocks@) < i32::MAX,
            spill_ids_ok(old(self).blocks@, old(self).spillings@),
            forall|x: Reg| spilled(old(self).spillings@, x) ==> !#[trigger] has_slot(old(self).spill_stack_map@, x),
            !old(self).spillings@.is_empty() ==> old(self).stack_addr@.len() > 0,
            old(self).stack_addr@.len() > 0 ==> i32::MIN <= frame_end(old(self).stack_addr@)
                && frame_end(old(self).stack_addr@) + ADDR_SIZE * old(self).spillings@.len() <= i32::MAX,
        ensures
            final(self).wf(),
            final(self).blocks@.len() == old(self).blocks@.len(),
            forall|b: int| 0 <= b < final(self).blocks@.len()
                ==> same_but_live(#[trigger] final(self).blocks@[b], old(self).blocks@[b]),
            live_sets_pinned(final(self).blocks@, |r: Reg| alloc_reserved_reg(r)),
            final(self).spillings@ == old(self).spillings@,
            final(self).label == old(self).label,
            final(self).entry == old(self).entry,
            final(self).context == old(self).context,
            final(self).callee_saved@ == old(self).callee_saved@,
            final(self).array_slot@ == old(self).array_slot@,
            final(self).tmp_vars@ == old(self).tmp_vars@,
            final(self).is_extern == old(self).is_extern,
            final(self).is_header == old(self).is_header,
            final(self).param_cnt == old(self).param_cnt,
            old(self).spill_stack_map@.len() <= final(self).spill_stack_map@.len(),
            forall|k: int| 0 <= k < old(self).spill_stack_map@.len() ==>
                #[trigger] final(self).spill_stack_map@[k] == old(self).spill_stack_map@[k],
            grown_frame(old(self).stack_addr@, final(self).stack_addr@),
            forall|x: Reg| spilled(final(self).spillings@, x) && #[trigger] names(final(self).blocks@, x)
                ==> has_slot(final(self).spill_stack_map@, x),
            spill_slots_sound(final(self).blocks@, final(self).spillings@, final(self).spill_stack_map@),
            exists|order: Seq<Reg>| #[trigger] spill_order(order, final(self).spillings@, final(self).blocks@)
                && slots_given(final(self).blocks@, final(self).spillings@, order,
                    (old(self).spill_stack_map@, Seq::empty(), old(self).stack_addr@)).0 == final(self).spill_stack_map@
                && slots_given(final(self).blocks@, final(self).spillings@, order,
                    (old(self).spill_stack_map@, Seq::empty(), old(self).stack_addr@)).2 == final(self).stack_addr@,
    {
        let ghost blocks0 = self.blocks@;
        let ghost ids = self.spillings@;
        let ghost map0 = self.spill_stack_map@;
        let ghost stack0 = self.stack_addr@;
        let (coes, id_regs) = self.count_spills();
        let idv = set_elems(&self.spillings);
        proof {
            assert(idv@.to_set() =~= ids);
            idv@.unique_seq_to_set();
        }
        let mut heap = heap_new();
        let mut bucket_coe: Vec<i32> = Vec::new();
        let mut buckets: Vec<Vec<Reg>> = Vec::new();
        let ghost mut loc: Seq<(int, int)> = Seq::empty();
        let mut j: usize = 0;
        while j < idv.len()
            invariant
                self.blocks@ == blocks0,
                self.spillings@ == ids,
                spill_ids_ok(blocks0, ids),
                forall|x: i32| #[trigger] idv@.contains(x) <==> ids.contains(x),
                forall|id: i32| #[trigger] coes@.contains_key(id) <==> ids.contains(id) && !physical_id(id)
                    && exists|x: Reg| x.id == id && #[trigger] mentioned(blocks0, x),
                forall|id: i32| #[trigger] id_regs@.contains_key(id) <==> coes@.contains_key(id),
                forall|id: i32| #[trigger] id_regs@.contains_key(id) ==> id_regs@[id].id == id && mentioned(blocks0, id_regs@[id]),
                j <= idv@.len(),
                bucket_coe@.no_duplicates(),
                buckets@.len() == bucket_coe@.len(),
                forall|c: i32| heap_items(heap).count(c) == (if bucket_coe@.contains(c) { 1nat } else { 0nat }),
                forall|t: int, q: int| 0 <= t < buckets@.len() && 0 <= q < buckets@[t]@.len() ==> {
                    &&& spilled(ids, #[trigger] buckets@[t]@[q])
                    &&& used_somewhere(blocks0, buckets@[t]@[q])
                    &&& names(blocks0, buckets@[t]@[q])
                },
                loc.len() == j,
                forall|t: int, q: int| 0 <= t < buckets@.len() && 0 <= q < buckets@[t]@.len() ==> coes@.contains_key((#[trigger] buckets@[t]@[q]).id)
                    && coes@[buckets@[t]@[q].id] == bucket_coe@[t],
                forall|jj: int| 0 <= jj < j ==> 0 <= (#[trigger] loc[jj]).0 < buckets@.len() && 0 <= loc[jj].1 < buckets@[loc[jj].0]@.len()
                    && buckets@[loc[jj].0]@[loc[jj].1].id == idv@[jj],
            decreases idv@.len() - j,
        {
            let id = idv[j];
            proof {
                assert(idv@.contains(id));
                assert(ids.contains(id));
                let x = choose|x: Reg| x.id == id && #[trigger] used_somewhere(blocks0, x);
                let (bb, ii) = choose|bb: int, ii: int| 0 <= bb < blocks0.len() && 0 <= ii < blocks0[bb].insts@.len()
                    && #[trigger] blocks0[bb].insts@[ii].spec_reg_use().contains(x);
                assert(touches(blocks0[bb].insts@[ii], x));
                assert(mentioned(blocks0, x));
                assert(coes@.contains_key(id));
                assert(id_regs@.contains_key(id));
                let r = id_regs@[id];
                assert(mentioned(blocks0, r));
                assert(names(blocks0, x));
                assert(names(blocks0, r));
                assert(r == x);
            }
            let coe = *coes.get(&id).unwrap();
            let reg = *id_regs.get(&id).unwrap();
            let ghost h0 = heap_items(heap);
            let ghost bc0 = bucket_coe@;
            let ghost bk0 = buckets@;
            match index_of_i32(&bucket_coe, coe) {
                Some(t) => {
                    buckets[t].push(reg);
                    proof {
                        assert forall|t2: int, q: int| 0 <= t2 < buckets@.len() && 0 <= q < buckets@[t2]@.len() implies
                            coes@.contains_key((#[trigger] buckets@[t2]@[q]).id) && coes@[buckets@[t2]@[q].id] == bucket_coe@[t2] by {
                            if t2 != t || q < bk0[t2]@.len() {
                                assert(buckets@[t2]@[q] == bk0[t2]@[q]);
                            }
                        }
                        assert forall|t2: int, q: int| 0 <= t2 < buckets@.len() && 0 <= q < buckets@[t2]@.len() implies {
                            &&& spilled(ids, #[trigger] buckets@[t2]@[q])
                            &&& used_somewhere(blocks0, buckets@[t2]@[q])
                            &&& names(blocks0, buckets@[t2]@[q])
                        } by {
                            if t2 != t || q < bk0[t2]@.len() {
                                assert(buckets@[t2]@[q] == bk0[t2]@[q]);
                            }
                        }
                        let l0 = loc;
                        loc = loc.push((t as int, bk0[t as int]@.len() as int));
                        assert forall|jj: int| 0 <= jj < j + 1 implies 0 <= (#[trigger] loc[jj]).0 < buckets@.len() && 0 <= loc[jj].1 < buckets@[loc[jj].0]@.len()
                            && buckets@[loc[jj].0]@[loc[jj].1].id == idv@[jj] by {
                            if jj < j {
                                assert(loc[jj] == l0[jj]);
                                assert(buckets@[loc[jj].0]@[loc[jj].1] == bk0[loc[jj].0]@[loc[jj].1]);
                            } else {
                                assert(buckets@[t as int]@[bk0[t as int]@.len() as int] == reg);
                            }
                        }
                    }
                },
                None => {
                    heap_push(&mut heap, coe);
                    bucket_coe.push(coe);
                    let mut v: Vec<Reg> = Vec::new();
                    v.push(reg);
                    buckets.push(v);
                    proof {
                        assert forall|t2: int, q: int| 0 <= t2 < buckets@.len() && 0 <= q < buckets@[t2]@.len() implies
                            coes@.contains_key((#[trigger] buckets@[t2]@[q]).id) && coes@[buckets@[t2]@[q].id] == bucket_coe@[t2] by {
                            if t2 < bk0.len() {
                                assert(buckets@[t2] == bk0[t2]);
                                assert(bucket_coe@[t2] == bc0[t2]);
                            }
                        }
                        assert forall|c: i32| heap_items(heap).count(c) == (if bucket_coe@.contains(c) { 1nat } else { 0nat }) by {
                            if bucket_coe@.contains(c) && c != coe {
                                let k = choose|k: int| 0 <= k < bucket_coe@.len() && bucket_coe@[k] == c;
                                assert(bc0[k] == c);
                            }
                            if bc0.contains(c) {
                                let k = choose|k: int| 0 <= k < bc0.len() && bc0[k] == c;
                                assert(bucket_coe@[k] == c);
                            }
                            if c == coe {
                                assert(bucket_coe@[bc0.len() as int] == c);
                            }
                        }
                        assert forall|a: int, b: int| 0 <= a < bucket_coe@.len() && 0 <= b < bucket_coe@.len() && a != b
                            implies bucket_coe@[a] != bucket_coe@[b] by {
                            if a == bc0.len() {
                                assert(bc0.contains(bucket_coe@[b]) || b == a);
                            } else if b == bc0.len() {
                                assert(bc0.contains(bucket_coe@[a]) || b == a);
                            }
                        }
                        assert forall|t2: int, q: int| 0 <= t2 < buckets@.len() && 0 <= q < buckets@[t2]@.len() implies {
                            &&& spilled(ids, #[trigger] buckets@[t2]@[q])
                            &&& used_somewhere(blocks0, buckets@[t2]@[q])
                            &&& names(blocks0, buckets@[t2]@[q])
                        } by {
                            if t2 < bk0.len() {
                                assert(buckets@[t2] == bk0[t2]);
                            }
                        }
                        let l0 = loc;
                        loc = loc.push((bk0.len() as int, 0int));
                        assert forall|jj: int| 0 <= jj < j + 1 implies 0 <= (#[trigger] loc[jj]).0 < buckets@.len() && 0 <= loc[jj].1 < buckets@[loc[jj].0]@.len()
                            && buckets@[loc[jj].0]@[loc[jj].1].id == idv@[jj] by {
                            if jj < j {
                                assert(loc[jj] == l0[jj]);
                                assert(buckets@[loc[jj].0] == bk0[loc[jj].0]);
                            } else {
                                assert(buckets@[bk0.len() as int]@[0] == reg);
                            }
                        }
                    }
                },
            }
            j += 1;
        }
        let (nodes, adj) = self.build_interference_for_spill();
        let ghost blocks1 = self.blocks@;
        proof {
            lemma_same_insts_names(blocks0, blocks1);
        }
        let mut slots: Vec<StackSlot> = Vec::new();
        let ghost mut done: Seq<Reg> = Seq::empty();
        let ghost st0 = (map0, Seq::<StackSlot>::empty(), stack0);
        assert(self.spill_stack_map@ == map0);
        assert(self.stack_addr@ == stack0);
        while !heap_is_empty(&heap)
            invariant
                conflicts_exact(blocks1, ids, nodes@, adj@),
                conflicts_covered(blocks1, ids, nodes@, adj@),
                (self.spill_stack_map@, slots@, self.stack_addr@) == slots_given(blocks1, ids, done, st0),
                forall|t: int, q: int| 0 <= t < buckets@.len() && 0 <= q < buckets@[t]@.len() ==> coes@.contains_key((#[trigger] buckets@[t]@[q]).id)
                    && coes@[buckets@[t]@[q].id] == bucket_coe@[t],
                forall|k: int| 0 <= k < done.len() ==> coes@.contains_key((#[trigger] done[k]).id),
                forall|a: int, b: int| 0 <= a < b < done.len() ==> coes@[(#[trigger] done[a]).id] >= coes@[(#[trigger] done[b]).id],
                forall|k: int, c: i32| 0 <= k < done.len() && #[trigger] heap_items(heap).count(c) > 0 ==> coes@[(#[trigger] done[k]).id] >= c,
                self.blocks@ == blocks1,
                self.wf(),
                self.spillings@ == ids,
                self.label == old(self).label,
                self.entry == old(self).entry,
                self.context == old(self).context,
                self.callee_saved@ == old(self).callee_saved@,
                self.array_slot@ == old(self).array_slot@,
                self.tmp_vars@ == old(self).tmp_vars@,
                self.is_extern == old(self).is_extern,
                self.is_header == old(self).is_header,
                self.param_cnt == old(self).param_cnt,
                spill_ids_ok(blocks0, ids),
                forall|x: Reg| names(blocks0, x) <==> #[trigger] names(blocks1, x),
                forall|x: Reg| used_somewhere(blocks0, x) <==> #[trigger] used_somewhere(blocks1, x),
                idv@.no_duplicates(),
                forall|x: i32| #[trigger] idv@.contains(x) <==> ids.contains(x),
                idv@.len() == ids.len(),
                graph_ok(nodes@, adj@),
                forall|x: Reg| spilled(ids, x) && used_somewhere(blocks1, x) ==> #[trigger] nodes@.contains(x),
                bucket_coe@.no_duplicates(),
                buckets@.len() == bucket_coe@.len(),
                forall|t: int, q: int| 0 <= t < buckets@.len() && 0 <= q < buckets@[t]@.len() ==> {
                    &&& spilled(ids, #[trigger] buckets@[t]@[q])
                    &&& used_somewhere(blocks0, buckets@[t]@[q])
                    &&& names(blocks0, buckets@[t]@[q])
                },
                loc.len() == idv@.len(),
                forall|jj: int| 0 <= jj < idv@.len() ==> 0 <= (#[trigger] loc[jj]).0 < buckets@.len() && 0 <= loc[jj].1 < buckets@[loc[jj].0]@.len()
                    && buckets@[loc[jj].0]@[loc[jj].1].id == idv@[jj],
                forall|c: i32| heap_items(heap).count(c) <= 1 && (heap_items(heap).count(c) == 1 ==> bucket_coe@.contains(c)),
                forall|t: int, q: int| 0 <= t < buckets@.len() && heap_items(heap).count(bucket_coe@[t]) == 0
                    && 0 <= q < buckets@[t]@.len() ==> has_slot(self.spill_stack_map@, #[trigger] buckets@[t]@[q]),
                slots_state(ids, self.spill_stack_map@, slots@, self.stack_addr@, done),
                slots_respect(nodes@, adj@, ids, self.spill_stack_map@),
                forall|k: int| 0 <= k < done.len() ==> names(blocks0, #[trigger] done[k]),
                map0.len() <= self.spill_stack_map@.len(),
                forall|k: int| 0 <= k < map0.len() ==> #[trigger] self.spill_stack_map@[k] == map0[k],
                forall|x: Reg| spilled(ids, x) ==> !#[trigger] has_slot(map0, x),
                grown_frame(stack0, self.stack_addr@),
                !ids.is_empty() ==> self.stack_addr@.len() > 0,
                self.stack_addr@.len() > 0 ==> i32::MIN <= frame_end(self.stack_addr@)
                    && frame_end(self.stack_addr@) + ADDR_SIZE * (idv@.len() - done.len()) <= i32::MAX,
            decreases heap_items(heap).len(),
        {
            let ghost h0 = heap_items(heap);
            let ghost map_it = self.spill_stack_map@;
            let coe = heap_pop_max(&mut heap).unwrap();
            let t = index_of_i32(&bucket_coe, coe).unwrap();
            let mut q: usize = 0;
            while q < buckets[t].len()
                invariant
                    self.blocks@ == blocks1,
                    self.wf(),
                    self.spillings@ == ids,
                    self.label == old(self).label,
                    self.entry == old(self).entry,
                    self.context == old(self).context,
                    self.callee_saved@ == old(self).callee_saved@,
                    self.array_slot@ == old(self).array_slot@,
                    self.tmp_vars@ == old(self).tmp_vars@,
                    self.is_extern == old(self).is_extern,
                    self.is_header == old(self).is_header,
                    self.param_cnt == old(self).param_cnt,
                    spill_ids_ok(blocks0, ids),
                    idv@.no_duplicates(),
                    forall|x: i32| #[trigger] idv@.contains(x) <==> ids.contains(x),
                    graph_ok(nodes@, adj@),
                    forall|x: Reg| spilled(ids, x) && used_somewhere(blocks1, x) ==> #[trigger] nodes@.contains(x),
                    forall|x: Reg| used_somewhere(blocks0, x) <==> #[trigger] used_somewhere(blocks1, x),
                    t < buckets@.len(),
                    q <= buckets@[t as int]@.len(),
                    forall|t2: int, q2: int| 0 <= t2 < buckets@.len() && 0 <= q2 < buckets@[t2]@.len() ==> {
                        &&& spilled(ids, #[trigger] buckets@[t2]@[q2])
                        &&& used_somewhere(blocks0, buckets@[t2]@[q2])
                        &&& names(blocks0, buckets@[t2]@[q2])
                    },
                    forall|q2: int| 0 <= q2 < q ==> has_slot(self.spill_stack_map@, #[trigger] buckets@[t as int]@[q2]),
                    map_it.len() <= self.spill_stack_map@.len(),
                    forall|k: int| 0 <= k < map_it.len() ==> #[trigger] self.spill_stack_map@[k] == map_it[k],
                    slots_state(ids, self.spill_stack_map@, slots@, self.stack_addr@, done),
                    slots_respect(nodes@, adj@, ids, self.spill_stack_map@),
                    conflicts_exact(blocks1, ids, nodes@, adj@),
                    conflicts_covered(blocks1, ids, nodes@, adj@),
                    (self.spill_stack_map@, slots@, self.stack_addr@) == slots_given(blocks1, ids, done, st0),
                    forall|t: int, q: int| 0 <= t < buckets@.len() && 0 <= q < buckets@[t]@.len() ==> coes@.contains_key((#[trigger] buckets@[t]@[q]).id)
                    && coes@[buckets@[t]@[q].id] == bucket_coe@[t],
                    bucket_coe@[t as int] == coe,
                    forall|c: i32| heap_items(heap).count(c) > 0 ==> c <= coe,
                    forall|k: int| 0 <= k < done.len() ==> coes@.contains_key((#[trigger] done[k]).id) && coes@[done[k].id] >= coe,
                    forall|a: int, b: int| 0 <= a < b < done.len() ==> coes@[(#[trigger] done[a]).id] >= coes@[(#[trigger] done[b]).id],
                    forall|k: int| 0 <= k < done.len() ==> names(blocks0, #[trigger] done[k]),
                    map0.len() <= self.spill_stack_map@.len(),
                    forall|k: int| 0 <= k < map0.len() ==> #[trigger] self.spill_stack_map@[k] == map0[k],
                    forall|x: Reg| spilled(ids, x) ==> !#[trigger] has_slot(map0, x),
                    grown_frame(stack0, self.stack_addr@),
                    !ids.is_empty() ==> self.stack_addr@.len() > 0,
                    self.stack_addr@.len() > 0 ==> i32::MIN <= frame_end(self.stack_addr@)
                        && frame_end(self.stack_addr@) + ADDR_SIZE * (idv@.len() - done.len()) <= i32::MAX,
                    idv@.len() == ids.len(),
                decreases buckets@[t as int]@.len() - q,
            {
                let x = buckets[t][q];
                let ghost map_b = self.spill_stack_map@;
                let ghost stack_b = self.stack_addr@;
                let ghost done_b = done;
                proof {
                    assert(spilled(ids, x) && used_somewhere(blocks0, x) && names(blocks0, x));
                    assert(nodes@.contains(x));
                    assert(ids.contains(x.id));
                    assert(self.stack_addr@.len() > 0);
                    if !has_slot(map_b, x) {
                        assert(!done.contains(x)) by {
                            if done.contains(x) {
                                let k = choose|k: int| 0 <= k < done.len() && done[k] == x;
                                assert(has_slot(map_b, done[k]));
                            }
                        }
                        let d2 = done.push(x);
                        assert forall|k: int| 0 <= k < d2.len() implies spilled(ids, #[trigger] d2[k]) && names(blocks0, d2[k]) by {
                            if k < done.len() {
                                assert(d2[k] == done[k]);
                            }
                        }
                        assert(d2.no_duplicates()) by {
                            assert forall|a: int, b: int| 0 <= a < d2.len() && 0 <= b < d2.len() && a != b implies d2[a] != d2[b] by {
                                if a == done.len() {
                                    assert(done.contains(d2[b]) || b == a);
                                } else if b == done.len() {
                                    assert(done.contains(d2[a]) || b == a);
                                }
                            }
                        }
                        lemma_done_bound(blocks0, ids, idv@, d2);
                    }
                }
                let ghost slots_b = slots@;
                let Ghost(d) = self.assign_one(&nodes, &adj, &mut slots, x, Ghost(done));
                proof {
                    if !has_slot(map_b, x) {
                        assert(d.drop_last() =~= done_b);
                    }
                    done = d;
                    assert((self.spill_stack_map@, slots@, self.stack_addr@) == slots_given(blocks1, ids, done, st0));
                    if !has_slot(map_b, x) {
                        assert(done[done.len() - 1] == x);
                        assert(coes@[x.id] == coe);
                        assert forall|k: int| 0 <= k < done.len() implies coes@.contains_key((#[trigger] done[k]).id) && coes@[done[k].id] >= coe by {
                            if k < done_b.len() {
                                assert(done[k] == done_b[k]);
                            }
                        }
                        assert forall|a: int, b: int| 0 <= a < b < done.len() implies coes@[(#[trigger] done[a]).id] >= coes@[(#[trigger] done[b]).id] by {
                            assert(done[a] == done_b[a]);
                            if b < done_b.len() {
                                assert(done[b] == done_b[b]);
                            }
                        }
                    }
                    assert forall|k: int| 0 <= k < done.len() implies names(blocks0, #[trigger] done[k]) by {
                        if k < done_b.len() {
                            if has_slot(map_b, x) {
                                assert(done[k] == done_b[k]);
                            } else {
                                assert(done == done_b.push(x));
                                assert(done[k] == done_b[k]);
                            }
                        } else {
                            assert(done[k] == x);
                        }
                    }
                    assert forall|q2: int| 0 <= q2 < q + 1 implies has_slot(self.spill_stack_map@, #[trigger] buckets@[t as int]@[q2]) by {
                        if q2 < q {
                            let y = buckets@[t as int]@[q2];
                            let k = choose|k: int| 0 <= k < map_b.len() && map_b[k].0 == y;
                            assert(self.spill_stack_map@[k] == map_b[k]);
                        }
                    }
                    assert forall|k: int| 0 <= k < map0.len() implies #[trigger] self.spill_stack_map@[k] == map0[k] by {
                        assert(map_b[k] == map0[k]);
                    }
                    assert forall|k: int| 0 <= k < map_it.len() implies #[trigger] self.spill_stack_map@[k] == map_it[k] by {
                        assert(map_b[k] == map_it[k]);
                    }
                    if !has_slot(map_b, x) && self.stack_addr@ != stack_b {
                        assert(self.stack_addr@ == stack_b.push(StackSlot { pos: frame_end(stack_b) as i32, size: ADDR_SIZE }));
                        assert forall|k: int| 0 <= k < stack0.len() implies #[trigger] self.stack_addr@[k] == stack0[k] by {
                            assert(stack_b[k] == stack0[k]);
                        }
                        assert forall|k: int| stack0.len() <= k < self.stack_addr@.len() implies
                            #[trigger] self.stack_addr@[k] == StackSlot { pos: frame_end(self.stack_addr@.subrange(0, k)) as i32, size: ADDR_SIZE } by {
                            if k < stack_b.len() {
                                assert(self.stack_addr@.subrange(0, k) =~= stack_b.subrange(0, k));
                            } else {
                                assert(self.stack_addr@.subrange(0, k) =~= stack_b);
                            }
                        }
                    }
                }
                q += 1;
            }
            proof {
                assert forall|t2: int, q2: int| 0 <= t2 < buckets@.len() && heap_items(heap).count(bucket_coe@[t2]) == 0
                    && 0 <= q2 < buckets@[t2]@.len() implies has_slot(self.spill_stack_map@, #[trigger] buckets@[t2]@[q2]) by {
                    if t2 != t {
                        assert(bucket_coe@[t2] != coe);
                        assert(h0.count(bucket_coe@[t2]) == 0);
                        let y = buckets@[t2]@[q2];
                        assert(has_slot(map_it, y));
                        let k = choose|k: int| 0 <= k < map_it.len() && map_it[k].0 == y;
                        assert(self.spill_stack_map@[k] == map_it[k]);
                    }
                }
                assert forall|c: i32| heap_items(heap).count(c) <= 1 && (heap_items(heap).count(c) == 1 ==> bucket_coe@.contains(c)) by {
                    assert(h0.count(c) <= 1);
                }
            }
        }
        proof {
            assert forall|x: Reg| spilled(ids, x) && #[trigger] names(self.blocks@, x) implies has_slot(self.spill_stack_map@, x) by {
                assert(names(blocks0, x));
                assert(idv@.contains(x.id));
                let jj = choose|jj: int| 0 <= jj < idv@.len() && idv@[jj] == x.id;
                let t2 = loc[jj].0;
                let q2 = loc[jj].1;
                let y = buckets@[t2]@[q2];
                assert(names(blocks0, y));
                assert(y == x);
                assert(heap_items(heap).count(bucket_coe@[t2]) == 0);
            }
            assert forall|b: int, k: int, x: Reg, y: Reg|
                0 <= b < self.blocks@.len() && 0 <= k <= self.blocks@[b].insts@.len() && x != y
                && spilled(ids, x) && spilled(ids, y)
                && #[trigger] live_at(self.blocks@[b].insts@, self.blocks@[b].live_out@, k, x)
                && #[trigger] live_at(self.blocks@[b].insts@, self.blocks@[b].live_out@, k, y)
                && has_slot(self.spill_stack_map@, x) && has_slot(self.spill_stack_map@, y)
                implies slot_of(self.spill_stack_map@, x) != slot_of(self.spill_stack_map@, y) by {
                assert(adjacent(nodes@, adj@, x, y));
            }
            assert forall|x: Reg| #[trigger] done.contains(x) <==> spilled(ids, x) && names(self.blocks@, x) by {
                if done.contains(x) {
                    let k = choose|k: int| 0 <= k < done.len() && done[k] == x;
                    assert(names(blocks0, done[k]));
                }
                if spilled(ids, x) && names(self.blocks@, x) {
                    assert(has_slot(self.spill_stack_map@, x));
                }
            }
            assert forall|a: int, b: int| 0 <= a < b < done.len() implies
                blocks_id_count(self.blocks@, (#[trigger] done[a]).id) >= blocks_id_count(self.blocks@, (#[trigger] done[b]).id) by {
                assert forall|k: int| 0 <= k < blocks0.len() implies (#[trigger] blocks0[k]).insts@ == self.blocks@[k].insts@ by {
                    assert(same_but_live(self.blocks@[k], blocks0[k]));
                }
                lemma_blocks_id_count_same(blocks0, self.blocks@, done[a].id);
                lemma_blocks_id_count_same(blocks0, self.blocks@, done[b].id);
            }
            assert(spill_order(done, ids, self.blocks@));
        }
    }
}

proof fn lemma_spilled_regs_from(ops: Seq<Operand>, ids: Set<i32>, k: int)
    requires
        0 <= k < spilled_regs(ops, ids).len(),
    ensures
        ids.contains(spilled_regs(ops, ids)[k].id),
        exists|j: int| 0 <= j < ops.len() && ops[j] == Operand::Reg(spilled_regs(ops, ids)[k]),
    decreases ops.len(),
{
    let p = spilled_regs(ops.drop_last(), ids);
    if k < p.len() {
        lemma_spilled_regs_from(ops.drop_last(), ids, k);
        let j = choose|j: int| 0 <= j < ops.drop_last().len() && ops.drop_last()[j] == Operand::Reg(p[k]);
        assert(ops[j] == Operand::Reg(p[k]));
        match ops.last() {
            Operand::Reg(r) => {
                if ids.contains(r.id) && !p.contains(r) {
                    assert(spilled_regs(ops, ids)[k] == p[k]);
                }
            },
            _ => {},
        }
    } else {
        assert(ops[ops.len() - 1] == ops.last());
    }
}

impl BB {
    /// Spill handling of the block with the function's slots and spilled ids.
    pub fn handle_spill_v3(&mut self, spill_stack_map: &Vec<(Reg, StackSlot)>, spillings: &HashSet<i32>)
        requires
            forall|k: int| 0 <= k < old(self).insts@.len() ==> spill_ready(spill_stack_map@, spillings@, #[trigger] old(self).insts@[k]@),
            forall|k: int| 0 <= k < old(self).insts@.len() ==> spilled_regs(#[trigger] old(self).insts@[k]@.operands, spillings@).len() <= i32::MAX - 50,
        ensures
            insts_view(final(self).insts@) == spill_block(spill_stack_map@, spillings@, insts_view(old(self).insts@), old(self).insts@.len() as int),
            final(self).same_but_insts(old(self)),
    {
        self.handle_spill_v2(spill_stack_map, spillings);
    }
}

/// What the spill pass needs of a function: few enough register
/// mentions, consistent spilled ids with no slot yet, and room in the frame.
pub open spec fn spill_ready_func(f: Func) -> bool {
    &&& f.wf()
    &&& func_mentions(f.blocks@) < i32::MAX
    &&& spill_ids_ok(f.blocks@, f.spillings@)
    &&& forall|x: Reg| spilled(f.spillings@, x) ==> !#[trigger] has_slot(f.spill_stack_map@, x)
    &&& !f.spillings@.is_empty() ==> f.stack_addr@.len() > 0
    &&& f.stack_addr@.len() > 0 ==> i32::MIN <= frame_end(f.stack_addr@)
        && frame_end(f.stack_addr@) + ADDR_SIZE * f.spillings@.len() <= i32::MAX
    &&& forall|b: int, i: int| 0 <= b < f.blocks@.len() && 0 <= i < f.blocks@[b].insts@.len()
        ==> spilled_regs(#[trigger] f.blocks@[b].insts@[i]@.operands, f.spillings@).len() <= i32::MAX - 50
}

/// `new` is `old` after the spill pass: slots given (soundly) and every
/// block rewritten around its spilled registers.
pub open spec fn spill_handled(new: Func, old: Func) -> bool {
    &&& new.blocks@.len() == old.blocks@.len()
    &&& new.spillings@ == old.spillings@
    &&& new.label == old.label
    &&& new.is_extern == old.is_extern
    &&& new.entry == old.entry
    &&& old.spill_stack_map@.len() <= new.spill_stack_map@.len()
    &&& forall|k: int| 0 <= k < old.spill_stack_map@.len() ==>
        #[trigger] new.spill_stack_map@[k] == old.spill_stack_map@[k]
    &&& grown_frame(old.stack_addr@, new.stack_addr@)
    &&& forall|x: Reg| spilled(new.spillings@, x) && #[trigger] names(old.blocks@, x)
        ==> has_slot(new.spill_stack_map@, x)
    &&& exists|mid: Seq<BB>| {
        &&& mid.len() == old.blocks@.len()
        &&& forall|b: int| 0 <= b < mid.len() ==> same_but_live(#[trigger] mid[b], old.blocks@[b])
        &&& live_sets_pinned(mid, |r: Reg| alloc_reserved_reg(r))
        &&& #[trigger] spill_slots_sound(mid, new.spillings@, new.spill_stack_map@)
        &&& exists|order: Seq<Reg>| #[trigger] spill_order(order, new.spillings@, mid)
            && slots_given(mid, new.spillings@, order, (old.spill_stack_map@, Seq::empty(), old.stack_addr@)).0
                == new.spill_stack_map@
            && slots_given(mid, new.spillings@, order, (old.spill_stack_map@, Seq::empty(), old.stack_addr@)).2
                == new.stack_addr@
        &&& forall|b: int| 0 <= b < mid.len() ==> {
            &&& (#[trigger] new.blocks@[b]).same_but_insts(&mid[b])
            &&& insts_view(new.blocks@[b].insts@) == spill_block(new.spill_stack_map@,
                new.spillings@, insts_view(mid[b].insts@), mid[b].insts@.len() as int)
        }
    }
}

impl Func {
    /// Spill handling: gives the spilled registers stack slots (two spilled
    /// registers live at the same point never share one; the registers, most
    /// read and written first, each take the first slot in turn that no
    /// register they conflict with holds, else a new slot at the end of the
    /// frame), then rewrites
    /// every block so that each instruction loads the spilled registers it
    /// names into temporaries and stores the ones it defines back.
    pub fn handle_spill_v3(&mut self)
        requires
            old(self).wf(),
            func_mentions(old(self).blocks@) < i32::MAX,
            spill_ids_ok(old(self).blocks@, old(self).spillings@),
            forall|x: Reg| spilled(old(self).spillings@, x) ==> !#[trigger] has_slot(old(self).spill_stack_map@, x),
            !old(self).spillings@.is_empty() ==> old(self).stack_addr@.len() > 0,
            old(self).stack_addr@.len() > 0 ==> i32::MIN <= frame_end(old(self).stack_addr@)
                && frame_end(old(self).stack_addr@) + ADDR_SIZE * old(self).spillings@.len() <= i32::MAX,
            forall|b: int, i: int| 0 <= b < old(self).blocks@.len() && 0 <= i < old(self).blocks@[b].insts@.len()
                ==> spilled_regs(#[trigger] old(self).blocks@[b].insts@[i]@.operands, old(self).spillings@).len() <= i32::MAX - 50,
        ensures
            final(self).blocks@.len() == old(self).blocks@.len(),
            final(self).spillings@ == old(self).spillings@,
            final(self).label == old(self).label,
            final(self).is_extern == old(self).is_extern,
            final(self).entry == old(self).entry,
            old(self).spill_stack_map@.len() <= final(self).spill_stack_map@.len(),
            forall|k: int| 0 <= k < old(self).spill_stack_map@.len() ==>
                #[trigger] final(self).spill_stack_map@[k] == old(self).spill_stack_map@[k],
            grown_frame(old(self).stack_addr@, final(self).stack_addr@),
            forall|x: Reg| spilled(final(self).spillings@, x) && #[trigger] names(old(self).blocks@, x)
                ==> has_slot(final(self).spill_stack_map@, x),
            exists|mid: Seq<BB>| {
                &&& mid.len() == old(self).blocks@.len()
                &&& forall|b: int| 0 <= b < mid.len() ==> same_but_live(#[trigger] mid[b], old(self).blocks@[b])
                &&& live_sets_pinned(mid, |r: Reg| alloc_reserved_reg(r))
                &&& #[trigger] spill_slots_sound(mid, final(self).spillings@, final(self).spill_stack_map@)
                &&& exists|order: Seq<Reg>| #[trigger] spill_order(order, final(self).spillings@, mid)
                    && slots_given(mid, final(self).spillings@, order,
                        (old(self).spill_stack_map@, Seq::empty(), old(self).stack_addr@)).0 == final(self).spill_stack_map@
                    && slots_given(mid, final(self).spillings@, order,
                        (old(self).spill_stack_map@, Seq::empty(), old(self).stack_addr@)).2 == final(self).stack_addr@
                &&& forall|b: int| 0 <= b < mid.len() ==> {
                    &&& (#[trigger] final(self).blocks@[b]).same_but_insts(&mid[b])
                    &&& insts_view(final(self).blocks@[b].insts@) == spill_block(final(self).spill_stack_map@,
                        final(self).spillings@, insts_view(mid[b].insts@), mid[b].insts@.len() as int)
                }
            },
    {
        self.calc_live_for_handle_spill();
        let ghost b0 = self.blocks@;
        let n = self.blocks.len();
        proof {
            lemma_same_insts_names(old(self).blocks@, b0);
            lemma_func_mentions_same(old(self).blocks@, b0);
            assert(spill_ids_ok(b0, self.spillings@)) by {
                assert forall|id: i32| #[trigger] self.spillings@.contains(id) implies exists|x: Reg| x.id == id && #[trigger] used_somewhere(b0, x) by {
                    let x = choose|x: Reg| x.id == id && #[trigger] used_somewhere(old(self).blocks@, x);
                    assert(used_somewhere(b0, x));
                }
            }
        }
        assert(self.spill_stack_map@ == old(self).spill_stack_map@);
        assert(self.stack_addr@ == old(self).stack_addr@);
        self.assign_stack_slot_for_spill();
        let ghost mid = self.blocks@;
        let ghost map_f = self.spill_stack_map@;
        let ghost stack_f = self.stack_addr@;
        let ghost ids = self.spillings@;
        proof {
            lemma_same_insts_names(b0, mid);
            lemma_spill_ids_ok_transfer(b0, mid, ids);
            lemma_same_insts_names(old(self).blocks@, mid);
            assert forall|bb: int, i: int| 0 <= bb < n && 0 <= i < mid[bb].insts@.len()
                implies spilled_regs(#[trigger] mid[bb].insts@[i]@.operands, ids).len() <= i32::MAX - 50 by {
                assert(same_but_live(mid[bb], b0[bb]));
                assert(same_but_live(b0[bb], old(self).blocks@[bb]));
                assert(mid[bb].insts@[i] == old(self).blocks@[bb].insts@[i]);
            }
        }
        let mut b: usize = 0;
        while b < n
            invariant
                n == mid.len(),
                self.spillings@ == ids,
                self.label == old(self).label,
                self.is_extern == old(self).is_extern,
                self.entry == old(self).entry,
                self.spill_stack_map@ == map_f,
                self.stack_addr@ == stack_f,
                self.blocks@.len() == n,
                b <= n,
                forall|k: int| b <= k < n ==> #[trigger] self.blocks@[k] == mid[k],
                forall|k: int| 0 <= k < b ==> {
                    &&& (#[trigger] self.blocks@[k]).same_but_insts(&mid[k])
                    &&& insts_view(self.blocks@[k].insts@) == spill_block(self.spill_stack_map@,
                        self.spillings@, insts_view(mid[k].insts@), mid[k].insts@.len() as int)
                },
                forall|x: Reg| spilled(self.spillings@, x) && #[trigger] names(mid, x) ==> has_slot(self.spill_stack_map@, x),
                spill_ids_ok(mid, self.spillings@),
                forall|bb: int, i: int| 0 <= bb < n && 0 <= i < mid[bb].insts@.len()
                    ==> spilled_regs(#[trigger] mid[bb].insts@[i]@.operands, self.spillings@).len() <= i32::MAX - 50,
            decreases n - b,
        {
            proof {
                assert forall|k: int| 0 <= k < mid[b as int].insts@.len() implies spill_ready(self.spill_stack_map@, self.spillings@, #[trigger] mid[b as int].insts@[k]@) by {
                    let inst = mid[b as int].insts@[k];
                    assert forall|t: int| 0 <= t < spilled_regs(inst@.operands, self.spillings@).len() implies
                        has_slot(self.spill_stack_map@, #[trigger] spilled_regs(inst@.operands, self.spillings@)[t])
                        && spilled_regs(inst@.operands, self.spillings@)[t].r_type != ScalarType::Void by {
                        let r = spilled_regs(inst@.operands, self.spillings@)[t];
                        lemma_spilled_regs_from(inst@.operands, self.spillings@, t);
                        let j = choose|j: int| 0 <= j < inst@.operands.len() && inst@.operands[j] == Operand::Reg(r);
                        assert(mid[b as int].insts@[k].operands@[j] == Operand::Reg(r));
                        assert(operand_reg(mid, r));
                        assert(names(mid, r));
                    }
                    lemma_ready(self.spill_stack_map@, self.spillings@, inst@);
                }
            }
            let ghost before = self.blocks@;
            self.blocks[b].handle_spill_v3(&self.spill_stack_map, &self.spillings);
            b += 1;
        }
        proof {
            lemma_same_insts_names(old(self).blocks@, mid);
            assert forall|x: Reg| spilled(self.spillings@, x) && #[trigger] names(old(self).blocks@, x)
                implies has_slot(self.spill_stack_map@, x) by {
                assert(names(mid, x));
            }
        }
    }
}

proof fn lemma_func_mentions_same(a: Seq<BB>, b: Seq<BB>)
    requires
        a.len() == b.len(),
        forall|k: int| 0 <= k < a.len() ==> same_but_live(#[trigger] b[k], a[k]),
    ensures
        func_mentions(a) == func_mentions(b),
    decreases a.len(),
{
    if a.len() > 0 {
        assert forall|k: int| 0 <= k < a.len() - 1 implies same_but_live(#[trigger] b.drop_last()[k], a.drop_last()[k]) by {
            assert(same_but_live(b[k], a[k]));
        }
        lemma_func_mentions_same(a.drop_last(), b.drop_last());
        assert(same_but_live(b[a.len() - 1], a[a.len() - 1]));
    }
}

proof fn lemma_spill_ids_ok_transfer(a: Seq<BB>, b: Seq<BB>, ids: Set<i32>)
    requires
        spill_ids_ok(a, ids),
        forall|x: Reg| names(a, x) <==> #[trigger] names(b, x),
        forall|x: Reg| used_somewhere(a, x) <==> #[trigger] used_somewhere(b, x),
    ensures
        spill_ids_ok(b, ids),
{
    assert forall|x: Reg, y: Reg| #![trigger names(b, x), names(b, y)]
        spilled(ids, x) && names(b, x) && names(b, y) && x.id == y.id implies x == y by {
        assert(names(a, x) && names(a, y));
    }
    assert forall|x: Reg| spilled(ids, x) && #[trigger] names(b, x) implies x.r_type != ScalarType::Void by {
        assert(names(a, x));
    }
    assert forall|id: i32| #[trigger] ids.contains(id) implies exists|x: Reg| x.id == id && #[trigger] used_somewhere(b, x) by {
        let x = choose|x: Reg| x.id == id && #[trigger] used_somewhere(a, x);
        assert(used_somewhere(b, x));
    }
}

proof fn lemma_ready(map: Seq<(Reg, StackSlot)>, ids: Set<i32>, inst: crate::instrs::InstView)
    requires
        forall|t: int| 0 <= t < spilled_regs(inst.operands, ids).len() ==>
            has_slot(map, #[trigger] spilled_regs(inst.operands, ids)[t]),
        forall|t: int| 0 <= t < spilled_regs(inst.operands, ids).len() ==>
            (#[trigger] spilled_regs(inst.operands, ids)[t]).r_type != ScalarType::Void,
    ensures
        spill_ready(map, ids, inst),
{
    assert forall|k: int| 0 <= k < spilled_regs(inst.operands, ids).len() implies #[trigger] has_slot(map, spilled_regs(inst.operands, ids)[k])
            && spilled_regs(inst.operands, ids)[k].r_type != ScalarType::Void by {
        assert(has_slot(map, spilled_regs(inst.operands, ids)[k]));
        assert(spilled_regs(inst.operands, ids)[k].r_type != ScalarType::Void);
    }
}

} // verus!
