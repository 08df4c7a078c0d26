use vstd::prelude::*;
use crate::block::BB;
use crate::func::Func;
use crate::module::{AsmModule, labels_distinct};
use crate::instrs::{InstrsType, LIRInst, Operand};
use crate::operand::IImm;
use crate::block::ADDR_SIZE;
use crate::slot_live::{member, member_of, slot_live_at, slot_ready, slots_ready, loads_slot, stores_slot, inst_slot,
    slot_live_out_of, exposed_in, killed_in};
use crate::slotset::{is_slot_set, slot_contains, slot_insert, slot_remove, copy_slots};
use crate::structs::StackSlot;

verus! {

/// A graph over words of the frame held in `keys` and `adj`: `adj[k]`
/// are the neighbours of `keys[k]`, and no word is a key twice.
pub open spec fn graph_ok(keys: Seq<StackSlot>, adj: Seq<Vec<StackSlot>>) -> bool {
    &&& keys.len() == adj.len()
    &&& keys.no_duplicates()
    &&& forall|k: int| 0 <= k < adj.len() ==> is_slot_set(#[trigger] adj[k]@)
}

/// The graph has an edge from `x` to `y`.
pub open spec fn has_edge(keys: Seq<StackSlot>, adj: Seq<Vec<StackSlot>>, x: StackSlot, y: StackSlot) -> bool {
    exists|k: int| 0 <= k < keys.len() && keys[k] == x && #[trigger] adj[k]@.contains(y)
}

/// What `outs` holds live on exit from block `b`.
pub open spec fn out_of(outs: spec_fn(int, StackSlot) -> bool, b: int) -> spec_fn(StackSlot) -> bool {
    |x: StackSlot| outs(b, x)
}

/// `x` is one of the words `rs` and may be read after point `i` of block
/// `b` (with `outs(b, _)` live on its exit).
pub open spec fn tracked_at(blocks: Seq<BB>, outs: spec_fn(int, StackSlot) -> bool, rs: spec_fn(StackSlot) -> bool, b: int, i: int,
    x: StackSlot) -> bool {
    rs(x) && slot_live_at(blocks[b].insts@, out_of(outs, b), i, x)
}

/// Some point of a block before `b` has `x` tracked.
pub open spec fn seen_before(blocks: Seq<BB>, outs: spec_fn(int, StackSlot) -> bool, rs: spec_fn(StackSlot) -> bool, b: int,
    x: StackSlot) -> bool {
    exists|c: int, j: int| 0 <= c < b && 0 <= j <= blocks[c].insts@.len()
        && #[trigger] tracked_at(blocks, outs, rs, c, j, x)
}

/// Some point of a block before `b` has both `x` and `y` tracked.
pub open spec fn co_seen_before(blocks: Seq<BB>, outs: spec_fn(int, StackSlot) -> bool, rs: spec_fn(StackSlot) -> bool, b: int,
    x: StackSlot, y: StackSlot) -> bool {
    exists|c: int, j: int| #![trigger tracked_at(blocks, outs, rs, c, j, x), tracked_at(blocks, outs, rs, c, j, y)]
        0 <= c < b && 0 <= j <= blocks[c].insts@.len()
        && tracked_at(blocks, outs, rs, c, j, x) && tracked_at(blocks, outs, rs, c, j, y)
}

/// Some point of block `b` at or after `i` has `x` tracked.
pub open spec fn seen_from(blocks: Seq<BB>, outs: spec_fn(int, StackSlot) -> bool, rs: spec_fn(StackSlot) -> bool, b: int, i: int,
    x: StackSlot) -> bool {
    exists|j: int| i <= j <= blocks[b].insts@.len() && #[trigger] tracked_at(blocks, outs, rs, b, j, x)
}

/// Some point of block `b` at or after `i` has both `x` and `y` tracked.
pub open spec fn co_seen_from(blocks: Seq<BB>, outs: spec_fn(int, StackSlot) -> bool, rs: spec_fn(StackSlot) -> bool, b: int, i: int,
    x: StackSlot, y: StackSlot) -> bool {
    exists|j: int| #![trigger tracked_at(blocks, outs, rs, b, j, x), tracked_at(blocks, outs, rs, b, j, y)]
        i <= j <= blocks[b].insts@.len()
        && tracked_at(blocks, outs, rs, b, j, x) && tracked_at(blocks, outs, rs, b, j, y)
}

/// `x` is one of the words `rs` and is live at some point of the function.
pub open spec fn slot_in_graph(blocks: Seq<BB>, outs: spec_fn(int, StackSlot) -> bool, rs: spec_fn(StackSlot) -> bool, x: StackSlot) -> bool {
    seen_before(blocks, outs, rs, blocks.len() as int, x)
}

/// `x` and `y` are distinct words of `rs` live together at some point of
/// the function: they cannot share a place in the frame.
pub open spec fn slots_interfere(blocks: Seq<BB>, outs: spec_fn(int, StackSlot) -> bool, rs: spec_fn(StackSlot) -> bool,
    x: StackSlot, y: StackSlot) -> bool {
    x != y && co_seen_before(blocks, outs, rs, blocks.len() as int, x, y)
}

/// Where `x` is among `keys`, or the length of `keys` when it is not.
fn find_node(keys: &Vec<StackSlot>, x: &StackSlot) -> (r: usize)
    ensures
        r <= keys@.len(),
        r < keys@.len() ==> keys@[r as int] == *x,
        r == keys@.len() ==> !keys@.contains(*x),
{
    let mut i: usize = 0;
    while i < keys.len()
        invariant
            i <= keys@.len(),
            forall|j: int| 0 <= j < i ==> keys@[j] != *x,
        decreases keys@.len() - i,
    {
        if keys[i] == *x {
            return i;
        }
        i += 1;
    }
    i
}

/// Adds the node `x` (with no new edge).
fn add_node(keys: &mut Vec<StackSlot>, adj: &mut Vec<Vec<StackSlot>>, x: StackSlot)
    requires
        graph_ok(old(keys)@, old(adj)@),
    ensures
        graph_ok(final(keys)@, final(adj)@),
        forall|y: StackSlot| #[trigger] final(keys)@.contains(y) <==> (old(keys)@.contains(y) || y == x),
        forall|a: StackSlot, c: StackSlot| #[trigger] has_edge(final(keys)@, final(adj)@, a, c)
            <==> has_edge(old(keys)@, old(adj)@, a, c),
{
    let k = find_node(keys, &x);
    if k == keys.len() {
        let ghost k0 = keys@;
        let ghost a0 = adj@;
        keys.push(x);
        adj.push(Vec::new());
        proof {
            assert forall|y: StackSlot| #[trigger] keys@.contains(y) <==> (k0.contains(y) || y == x) by {
                if k0.contains(y) {
                    let t = choose|t: int| 0 <= t < k0.len() && k0[t] == y;
                    assert(keys@[t] == y);
                }
                if y == x {
                    assert(keys@[k0.len() as int] == y);
                }
            }
            assert forall|i: int, j: int| 0 <= i < keys@.len() && 0 <= j < keys@.len() && i != j implies keys@[i] != keys@[j] by {
                if i == k0.len() {
                    assert(k0.contains(keys@[j]));
                } else if j == k0.len() {
                    assert(k0.contains(keys@[i]));
                }
            }
            assert forall|t: int| 0 <= t < adj@.len() implies is_slot_set(#[trigger] adj@[t]@) by {
                if t < a0.len() {
                    assert(adj@[t] == a0[t]);
                } else {
                    assert(adj@[t]@.len() == 0);
                }
            }
            assert forall|a: StackSlot, c: StackSlot| #[trigger] has_edge(keys@, adj@, a, c) <==> has_edge(k0, a0, a, c) by {
                if has_edge(keys@, adj@, a, c) {
                    let t = choose|t: int| 0 <= t < keys@.len() && keys@[t] == a && #[trigger] adj@[t]@.contains(c);
                    if t == k0.len() {
                        assert(adj@[t]@.len() == 0);
                    } else {
                        assert(a0[t]@.contains(c));
                    }
                }
                if has_edge(k0, a0, a, c) {
                    let t = choose|t: int| 0 <= t < k0.len() && k0[t] == a && #[trigger] a0[t]@.contains(c);
                    assert(adj@[t]@.contains(c));
                }
            }
        }
    }
}

/// Adds the edge from `x` (a node) to `y`.
fn add_arc(keys: &Vec<StackSlot>, adj: &mut Vec<Vec<StackSlot>>, x: StackSlot, y: StackSlot)
    requires
        graph_ok(keys@, old(adj)@),
        keys@.contains(x),
    ensures
        graph_ok(keys@, final(adj)@),
        forall|a: StackSlot, c: StackSlot| #[trigger] has_edge(keys@, final(adj)@, a, c)
            <==> (has_edge(keys@, old(adj)@, a, c) || (a == x && c == y)),
{
    let k = find_node(keys, &x);
    let ghost a0 = adj@;
    slot_insert(&mut adj[k], y);
    proof {
        assert forall|t: int| 0 <= t < adj@.len() implies is_slot_set(#[trigger] adj@[t]@) by {
            if t != k {
                assert(adj@[t] == a0[t]);
            }
        }
        assert forall|a: StackSlot, c: StackSlot| #[trigger] has_edge(keys@, adj@, a, c)
            <==> (has_edge(keys@, a0, a, c) || (a == x && c == y)) by {
            if has_edge(keys@, adj@, a, c) {
                let t = choose|t: int| 0 <= t < keys@.len() && keys@[t] == a && #[trigger] adj@[t]@.contains(c);
                if t != k {
                    assert(a0[t]@.contains(c));
                } else if !(a == x && c == y) {
                    assert(a0[t]@.contains(c));
                }
            }
            if has_edge(keys@, a0, a, c) {
                let t = choose|t: int| 0 <= t < keys@.len() && keys@[t] == a && #[trigger] a0[t]@.contains(c);
                assert(adj@[t]@.contains(c));
            }
            if a == x && c == y {
                assert(adj@[k as int]@.contains(c));
            }
        }
    }
}

/// Adds the edges between `s` (a node) and each word of `others` (nodes).
fn connect_all(keys: &Vec<StackSlot>, adj: &mut Vec<Vec<StackSlot>>, s: StackSlot, others: &Vec<StackSlot>)
    requires
        graph_ok(keys@, old(adj)@),
        keys@.contains(s),
        forall|y: StackSlot| #[trigger] others@.contains(y) ==> keys@.contains(y),
    ensures
        graph_ok(keys@, final(adj)@),
        forall|a: StackSlot, c: StackSlot| #[trigger] has_edge(keys@, final(adj)@, a, c)
            <==> (has_edge(keys@, old(adj)@, a, c) || (a == s && others@.contains(c)) || (c == s && others@.contains(a))),
{
    let ghost a0 = adj@;
    let mut t: usize = 0;
    while t < others.len()
        invariant
            t <= others@.len(),
            graph_ok(keys@, adj@),
            keys@.contains(s),
            forall|y: StackSlot| #[trigger] others@.contains(y) ==> keys@.contains(y),
            forall|a: StackSlot, c: StackSlot| #[trigger] has_edge(keys@, adj@, a, c)
                <==> (has_edge(keys@, a0, a, c) || (a == s && others@.subrange(0, t as int).contains(c))
                    || (c == s && others@.subrange(0, t as int).contains(a))),
        decreases others@.len() - t,
    {
        let y = others[t];
        assert(others@.contains(y));
        add_arc(keys, adj, s, y);
        add_arc(keys, adj, y, s);
        proof {
            let pre = others@.subrange(0, t as int);
            let post = others@.subrange(0, t + 1);
            assert(post =~= pre.push(y));
            assert forall|z: StackSlot| #[trigger] post.contains(z) <==> (pre.contains(z) || z == y) by {
                if post.contains(z) {
                    let q = choose|q: int| 0 <= q < post.len() && post[q] == z;
                    if q < pre.len() {
                        assert(pre[q] == z);
                    }
                }
                if pre.contains(z) {
                    let q = choose|q: int| 0 <= q < pre.len() && pre[q] == z;
                    assert(post[q] == z);
                }
                if z == y {
                    assert(post[t as int] == z);
                }
            }
        }
        t += 1;
    }
    proof {
        assert(others@.subrange(0, others@.len() as int) =~= others@);
    }
}

/// Starts tracking `s`: it becomes a node, joined to every word tracked so far.
fn track(keys: &mut Vec<StackSlot>, adj: &mut Vec<Vec<StackSlot>>, live_now: &mut Vec<StackSlot>, s: StackSlot)
    requires
        graph_ok(old(keys)@, old(adj)@),
        is_slot_set(old(live_now)@),
        !old(live_now)@.contains(s),
        forall|y: StackSlot| #[trigger] old(live_now)@.contains(y) ==> old(keys)@.contains(y),
    ensures
        graph_ok(final(keys)@, final(adj)@),
        is_slot_set(final(live_now)@),
        forall|y: StackSlot| #[trigger] final(live_now)@.contains(y) <==> (old(live_now)@.contains(y) || y == s),
        forall|y: StackSlot| #[trigger] final(keys)@.contains(y) <==> (old(keys)@.contains(y) || y == s),
        forall|a: StackSlot, c: StackSlot| #[trigger] has_edge(final(keys)@, final(adj)@, a, c)
            <==> (has_edge(old(keys)@, old(adj)@, a, c) || (a == s && old(live_now)@.contains(c))
                || (c == s && old(live_now)@.contains(a))),
{
    add_node(keys, adj, s);
    connect_all(keys, adj, s, live_now);
    slot_insert(live_now, s);
}

/// One step back over instruction `i` of block `b`.
proof fn lemma_tracked_step(blocks: Seq<BB>, outs: spec_fn(int, StackSlot) -> bool, rs: spec_fn(StackSlot) -> bool, b: int, i: int, x: StackSlot)
    requires
        0 <= i < blocks[b].insts@.len(),
    ensures
        tracked_at(blocks, outs, rs, b, i, x) == (rs(x) && (loads_slot(blocks[b].insts@[i], x)
            || (!stores_slot(blocks[b].insts@[i], x) && slot_live_at(blocks[b].insts@, out_of(outs, b), i + 1, x)))),
{
}

proof fn lemma_seen_from_step(blocks: Seq<BB>, outs: spec_fn(int, StackSlot) -> bool, rs: spec_fn(StackSlot) -> bool, b: int, i: int,
    x: StackSlot, y: StackSlot)
    requires
        0 <= i,
    ensures
        seen_from(blocks, outs, rs, b, i, x) <==> (tracked_at(blocks, outs, rs, b, i, x) && i <= blocks[b].insts@.len()
            || seen_from(blocks, outs, rs, b, i + 1, x)),
        co_seen_from(blocks, outs, rs, b, i, x, y) <==> (tracked_at(blocks, outs, rs, b, i, x)
            && tracked_at(blocks, outs, rs, b, i, y) && i <= blocks[b].insts@.len()
            || co_seen_from(blocks, outs, rs, b, i + 1, x, y)),
{
    if seen_from(blocks, outs, rs, b, i, x) {
        let j = choose|j: int| i <= j <= blocks[b].insts@.len() && #[trigger] tracked_at(blocks, outs, rs, b, j, x);
        if j > i {
            assert(seen_from(blocks, outs, rs, b, i + 1, x));
        }
    }
    if tracked_at(blocks, outs, rs, b, i, x) && i <= blocks[b].insts@.len() {
        assert(seen_from(blocks, outs, rs, b, i, x));
    }
    if seen_from(blocks, outs, rs, b, i + 1, x) {
        let j = choose|j: int| i + 1 <= j <= blocks[b].insts@.len() && #[trigger] tracked_at(blocks, outs, rs, b, j, x);
        assert(seen_from(blocks, outs, rs, b, i, x));
    }
    if co_seen_from(blocks, outs, rs, b, i, x, y) {
        let j = choose|j: int| #![trigger tracked_at(blocks, outs, rs, b, j, x), tracked_at(blocks, outs, rs, b, j, y)]
            i <= j <= blocks[b].insts@.len() && tracked_at(blocks, outs, rs, b, j, x) && tracked_at(blocks, outs, rs, b, j, y);
        if j > i {
            assert(co_seen_from(blocks, outs, rs, b, i + 1, x, y));
        }
    }
    if tracked_at(blocks, outs, rs, b, i, x) && tracked_at(blocks, outs, rs, b, i, y) && i <= blocks[b].insts@.len() {
        assert(co_seen_from(blocks, outs, rs, b, i, x, y));
    }
    if co_seen_from(blocks, outs, rs, b, i + 1, x, y) {
        let j = choose|j: int| #![trigger tracked_at(blocks, outs, rs, b, j, x), tracked_at(blocks, outs, rs, b, j, y)]
            i + 1 <= j <= blocks[b].insts@.len() && tracked_at(blocks, outs, rs, b, j, x) && tracked_at(blocks, outs, rs, b, j, y);
        assert(co_seen_from(blocks, outs, rs, b, i, x, y));
    }
}

proof fn lemma_seen_next_block(blocks: Seq<BB>, outs: spec_fn(int, StackSlot) -> bool, rs: spec_fn(StackSlot) -> bool, b: int,
    x: StackSlot, y: StackSlot)
    requires
        0 <= b,
    ensures
        seen_before(blocks, outs, rs, b + 1, x) <==> (seen_before(blocks, outs, rs, b, x)
            || seen_from(blocks, outs, rs, b, 0, x)),
        co_seen_before(blocks, outs, rs, b + 1, x, y) <==> (co_seen_before(blocks, outs, rs, b, x, y)
            || co_seen_from(blocks, outs, rs, b, 0, x, y)),
{
    if seen_before(blocks, outs, rs, b + 1, x) {
        let (c, j) = choose|c: int, j: int| 0 <= c < b + 1 && 0 <= j <= blocks[c].insts@.len()
            && #[trigger] tracked_at(blocks, outs, rs, c, j, x);
        if c < b {
            assert(seen_before(blocks, outs, rs, b, x));
        } else {
            assert(seen_from(blocks, outs, rs, b, 0, x));
        }
    }
    if seen_before(blocks, outs, rs, b, x) {
        let (c, j) = choose|c: int, j: int| 0 <= c < b && 0 <= j <= blocks[c].insts@.len()
            && #[trigger] tracked_at(blocks, outs, rs, c, j, x);
        assert(seen_before(blocks, outs, rs, b + 1, x));
    }
    if seen_from(blocks, outs, rs, b, 0, x) {
        let j = choose|j: int| 0 <= j <= blocks[b].insts@.len() && #[trigger] tracked_at(blocks, outs, rs, b, j, x);
        assert(seen_before(blocks, outs, rs, b + 1, x));
    }
    if co_seen_before(blocks, outs, rs, b + 1, x, y) {
        let (c, j) = choose|c: int, j: int| #![trigger tracked_at(blocks, outs, rs, c, j, x), tracked_at(blocks, outs, rs, c, j, y)]
            0 <= c < b + 1 && 0 <= j <= blocks[c].insts@.len()
            && tracked_at(blocks, outs, rs, c, j, x) && tracked_at(blocks, outs, rs, c, j, y);
        if c < b {
            assert(co_seen_before(blocks, outs, rs, b, x, y));
        } else {
            assert(co_seen_from(blocks, outs, rs, b, 0, x, y));
        }
    }
    if co_seen_before(blocks, outs, rs, b, x, y) {
        let (c, j) = choose|c: int, j: int| #![trigger tracked_at(blocks, outs, rs, c, j, x), tracked_at(blocks, outs, rs, c, j, y)]
            0 <= c < b && 0 <= j <= blocks[c].insts@.len()
            && tracked_at(blocks, outs, rs, c, j, x) && tracked_at(blocks, outs, rs, c, j, y);
        assert(co_seen_before(blocks, outs, rs, b + 1, x, y));
    }
    if co_seen_from(blocks, outs, rs, b, 0, x, y) {
        let j = choose|j: int| #![trigger tracked_at(blocks, outs, rs, b, j, x), tracked_at(blocks, outs, rs, b, j, y)]
            0 <= j <= blocks[b].insts@.len() && tracked_at(blocks, outs, rs, b, j, x) && tracked_at(blocks, outs, rs, b, j, y);
        assert(co_seen_before(blocks, outs, rs, b + 1, x, y));
    }
}

/// `g` is the interference graph of the words `rs` over `blocks` (with
/// `outs(b, _)` live on exit from block `b`): its keys are, once each, the
/// words of `rs` live at some point, and each key's neighbours are the
/// words live with it at some point.
pub open spec fn interference_graph(g: Seq<(StackSlot, Vec<StackSlot>)>, blocks: Seq<BB>,
    outs: spec_fn(int, StackSlot) -> bool, rs: spec_fn(StackSlot) -> bool) -> bool {
    &&& forall|a: int, c: int| 0 <= a < g.len() && 0 <= c < g.len() && a != c ==> #[trigger] g[a].0 != #[trigger] g[c].0
    &&& forall|k: int| 0 <= k < g.len() ==> is_slot_set(#[trigger] g[k].1@)
    &&& forall|x: StackSlot| (exists|k: int| 0 <= k < g.len() && #[trigger] g[k].0 == x)
        <==> #[trigger] slot_in_graph(blocks, outs, rs, x)
    &&& forall|k: int, y: StackSlot| 0 <= k < g.len() ==>
        (#[trigger] g[k].1@.contains(y) <==> slots_interfere(blocks, outs, rs, g[k].0, y))
}

impl Func {
    /// The interference graph of the words `rearrangables` of the frame:
    /// two interfere when both are live at some point of some block (with
    /// `live_outs` live on exit from each block).
    #[verifier::rlimit(40)]
    pub fn calc_stackslot_interef_with_rearrangable_set(
        func: &Func,
        rearrangables: &Vec<StackSlot>,
        live_outs: &Vec<Vec<StackSlot>>,
    ) -> (r: Vec<(StackSlot, Vec<StackSlot>)>)
        requires
            slots_ready(func.blocks@),
            live_outs@.len() == func.blocks@.len(),
        ensures
            interference_graph(r@, func.blocks@, member_of(live_outs@), member(rearrangables@)),
    {
        let ghost blocks = func.blocks@;
        let ghost outs = member_of(live_outs@);
        let ghost rs = member(rearrangables@);
        let mut keys: Vec<StackSlot> = Vec::new();
        let mut adj: Vec<Vec<StackSlot>> = Vec::new();
        let nb = func.blocks.len();
        let mut b: usize = 0;
        while b < nb
            invariant
                nb == blocks.len(),
                blocks == func.blocks@,
                outs == member_of(live_outs@),
                rs == member(rearrangables@),
                slots_ready(blocks),
                live_outs@.len() == nb,
                b <= nb,
                graph_ok(keys@, adj@),
                forall|x: StackSlot| #[trigger] keys@.contains(x) <==> seen_before(blocks, outs, rs, b as int, x),
                forall|x: StackSlot, y: StackSlot| #[trigger] has_edge(keys@, adj@, x, y)
                    <==> (x != y && co_seen_before(blocks, outs, rs, b as int, x, y)),
            decreases nb - b,
        {
            let ghost out = live_outs@[b as int]@;
            let mut live_now: Vec<StackSlot> = Vec::new();
            let mut j: usize = 0;
            while j < live_outs[b].len()
                invariant
                    nb == blocks.len(),
                    blocks == func.blocks@,
                    outs == member_of(live_outs@),
                    rs == member(rearrangables@),
                    live_outs@.len() == nb,
                    b < nb,
                    out == live_outs@[b as int]@,
                    j <= out.len(),
                    graph_ok(keys@, adj@),
                    is_slot_set(live_now@),
                    forall|x: StackSlot| #[trigger] live_now@.contains(x) <==> (rs(x) && out.subrange(0, j as int).contains(x)),
                    forall|x: StackSlot| #[trigger] keys@.contains(x) <==> (seen_before(blocks, outs, rs, b as int, x)
                        || (rs(x) && out.subrange(0, j as int).contains(x))),
                    forall|x: StackSlot, y: StackSlot| #[trigger] has_edge(keys@, adj@, x, y)
                        <==> (x != y && (co_seen_before(blocks, outs, rs, b as int, x, y)
                            || (live_now@.contains(x) && live_now@.contains(y)))),
                decreases out.len() - j,
            {
                let x = live_outs[b][j];
                proof {
                    let pre = out.subrange(0, j as int);
                    let post = out.subrange(0, j + 1);
                    assert(post =~= pre.push(x));
                    assert forall|z: StackSlot| #[trigger] post.contains(z) <==> (pre.contains(z) || z == x) by {
                        if post.contains(z) {
                            let q = choose|q: int| 0 <= q < post.len() && post[q] == z;
                            if q < pre.len() {
                                assert(pre[q] == z);
                            }
                        }
                        if pre.contains(z) {
                            let q = choose|q: int| 0 <= q < pre.len() && pre[q] == z;
                            assert(post[q] == z);
                        }
                        if z == x {
                            assert(post[j as int] == z);
                        }
                    }
                }
                if slot_contains(rearrangables, &x) && !slot_contains(&live_now, &x) {
                    track(&mut keys, &mut adj, &mut live_now, x);
                }
                j += 1;
            }
            let ghost n: int = blocks[b as int].insts@.len() as int;
            proof {
                assert(out.subrange(0, out.len() as int) =~= out);
                assert forall|x: StackSlot| #[trigger] live_now@.contains(x) <==> tracked_at(blocks, outs, rs, b as int, n, x) by {
                }
                assert forall|x: StackSlot, y: StackSlot| true implies
                    (seen_from(blocks, outs, rs, b as int, n, x) <==> tracked_at(blocks, outs, rs, b as int, n, x))
                    && (co_seen_from(blocks, outs, rs, b as int, n, x, y) <==> (tracked_at(blocks, outs, rs, b as int, n, x)
                        && tracked_at(blocks, outs, rs, b as int, n, y))) by {
                    lemma_seen_from_step(blocks, outs, rs, b as int, n, x, y);
                    lemma_seen_from_step(blocks, outs, rs, b as int, n + 1, x, y);
                }
                assert forall|x: StackSlot| #[trigger] keys@.contains(x) <==> (seen_before(blocks, outs, rs, b as int, x)
                    || seen_from(blocks, outs, rs, b as int, n, x)) by {
                    lemma_seen_from_step(blocks, outs, rs, b as int, n, x, x);
                    lemma_seen_from_step(blocks, outs, rs, b as int, n + 1, x, x);
                    assert(live_now@.contains(x) <==> tracked_at(blocks, outs, rs, b as int, n, x));
                }
            }
            let insts = &func.blocks[b].insts;
            let mut idx: usize = insts.len();
            while idx > 0
                invariant
                    nb == blocks.len(),
                    blocks == func.blocks@,
                    outs == member_of(live_outs@),
                    rs == member(rearrangables@),
                    slots_ready(blocks),
                    live_outs@.len() == nb,
                    b < nb,
                    insts@ == blocks[b as int].insts@,
                    n == insts@.len(),
                    idx <= n,
                    graph_ok(keys@, adj@),
                    is_slot_set(live_now@),
                    forall|x: StackSlot| #[trigger] live_now@.contains(x) <==> tracked_at(blocks, outs, rs, b as int, idx as int, x),
                    forall|x: StackSlot| #[trigger] keys@.contains(x) <==> (seen_before(blocks, outs, rs, b as int, x)
                        || seen_from(blocks, outs, rs, b as int, idx as int, x)),
                    forall|x: StackSlot, y: StackSlot| #[trigger] has_edge(keys@, adj@, x, y)
                        <==> (x != y && (co_seen_before(blocks, outs, rs, b as int, x, y)
                            || co_seen_from(blocks, outs, rs, b as int, idx as int, x, y))),
                decreases idx,
            {
                let i = idx - 1;
                assert(slot_ready(blocks[b as int].insts@[i as int]));
                let ghost live0 = live_now@;
                let ghost keys0 = keys@;
                let ghost adj0 = adj@;
                let t = insts[i].inst_type;
                if t == InstrsType::LoadFromStack {
                    let s = insts[i].get_stackslot_with_addr_size();
                    if slot_contains(rearrangables, &s) && !slot_contains(&live_now, &s) {
                        proof {
                            assert forall|y: StackSlot| #[trigger] live_now@.contains(y) implies keys@.contains(y) by {
                                assert(seen_from(blocks, outs, rs, b as int, idx as int, y));
                            }
                        }
                        track(&mut keys, &mut adj, &mut live_now, s);
                    }
                } else if t == InstrsType::StoreToStack {
                    let s = insts[i].get_stackslot_with_addr_size();
                    slot_remove(&mut live_now, s);
                }
                proof {
                    assert forall|x: StackSlot| #[trigger] live_now@.contains(x) <==> tracked_at(blocks, outs, rs, b as int, i as int, x) by {
                        lemma_tracked_step(blocks, outs, rs, b as int, i as int, x);
                        lemma_tracked_step(blocks, outs, rs, b as int, i as int, x);
                    }
                    assert forall|x: StackSlot| #[trigger] live_now@.contains(x) && !live0.contains(x)
                        implies keys@.contains(x) && !keys0.contains(x) || keys0.contains(x) by {
                    }
                    assert forall|x: StackSlot| #[trigger] keys@.contains(x) <==> (seen_before(blocks, outs, rs, b as int, x)
                        || seen_from(blocks, outs, rs, b as int, i as int, x)) by {
                        lemma_seen_from_step(blocks, outs, rs, b as int, i as int, x, x);
                        if live0.contains(x) {
                            assert(seen_from(blocks, outs, rs, b as int, idx as int, x));
                        }
                    }
                    assert forall|x: StackSlot, y: StackSlot| #[trigger] has_edge(keys@, adj@, x, y)
                        <==> (x != y && (co_seen_before(blocks, outs, rs, b as int, x, y)
                            || co_seen_from(blocks, outs, rs, b as int, i as int, x, y))) by {
                        lemma_seen_from_step(blocks, outs, rs, b as int, i as int, x, y);
                        if live0.contains(x) && live0.contains(y) && x != y {
                            assert(co_seen_from(blocks, outs, rs, b as int, idx as int, x, y)) by {
                                lemma_seen_from_step(blocks, outs, rs, b as int, idx as int, x, y);
                            }
                            assert(has_edge(keys0, adj0, x, y));
                        }
                    }
                }
                idx = i;
            }
            proof {
                assert forall|x: StackSlot, y: StackSlot| true implies
                    (seen_before(blocks, outs, rs, b + 1, x) <==> (seen_before(blocks, outs, rs, b as int, x)
                        || seen_from(blocks, outs, rs, b as int, 0, x)))
                    && (co_seen_before(blocks, outs, rs, b + 1, x, y) <==> (co_seen_before(blocks, outs, rs, b as int, x, y)
                        || co_seen_from(blocks, outs, rs, b as int, 0, x, y))) by {
                    lemma_seen_next_block(blocks, outs, rs, b as int, x, y);
                }
            }
            b += 1;
        }
        let mut r: Vec<(StackSlot, Vec<StackSlot>)> = Vec::new();
        let mut k: usize = 0;
        while k < keys.len()
            invariant
                graph_ok(keys@, adj@),
                k <= keys@.len(),
                r@.len() == k,
                forall|q: int| 0 <= q < k ==> (#[trigger] r@[q]).0 == keys@[q] && r@[q].1@ == adj@[q]@,
            decreases keys@.len() - k,
        {
            r.push((keys[k], copy_slots(&adj[k])));
            k += 1;
        }
        proof {
            assert forall|x: StackSlot| (exists|q: int| 0 <= q < r@.len() && #[trigger] r@[q].0 == x)
                <==> #[trigger] slot_in_graph(blocks, outs, rs, x) by {
                if keys@.contains(x) {
                    let q = choose|q: int| 0 <= q < keys@.len() && keys@[q] == x;
                    assert(r@[q].0 == x);
                }
                if exists|q: int| 0 <= q < r@.len() && #[trigger] r@[q].0 == x {
                    let q = choose|q: int| 0 <= q < r@.len() && #[trigger] r@[q].0 == x;
                    assert(keys@[q] == x);
                }
            }
            assert forall|q: int, y: StackSlot| 0 <= q < r@.len() implies
                (#[trigger] r@[q].1@.contains(y) <==> slots_interfere(blocks, outs, rs, r@[q].0, y)) by {
                let x = keys@[q];
                if r@[q].1@.contains(y) {
                    assert(has_edge(keys@, adj@, x, y));
                }
                if has_edge(keys@, adj@, x, y) {
                    let t = choose|t: int| 0 <= t < keys@.len() && keys@[t] == x && #[trigger] adj@[t]@.contains(y);
                    assert(t == q);
                }
            }
            assert forall|a: int, c: int| 0 <= a < r@.len() && 0 <= c < r@.len() && a != c
                implies #[trigger] r@[a].0 != #[trigger] r@[c].0 by {
                assert(keys@[a] != keys@[c]);
            }
            assert forall|q: int| 0 <= q < r@.len() implies is_slot_set(#[trigger] r@[q].1@) by {
                assert(is_slot_set(adj@[q]@));
            }
        }
        r
    }
}

/// The index of the last slot of `stack` at offset 0, which ends the part
/// of the frame that stays in place (-1 when there is none).
pub open spec fn frame_base(stack: Seq<StackSlot>) -> int
    decreases stack.len(),
{
    if stack.len() == 0 {
        -1
    } else if stack.last().pos == 0 {
        stack.len() - 1
    } else {
        frame_base(stack.drop_last())
    }
}

pub proof fn lemma_frame_base(stack: Seq<StackSlot>)
    ensures
        -1 <= frame_base(stack) < stack.len(),
        frame_base(stack) >= 0 ==> stack[frame_base(stack)].pos == 0,
        forall|k: int| frame_base(stack) < k < stack.len() ==> (#[trigger] stack[k]).pos != 0,
        forall|l: int| frame_base(stack) < l <= stack.len() ==> #[trigger] frame_base(stack.subrange(0, l)) == frame_base(stack),
    decreases stack.len(),
{
    if stack.len() > 0 {
        let d = stack.drop_last();
        lemma_frame_base(d);
        assert forall|l: int| frame_base(stack) < l <= stack.len() implies #[trigger] frame_base(stack.subrange(0, l)) == frame_base(stack) by {
            if l == stack.len() {
                assert(stack.subrange(0, l) =~= stack);
            } else {
                assert(stack.subrange(0, l) =~= d.subrange(0, l));
                assert(stack.last().pos != 0);
            }
        }
        assert forall|k: int| frame_base(stack) < k < stack.len() implies (#[trigger] stack[k]).pos != 0 by {
            if k < stack.len() - 1 {
                assert(stack[k] == d[k]);
            }
        }
    }
}

/// A word of the frame past its base: one that may be moved.
pub open spec fn rearrangable(stack: Seq<StackSlot>, s: StackSlot) -> bool {
    exists|k: int| frame_base(stack) < k < stack.len() && stack[k] == s
}

/// Some stack load or store of `blocks` reaches `s`.
pub open spec fn accessed(blocks: Seq<BB>, s: StackSlot) -> bool {
    exists|b: int, i: int| 0 <= b < blocks.len() && 0 <= i < blocks[b].insts@.len()
        && (loads_slot(#[trigger] blocks[b].insts@[i], s) || stores_slot(blocks[b].insts@[i], s))
}

/// Some stack load of `blocks` reads `s`.
pub open spec fn loaded(blocks: Seq<BB>, s: StackSlot) -> bool {
    exists|b: int, i: int| 0 <= b < blocks.len() && 0 <= i < blocks[b].insts@.len()
        && loads_slot(#[trigger] blocks[b].insts@[i], s)
}

/// The words that are moved: those past the base of the frame that some
/// stack load or store reaches.
pub open spec fn moved_words(stack: Seq<StackSlot>, blocks: Seq<BB>) -> spec_fn(StackSlot) -> bool {
    |s: StackSlot| rearrangable(stack, s) && accessed(blocks, s)
}

/// Whether some stack load or store of `func` reaches `s`.
fn is_accessed(func: &Func, s: &StackSlot) -> (r: bool)
    requires
        slots_ready(func.blocks@),
    ensures
        r == accessed(func.blocks@, *s),
{
    let mut b: usize = 0;
    while b < func.blocks.len()
        invariant
            slots_ready(func.blocks@),
            b <= func.blocks@.len(),
            forall|c: int, i: int| 0 <= c < b && 0 <= i < func.blocks@[c].insts@.len()
                ==> !(loads_slot(#[trigger] func.blocks@[c].insts@[i], *s) || stores_slot(func.blocks@[c].insts@[i], *s)),
        decreases func.blocks@.len() - b,
    {
        let mut i: usize = 0;
        while i < func.blocks[b].insts.len()
            invariant
                slots_ready(func.blocks@),
                b < func.blocks@.len(),
                i <= func.blocks@[b as int].insts@.len(),
                forall|c: int, j: int| 0 <= c < b && 0 <= j < func.blocks@[c].insts@.len()
                    ==> !(loads_slot(#[trigger] func.blocks@[c].insts@[j], *s) || stores_slot(func.blocks@[c].insts@[j], *s)),
                forall|j: int| 0 <= j < i ==> !(loads_slot(#[trigger] func.blocks@[b as int].insts@[j], *s)
                    || stores_slot(func.blocks@[b as int].insts@[j], *s)),
            decreases func.blocks@[b as int].insts@.len() - i,
        {
            assert(slot_ready(func.blocks@[b as int].insts@[i as int]));
            let t = func.blocks[b].insts[i].inst_type;
            if t == InstrsType::LoadFromStack || t == InstrsType::StoreToStack {
                let x = func.blocks[b].insts[i].get_stackslot_with_addr_size();
                if x == *s {
                    return true;
                }
            }
            i += 1;
        }
        b += 1;
    }
    false
}

/// The words of `v` that some stack load or store of `func` reaches.
fn keep_accessed(func: &Func, v: &Vec<StackSlot>) -> (r: Vec<StackSlot>)
    requires
        slots_ready(func.blocks@),
        is_slot_set(v@),
    ensures
        is_slot_set(r@),
        r@.len() <= v@.len(),
        forall|x: StackSlot| #[trigger] r@.contains(x) <==> (v@.contains(x) && accessed(func.blocks@, x)),
{
    let mut r: Vec<StackSlot> = Vec::new();
    let mut k: usize = 0;
    while k < v.len()
        invariant
            slots_ready(func.blocks@),
            is_slot_set(v@),
            k <= v@.len(),
            is_slot_set(r@),
            r@.len() <= k,
            forall|x: StackSlot| #[trigger] r@.contains(x) <==> (v@.subrange(0, k as int).contains(x) && accessed(func.blocks@, x)),
        decreases v@.len() - k,
    {
        let x = v[k];
        let ghost pre = v@.subrange(0, k as int);
        let ghost post = v@.subrange(0, k + 1);
        proof {
            assert(post =~= pre.push(x));
            assert forall|z: StackSlot| #[trigger] post.contains(z) <==> (pre.contains(z) || z == x) by {
                if post.contains(z) {
                    let q = choose|q: int| 0 <= q < post.len() && post[q] == z;
                    if q < pre.len() {
                        assert(pre[q] == z);
                    }
                }
                if pre.contains(z) {
                    let q = choose|q: int| 0 <= q < pre.len() && pre[q] == z;
                    assert(post[q] == z);
                }
                if z == x {
                    assert(post[k as int] == z);
                }
            }
            assert(!pre.contains(x)) by {
                if pre.contains(x) {
                    let q = choose|q: int| 0 <= q < pre.len() && pre[q] == x;
                    assert(v@[q] == v@[k as int]);
                }
            }
        }
        if is_accessed(func, &x) {
            slot_insert(&mut r, x);
        }
        k += 1;
    }
    proof {
        assert(v@.subrange(0, v@.len() as int) =~= v@);
    }
    r
}

/// `inst` is a stack load or store of `s`.
pub open spec fn touches_slot(inst: LIRInst, s: StackSlot) -> bool {
    loads_slot(inst, s) || stores_slot(inst, s)
}

/// How many of `insts[..k]` load or store `s`.
pub open spec fn count_in(insts: Seq<LIRInst>, s: StackSlot, k: int) -> nat
    decreases k,
{
    if k <= 0 {
        0
    } else {
        count_in(insts, s, k - 1) + if touches_slot(insts[k - 1], s) { 1nat } else { 0nat }
    }
}

/// How many stack loads and stores of the blocks before `b` reach `s`.
pub open spec fn count_upto(blocks: Seq<BB>, s: StackSlot, b: int) -> nat
    decreases b,
{
    if b <= 0 {
        0
    } else {
        count_upto(blocks, s, b - 1) + count_in(blocks[b - 1].insts@, s, blocks[b - 1].insts@.len() as int)
    }
}

/// How many stack loads and stores of `blocks` reach `s`, as a `u64`
/// that stops at its largest value.
pub open spec fn use_count(blocks: Seq<BB>, s: StackSlot) -> u64 {
    let n = count_upto(blocks, s, blocks.len() as int);
    if n > u64::MAX { u64::MAX } else { n as u64 }
}

/// How many stack loads and stores of `func` reach `s`.
fn count_uses(func: &Func, s: &StackSlot) -> (r: u64)
    requires
        slots_ready(func.blocks@),
    ensures
        r == use_count(func.blocks@, *s),
{
    let ghost blocks = func.blocks@;
    let mut c: u64 = 0;
    let mut b: usize = 0;
    while b < func.blocks.len()
        invariant
            blocks == func.blocks@,
            slots_ready(blocks),
            b <= blocks.len(),
            c == (if count_upto(blocks, *s, b as int) > u64::MAX { u64::MAX } else { count_upto(blocks, *s, b as int) as u64 }),
        decreases blocks.len() - b,
    {
        let ghost c0 = count_upto(blocks, *s, b as int);
        let mut i: usize = 0;
        while i < func.blocks[b].insts.len()
            invariant
                blocks == func.blocks@,
                slots_ready(blocks),
                b < blocks.len(),
                i <= blocks[b as int].insts@.len(),
                c0 == count_upto(blocks, *s, b as int),
                c == (if c0 + count_in(blocks[b as int].insts@, *s, i as int) > u64::MAX { u64::MAX }
                    else { (c0 + count_in(blocks[b as int].insts@, *s, i as int)) as u64 }),
            decreases blocks[b as int].insts@.len() - i,
        {
            assert(slot_ready(blocks[b as int].insts@[i as int]));
            let t = func.blocks[b].insts[i].inst_type;
            if t == InstrsType::LoadFromStack || t == InstrsType::StoreToStack {
                let x = func.blocks[b].insts[i].get_stackslot_with_addr_size();
                if x == *s {
                    c = c.saturating_add(1);
                }
            }
            i += 1;
        }
        b += 1;
    }
    c
}

/// The words of `v` ordered by how often the stack loads and stores of
/// `func` reach them, most used first (ties keep the order of `v`).
fn order_by_uses(func: &Func, v: &Vec<StackSlot>) -> (r: Vec<StackSlot>)
    requires
        slots_ready(func.blocks@),
        is_slot_set(v@),
    ensures
        is_slot_set(r@),
        r@.len() == v@.len(),
        forall|x: StackSlot| #[trigger] r@.contains(x) <==> v@.contains(x),
        forall|i: int, j: int| 0 <= i < j < r@.len() ==>
            use_count(func.blocks@, #[trigger] r@[i]) >= use_count(func.blocks@, #[trigger] r@[j]),
{
    let ghost blocks = func.blocks@;
    let mut rest: Vec<(StackSlot, u64)> = Vec::new();
    let mut k: usize = 0;
    while k < v.len()
        invariant
            blocks == func.blocks@,
            slots_ready(blocks),
            k <= v@.len(),
            rest@.len() == k,
            forall|q: int| 0 <= q < k ==> (#[trigger] rest@[q]).0 == v@[q] && rest@[q].1 == use_count(blocks, v@[q]),
        decreases v@.len() - k,
    {
        let c = count_uses(func, &v[k]);
        rest.push((v[k], c));
        k += 1;
    }
    let mut r: Vec<StackSlot> = Vec::new();
    proof {
        assert forall|x: StackSlot| #![trigger v@.contains(x)] #![trigger r@.contains(x)]
            v@.contains(x) <==> (r@.contains(x) || exists|q: int| 0 <= q < rest@.len() && #[trigger] rest@[q].0 == x) by {
            if v@.contains(x) {
                let q = choose|q: int| 0 <= q < v@.len() && v@[q] == x;
                assert(rest@[q].0 == x);
            }
        }
    }
    while rest.len() > 0
        invariant
            blocks == func.blocks@,
            is_slot_set(v@),
            is_slot_set(r@),
            r@.len() + rest@.len() == v@.len(),
            forall|q: int| 0 <= q < rest@.len() ==> (#[trigger] rest@[q]).1 == use_count(blocks, rest@[q].0),
            forall|a: int, c: int| 0 <= a < rest@.len() && 0 <= c < rest@.len() && a != c ==> (#[trigger] rest@[a]).0 != (#[trigger] rest@[c]).0,
            forall|x: StackSlot| #![trigger v@.contains(x)] #![trigger r@.contains(x)]
                v@.contains(x) <==> (r@.contains(x) || exists|q: int| 0 <= q < rest@.len() && #[trigger] rest@[q].0 == x),
            forall|a: int, q: int| 0 <= a < r@.len() && 0 <= q < rest@.len() ==> #[trigger] r@[a] != (#[trigger] rest@[q]).0,
            forall|a: int, q: int| 0 <= a < r@.len() && 0 <= q < rest@.len() ==>
                use_count(blocks, #[trigger] r@[a]) >= (#[trigger] rest@[q]).1,
            forall|i: int, j: int| 0 <= i < j < r@.len() ==>
                use_count(blocks, #[trigger] r@[i]) >= use_count(blocks, #[trigger] r@[j]),
        decreases rest@.len(),
    {
        let mut m: usize = 0;
        let mut q: usize = 1;
        while q < rest.len()
            invariant
                rest@.len() > 0,
                m < q <= rest@.len(),
                forall|a: int| 0 <= a < q ==> (#[trigger] rest@[a]).1 <= rest@[m as int].1,
            decreases rest@.len() - q,
        {
            if rest[q].1 > rest[m].1 {
                m = q;
            }
            q += 1;
        }
        let ghost rest0 = rest@;
        let ghost r0 = r@;
        let (x, c) = rest.remove(m);
        r.push(x);
        proof {
            assert(rest@ =~= rest0.subrange(0, m as int) + rest0.subrange(m + 1, rest0.len() as int));
            assert forall|t: int| 0 <= t < rest@.len() implies #[trigger] rest@[t] == rest0[if t < m { t } else { t + 1 }] by {
                if t < m {
                    assert(rest@[t] == rest0.subrange(0, m as int)[t]);
                } else {
                    assert(rest@[t] == rest0.subrange(m + 1, rest0.len() as int)[t - m]);
                }
            }
            assert forall|a: int, c2: int| 0 <= a < rest@.len() && 0 <= c2 < rest@.len() && a != c2
                implies (#[trigger] rest@[a]).0 != (#[trigger] rest@[c2]).0 by {
                let a2 = if a < m { a } else { a + 1 };
                let c3 = if c2 < m { c2 } else { c2 + 1 };
                assert(rest@[a] == rest0[a2]);
                assert(rest@[c2] == rest0[c3]);
            }
            assert forall|y: StackSlot| #![trigger v@.contains(y)] #![trigger r@.contains(y)]
                v@.contains(y) <==> (r@.contains(y) || exists|t: int| 0 <= t < rest@.len() && #[trigger] rest@[t].0 == y) by {
                if r@.contains(y) {
                    let a = choose|a: int| 0 <= a < r@.len() && r@[a] == y;
                    if a < r0.len() {
                        assert(r0.contains(y));
                    } else {
                        assert(rest0[m as int].0 == y);
                    }
                }
                if exists|t: int| 0 <= t < rest@.len() && #[trigger] rest@[t].0 == y {
                    let t = choose|t: int| 0 <= t < rest@.len() && #[trigger] rest@[t].0 == y;
                    let t2 = if t < m { t } else { t + 1 };
                    assert(rest0[t2].0 == y);
                }
                if v@.contains(y) {
                    if r0.contains(y) {
                        let a = choose|a: int| 0 <= a < r0.len() && r0[a] == y;
                        assert(r@[a] == y);
                    } else {
                        let t = choose|t: int| 0 <= t < rest0.len() && #[trigger] rest0[t].0 == y;
                        if t == m {
                            assert(r@[r0.len() as int] == y);
                        } else if t < m {
                            assert(rest@[t].0 == y);
                        } else {
                            assert(rest@[t - 1].0 == y);
                        }
                    }
                }
            }
            assert forall|a: int, t: int| 0 <= a < r@.len() && 0 <= t < rest@.len() implies #[trigger] r@[a] != (#[trigger] rest@[t]).0 by {
                let t2 = if t < m { t } else { t + 1 };
                assert(rest@[t] == rest0[t2]);
                if a < r0.len() {
                    assert(r@[a] == r0[a]);
                } else {
                    assert(r@[a] == rest0[m as int].0);
                }
            }
            assert forall|a: int, t: int| 0 <= a < r@.len() && 0 <= t < rest@.len() implies
                use_count(blocks, #[trigger] r@[a]) >= (#[trigger] rest@[t]).1 by {
                let t2 = if t < m { t } else { t + 1 };
                assert(rest@[t] == rest0[t2]);
                assert(rest0[t2].1 <= rest0[m as int].1);
                if a < r0.len() {
                    assert(r@[a] == r0[a]);
                } else {
                    assert(r@[a] == rest0[m as int].0);
                }
            }
            assert forall|i: int, j: int| 0 <= i < j < r@.len() implies
                use_count(blocks, #[trigger] r@[i]) >= use_count(blocks, #[trigger] r@[j]) by {
                if j == r0.len() {
                    assert(r@[j] == rest0[m as int].0);
                    assert(r@[i] == r0[i]);
                } else {
                    assert(r@[i] == r0[i]);
                    assert(r@[j] == r0[j]);
                }
            }
            assert forall|a: int, c2: int| 0 <= a < r@.len() && 0 <= c2 < r@.len() && a != c2 implies r@[a] != r@[c2] by {
                if a == r0.len() {
                    assert(r@[c2] == r0[c2]);
                } else if c2 == r0.len() {
                    assert(r@[a] == r0[a]);
                }
            }
        }
    }
    proof {
        assert forall|y: StackSlot| #[trigger] r@.contains(y) <==> v@.contains(y) by {
            if v@.contains(y) {
                assert(r@.contains(y) || exists|t: int| 0 <= t < rest@.len() && #[trigger] rest@[t].0 == y);
            }
        }
    }
    r
}

/// The words of the frame live on exit from each block, as the flow of
/// `blocks` makes them.
pub open spec fn exact_outs(blocks: Seq<BB>) -> spec_fn(int, StackSlot) -> bool {
    |k: int, x: StackSlot| 0 <= k < blocks.len() && slot_live_out_of(blocks, exposed_in(blocks), killed_in(blocks), k, x)
}

pub proof fn lemma_interfere_symmetric(blocks: Seq<BB>, outs: spec_fn(int, StackSlot) -> bool,
    rs: spec_fn(StackSlot) -> bool, x: StackSlot, y: StackSlot)
    requires
        slots_interfere(blocks, outs, rs, x, y),
    ensures
        slots_interfere(blocks, outs, rs, y, x),
{
    let (c, j) = choose|c: int, j: int| #![trigger tracked_at(blocks, outs, rs, c, j, x), tracked_at(blocks, outs, rs, c, j, y)]
        0 <= c < blocks.len() && 0 <= j <= blocks[c].insts@.len()
        && tracked_at(blocks, outs, rs, c, j, x) && tracked_at(blocks, outs, rs, c, j, y);
    assert(co_seen_before(blocks, outs, rs, blocks.len() as int, y, x));
}

/// `new` is `old` with a stack load or store of a moved word sent to the
/// word's new place (`f`), and any other instruction left as it is.
pub open spec fn relocated(new: LIRInst, old: LIRInst, f: Map<StackSlot, StackSlot>) -> bool {
    if (old.inst_type == InstrsType::LoadFromStack || old.inst_type == InstrsType::StoreToStack)
        && f.dom().contains(inst_slot(old)) {
        &&& new.inst_type == old.inst_type
        &&& new.operands@ == old.operands@.update(1, Operand::IImm(IImm { data: f[inst_slot(old)].pos }))
        &&& new.param_cnt == old.param_cnt
        &&& new.double == old.double
        &&& new.float == old.float
        &&& new.func_type == old.func_type
    } else {
        new == old
    }
}

/// Everything of the function but its blocks and its frame.
pub open spec fn same_but_code_frame(a: &Func, b: &Func) -> bool {
    &&& a.is_extern == b.is_extern
    &&& a.label == b.label
    &&& a.param_cnt == b.param_cnt
    &&& a.is_header == b.is_header
    &&& a.entry == b.entry
    &&& a.context == b.context
    &&& a.spillings@ == b.spillings@
    &&& a.spill_stack_map@ == b.spill_stack_map@
    &&& a.callee_saved@ == b.callee_saved@
    &&& a.array_slot@ == b.array_slot@
    &&& a.tmp_vars@ == b.tmp_vars@
}

/// What the rearrangement may assume: every block edge and stack access is
/// well formed, the frame has a base at offset 0, the new places fit in an
/// `i32`, and no word past the base is stored to without being loaded.
pub open spec fn rearrange_ready(func: &Func) -> bool {
    let stack = func.stack_addr@;
    let fb = frame_base(stack);
    &&& func.wf()
    &&& slots_ready(func.blocks@)
    &&& fb >= 0
    &&& stack[fb].size + 8 * stack.len() <= i32::MAX
    &&& forall|s: StackSlot| rearrangable(stack, s) && #[trigger] accessed(func.blocks@, s) ==> loaded(func.blocks@, s)
}

/// The place that `vs`/`ps` give to `s`: `ps` at the position of `s` in `vs`.
pub open spec fn place_map(vs: Seq<StackSlot>, ps: Seq<StackSlot>) -> Map<StackSlot, StackSlot> {
    Map::new(|s: StackSlot| vs.contains(s), |s: StackSlot| ps[choose|q: int| 0 <= q < vs.len() && vs[q] == s])
}

/// Some word is sent to `p`.
pub open spec fn has_source(f: Map<StackSlot, StackSlot>, p: StackSlot) -> bool {
    exists|s: StackSlot| #[trigger] f.dom().contains(s) && f[s] == p
}

/// `f` sends each moved word of the frame (`stack0`, `blocks0`) to one of
/// the new places of `stack1`, every new place holds some word, words live
/// together get different places, a most used word gets the lowest new
/// place, and `blocks1` is `blocks0` with every access to a moved word sent
/// to its place.
pub open spec fn placed(stack0: Seq<StackSlot>, blocks0: Seq<BB>, stack1: Seq<StackSlot>, blocks1: Seq<BB>,
    f: Map<StackSlot, StackSlot>) -> bool {
    let fb = frame_base(stack0);
    &&& forall|s: StackSlot| #[trigger] f.dom().contains(s) <==> moved_words(stack0, blocks0)(s)
    &&& forall|s: StackSlot| #[trigger] f.dom().contains(s) ==> stack1.subrange(fb + 1, stack1.len() as int).contains(f[s])
    &&& forall|k: int| fb < k < stack1.len() ==> #[trigger] has_source(f, stack1[k])
    &&& forall|s: StackSlot, t: StackSlot| #[trigger] f.dom().contains(s) && #[trigger] f.dom().contains(t)
        && slots_interfere(blocks0, exact_outs(blocks0), moved_words(stack0, blocks0), s, t) ==> f[s] != f[t]
    &&& forall|s: StackSlot| #[trigger] f.dom().contains(s) ==> exists|w: StackSlot| #[trigger] f.dom().contains(w)
        && f[w] == stack1[fb + 1] && use_count(blocks0, s) <= use_count(blocks0, w)
    &&& blocks1.len() == blocks0.len()
    &&& forall|b: int, i: int| 0 <= b < blocks1.len() && 0 <= i < blocks1[b].insts@.len() && i < blocks0[b].insts@.len()
        ==> relocated(#[trigger] blocks1[b].insts@[i], blocks0[b].insts@[i], f)
}

/// `new` is `old` after its frame was packed: code and frame well formed,
/// nothing else changed, the base of the frame kept, new places one word
/// each after it, and the moved words sent to them as `placed` says.
pub open spec fn stack_rearranged(new: Func, old: Func) -> bool {
    let fb = frame_base(old.stack_addr@);
    &&& new.wf()
    &&& slots_ready(new.blocks@)
    &&& same_but_code_frame(&new, &old)
    &&& new.blocks@.len() == old.blocks@.len()
    &&& forall|b: int| 0 <= b < new.blocks@.len() ==>
        (#[trigger] new.blocks@[b]).same_but_insts(&old.blocks@[b])
        && new.blocks@[b].insts@.len() == old.blocks@[b].insts@.len()
    &&& new.stack_addr@.len() > fb
    &&& new.stack_addr@.subrange(0, fb + 1) == old.stack_addr@.subrange(0, fb + 1)
    &&& forall|k: int| fb < k < new.stack_addr@.len() ==> #[trigger] new.stack_addr@[k]
        == (StackSlot { pos: (old.stack_addr@[fb].size + 8 * (k - fb - 1)) as i32, size: ADDR_SIZE })
    &&& exists|f: Map<StackSlot, StackSlot>| #[trigger] placed(old.stack_addr@, old.blocks@,
        new.stack_addr@, new.blocks@, f)
}

/// Where `x` is among the keys of `g`, or the length of `g` when it is not.
fn find_key(g: &Vec<(StackSlot, Vec<StackSlot>)>, x: &StackSlot) -> (r: usize)
    ensures
        r <= g@.len(),
        r < g@.len() ==> g@[r as int].0 == *x,
        r == g@.len() ==> forall|q: int| 0 <= q < g@.len() ==> (#[trigger] g@[q]).0 != *x,
{
    let mut i: usize = 0;
    while i < g.len()
        invariant
            i <= g@.len(),
            forall|q: int| 0 <= q < i ==> (#[trigger] g@[q]).0 != *x,
        decreases g@.len() - i,
    {
        if g[i].0 == *x {
            return i;
        }
        i += 1;
    }
    i
}

impl Func {
    /// Packs the words of the frame past its base (the last slot at offset
    /// 0) that stack loads or stores reach: most used first, each takes the
    /// first new place that no word live together with it holds yet, or a
    /// new place after the last one; every access is then sent to its
    /// word's place.
    #[verifier::rlimit(80)]
    pub fn rearrange_stack_slot(&mut self)
        requires
            rearrange_ready(old(self)),
        ensures
            stack_rearranged(*final(self), *old(self)),
    {
        let ghost stack0 = self.stack_addr@;
        let ghost blocks = self.blocks@;
        let ghost fb = frame_base(stack0);
        proof {
            lemma_frame_base(stack0);
        }
        let mut popped: Vec<StackSlot> = Vec::new();
        while self.stack_addr[self.stack_addr.len() - 1].pos != 0
            invariant
                stack0 == old(self).stack_addr@,
                blocks == old(self).blocks@,
                fb == frame_base(stack0),
                0 <= fb < stack0.len(),
                stack0[fb].pos == 0,
                forall|k: int| fb < k < stack0.len() ==> (#[trigger] stack0[k]).pos != 0,
                fb < self.stack_addr@.len() <= stack0.len(),
                self.stack_addr@ == stack0.subrange(0, self.stack_addr@.len() as int),
                same_but_code_frame(self, old(self)),
                self.blocks@ == blocks,
                is_slot_set(popped@),
                popped@.len() <= stack0.len() - self.stack_addr@.len(),
                forall|x: StackSlot| #[trigger] popped@.contains(x) <==>
                    exists|k: int| self.stack_addr@.len() <= k < stack0.len() && stack0[k] == x,
            decreases self.stack_addr@.len(),
        {
            let ghost l0 = self.stack_addr@.len() as int;
            assert(self.stack_addr@[l0 - 1] == stack0[l0 - 1]);
            assert(l0 - 1 != fb);
            let last = self.stack_addr.pop();
            if let Some(x) = last {
                slot_insert(&mut popped, x);
                proof {
                    assert forall|y: StackSlot| #[trigger] popped@.contains(y) <==>
                        exists|k: int| self.stack_addr@.len() <= k < stack0.len() && stack0[k] == y by {
                        if y == x {
                            assert(stack0[l0 - 1] == y);
                        }
                        if exists|k: int| self.stack_addr@.len() <= k < stack0.len() && stack0[k] == y {
                            let k = choose|k: int| self.stack_addr@.len() <= k < stack0.len() && stack0[k] == y;
                            if k == l0 - 1 {
                                assert(y == x);
                            }
                        }
                    }
                    assert(self.stack_addr@ =~= stack0.subrange(0, self.stack_addr@.len() as int));
                }
            }
        }
        proof {
            let l = self.stack_addr@.len() as int;
            assert(self.stack_addr@[l - 1] == stack0[l - 1]);
            assert(l - 1 == fb);
            assert forall|x: StackSlot| #[trigger] popped@.contains(x) <==> rearrangable(stack0, x) by {
            }
        }
        let moved = keep_accessed(self, &popped);
        let (_, _, _, live_outs) = Func::calc_stackslot_interval(self);
        let g = Func::calc_stackslot_interef_with_rearrangable_set(self, &moved, &live_outs);
        let ordered = order_by_uses(self, &moved);
        let ghost rs = moved_words(stack0, blocks);
        let ghost outs = exact_outs(blocks);
        proof {
            assert(member(moved@) =~= rs);
            assert(member_of(live_outs@) =~= outs) by {
                assert forall|k: int, x: StackSlot| #[trigger] member_of(live_outs@)(k, x) == outs(k, x) by {
                    if 0 <= k < blocks.len() {
                        assert(live_outs@[k]@.contains(x) == slot_live_out_of(blocks, exposed_in(blocks), killed_in(blocks), k, x));
                    }
                }
            }
            assert(interference_graph(g@, blocks, outs, rs));
        }
        let ghost s0 = stack0[fb].size as int;
        let mut allocated: Vec<StackSlot> = Vec::new();
        let mut vs: Vec<StackSlot> = Vec::new();
        let mut ps: Vec<StackSlot> = Vec::new();
        let mut t: usize = 0;
        while t < ordered.len()
            invariant
                stack0 == old(self).stack_addr@,
                blocks == old(self).blocks@,
                self.blocks@ == blocks,
                same_but_code_frame(self, old(self)),
                rearrange_ready(old(self)),
                fb == frame_base(stack0),
                0 <= fb < stack0.len(),
                stack0[fb].pos == 0,
                s0 == stack0[fb].size,
                s0 + 8 * stack0.len() <= i32::MAX,
                rs == moved_words(stack0, blocks),
                outs == exact_outs(blocks),
                interference_graph(g@, blocks, outs, rs),
                is_slot_set(ordered@),
                ordered@.len() <= stack0.len() - fb - 1,
                forall|x: StackSlot| #[trigger] ordered@.contains(x) <==> rs(x),
                t <= ordered@.len(),
                vs@ == ordered@.subrange(0, t as int),
                ps@.len() == t,
                allocated@.len() <= t,
                self.stack_addr@ == stack0.subrange(0, fb + 1) + allocated@,
                forall|a: int| 0 <= a < allocated@.len() ==> #[trigger] allocated@[a]
                    == (StackSlot { pos: (s0 + 8 * a) as i32, size: ADDR_SIZE }),
                forall|q: int| 0 <= q < t ==> allocated@.contains(#[trigger] ps@[q]),
                t > 0 ==> allocated@.len() > 0 && ps@[0] == allocated@[0],
                forall|a: int| #![trigger allocated@[a]] 0 <= a < allocated@.len() ==> exists|q: int| 0 <= q < t && #[trigger] ps@[q] == allocated@[a],
                forall|q1: int, q2: int| 0 <= q1 < t && 0 <= q2 < t
                    && slots_interfere(blocks, outs, rs, #[trigger] vs@[q1], #[trigger] vs@[q2]) ==> ps@[q1] != ps@[q2],
            decreases ordered@.len() - t,
        {
            let sst = ordered[t];
            proof {
                assert(ordered@.contains(sst));
                assert(rs(sst));
                assert(accessed(blocks, sst));
                assert(loaded(blocks, sst));
                let (b, i) = choose|b: int, i: int| 0 <= b < blocks.len() && 0 <= i < blocks[b].insts@.len()
                    && loads_slot(#[trigger] blocks[b].insts@[i], sst);
                assert(tracked_at(blocks, outs, rs, b, i, sst));
                assert(slot_in_graph(blocks, outs, rs, sst));
            }
            let k = find_key(&g, &sst);
            assert(k < g@.len());
            let nbrs = &g[k].1;
            let mut unavailable: Vec<StackSlot> = Vec::new();
            let mut j: usize = 0;
            while j < nbrs.len()
                invariant
                    j <= nbrs@.len(),
                    is_slot_set(ordered@),
                    t < ordered@.len(),
                    vs@ == ordered@.subrange(0, t as int),
                    vs@.len() == t,
                    ps@.len() == t,
                    is_slot_set(unavailable@),
                    forall|q: int| 0 <= q < t && nbrs@.subrange(0, j as int).contains(#[trigger] vs@[q]) ==> unavailable@.contains(ps@[q]),
                decreases nbrs@.len() - j,
            {
                let y = nbrs[j];
                let q = find_node(&vs, &y);
                if q < vs.len() {
                    slot_insert(&mut unavailable, ps[q]);
                }
                proof {
                    assert forall|q2: int| 0 <= q2 < t && nbrs@.subrange(0, j + 1).contains(#[trigger] vs@[q2]) implies unavailable@.contains(ps@[q2]) by {
                        let w = choose|w: int| 0 <= w < j + 1 && #[trigger] nbrs@.subrange(0, j + 1)[w] == vs@[q2];
                        if w < j {
                            assert(nbrs@.subrange(0, j as int)[w] == vs@[q2]);
                        } else {
                            assert(vs@[q2] == y);
                            assert(vs@.contains(y));
                            assert(q < vs@.len());
                            assert(vs@[q as int] == y);
                            assert(q == q2) by {
                                assert(ordered@.no_duplicates());
                                assert(vs@[q as int] == ordered@[q as int]);
                                assert(vs@[q2] == ordered@[q2]);
                            }
                        }
                    }
                }
                j += 1;
            }
            proof {
                assert(nbrs@.subrange(0, nbrs@.len() as int) =~= nbrs@);
            }
            let mut pick: usize = allocated.len();
            let mut a: usize = 0;
            while a < allocated.len()
                invariant
                    a <= allocated@.len(),
                    pick == allocated@.len() || (pick < a && !unavailable@.contains(allocated@[pick as int])),
                decreases allocated@.len() - a,
            {
                if pick == allocated.len() && !slot_contains(&unavailable, &allocated[a]) {
                    pick = a;
                }
                a += 1;
            }
            let ghost alloc0 = allocated@;
            let ghost ps0 = ps@;
            let ghost vs0 = vs@;
            let place = if pick < allocated.len() {
                allocated[pick]
            } else {
                let back = self.stack_addr[self.stack_addr.len() - 1];
                proof {
                    if alloc0.len() == 0 {
                        assert(self.stack_addr@ =~= stack0.subrange(0, fb + 1));
                        assert(back == stack0[fb]);
                    } else {
                        assert(back == alloc0[alloc0.len() - 1]);
                    }
                    assert(s0 + 8 * alloc0.len() <= i32::MAX);
                    assert(back.pos as int + back.size as int == s0 + 8 * alloc0.len());
                }
                let p = StackSlot::new(back.pos + back.size, ADDR_SIZE);
                self.stack_addr.push(p);
                allocated.push(p);
                proof {
                    assert(self.stack_addr@ =~= stack0.subrange(0, fb + 1) + allocated@);
                }
                p
            };
            vs.push(sst);
            ps.push(place);
            proof {
                assert(vs@ =~= ordered@.subrange(0, t + 1));
                assert(allocated@.contains(place)) by {
                    if pick < alloc0.len() {
                        assert(allocated@[pick as int] == place);
                    } else {
                        assert(allocated@[alloc0.len() as int] == place);
                    }
                }
                assert forall|q: int| 0 <= q < t + 1 implies allocated@.contains(#[trigger] ps@[q]) by {
                    if q < t {
                        assert(ps@[q] == ps0[q]);
                        let w = choose|w: int| 0 <= w < alloc0.len() && alloc0[w] == ps0[q];
                        assert(allocated@[w] == ps0[q]);
                    }
                }
                assert forall|a2: int| #![trigger allocated@[a2]] 0 <= a2 < allocated@.len() implies exists|q: int| 0 <= q < t + 1 && #[trigger] ps@[q] == allocated@[a2] by {
                    if a2 < alloc0.len() {
                        let q = choose|q: int| 0 <= q < t && #[trigger] ps0[q] == alloc0[a2];
                        assert(ps@[q] == allocated@[a2]);
                    } else {
                        assert(ps@[t as int] == allocated@[a2]);
                    }
                }
                assert forall|q: int| 0 <= q < t && #[trigger] slots_interfere(blocks, outs, rs, sst, vs0[q]) implies place != ps0[q] by {
                    assert(g@[k as int].0 == sst);
                    assert(nbrs@.contains(vs0[q]));
                    assert(unavailable@.contains(ps0[q]));
                    if pick < alloc0.len() {
                        assert(place == alloc0[pick as int]);
                    } else {
                        let w = choose|w: int| 0 <= w < alloc0.len() && alloc0[w] == ps0[q];
                        assert(alloc0[w].pos == s0 + 8 * w);
                        assert(place.pos == s0 + 8 * alloc0.len());
                    }
                }
                assert forall|q1: int, q2: int| 0 <= q1 < t + 1 && 0 <= q2 < t + 1
                    && slots_interfere(blocks, outs, rs, #[trigger] vs@[q1], #[trigger] vs@[q2]) implies ps@[q1] != ps@[q2] by {
                    if q1 < t && q2 < t {
                        assert(vs@[q1] == vs0[q1] && vs@[q2] == vs0[q2]);
                    } else if q1 == t && q2 < t {
                        assert(vs@[q2] == vs0[q2]);
                        assert(slots_interfere(blocks, outs, rs, sst, vs0[q2]));
                    } else if q2 == t && q1 < t {
                        assert(vs@[q1] == vs0[q1]);
                        lemma_interfere_symmetric(blocks, outs, rs, vs0[q1], sst);
                        assert(slots_interfere(blocks, outs, rs, sst, vs0[q1]));
                    }
                }
            }
            t += 1;
        }
        let ghost f = place_map(vs@, ps@);
        proof {
            assert(ordered@.subrange(0, ordered@.len() as int) =~= ordered@);
            assert forall|q: int| 0 <= q < vs@.len() implies #[trigger] f[vs@[q]] == ps@[q] by {
                let q2 = choose|q2: int| 0 <= q2 < vs@.len() && vs@[q2] == vs@[q];
                assert(q2 == q);
            }
        }
        let ghost stack1 = self.stack_addr@;
        let nb = self.blocks.len();
        let mut b: usize = 0;
        while b < nb
            invariant
                blocks == old(self).blocks@,
                nb == blocks.len(),
                self.blocks@.len() == nb,
                self.stack_addr@ == stack1,
                same_but_code_frame(self, old(self)),
                slots_ready(blocks),
                vs@.len() == ps@.len(),
                forall|s2: StackSlot| #[trigger] f.dom().contains(s2) <==> vs@.contains(s2),
                forall|q: int| 0 <= q < vs@.len() ==> #[trigger] f[vs@[q]] == ps@[q],
                b <= nb,
                forall|c: int| b <= c < nb ==> #[trigger] self.blocks@[c] == blocks[c],
                forall|c: int| 0 <= c < b ==> (#[trigger] self.blocks@[c]).same_but_insts(&blocks[c])
                    && self.blocks@[c].insts@.len() == blocks[c].insts@.len(),
                forall|c: int, i: int| 0 <= c < b && 0 <= i < self.blocks@[c].insts@.len()
                    ==> relocated(#[trigger] self.blocks@[c].insts@[i], blocks[c].insts@[i], f),
            decreases nb - b,
        {
            let ghost before = self.blocks@;
            let mut i: usize = 0;
            while i < self.blocks[b].insts.len()
                invariant
                    blocks == old(self).blocks@,
                    nb == blocks.len(),
                    b < nb,
                    self.blocks@.len() == nb,
                    self.stack_addr@ == stack1,
                    same_but_code_frame(self, old(self)),
                    slots_ready(blocks),
                    vs@.len() == ps@.len(),
                    forall|s2: StackSlot| #[trigger] f.dom().contains(s2) <==> vs@.contains(s2),
                    forall|q: int| 0 <= q < vs@.len() ==> #[trigger] f[vs@[q]] == ps@[q],
                    forall|c: int| 0 <= c < nb && c != b ==> #[trigger] self.blocks@[c] == before[c],
                    self.blocks@[b as int].same_but_insts(&blocks[b as int]),
                    self.blocks@[b as int].insts@.len() == blocks[b as int].insts@.len(),
                    i <= blocks[b as int].insts@.len(),
                    forall|j: int| i <= j < blocks[b as int].insts@.len() ==> #[trigger] self.blocks@[b as int].insts@[j] == blocks[b as int].insts@[j],
                    forall|j: int| 0 <= j < i ==> relocated(#[trigger] self.blocks@[b as int].insts@[j], blocks[b as int].insts@[j], f),
                decreases blocks[b as int].insts@.len() - i,
            {
                assert(self.blocks@[b as int].insts@[i as int] == blocks[b as int].insts@[i as int]);
                assert(slot_ready(blocks[b as int].insts@[i as int]));
                let ghost old_inst = blocks[b as int].insts@[i as int];
                let ty = self.blocks[b].insts[i].inst_type;
                if ty == InstrsType::LoadFromStack || ty == InstrsType::StoreToStack {
                    let sl = self.blocks[b].insts[i].get_stackslot_with_addr_size();
                    let q = find_node(&vs, &sl);
                    if q < vs.len() {
                        let np = ps[q].pos;
                        self.blocks[b].insts[i].set_stack_offset(IImm::new(np));
                    } else {
                        proof {
                            assert(!f.dom().contains(inst_slot(old_inst)));
                        }
                    }
                }
                proof {
                    assert(relocated(self.blocks@[b as int].insts@[i as int], old_inst, f));
                }
                i += 1;
            }
            b += 1;
        }
        proof {
            assert forall|c: int, i: int| 0 <= c < self.blocks@.len() && 0 <= i < self.blocks@[c].insts@.len()
                implies #[trigger] self.blocks@[c].insts@[i].def_well_formed() by {
                assert(blocks[c].insts@[i].def_well_formed());
                assert(slot_ready(blocks[c].insts@[i]));
            }
            assert forall|c: int, i: int| 0 <= c < self.blocks@.len() && 0 <= i < self.blocks@[c].insts@.len()
                implies slot_ready(#[trigger] self.blocks@[c].insts@[i]) by {
                assert(slot_ready(blocks[c].insts@[i]));
            }
            assert forall|c: int, j: int| 0 <= c < self.blocks@.len() && 0 <= j < self.blocks@[c].in_edge@.len()
                implies #[trigger] self.blocks@[c].in_edge@[j] < self.blocks@.len() by {
                assert(blocks[c].in_edge@[j] < blocks.len());
            }
            assert forall|c: int, j: int| 0 <= c < self.blocks@.len() && 0 <= j < self.blocks@[c].out_edge@.len()
                implies #[trigger] self.blocks@[c].out_edge@[j] < self.blocks@.len() by {
                assert(blocks[c].out_edge@[j] < blocks.len());
            }
            let fin = self.stack_addr@;
            assert(fin.subrange(0, fb + 1) =~= stack0.subrange(0, fb + 1));
            assert forall|k2: int| fb < k2 < fin.len() implies #[trigger] fin[k2]
                == (StackSlot { pos: (s0 + 8 * (k2 - fb - 1)) as i32, size: ADDR_SIZE }) by {
                assert(fin[k2] == allocated@[k2 - fb - 1]);
            }
            assert(fin.subrange(fb + 1, fin.len() as int) =~= allocated@);
            assert forall|s2: StackSlot| #[trigger] f.dom().contains(s2) <==> moved_words(stack0, blocks)(s2) by {
                assert(vs@ == ordered@);
            }
            assert forall|s2: StackSlot| #[trigger] f.dom().contains(s2) implies fin.subrange(fb + 1, fin.len() as int).contains(f[s2]) by {
                let q = choose|q: int| 0 <= q < vs@.len() && vs@[q] == s2;
                assert(f[vs@[q]] == ps@[q]);
            }
            assert forall|k2: int| fb < k2 < fin.len() implies #[trigger] has_source(f, fin[k2]) by {
                let q = choose|q: int| 0 <= q < vs@.len() && #[trigger] ps@[q] == allocated@[k2 - fb - 1];
                assert(f[vs@[q]] == ps@[q]);
                assert(f.dom().contains(vs@[q]));
            }
            assert forall|s2: StackSlot, t2: StackSlot| #[trigger] f.dom().contains(s2) && #[trigger] f.dom().contains(t2)
                && slots_interfere(blocks, exact_outs(blocks), moved_words(stack0, blocks), s2, t2) implies f[s2] != f[t2] by {
                let q1 = choose|q: int| 0 <= q < vs@.len() && vs@[q] == s2;
                let q2 = choose|q: int| 0 <= q < vs@.len() && vs@[q] == t2;
                assert(f[vs@[q1]] == ps@[q1]);
                assert(f[vs@[q2]] == ps@[q2]);
            }
            assert forall|c: int, i: int| 0 <= c < self.blocks@.len() && 0 <= i < self.blocks@[c].insts@.len() && i < blocks[c].insts@.len()
                implies relocated(#[trigger] self.blocks@[c].insts@[i], blocks[c].insts@[i], f) by {
            }
            assert forall|s2: StackSlot| #[trigger] f.dom().contains(s2) implies exists|w: StackSlot| #[trigger] f.dom().contains(w)
                && f[w] == fin[fb + 1] && use_count(blocks, s2) <= use_count(blocks, w) by {
                let q = choose|q: int| 0 <= q < vs@.len() && vs@[q] == s2;
                let w = vs@[0];
                assert(f[vs@[0]] == ps@[0]);
                assert(f[vs@[q]] == ps@[q]);
                assert(fin[fb + 1] == allocated@[0]);
                assert(vs@ == ordered@);
                if q > 0 {
                    assert(use_count(blocks, ordered@[0]) >= use_count(blocks, ordered@[q]));
                }
                assert(vs@.contains(w));
                assert(f.dom().contains(w));
                assert(f[w] == fin[fb + 1]);
                assert(use_count(blocks, s2) <= use_count(blocks, w));
            }
            assert(placed(stack0, blocks, fin, self.blocks@, f));
        }
    }
}

impl AsmModule {
    /// Packs the frame of every function (see `Func::rearrange_stack_slot`).
    pub fn rearrange_stack_slot(&mut self)
        requires
            labels_distinct(old(self).name_func@),
            forall|i: int| 0 <= i < old(self).name_func@.len() ==> rearrange_ready(#[trigger] &old(self).name_func@[i]),
        ensures
            labels_distinct(final(self).name_func@),
            final(self).name_func@.len() == old(self).name_func@.len(),
            final(self).call_map@ == old(self).call_map@,
            final(self).callee_regs_to_saveds@ == old(self).callee_regs_to_saveds@,
            final(self).caller_regs_to_saveds@ == old(self).caller_regs_to_saveds@,
            forall|i: int| 0 <= i < final(self).name_func@.len() ==>
                stack_rearranged(#[trigger] final(self).name_func@[i], old(self).name_func@[i]),
    {
        let n = self.name_func.len();
        let mut i: usize = 0;
        while i < n
            invariant
                n == self.name_func@.len(),
                i <= n,
                labels_distinct(self.name_func@),
                self.call_map@ == old(self).call_map@,
                self.callee_regs_to_saveds@ == old(self).callee_regs_to_saveds@,
                self.caller_regs_to_saveds@ == old(self).caller_regs_to_saveds@,
                forall|k: int| 0 <= k < n ==> (#[trigger] self.name_func@[k]).label == old(self).name_func@[k].label,
                forall|k: int| i <= k < n ==> #[trigger] self.name_func@[k] == old(self).name_func@[k],
                forall|k: int| 0 <= k < n ==> rearrange_ready(#[trigger] &old(self).name_func@[k]),
                forall|k: int| 0 <= k < i ==> stack_rearranged(#[trigger] self.name_func@[k], old(self).name_func@[k]),
            decreases n - i,
        {
            assert(self.name_func@[i as int] == old(self).name_func@[i as int]);
            let ghost before = self.name_func@;
            self.name_func[i].rearrange_stack_slot();
            proof {
                assert forall|a: int, b: int| 0 <= a < n && 0 <= b < n && a != b
                    implies self.name_func@[a].label@ != self.name_func@[b].label@ by {
                    assert(self.name_func@[a].label == before[a].label);
                    assert(self.name_func@[b].label == before[b].label);
                }
            }
            i += 1;
        }
    }
}

} // verus!
