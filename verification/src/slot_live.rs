use vstd::prelude::*;
use crate::block::{BB, ADDR_SIZE};
use crate::func::Func;
use crate::instrs::{InstrsType, LIRInst, Operand};
use crate::liveness::{edge, lemma_queue_bound};
use crate::slotset::{is_slot_set, slot_insert, slot_remove, slot_contains, copy_slots};
use crate::structs::StackSlot;

verus! {

/// The word of the frame that a stack load or store reaches: the one at
/// its offset (operand 1).
pub open spec fn inst_slot(inst: LIRInst) -> StackSlot {
    StackSlot { pos: inst.operands@[1]->IImm_0.data, size: ADDR_SIZE }
}

/// A stack load or store holds its offset as an immediate operand 1.
pub open spec fn slot_ready(inst: LIRInst) -> bool {
    (inst.inst_type == InstrsType::LoadFromStack || inst.inst_type == InstrsType::StoreToStack)
        ==> inst.operands@.len() > 1 && inst.operands@[1] is IImm
}

/// Every stack load or store of `blocks` holds its offset as an immediate.
pub open spec fn slots_ready(blocks: Seq<BB>) -> bool {
    forall|b: int, i: int| 0 <= b < blocks.len() && 0 <= i < blocks[b].insts@.len()
        ==> slot_ready(#[trigger] blocks[b].insts@[i])
}

/// `inst` loads the word `s` of the frame.
pub open spec fn loads_slot(inst: LIRInst, s: StackSlot) -> bool {
    inst.inst_type == InstrsType::LoadFromStack && inst_slot(inst) == s
}

/// `inst` stores to the word `s` of the frame.
pub open spec fn stores_slot(inst: LIRInst, s: StackSlot) -> bool {
    inst.inst_type == InstrsType::StoreToStack && inst_slot(inst) == s
}

/// Whether what `s` holds just before instruction `i` of `insts` may still
/// be read: some load of `s` in `insts[i..]` comes before any store to it,
/// or none of `insts[i..]` touches `s` and `out` (what is live on exit)
/// holds it.
pub open spec fn slot_live_at(insts: Seq<LIRInst>, out: spec_fn(StackSlot) -> bool, i: int, s: StackSlot) -> bool
    decreases insts.len() - i,
{
    if i >= insts.len() {
        out(s)
    } else if loads_slot(insts[i], s) {
        true
    } else if stores_slot(insts[i], s) {
        false
    } else {
        slot_live_at(insts, out, i + 1, s)
    }
}

/// Membership in `v`.
pub open spec fn member(v: Seq<StackSlot>) -> spec_fn(StackSlot) -> bool {
    |x: StackSlot| v.contains(x)
}

/// The empty set of words.
pub open spec fn no_slot() -> spec_fn(StackSlot) -> bool {
    |x: StackSlot| false
}

/// The words of the frame live on exit from block `b`.
pub open spec fn block_live_out(blocks: Seq<BB>, b: int) -> spec_fn(StackSlot) -> bool {
    |x: StackSlot| slot_live_out_of(blocks, exposed_in(blocks), killed_in(blocks), b, x)
}

/// Whether `insts[i..]` stores to `s` before it loads it.
pub open spec fn slot_killed_at(insts: Seq<LIRInst>, i: int, s: StackSlot) -> bool
    decreases insts.len() - i,
{
    if i >= insts.len() {
        false
    } else if loads_slot(insts[i], s) {
        false
    } else if stores_slot(insts[i], s) {
        true
    } else {
        slot_killed_at(insts, i + 1, s)
    }
}

/// The block reads `s` before it writes it.
pub open spec fn slot_exposed(insts: Seq<LIRInst>, s: StackSlot) -> bool {
    slot_live_at(insts, no_slot(), 0, s)
}

/// The block writes `s` before it reads it.
pub open spec fn slot_killed(insts: Seq<LIRInst>, s: StackSlot) -> bool {
    slot_killed_at(insts, 0, s)
}

/// `path` follows edges from its first block to one whose `uses` hold
/// `s`, and the `defs` of none of the blocks before the last hold `s`.
pub open spec fn slot_path(blocks: Seq<BB>, uses: spec_fn(int, StackSlot) -> bool, defs: spec_fn(int, StackSlot) -> bool,
    s: StackSlot, path: Seq<int>) -> bool
    decreases path.len(),
{
    if path.len() == 0 {
        false
    } else if path.len() == 1 {
        0 <= path[0] < blocks.len() && uses(path[0], s)
    } else {
        &&& edge(blocks, path[0], path[1])
        &&& !defs(path[0], s)
        &&& slot_path(blocks, uses, defs, s, path.drop_first())
    }
}

/// The word `s` may be read after entry to block `b`.
pub open spec fn slot_live_into(blocks: Seq<BB>, uses: spec_fn(int, StackSlot) -> bool, defs: spec_fn(int, StackSlot) -> bool,
    b: int, s: StackSlot) -> bool {
    exists|path: Seq<int>| #[trigger] slot_path(blocks, uses, defs, s, path) && path[0] == b
}

/// The word `s` may be read after exit from block `b`.
pub open spec fn slot_live_out_of(blocks: Seq<BB>, uses: spec_fn(int, StackSlot) -> bool, defs: spec_fn(int, StackSlot) -> bool,
    b: int, s: StackSlot) -> bool {
    exists|t: int| #[trigger] edge(blocks, b, t) && slot_live_into(blocks, uses, defs, t, s)
}

/// Membership in the `k`th set of `v`.
pub open spec fn member_of(v: Seq<Vec<StackSlot>>) -> spec_fn(int, StackSlot) -> bool {
    |k: int, x: StackSlot| 0 <= k < v.len() && v[k]@.contains(x)
}

/// What block `k` reads before writing it.
pub open spec fn exposed_in(blocks: Seq<BB>) -> spec_fn(int, StackSlot) -> bool {
    |k: int, x: StackSlot| 0 <= k < blocks.len() && slot_exposed(blocks[k].insts@, x)
}

/// What block `k` writes before reading it.
pub open spec fn killed_in(blocks: Seq<BB>) -> spec_fn(int, StackSlot) -> bool {
    |k: int, x: StackSlot| 0 <= k < blocks.len() && slot_killed(blocks[k].insts@, x)
}

/// Every predecessor edge names a block.
pub open spec fn in_edges_ok(blocks: Seq<BB>) -> bool {
    forall|b: int, k: int| 0 <= b < blocks.len() && 0 <= k < blocks[b].in_edge@.len()
        ==> #[trigger] blocks[b].in_edge@[k] < blocks.len()
}

impl LIRInst {
    /// The word of the frame that a stack load or store reaches.
    pub fn get_stackslot_with_addr_size(&self) -> (r: StackSlot)
        requires
            self.operands@.len() > 1,
            self.operands@[1] is IImm,
        ensures
            r == inst_slot(*self),
    {
        StackSlot::new(self.get_stack_offset().get_data(), ADDR_SIZE)
    }
}

/// The words of the frame that `insts` reads before writing them, and
/// those it writes before reading them.
fn local_slot_use_def(insts: &Vec<LIRInst>) -> (r: (Vec<StackSlot>, Vec<StackSlot>))
    requires
        forall|i: int| 0 <= i < insts@.len() ==> slot_ready(#[trigger] insts@[i]),
    ensures
        is_slot_set(r.0@),
        is_slot_set(r.1@),
        forall|x: StackSlot| #[trigger] r.0@.contains(x) <==> slot_exposed(insts@, x),
        forall|x: StackSlot| #[trigger] r.1@.contains(x) <==> slot_killed(insts@, x),
{
    let mut live_use: Vec<StackSlot> = Vec::new();
    let mut live_def: Vec<StackSlot> = Vec::new();
    let mut idx: usize = insts.len();
    while idx > 0
        invariant
            idx <= insts@.len(),
            forall|i: int| 0 <= i < insts@.len() ==> slot_ready(#[trigger] insts@[i]),
            is_slot_set(live_use@),
            is_slot_set(live_def@),
            forall|x: StackSlot| #[trigger] live_use@.contains(x) <==> slot_live_at(insts@, no_slot(), idx as int, x),
            forall|x: StackSlot| #[trigger] live_def@.contains(x) <==> slot_killed_at(insts@, idx as int, x),
        decreases idx,
    {
        let i = idx - 1;
        assert(slot_ready(insts@[i as int]));
        let t = insts[i].inst_type;
        if t == InstrsType::LoadFromStack {
            let s = insts[i].get_stackslot_with_addr_size();
            slot_remove(&mut live_def, s);
            slot_insert(&mut live_use, s);
        } else if t == InstrsType::StoreToStack {
            let s = insts[i].get_stackslot_with_addr_size();
            slot_remove(&mut live_use, s);
            slot_insert(&mut live_def, s);
        }
        proof {
            assert forall|x: StackSlot| #[trigger] live_use@.contains(x) <==> slot_live_at(insts@, no_slot(), i as int, x) by {
                assert(slot_live_at(insts@, no_slot(), i as int, x) == if loads_slot(insts@[i as int], x) {
                    true
                } else if stores_slot(insts@[i as int], x) {
                    false
                } else {
                    slot_live_at(insts@, no_slot(), i + 1, x)
                });
            }
            assert forall|x: StackSlot| #[trigger] live_def@.contains(x) <==> slot_killed_at(insts@, i as int, x) by {
                assert(slot_killed_at(insts@, i as int, x) == if loads_slot(insts@[i as int], x) {
                    false
                } else if stores_slot(insts@[i as int], x) {
                    true
                } else {
                    slot_killed_at(insts@, i + 1, x)
                });
            }
        }
        idx = i;
    }
    (live_use, live_def)
}

impl Func {
    /// For every block, the words of the frame that it reads before
    /// writing them (first) and writes before reading them (second).
    pub fn build_live_use_def_for_stackslots(func: &Func) -> (r: (Vec<Vec<StackSlot>>, Vec<Vec<StackSlot>>))
        requires
            slots_ready(func.blocks@),
        ensures
            r.0@.len() == func.blocks@.len(),
            r.1@.len() == func.blocks@.len(),
            forall|b: int| 0 <= b < func.blocks@.len() ==> is_slot_set(#[trigger] r.0@[b]@),
            forall|b: int| 0 <= b < func.blocks@.len() ==> is_slot_set(#[trigger] r.1@[b]@),
            forall|b: int, x: StackSlot| 0 <= b < func.blocks@.len() ==>
                (#[trigger] r.0@[b]@.contains(x) <==> slot_exposed(func.blocks@[b].insts@, x)),
            forall|b: int, x: StackSlot| 0 <= b < func.blocks@.len() ==>
                (#[trigger] r.1@[b]@.contains(x) <==> slot_killed(func.blocks@[b].insts@, x)),
    {
        let mut uses: Vec<Vec<StackSlot>> = Vec::new();
        let mut defs: Vec<Vec<StackSlot>> = Vec::new();
        let mut b: usize = 0;
        while b < func.blocks.len()
            invariant
                slots_ready(func.blocks@),
                b <= func.blocks@.len(),
                uses@.len() == b,
                defs@.len() == b,
                forall|k: int| 0 <= k < b ==> is_slot_set(#[trigger] uses@[k]@),
                forall|k: int| 0 <= k < b ==> is_slot_set(#[trigger] defs@[k]@),
                forall|k: int, x: StackSlot| 0 <= k < b ==>
                    (#[trigger] uses@[k]@.contains(x) <==> slot_exposed(func.blocks@[k].insts@, x)),
                forall|k: int, x: StackSlot| 0 <= k < b ==>
                    (#[trigger] defs@[k]@.contains(x) <==> slot_killed(func.blocks@[k].insts@, x)),
            decreases func.blocks@.len() - b,
        {
            proof {
                assert forall|i: int| 0 <= i < func.blocks@[b as int].insts@.len() implies slot_ready(#[trigger] func.blocks@[b as int].insts@[i]) by {
                    assert(slot_ready(func.blocks@[b as int].insts@[i]));
                }
            }
            let (u, d) = local_slot_use_def(&func.blocks[b].insts);
            uses.push(u);
            defs.push(d);
            b += 1;
        }
        (uses, defs)
    }
}

proof fn lemma_prepend_slot_path(blocks: Seq<BB>, uses: spec_fn(int, StackSlot) -> bool, defs: spec_fn(int, StackSlot) -> bool,
    x: StackSlot, p: int, path: Seq<int>)
    requires
        slot_path(blocks, uses, defs, x, path),
        edge(blocks, p, path[0]),
        !defs(p, x),
    ensures
        slot_path(blocks, uses, defs, x, seq![p] + path),
        (seq![p] + path)[0] == p,
{
    let np = seq![p] + path;
    assert(np.drop_first() =~= path);
    assert(np[1] == path[0]);
}

/// Once every edge carries what its target needs, everything with a path
/// is in the computed sets.
proof fn lemma_slot_complete(blocks: Seq<BB>, uses: spec_fn(int, StackSlot) -> bool, defs: spec_fn(int, StackSlot) -> bool,
    ins: Seq<Vec<StackSlot>>, outs: Seq<Vec<StackSlot>>, x: StackSlot, path: Seq<int>)
    requires
        ins.len() == blocks.len(),
        outs.len() == blocks.len(),
        slot_path(blocks, uses, defs, x, path),
        forall|k: int, y: StackSlot| 0 <= k < blocks.len() && uses(k, y) ==> #[trigger] ins[k]@.contains(y),
        forall|k: int, y: StackSlot| 0 <= k < blocks.len() && outs[k]@.contains(y) && !defs(k, y) ==> #[trigger] ins[k]@.contains(y),
        forall|p: int, t: int, y: StackSlot| #![trigger edge(blocks, p, t), ins[t]@.contains(y)]
            edge(blocks, p, t) && ins[t]@.contains(y) ==> outs[p]@.contains(y),
    ensures
        ins[path[0]]@.contains(x),
    decreases path.len(),
{
    if path.len() == 1 {
    } else {
        let rest = path.drop_first();
        lemma_slot_complete(blocks, uses, defs, ins, outs, x, rest);
        assert(rest[0] == path[1]);
        assert(edge(blocks, path[0], path[1]));
        assert(outs[path[0]]@.contains(x));
    }
}

impl Func {
    /// From what each block reads before writing (`live_uses`) and writes
    /// before reading (`live_defs`), the words of the frame live on entry to
    /// each block (first) and on exit from it (second), by a work list over
    /// the predecessor edges.
    #[verifier::rlimit(50)]
    pub fn build_live_in_live_out_for_stackslots_from_live_use_and_live_def(
        func: &Func,
        live_uses: &Vec<Vec<StackSlot>>,
        live_defs: &Vec<Vec<StackSlot>>,
    ) -> (r: (Vec<Vec<StackSlot>>, Vec<Vec<StackSlot>>))
        requires
            in_edges_ok(func.blocks@),
            live_uses@.len() == func.blocks@.len(),
            live_defs@.len() == func.blocks@.len(),
            forall|k: int| 0 <= k < live_uses@.len() ==> is_slot_set(#[trigger] live_uses@[k]@),
        ensures
            r.0@.len() == func.blocks@.len(),
            r.1@.len() == func.blocks@.len(),
            forall|b: int| 0 <= b < func.blocks@.len() ==> is_slot_set(#[trigger] r.0@[b]@),
            forall|b: int| 0 <= b < func.blocks@.len() ==> is_slot_set(#[trigger] r.1@[b]@),
            forall|b: int, x: StackSlot| 0 <= b < func.blocks@.len() ==> (#[trigger] r.0@[b]@.contains(x)
                <==> slot_live_into(func.blocks@, member_of(live_uses@), member_of(live_defs@), b, x)),
            forall|b: int, x: StackSlot| 0 <= b < func.blocks@.len() ==> (#[trigger] r.1@[b]@.contains(x)
                <==> slot_live_out_of(func.blocks@, member_of(live_uses@), member_of(live_defs@), b, x)),
    {
        let n = func.blocks.len();
        let ghost blocks = func.blocks@;
        let ghost uses = member_of(live_uses@);
        let ghost defs = member_of(live_defs@);
        let mut ins: Vec<Vec<StackSlot>> = Vec::new();
        let mut outs: Vec<Vec<StackSlot>> = Vec::new();
        let mut queue: Vec<(usize, StackSlot)> = Vec::new();
        let ghost mut univ: Seq<StackSlot> = Seq::empty();
        let mut b: usize = 0;
        while b < n
            invariant
                n == blocks.len(),
                blocks == func.blocks@,
                uses == member_of(live_uses@),
                defs == member_of(live_defs@),
                live_uses@.len() == n,
                live_defs@.len() == n,
                forall|k: int| 0 <= k < n ==> is_slot_set(#[trigger] live_uses@[k]@),
                b <= n,
                ins@.len() == b,
                outs@.len() == b,
                forall|k: int| 0 <= k < b ==> is_slot_set(#[trigger] ins@[k]@),
                forall|k: int| 0 <= k < b ==> (#[trigger] outs@[k]@).len() == 0,
                forall|k: int, x: StackSlot| 0 <= k < b ==> (#[trigger] ins@[k]@.contains(x) <==> uses(k, x)),
                forall|k: int, x: StackSlot| 0 <= k < b && #[trigger] ins@[k]@.contains(x) ==> univ.contains(x),
                queue@.no_duplicates(),
                forall|j: int| 0 <= j < queue@.len() ==> (#[trigger] queue@[j]).0 < b
                    && ins@[queue@[j].0 as int]@.contains(queue@[j].1),
                forall|k: int, x: StackSlot| 0 <= k < b && #[trigger] ins@[k]@.contains(x) ==> queue@.contains((k as usize, x)),
            decreases n - b,
        {
            let u = copy_slots(&live_uses[b]);
            assert(is_slot_set(live_uses@[b as int]@));
            let ghost q0 = queue@;
            let mut j: usize = 0;
            while j < u.len()
                invariant
                    b < n,
                    j <= u@.len(),
                    is_slot_set(u@),
                    q0.no_duplicates(),
                    forall|k: int| 0 <= k < q0.len() ==> (#[trigger] q0[k]).0 < b,
                    queue@.no_duplicates(),
                    queue@.len() == q0.len() + j,
                    forall|k: int| 0 <= k < q0.len() ==> queue@[k] == q0[k],
                    forall|k: int| q0.len() <= k < queue@.len() ==> (#[trigger] queue@[k]) == (b, u@[k - q0.len()]),
                decreases u@.len() - j,
            {
                let ghost before = queue@;
                queue.push((b, u[j]));
                proof {
                    assert forall|a: int, c: int| 0 <= a < queue@.len() && 0 <= c < queue@.len() && a != c
                        implies queue@[a] != queue@[c] by {
                        if a == before.len() && c < q0.len() {
                            assert(queue@[c] == q0[c]);
                            assert(q0[c].0 < b);
                        } else if c == before.len() && a < q0.len() {
                            assert(queue@[a] == q0[a]);
                            assert(q0[a].0 < b);
                        } else if a == before.len() && c >= q0.len() {
                            assert(u@[c - q0.len()] != u@[j as int]);
                        } else if c == before.len() && a >= q0.len() {
                            assert(u@[a - q0.len()] != u@[j as int]);
                        } else {
                            assert(before[a] != before[c]);
                        }
                    }
                }
                j += 1;
            }
            let ghost univ0 = univ;
            proof {
                univ = univ + u@;
            }
            ins.push(u);
            outs.push(Vec::new());
            proof {
                assert forall|k: int, x: StackSlot| 0 <= k < b + 1 && #[trigger] ins@[k]@.contains(x) implies univ.contains(x) by {
                    if k < b {
                        let t = choose|t: int| 0 <= t < univ0.len() && univ0[t] == x;
                        assert(univ[t] == x);
                    } else {
                        let t = choose|t: int| 0 <= t < u@.len() && u@[t] == x;
                        assert(univ[univ.len() - u@.len() + t] == x);
                    }
                }
                assert forall|jj: int| 0 <= jj < queue@.len() implies (#[trigger] queue@[jj]).0 < b + 1
                    && ins@[queue@[jj].0 as int]@.contains(queue@[jj].1) by {
                    if jj >= q0.len() {
                        assert(u@[jj - q0.len()] == queue@[jj].1);
                    } else {
                        assert(queue@[jj] == q0[jj]);
                    }
                }
                assert forall|k: int, x: StackSlot| 0 <= k < b + 1 && #[trigger] ins@[k]@.contains(x) implies queue@.contains((k as usize, x)) by {
                    if k < b {
                        let t = choose|t: int| 0 <= t < q0.len() && q0[t] == (k as usize, x);
                        assert(queue@[t] == (k as usize, x));
                    } else {
                        let t = choose|t: int| 0 <= t < u@.len() && u@[t] == x;
                        assert(queue@[q0.len() + t] == (k as usize, x));
                    }
                }
            }
            b += 1;
        }
        proof {
            lemma_queue_bound(queue@, n as int, univ);
            assert forall|k: int| 0 <= k < n implies is_slot_set(#[trigger] outs@[k]@) by {
                assert(outs@[k]@.len() == 0);
            }
            assert forall|k: int, x: StackSlot| 0 <= k < n implies (#[trigger] ins@[k]@.contains(x) <==>
                (uses(k, x) || (outs@[k]@.contains(x) && !defs(k, x)))) by {
                assert(outs@[k]@.len() == 0);
            }
            assert forall|k: int, x: StackSlot| 0 <= k < n && #[trigger] ins@[k]@.contains(x)
                implies slot_live_into(blocks, uses, defs, k, x) by {
                assert(slot_path(blocks, uses, defs, x, seq![k]));
            }
            assert forall|p: int, t: int, x: StackSlot| #![trigger edge(blocks, p, t), ins@[t]@.contains(x)]
                edge(blocks, p, t) && ins@[t]@.contains(x) implies outs@[p]@.contains(x)
                    || queue@.subrange(0, queue@.len() as int).contains((t as usize, x)) by {
                assert(queue@.subrange(0, queue@.len() as int) =~= queue@);
            }
        }
        let mut head: usize = 0;
        while head < queue.len()
            invariant
                n == blocks.len(),
                blocks == func.blocks@,
                in_edges_ok(blocks),
                uses == member_of(live_uses@),
                defs == member_of(live_defs@),
                live_uses@.len() == n,
                live_defs@.len() == n,
                ins@.len() == n,
                outs@.len() == n,
                forall|k: int| 0 <= k < n ==> is_slot_set(#[trigger] ins@[k]@),
                forall|k: int| 0 <= k < n ==> is_slot_set(#[trigger] outs@[k]@),
                forall|k: int, x: StackSlot| 0 <= k < n && #[trigger] ins@[k]@.contains(x) ==> univ.contains(x),
                forall|k: int, x: StackSlot| 0 <= k < n ==> (#[trigger] ins@[k]@.contains(x) <==>
                    (uses(k, x) || (outs@[k]@.contains(x) && !defs(k, x)))),
                forall|k: int, x: StackSlot| 0 <= k < n && #[trigger] ins@[k]@.contains(x) ==> slot_live_into(blocks, uses, defs, k, x),
                forall|k: int, x: StackSlot| 0 <= k < n && #[trigger] outs@[k]@.contains(x) ==> slot_live_out_of(blocks, uses, defs, k, x),
                queue@.no_duplicates(),
                forall|j: int| 0 <= j < queue@.len() ==> (#[trigger] queue@[j]).0 < n
                    && ins@[queue@[j].0 as int]@.contains(queue@[j].1),
                head <= queue@.len(),
                queue@.len() <= n * univ.len(),
                forall|p: int, t: int, x: StackSlot| #![trigger edge(blocks, p, t), ins@[t]@.contains(x)]
                    edge(blocks, p, t) && ins@[t]@.contains(x) ==> outs@[p]@.contains(x)
                        || queue@.subrange(head as int, queue@.len() as int).contains((t as usize, x)),
            decreases n * univ.len() - head,
        {
            let (s, r) = queue[head];
            let ghost h0 = head;
            head += 1;
            proof {
                assert(ins@[s as int]@.contains(r));
                assert forall|p: int, s2: int, x: StackSlot| #![trigger edge(blocks, p, s2), ins@[s2]@.contains(x)]
                    edge(blocks, p, s2) && ins@[s2]@.contains(x) implies outs@[p]@.contains(x)
                        || queue@.subrange(head as int, queue@.len() as int).contains((s2 as usize, x))
                        || (s2 == s && x == r && exists|t: int| 0 <= t < blocks[s as int].in_edge@.len() && blocks[s as int].in_edge@[t] == p) by {
                    if !outs@[p]@.contains(x) {
                        let t = choose|t: int| 0 <= t < queue@.len() - h0 && queue@.subrange(h0 as int, queue@.len() as int)[t] == (s2 as usize, x);
                        if t == 0 {
                            assert(queue@[h0 as int] == (s2 as usize, x));
                            let tt = choose|tt: int| 0 <= tt < blocks[s as int].in_edge@.len() && blocks[s as int].in_edge@[tt] == p as usize;
                        } else {
                            assert(queue@.subrange(head as int, queue@.len() as int)[t - 1] == (s2 as usize, x));
                        }
                    }
                }
            }
            let preds = func.blocks[s].in_edge.len();
            let mut j: usize = 0;
            while j < preds
                invariant
                    n == blocks.len(),
                    blocks == func.blocks@,
                    in_edges_ok(blocks),
                    uses == member_of(live_uses@),
                    defs == member_of(live_defs@),
                    live_uses@.len() == n,
                    live_defs@.len() == n,
                    s < n,
                    preds == blocks[s as int].in_edge@.len(),
                    j <= preds,
                    ins@[s as int]@.contains(r),
                    ins@.len() == n,
                    outs@.len() == n,
                    forall|k: int| 0 <= k < n ==> is_slot_set(#[trigger] ins@[k]@),
                    forall|k: int| 0 <= k < n ==> is_slot_set(#[trigger] outs@[k]@),
                    forall|k: int, x: StackSlot| 0 <= k < n && #[trigger] ins@[k]@.contains(x) ==> univ.contains(x),
                    forall|k: int, x: StackSlot| 0 <= k < n ==> (#[trigger] ins@[k]@.contains(x) <==>
                        (uses(k, x) || (outs@[k]@.contains(x) && !defs(k, x)))),
                    forall|k: int, x: StackSlot| 0 <= k < n && #[trigger] ins@[k]@.contains(x) ==> slot_live_into(blocks, uses, defs, k, x),
                    forall|k: int, x: StackSlot| 0 <= k < n && #[trigger] outs@[k]@.contains(x) ==> slot_live_out_of(blocks, uses, defs, k, x),
                    queue@.no_duplicates(),
                    forall|jj: int| 0 <= jj < queue@.len() ==> (#[trigger] queue@[jj]).0 < n
                        && ins@[queue@[jj].0 as int]@.contains(queue@[jj].1),
                    1 <= head <= queue@.len(),
                    queue@.len() <= n * univ.len(),
                    forall|t: int| 0 <= t < j ==> outs@[blocks[s as int].in_edge@[t] as int]@.contains(r),
                    forall|p: int, s2: int, x: StackSlot| #![trigger edge(blocks, p, s2), ins@[s2]@.contains(x)]
                        edge(blocks, p, s2) && ins@[s2]@.contains(x) ==> outs@[p]@.contains(x)
                            || queue@.subrange(head as int, queue@.len() as int).contains((s2 as usize, x))
                            || (s2 == s && x == r && exists|t: int| j <= t < preds && blocks[s as int].in_edge@[t] == p),
                decreases preds - j,
            {
                let p = func.blocks[s].in_edge[j];
                assert(p < n) by {
                    assert(blocks[s as int].in_edge@[j as int] < blocks.len());
                }
                let ghost outs_before = outs@;
                let ghost ins_before = ins@;
                let ghost queue_before = queue@;
                let added = slot_insert(&mut outs[p], r);
                proof {
                    assert(edge(blocks, p as int, s as int)) by {
                        assert(blocks[s as int].in_edge@[j as int] == p);
                    }
                }
                if added && !slot_contains(&live_defs[p], &r) {
                    let added2 = slot_insert(&mut ins[p], r);
                    if added2 {
                        proof {
                            assert(!queue@.contains((p, r))) by {
                                if queue@.contains((p, r)) {
                                    let t = choose|t: int| 0 <= t < queue@.len() && queue@[t] == (p, r);
                                    assert(ins_before[p as int]@.contains(r));
                                }
                            }
                        }
                        queue.push((p, r));
                        proof {
                            assert forall|a: int, c: int| 0 <= a < queue@.len() && 0 <= c < queue@.len() && a != c
                                implies queue@[a] != queue@[c] by {
                                if a == queue_before.len() {
                                    assert(queue_before.contains(queue@[c]) || c == a);
                                } else if c == queue_before.len() {
                                    assert(queue_before.contains(queue@[a]) || c == a);
                                }
                            }
                            lemma_queue_bound(queue@, n as int, univ);
                        }
                    }
                }
                proof {
                    let ghost lp = choose|path: Seq<int>| #[trigger] slot_path(blocks, uses, defs, r, path) && path[0] == s as int;
                    assert(slot_live_into(blocks, uses, defs, s as int, r));
                    assert forall|k: int, x: StackSlot| 0 <= k < n && #[trigger] ins@[k]@.contains(x)
                        implies slot_live_into(blocks, uses, defs, k, x) by {
                        if k == p && x == r && !ins_before[k]@.contains(x) {
                            lemma_prepend_slot_path(blocks, uses, defs, r, p as int, lp);
                            assert(slot_path(blocks, uses, defs, r, seq![p as int] + lp));
                        } else {
                            assert(ins_before[k]@.contains(x));
                        }
                    }
                    assert forall|k: int, x: StackSlot| 0 <= k < n && #[trigger] outs@[k]@.contains(x)
                        implies slot_live_out_of(blocks, uses, defs, k, x) by {
                        if k == p && x == r {
                            assert(edge(blocks, p as int, s as int));
                        } else {
                            assert(outs_before[k]@.contains(x));
                        }
                    }
                    assert forall|k: int, x: StackSlot| 0 <= k < n && #[trigger] ins@[k]@.contains(x) implies univ.contains(x) by {
                        if !ins_before[k]@.contains(x) {
                            assert(ins_before[s as int]@.contains(r));
                        }
                    }
                    assert forall|jj: int| 0 <= jj < queue@.len() implies (#[trigger] queue@[jj]).0 < n
                        && ins@[queue@[jj].0 as int]@.contains(queue@[jj].1) by {
                        if jj < queue_before.len() {
                            assert(queue@[jj] == queue_before[jj]);
                            assert(ins_before[queue@[jj].0 as int]@.contains(queue@[jj].1));
                        }
                    }
                    assert forall|t: int| 0 <= t < j + 1 implies outs@[blocks[s as int].in_edge@[t] as int]@.contains(r) by {
                        if t < j {
                            assert(outs_before[blocks[s as int].in_edge@[t] as int]@.contains(r));
                        }
                    }
                    assert forall|p2: int, s2: int, x: StackSlot| #![trigger edge(blocks, p2, s2), ins@[s2]@.contains(x)]
                        edge(blocks, p2, s2) && ins@[s2]@.contains(x) implies outs@[p2]@.contains(x)
                            || queue@.subrange(head as int, queue@.len() as int).contains((s2 as usize, x))
                            || (s2 == s && x == r && exists|t: int| j + 1 <= t < preds && blocks[s as int].in_edge@[t] == p2) by {
                        if ins_before[s2]@.contains(x) {
                            if outs_before[p2]@.contains(x) {
                                assert(outs@[p2]@.contains(x));
                            } else if queue_before.subrange(head as int, queue_before.len() as int).contains((s2 as usize, x)) {
                                let t = choose|t: int| 0 <= t < queue_before.len() - head && queue_before.subrange(head as int, queue_before.len() as int)[t] == (s2 as usize, x);
                                assert(queue@.subrange(head as int, queue@.len() as int)[t] == (s2 as usize, x));
                            } else {
                                let t = choose|t: int| j <= t < preds && blocks[s as int].in_edge@[t] == p2;
                                if t == j {
                                    assert(p2 == p);
                                    assert(outs@[p2]@.contains(x));
                                } else {
                                    assert(j + 1 <= t < preds);
                                }
                            }
                        } else {
                            assert(s2 == p && x == r);
                            assert(queue@[queue@.len() - 1] == (p, r));
                            assert(queue@.subrange(head as int, queue@.len() as int)[queue@.len() - 1 - head] == (s2 as usize, x));
                        }
                    }
                }
                j += 1;
            }
            proof {
                assert forall|p: int, s2: int, x: StackSlot| #![trigger edge(blocks, p, s2), ins@[s2]@.contains(x)]
                    edge(blocks, p, s2) && ins@[s2]@.contains(x) implies outs@[p]@.contains(x)
                        || queue@.subrange(head as int, queue@.len() as int).contains((s2 as usize, x)) by {
                    if s2 == s && x == r {
                        let t = choose|t: int| 0 <= t < preds && blocks[s as int].in_edge@[t] == p as usize;
                        assert(outs@[blocks[s as int].in_edge@[t] as int]@.contains(r));
                    }
                }
            }
        }
        proof {
            assert forall|k: int, x: StackSlot| 0 <= k < n implies (#[trigger] ins@[k]@.contains(x)
                <==> slot_live_into(blocks, uses, defs, k, x)) by {
                if slot_live_into(blocks, uses, defs, k, x) {
                    let path = choose|path: Seq<int>| #[trigger] slot_path(blocks, uses, defs, x, path) && path[0] == k;
                    assert forall|p: int, s2: int, y: StackSlot| #![trigger edge(blocks, p, s2), ins@[s2]@.contains(y)]
                        edge(blocks, p, s2) && ins@[s2]@.contains(y) implies outs@[p]@.contains(y) by {
                        assert(!queue@.subrange(head as int, queue@.len() as int).contains((s2 as usize, y)));
                    }
                    lemma_slot_complete(blocks, uses, defs, ins@, outs@, x, path);
                }
            }
            assert forall|k: int, x: StackSlot| 0 <= k < n implies (#[trigger] outs@[k]@.contains(x)
                <==> slot_live_out_of(blocks, uses, defs, k, x)) by {
                if slot_live_out_of(blocks, uses, defs, k, x) {
                    let s2 = choose|s2: int| #[trigger] edge(blocks, k, s2) && slot_live_into(blocks, uses, defs, s2, x);
                    assert(ins@[s2]@.contains(x));
                    assert(!queue@.subrange(head as int, queue@.len() as int).contains((s2 as usize, x)));
                }
            }
        }
        (ins, outs)
    }
}

/// The four analyses of the words of the frame for each block: read before
/// written, written before read, live on entry, live on exit.
pub open spec fn slot_intervals_exact(blocks: Seq<BB>, r: (Vec<Vec<StackSlot>>, Vec<Vec<StackSlot>>,
    Vec<Vec<StackSlot>>, Vec<Vec<StackSlot>>)) -> bool {
    &&& r.0@.len() == blocks.len()
    &&& r.1@.len() == blocks.len()
    &&& r.2@.len() == blocks.len()
    &&& r.3@.len() == blocks.len()
    &&& forall|b: int| 0 <= b < blocks.len() ==> is_slot_set(#[trigger] r.0@[b]@)
    &&& forall|b: int| 0 <= b < blocks.len() ==> is_slot_set(#[trigger] r.1@[b]@)
    &&& forall|b: int| 0 <= b < blocks.len() ==> is_slot_set(#[trigger] r.2@[b]@)
    &&& forall|b: int| 0 <= b < blocks.len() ==> is_slot_set(#[trigger] r.3@[b]@)
    &&& forall|b: int, x: StackSlot| 0 <= b < blocks.len() ==>
        (#[trigger] r.0@[b]@.contains(x) <==> slot_exposed(blocks[b].insts@, x))
    &&& forall|b: int, x: StackSlot| 0 <= b < blocks.len() ==>
        (#[trigger] r.1@[b]@.contains(x) <==> slot_killed(blocks[b].insts@, x))
    &&& forall|b: int, x: StackSlot| 0 <= b < blocks.len() ==> (#[trigger] r.2@[b]@.contains(x)
        <==> slot_live_into(blocks, exposed_in(blocks), killed_in(blocks), b, x))
    &&& forall|b: int, x: StackSlot| 0 <= b < blocks.len() ==> (#[trigger] r.3@[b]@.contains(x)
        <==> slot_live_out_of(blocks, exposed_in(blocks), killed_in(blocks), b, x))
}

impl Func {
    /// The words of the frame that each block reads before writing, writes
    /// before reading, and holds live on entry and on exit.
    pub fn calc_stackslot_interval(func: &Func) -> (r: (Vec<Vec<StackSlot>>, Vec<Vec<StackSlot>>,
        Vec<Vec<StackSlot>>, Vec<Vec<StackSlot>>))
        requires
            in_edges_ok(func.blocks@),
            slots_ready(func.blocks@),
        ensures
            slot_intervals_exact(func.blocks@, r),
    {
        let (live_uses, live_defs) = Func::build_live_use_def_for_stackslots(func);
        let (live_in, live_out) = Func::build_live_in_live_out_for_stackslots_from_live_use_and_live_def(
            func, &live_uses, &live_defs);
        proof {
            let blocks = func.blocks@;
            assert(member_of(live_uses@) =~= exposed_in(blocks)) by {
                assert forall|k: int, x: StackSlot| #[trigger] member_of(live_uses@)(k, x) == exposed_in(blocks)(k, x) by {
                    if 0 <= k < blocks.len() {
                        assert(live_uses@[k]@.contains(x) == slot_exposed(blocks[k].insts@, x));
                    }
                }
            }
            assert(member_of(live_defs@) =~= killed_in(blocks)) by {
                assert forall|k: int, x: StackSlot| #[trigger] member_of(live_defs@)(k, x) == killed_in(blocks)(k, x) by {
                    if 0 <= k < blocks.len() {
                        assert(live_defs@[k]@.contains(x) == slot_killed(blocks[k].insts@, x));
                    }
                }
            }
        }
        (live_uses, live_defs, live_in, live_out)
    }
}

} // verus!
