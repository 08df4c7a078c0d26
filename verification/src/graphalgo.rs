use std::collections::{HashMap, HashSet};
use vstd::prelude::*;

verus! {

broadcast use vstd::std_specs::hash::group_hash_axioms;

/// A value carried by the nodes of a graph: values add up along a path and
/// can be compared.
pub trait Value: Sized {
    /// What `add` gives.
    spec fn spec_add(&self, other: &Self) -> Self;

    /// Whether `add` may be called on these values.
    spec fn add_ok(&self, other: &Self) -> bool;

    /// What `less` tells.
    spec fn spec_less(&self, other: &Self) -> bool;

    /// The value `new` gives.
    spec fn spec_new() -> Self;

    fn add(&self, other: &Self) -> (r: Self)
        requires
            self.add_ok(other),
        ensures
            r == self.spec_add(other);

    fn less(&self, other: &Self) -> (r: bool)
        ensures
            r == self.spec_less(other);

    fn new() -> (r: Self)
        ensures
            r == Self::spec_new();
}

impl Value for i32 {
    open spec fn spec_add(&self, other: &Self) -> Self {
        (*self + *other) as i32
    }

    open spec fn add_ok(&self, other: &Self) -> bool {
        i32::MIN <= *self + *other <= i32::MAX
    }

    open spec fn spec_less(&self, other: &Self) -> bool {
        *self < *other
    }

    open spec fn spec_new() -> Self {
        0
    }

    fn add(&self, other: &Self) -> (r: Self) {
        *self + *other
    }

    fn less(&self, other: &Self) -> (r: bool) {
        *self < *other
    }

    fn new() -> (r: Self) {
        0
    }
}

/// An edge between two nodes, by their ids.
pub struct Edge {
    pub from: i32,
    pub to: i32,
}

/// A node: its id, its value and its edges.
pub struct Node<T: Value> {
    pub id: i32,
    pub v: T,
    pub inedges: Vec<Edge>,
    pub outedges: Vec<Edge>,
}

/// A graph of valued nodes, by id.
pub struct Graph<T: Value> {
    pub nodes: HashMap<i32, Node<T>>,
}

/// The better of two candidate path values (`None`: no path); the first
/// unless it is `less` than the second.
pub open spec fn better<T: Value>(a: Option<T>, b: Option<T>) -> Option<T> {
    match a {
        None => b,
        Some(x) => match b {
            None => a,
            Some(y) => if x.spec_less(&y) { b } else { a },
        },
    }
}

fn pick_better<T: Value>(a: Option<T>, b: Option<T>) -> (r: Option<T>)
    ensures
        r == better(a, b),
{
    match a {
        None => b,
        Some(x) => match b {
            None => Some(x),
            Some(y) => if x.less(&y) { Some(y) } else { Some(x) },
        },
    }
}

/// The best value of the paths from `node`, reached with the value `acc`
/// (its own included), that take at most `fuel` more steps and stop at the
/// first node of `tos`; `None` when there is none.
pub open spec fn best_path<T: Value>(nodes: Map<i32, Node<T>>, tos: Set<i32>, node: i32, acc: T, fuel: nat) -> Option<T>
    decreases fuel, 0int,
{
    if tos.contains(node) {
        Some(acc)
    } else if fuel == 0 {
        None
    } else {
        best_over(nodes, tos, nodes[node].outedges@, acc, (fuel - 1) as nat, nodes[node].outedges@.len() as int)
    }
}

/// The best value of the paths that leave through the first `k` edges of
/// `es`, with `fuel` steps left after the edge.
pub open spec fn best_over<T: Value>(nodes: Map<i32, Node<T>>, tos: Set<i32>, es: Seq<Edge>, acc: T, fuel: nat, k: int) -> Option<T>
    decreases fuel, k,
{
    if k <= 0 {
        None
    } else {
        let to = es[k - 1].to;
        better(best_over(nodes, tos, es, acc, fuel, k - 1),
            best_path(nodes, tos, to, acc.spec_add(&nodes[to].v), fuel))
    }
}

/// Every step of those paths leads to a node of the graph, and every sum
/// along them may be made.
pub open spec fn path_ok<T: Value>(nodes: Map<i32, Node<T>>, tos: Set<i32>, node: i32, acc: T, fuel: nat) -> bool
    decreases fuel, 0int,
{
    tos.contains(node) || fuel == 0
        || over_ok(nodes, tos, nodes[node].outedges@, acc, (fuel - 1) as nat, nodes[node].outedges@.len() as int)
}

/// `path_ok` for the paths through the first `k` edges of `es`.
pub open spec fn over_ok<T: Value>(nodes: Map<i32, Node<T>>, tos: Set<i32>, es: Seq<Edge>, acc: T, fuel: nat, k: int) -> bool
    decreases fuel, k,
{
    k <= 0 || {
        let to = es[k - 1].to;
        &&& over_ok(nodes, tos, es, acc, fuel, k - 1)
        &&& nodes.contains_key(to)
        &&& acc.add_ok(&nodes[to].v)
        &&& path_ok(nodes, tos, to, acc.spec_add(&nodes[to].v), fuel)
    }
}

proof fn lemma_over_ok_prefix<T: Value>(nodes: Map<i32, Node<T>>, tos: Set<i32>, es: Seq<Edge>, acc: T, fuel: nat, k: int, j: int)
    requires
        over_ok(nodes, tos, es, acc, fuel, k),
        0 <= j <= k,
    ensures
        over_ok(nodes, tos, es, acc, fuel, j),
    decreases k - j,
{
    if j < k {
        lemma_over_ok_prefix(nodes, tos, es, acc, fuel, k - 1, j);
    }
}

impl<T: Value> Graph<T> {
    pub fn new() -> (r: Graph<T>)
        ensures
            r.nodes@ == Map::<i32, Node<T>>::empty(),
    {
        Graph { nodes: HashMap::new() }
    }

    /// Whether `node` cuts the graph in two; no node is yet found to.
    #[allow(non_snake_case)]
    pub fn isSerial(&self, node: i32) -> (r: bool)
        ensures
            !r,
    {
        false
    }

    /// The value of the most valuable path from `from` to a node of `tos`,
    /// searched depth first: a path stops at the first node of `tos` it
    /// reaches, its value adds up the values of its nodes from the zero
    /// value on, and paths of at most as many steps as the graph has nodes
    /// are weighed (every path, when the graph has no cycle). The greatest
    /// value by `less` is returned (the earlier one among equals); with no
    /// such path, the zero value.
    #[allow(non_snake_case)]
    pub fn dfs_findMaxNodeValuePath(&mut self, from: i32, tos: HashSet<i32>) -> (r: T)
        requires
            old(self).nodes@.contains_key(from),
            T::spec_new().add_ok(&old(self).nodes@[from].v),
            path_ok(old(self).nodes@, tos@, from, T::spec_new().spec_add(&old(self).nodes@[from].v),
                old(self).nodes@.len()),
        ensures
            final(self).nodes@ == old(self).nodes@,
            r == match best_path(old(self).nodes@, tos@, from,
                T::spec_new().spec_add(&old(self).nodes@[from].v), old(self).nodes@.len()) {
                Some(x) => x,
                None => T::spec_new(),
            },
    {
        let fuel = self.nodes.len();
        let start = T::new();
        let first = match self.nodes.get(&from) {
            Some(node) => start.add(&node.v),
            None => {
                return T::new();
            },
        };
        match self.best_from(&tos, from, first, fuel) {
            Some(x) => x,
            None => T::new(),
        }
    }

    /// The best value of the paths from `node` (reached with the value
    /// `acc`, its own included) of at most `fuel` more steps.
    fn best_from(&self, tos: &HashSet<i32>, node: i32, acc: T, fuel: usize) -> (r: Option<T>)
        requires
            self.nodes@.contains_key(node),
            path_ok(self.nodes@, tos@, node, acc, fuel as nat),
        ensures
            r == best_path(self.nodes@, tos@, node, acc, fuel as nat),
        decreases fuel,
    {
        if tos.contains(&node) {
            return Some(acc);
        }
        if fuel == 0 {
            return None;
        }
        let n = match self.nodes.get(&node) {
            Some(n) => n,
            None => {
                return None;
            },
        };
        let ghost es = n.outedges@;
        let mut cur: Option<T> = None;
        let mut i: usize = 0;
        while i < n.outedges.len()
            invariant
                es == n.outedges@,
                es == self.nodes@[node].outedges@,
                fuel > 0,
                i <= es.len(),
                over_ok(self.nodes@, tos@, es, acc, (fuel - 1) as nat, es.len() as int),
                cur == best_over(self.nodes@, tos@, es, acc, (fuel - 1) as nat, i as int),
            decreases es.len() - i,
        {
            proof {
                lemma_over_ok_prefix(self.nodes@, tos@, es, acc, (fuel - 1) as nat, es.len() as int, i as int + 1);
            }
            let to = n.outedges[i].to;
            let m = match self.nodes.get(&to) {
                Some(m) => m,
                None => {
                    proof { assert(false); }
                    return None;
                },
            };
            let a2 = acc.add(&m.v);
            let sub = self.best_from(tos, to, a2, fuel - 1);
            cur = pick_better(cur, sub);
            i += 1;
        }
        cur
    }

    /// An estimate of the most valuable path from `from` to `tos`, level by
    /// level; no estimate is made yet and the zero value is returned.
    #[allow(non_snake_case)]
    pub fn bfs_estimateMaxNodeValuePath(&mut self, from: i32, tos: HashSet<i32>) -> (r: T)
        ensures
            r == T::spec_new(),
            final(self).nodes@ == old(self).nodes@,
    {
        T::new()
    }
}

} // verus!
