use std::collections::HashSet;
use vstd::prelude::*;
use vstd::multiset::Multiset;
use biheap::BiHeap;

verus! {

broadcast use vstd::std_specs::hash::group_hash_axioms;

#[verifier::external_type_specification]
#[verifier::external_body]
#[verifier::reject_recursive_types(T)]
pub struct ExBiHeap<T: Ord>(BiHeap<T>);

/// The values a heap of integers holds.
pub uninterp spec fn heap_items(h: BiHeap<i32>) -> Multiset<i32>;

/// `BiHeap::new`: an empty heap.
#[verifier::external_body]
pub(crate) fn heap_new() -> (h: BiHeap<i32>)
    ensures
        heap_items(h) == Multiset::<i32>::empty(),
{
    BiHeap::new()
}

/// `BiHeap::push`: the heap holds one more `v` (the handle it gives back is
/// dropped).
#[verifier::external_body]
pub(crate) fn heap_push(h: &mut BiHeap<i32>, v: i32)
    ensures
        heap_items(*final(h)) == heap_items(*old(h)).insert(v),
{
    let _handle = h.push(v);
}

/// `BiHeap::pop_max`: nothing from an empty heap; else one greatest value,
/// which leaves the heap.
#[verifier::external_body]
pub(crate) fn heap_pop_max(h: &mut BiHeap<i32>) -> (r: Option<i32>)
    ensures
        heap_items(*old(h)).len() == 0 ==> r is None && heap_items(*final(h)) == heap_items(*old(h)),
        heap_items(*old(h)).len() > 0 ==> (r matches Some(m) && {
            &&& heap_items(*old(h)).count(m) > 0
            &&& forall|x: i32| heap_items(*old(h)).count(x) > 0 ==> x <= m
            &&& heap_items(*final(h)) == heap_items(*old(h)).remove(m)
        }),
{
    h.pop_max()
}

/// `BiHeap::is_empty`.
#[verifier::external_body]
pub(crate) fn heap_is_empty(h: &BiHeap<i32>) -> (b: bool)
    ensures
        b == (heap_items(*h).len() == 0),
{
    h.is_empty()
}

/// The elements of `s`, each once, in the order the set is walked.
pub fn set_elems(s: &HashSet<i32>) -> (v: Vec<i32>)
    ensures
        v@.no_duplicates(),
        forall|x: i32| #[trigger] v@.contains(x) <==> s@.contains(x),
{
    let mut v: Vec<i32> = Vec::new();
    for x in it: s.iter()
        invariant
            v@.len() == it.index(),
            forall|k: int| 0 <= k < v@.len() ==> #[trigger] v@[k] == *it.seq()[k],
            it.seq().unref().to_set() == s@,
            it.seq().no_duplicates(),
            forall|k: int| 0 <= k < v@.len() ==> s@.contains(#[trigger] v@[k]),
            v@.no_duplicates(),
            forall|y: i32| s@.contains(y) ==> v@.contains(y) || exists|k: int| it.index() <= k < it.seq().len() && *it.seq()[k] == y,
    {
        proof {
            assert(it.seq().unref().to_set().contains(*x));
            assert forall|a: int, b: int| 0 <= a < v@.len() + 1 && 0 <= b < v@.len() + 1 && a != b implies v@.push(*x)[a] != v@.push(*x)[b] by {
                assert(it.seq()[a] != it.seq()[b]);
            }
            assert forall|y: i32| s@.contains(y) implies v@.push(*x).contains(y) || exists|k: int| it.index() + 1 <= k < it.seq().len() && *it.seq()[k] == y by {
                if !v@.contains(y) {
                    let k = choose|k: int| it.index() <= k < it.seq().len() && *it.seq()[k] == y;
                    if k == it.index() {
                        assert(v@.push(*x)[v@.len() as int] == y);
                    }
                } else {
                    let k = choose|k: int| 0 <= k < v@.len() && v@[k] == y;
                    assert(v@.push(*x)[k] == y);
                }
            }
        }
        v.push(*x);
    }
    v
}

} // verus!
