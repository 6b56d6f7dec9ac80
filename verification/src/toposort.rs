//! Dependency ordering through the `topological_sort` crate.

use topological_sort::TopologicalSort;
use vstd::prelude::*;

verus! {

#[verifier::external_type_specification]
#[verifier::external_body]
#[verifier::reject_recursive_types(T)]
pub struct ExTopologicalSort<T>(TopologicalSort<T>);

/// The items that a sort still holds.
pub uninterp spec fn sort_items(ts: TopologicalSort<u64>) -> Set<u64>;

/// The dependency links among the items that a sort still holds, each as
/// the pair of the item that comes first and the item that depends on it.
pub uninterp spec fn sort_links(ts: TopologicalSort<u64>) -> Set<(u64, u64)>;

/// Whether a sort holds the link that `succ` depends on `prec`.
pub open spec fn linked(ts: TopologicalSort<u64>, prec: u64, succ: u64) -> bool {
    sort_links(ts).contains((prec, succ))
}

/// `TopologicalSort::new`: a sort without items and without links.
#[verifier::external_body]
pub(crate) fn sort_new() -> (ts: TopologicalSort<u64>)
    ensures
        sort_items(ts) == Set::<u64>::empty(),
        sort_links(ts) == Set::<(u64, u64)>::empty(),
{
    TopologicalSort::new()
}

/// `TopologicalSort::insert`: adds the item if it is not yet held, without
/// any link, and tells whether it was new.
#[verifier::external_body]
pub(crate) fn sort_insert(ts: &mut TopologicalSort<u64>, item: u64) -> (fresh: bool)
    ensures
        sort_items(*final(ts)) == sort_items(*old(ts)).insert(item),
        sort_links(*final(ts)) == sort_links(*old(ts)),
        fresh == !sort_items(*old(ts)).contains(item),
{
    ts.insert(item)
}

/// `TopologicalSort::add_dependency`: adds both items where they are not
/// yet held, and the link that `succ` depends on `prec`; tells whether the
/// link was new.
#[verifier::external_body]
pub(crate) fn sort_add_dependency(ts: &mut TopologicalSort<u64>, prec: u64, succ: u64) -> (fresh:
    bool)
    ensures
        sort_items(*final(ts)) == sort_items(*old(ts)).insert(prec).insert(succ),
        sort_links(*final(ts)) == sort_links(*old(ts)).insert((prec, succ)),
        fresh == !sort_links(*old(ts)).contains((prec, succ)),
{
    ts.add_dependency(prec, succ)
}

/// `TopologicalSort::pop`: takes out one item that depends on no item
/// still held, together with the links that start at it, and returns it.
/// Which of several such items leaves is not determined. Returns `None`,
/// and changes nothing, if every item still held depends on another one.
#[verifier::external_body]
pub(crate) fn sort_pop(ts: &mut TopologicalSort<u64>) -> (r: Option<u64>)
    ensures
        match r {
            Some(x) => {
                &&& sort_items(*old(ts)).contains(x)
                &&& forall|p: u64|
                    sort_items(*old(ts)).contains(p) ==> !#[trigger] linked(*old(ts), p, x)
                &&& sort_items(*final(ts)) == sort_items(*old(ts)).remove(x)
                &&& sort_links(*final(ts)) == Set::new(
                    |l: (u64, u64)| sort_links(*old(ts)).contains(l) && l.0 != x,
                )
            },
            None => {
                &&& forall|x: u64| #[trigger]
                    sort_items(*old(ts)).contains(x) ==> exists|p: u64|
                        sort_items(*old(ts)).contains(p) && #[trigger] linked(*old(ts), p, x)
                &&& sort_items(*final(ts)) == sort_items(*old(ts))
                &&& sort_links(*final(ts)) == sort_links(*old(ts))
            },
        },
{
    ts.pop()
}

} // verus!
