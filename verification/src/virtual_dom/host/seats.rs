//! What reconciliation finds of the live nodes and what it leaves, said for
//! one tree and for the children of a node.

use crate::virtual_dom::diff::{at, carried, carried_all, count, fresh, live, total_fresh, width};
use crate::virtual_dom::host::{Dom, Live};
use crate::virtual_dom::host::shown::{
    apart, lemma_shown_is_live, occurs_in, roots, roots_all, shows, tidy,
};
use crate::virtual_dom::laws::occurs;
use crate::virtual_dom::vcomp::Handle;
use crate::virtual_dom::vnode::{Node, NodeView, views};
use vstd::prelude::*;

verus! {

/// Whether `handle` names a node of the tree before, where there is one.
pub open spec fn named<P>(prev: Option<Node<P>>, handle: Handle) -> bool {
    match prev {
        Some(p) => occurs(p, handle),
        None => false,
    }
}

/// The top nodes of the tree before, where there is one.
pub open spec fn top<P>(prev: Option<Node<P>>) -> Seq<Handle> {
    match prev {
        Some(p) => roots(p),
        None => Seq::empty(),
    }
}

/// Whether no handle from `first` on is live.
pub open spec fn below(dom: Dom, first: int) -> bool {
    forall|handle: Handle| #[trigger] dom.contains_key(handle) ==> handle < first
}

/// Whether `parent` is live in `after` with these children, and else as it
/// is in `dom`.
pub open spec fn holds(dom: Dom, after: Dom, parent: Handle, children: Seq<Handle>) -> bool {
    after.contains_key(parent) && after[parent] == (Live { children, ..dom[parent] })
}

/// Whether every handle of the tree is a handle of the tree before or one
/// of the fresh handles from `first` to `last`.
pub open spec fn descends<P>(prev: Option<Node<P>>, result: Node<P>, first: int, last: int) -> bool {
    forall|handle: Handle| #[trigger]
        occurs(result, handle) ==> named(prev, handle) || first <= handle < last
}

/// Whether every live node of `after` is one of `dom` or has one of the
/// fresh handles from `first` to `last`.
pub open spec fn grown(dom: Dom, after: Dom, first: int, last: int) -> bool {
    forall|handle: Handle| #[trigger]
        after.contains_key(handle) ==> dom.contains_key(handle) || first <= handle < last
}

/// Whether the handles of the tree before that the tree does not carry are
/// live no more.
pub open spec fn dropped<P>(after: Dom, prev: Option<Node<P>>, result: Node<P>) -> bool {
    forall|handle: Handle|
        named(prev, handle) && !occurs(result, handle) ==> !(#[trigger] after.contains_key(handle))
}

/// Whether every live node of `dom` but the parent and the nodes of the tree
/// before is in `after` as it is in `dom`.
pub open spec fn spared<P>(dom: Dom, after: Dom, prev: Option<Node<P>>, parent: Handle) -> bool {
    forall|handle: Handle|
        #[trigger] dom.contains_key(handle) && handle != parent && !named(prev, handle) ==> after.contains_key(
            handle,
        ) && after[handle] == dom[handle]
}

/// What reconciliation finds. The parent is live, and its children are
/// `left`, the top nodes of the tree before, and `right`. The tree before
/// has all its handles, none of them twice, none of them that of the parent
/// or among `left`, and the live nodes show it, whatever the state of its
/// controls. No handle from `first` on is live.
pub open spec fn seated<P>(
    dom: Dom,
    prev: Option<Node<P>>,
    parent: Handle,
    left: Seq<Handle>,
    right: Seq<Handle>,
    first: int,
) -> bool {
    &&& dom.contains_key(parent)
    &&& below(dom, first)
    &&& dom[parent].children == left + top(prev) + right
    &&& match prev {
        Some(p) => {
            &&& live(p)
            &&& tidy(p)
            &&& shows(dom, p, false)
            &&& !occurs(p, parent)
            &&& forall|handle: Handle| #[trigger] occurs(p, handle) ==> !left.contains(handle)
        },
        None => true,
    }
}

/// What reconciliation leaves. The children of the parent are `left`, the
/// top nodes of the new tree, and `right`, and nothing else of the parent
/// changed. The live nodes show the new tree, with the state of its
/// controls. The new tree has all its handles, none of them twice: each is
/// a handle of the tree before or one of the fresh handles from `first` to
/// `last`. The handles of the tree before that the new tree does not carry
/// are live no more; every other live node is as it was.
pub open spec fn reseated<P>(
    dom: Dom,
    after: Dom,
    prev: Option<Node<P>>,
    result: Node<P>,
    parent: Handle,
    left: Seq<Handle>,
    right: Seq<Handle>,
    first: int,
    last: int,
) -> bool {
    &&& holds(dom, after, parent, left + roots(result) + right)
    &&& shows(after, result, true)
    &&& live(result)
    &&& tidy(result)
    &&& !occurs(result, parent)
    &&& descends(prev, result, first, last)
    &&& grown(dom, after, first, last)
    &&& dropped(after, prev, result)
    &&& spared(dom, after, prev, parent)
}

/// Whether `first` is a handle, and the first of as many handles as the
/// tree needs, and the place behind `left` a place where the tree fits.
pub open spec fn fits<P>(new: Node<P>, left: Seq<Handle>, first: int) -> bool {
    &&& 0 <= first
    &&& first + count(new@) <= u64::MAX
    &&& left.len() + width(new@) <= u64::MAX
}

/// The trees before that are still to come behind the first `k`.
pub open spec fn rest_of<P>(prevs: Seq<Node<P>>, k: int) -> Seq<Node<P>> {
    if k <= prevs.len() {
        prevs.skip(k)
    } else {
        Seq::empty()
    }
}

/// The trees before that the first `k` new trees were matched with.
pub open spec fn done_of<P>(prevs: Seq<Node<P>>, k: int) -> Seq<Node<P>> {
    if k <= prevs.len() {
        prevs.take(k)
    } else {
        prevs
    }
}

/// Whether the live nodes show each of the trees, and each has all its
/// handles, none of them twice.
pub open spec fn all_shown<P>(dom: Dom, nodes: Seq<Node<P>>, strict: bool) -> bool {
    forall|i: int|
        0 <= i < nodes.len() ==> shows(dom, #[trigger] nodes[i], strict) && live(nodes[i]) && tidy(
            nodes[i],
        )
}

/// `descends` for each tree and the tree before at its place.
pub open spec fn all_descend<P>(prevs: Seq<Node<P>>, results: Seq<Node<P>>, first: int, last: int) -> bool {
    forall|i: int|
        0 <= i < results.len() ==> descends(at(prevs, i), #[trigger] results[i], first, last)
}

/// `dropped` for sequences of trees.
pub open spec fn all_dropped<P>(after: Dom, prevs: Seq<Node<P>>, results: Seq<Node<P>>) -> bool {
    forall|handle: Handle|
        occurs_in(prevs, handle) && !occurs_in(results, handle) ==> !(#[trigger] after.contains_key(
            handle,
        ))
}

/// `spared` for a sequence of trees before.
pub open spec fn all_spared<P>(dom: Dom, after: Dom, prevs: Seq<Node<P>>, parent: Handle) -> bool {
    forall|handle: Handle|
        #[trigger] dom.contains_key(handle) && handle != parent && !occurs_in(prevs, handle)
            ==> after.contains_key(handle) && after[handle] == dom[handle]
}

/// Whether every handle of the trees is below `first`.
pub open spec fn all_below<P>(nodes: Seq<Node<P>>, first: int) -> bool {
    forall|i: int, handle: Handle|
        0 <= i < nodes.len() && #[trigger] occurs(nodes[i], handle) ==> handle < first
}

/// `seated` for the children of a node: the children of the parent are
/// `left`, the top nodes of the trees before, and `right`, and no handle
/// names nodes of two of the trees.
pub open spec fn children_seated<P>(
    dom: Dom,
    prevs: Seq<Node<P>>,
    parent: Handle,
    left: Seq<Handle>,
    right: Seq<Handle>,
    first: int,
) -> bool {
    &&& dom.contains_key(parent)
    &&& below(dom, first)
    &&& dom[parent].children == left + roots_all(prevs) + right
    &&& all_shown(dom, prevs, false)
    &&& apart(prevs)
    &&& !occurs_in(prevs, parent)
    &&& forall|handle: Handle| #[trigger] occurs_in(prevs, handle) ==> !left.contains(handle)
}

/// `reseated` for the children of a node, where the trees `prevs` were
/// reconciled or torn down and the trees `rest` are still to come.
pub open spec fn children_reseated<P>(
    dom: Dom,
    after: Dom,
    prevs: Seq<Node<P>>,
    results: Seq<Node<P>>,
    rest: Seq<Node<P>>,
    parent: Handle,
    left: Seq<Handle>,
    right: Seq<Handle>,
    first: int,
    last: int,
) -> bool {
    &&& holds(dom, after, parent, left + roots_all(results) + roots_all(rest) + right)
    &&& all_shown(after, results, true)
    &&& apart(results)
    &&& !occurs_in(results, parent)
    &&& all_descend(prevs, results, first, last)
    &&& grown(dom, after, first, last)
    &&& all_dropped(after, prevs, results)
    &&& all_spared(dom, after, prevs, parent)
}

/// The handles of trees that the live nodes show are live.
pub proof fn lemma_all_below<P>(dom: Dom, nodes: Seq<Node<P>>, first: int)
    requires
        below(dom, first),
        all_shown(dom, nodes, false),
    ensures
        all_below(nodes, first),
{
    assert forall|i: int, handle: Handle|
        0 <= i < nodes.len() && #[trigger] occurs(nodes[i], handle) implies handle < first by {
        lemma_shown_is_live(dom, nodes[i], false, handle);
    }
}

/// What is carried by all trees is carried by the first `k` of them, and by
/// the tree behind them.
pub proof fn lemma_carried_prefix<P>(prevs: Seq<Node<P>>, nodes: Seq<Node<P>>, first: int, k: int)
    requires
        carried_all(prevs, nodes, first),
        0 <= k < nodes.len(),
    ensures
        carried_all(prevs, nodes.take(k), first),
        carried(at(prevs, k), nodes[k], first + total_fresh(prevs, views(nodes.take(k)))),
    decreases nodes.len(),
{
    let front = nodes.drop_last();
    if k == nodes.len() - 1 {
        assert(nodes.take(k) =~= front);
    } else {
        lemma_carried_prefix(prevs, front, first, k);
        assert(front.take(k) =~= nodes.take(k));
        assert(front[k] == nodes[k]);
    }
}

/// The fresh handles for the first `k` nodes and the node behind them are
/// among those for all.
pub proof fn lemma_fresh_prefix<P>(prevs: Seq<Node<P>>, vs: Seq<NodeView>, k: int)
    requires
        0 <= k < vs.len(),
    ensures
        total_fresh(prevs, vs.take(k + 1)) == total_fresh(prevs, vs.take(k)) + fresh(at(prevs, k), vs[k]),
        total_fresh(prevs, vs.take(k + 1)) <= total_fresh(prevs, vs),
    decreases vs.len() - k,
{
    let upto = vs.take(k + 1);
    assert(upto.drop_last() =~= vs.take(k));
    assert(upto.last() == vs[k]);
    if k + 1 < vs.len() {
        lemma_fresh_prefix(prevs, vs, k + 1);
    } else {
        assert(upto =~= vs);
    }
}

} // verus!
