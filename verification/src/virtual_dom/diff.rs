//! What reconciliation writes: the patches that the journal receives when a
//! new tree takes the place of an old one, and the handles that the new tree
//! carries afterwards.
//!
//! Children are matched by position. A node whose kind, tag or component type
//! changes is torn down and built anew; an element that keeps its tag keeps
//! its handle and receives only the changes to its attributes, classes and
//! children.

use super::attributes::{as_map, distinct_names};
use super::patch::PatchView;
use super::vcomp::Handle;
use super::vnode::{option_view, views, Node, NodeView};
use vstd::prelude::*;

verus! {

/// How many places a node takes among the live children of its parent: one,
/// but for a list, which takes those of its items.
pub open spec fn width(v: NodeView) -> nat
    decreases v,
{
    match v {
        NodeView::List(items) => total_width(items),
        _ => 1,
    }
}

/// The places that a sequence of nodes takes.
pub open spec fn total_width(vs: Seq<NodeView>) -> nat
    decreases vs,
{
    if vs.len() == 0 {
        0
    } else {
        total_width(vs.drop_last()) + width(vs.last())
    }
}

/// How many handles a tree needs when it is built anew.
pub open spec fn count(v: NodeView) -> nat
    decreases v,
{
    match v {
        NodeView::Element(e) => 1 + total_count(e.children),
        NodeView::Text(_) => 1,
        NodeView::List(items) => total_count(items),
        NodeView::ComponentRef(_) => 1,
    }
}

/// The handles that a sequence of trees needs.
pub open spec fn total_count(vs: Seq<NodeView>) -> nat
    decreases vs,
{
    if vs.len() == 0 {
        0
    } else {
        total_count(vs.drop_last()) + count(vs.last())
    }
}

/// Whether the host keeps control state for elements of this tag.
pub open spec fn is_control(tag: Seq<char>) -> bool {
    tag == "input"@ || tag == "textarea"@
}

/// The attributes to set on `handle`: each entry of `pairs`, in order, that
/// `before` does not already hold.
pub open spec fn attribute_updates<P>(
    handle: Handle,
    before: Map<Seq<char>, Seq<char>>,
    pairs: Seq<(Seq<char>, Seq<char>)>,
) -> Seq<PatchView<P>>
    decreases pairs.len(),
{
    if pairs.len() == 0 {
        Seq::empty()
    } else {
        let last = pairs.last();
        attribute_updates(handle, before, pairs.drop_last()) + (if before.contains_key(last.0)
            && before[last.0] == last.1 {
            Seq::empty()
        } else {
            seq![PatchView::SetAttribute { handle, name: last.0, value: last.1 }]
        })
    }
}

/// The attributes to remove from `handle`: each name of `pairs`, in order,
/// that `after` no longer holds.
pub open spec fn attribute_removals<P>(
    handle: Handle,
    pairs: Seq<(Seq<char>, Seq<char>)>,
    after: Map<Seq<char>, Seq<char>>,
) -> Seq<PatchView<P>>
    decreases pairs.len(),
{
    if pairs.len() == 0 {
        Seq::empty()
    } else {
        let last = pairs.last();
        attribute_removals(handle, pairs.drop_last(), after) + (if after.contains_key(last.0) {
            Seq::empty()
        } else {
            seq![PatchView::RemoveAttribute { handle, name: last.0 }]
        })
    }
}

/// The class list is replaced where the set of tokens changed.
pub open spec fn class_patches<P>(handle: Handle, before: Set<Seq<char>>, tokens: Seq<Seq<char>>) -> Seq<
    PatchView<P>,
> {
    if tokens.to_set() == before {
        Seq::empty()
    } else {
        seq![PatchView::SetClasses { handle, classes: tokens }]
    }
}

/// Control state is written on every reconciliation of a control, whatever
/// was rendered last: the host's own state may have moved since.
pub open spec fn control_patches<P>(
    handle: Handle,
    tag: Seq<char>,
    value: Option<Seq<char>>,
    checked: bool,
) -> Seq<PatchView<P>> {
    if is_control(tag) {
        seq![PatchView::SetValue { handle, value }, PatchView::SetChecked { handle, checked }]
    } else {
        Seq::empty()
    }
}

/// Whether every nested component in the tree waits to be created or to be
/// sent its properties: properties are attached under its own type, its
/// sender accepts that type, and its generator has not run.
pub open spec fn ready<P>(node: Node<P>) -> bool
    decreases node,
{
    match node {
        Node::Element(e) => forall|i: int|
            0 <= i < e.children@.len() ==> ready(#[trigger] e.children@[i]),
        Node::Text(_) => true,
        Node::List(items) => forall|i: int| 0 <= i < items@.len() ==> ready(#[trigger] items@[i]),
        Node::ComponentRef(c) => c.sendable() && c.mountable() && c.accepts() == c.spec_type_id(),
    }
}

/// Every node of the tree that has a live node of its own has a handle, and
/// the sender of every nested component accepts the component's own type.
pub open spec fn live<P>(node: Node<P>) -> bool
    decreases node,
{
    match node {
        Node::Element(e) => e.reference is Some && forall|i: int|
            0 <= i < e.children@.len() ==> live(#[trigger] e.children@[i]),
        Node::Text(t) => t.reference is Some,
        Node::List(items) => forall|i: int| 0 <= i < items@.len() ==> live(#[trigger] items@[i]),
        Node::ComponentRef(c) => c.spec_reference() is Some && c.accepts() == c.spec_type_id(),
    }
}

/// The attributes of every element of the tree list each name once.
pub open spec fn valid<P>(node: Node<P>) -> bool
    decreases node,
{
    match node {
        Node::Element(e) => distinct_names(e.attributes.pairs()) && forall|i: int|
            0 <= i < e.children@.len() ==> valid(#[trigger] e.children@[i]),
        Node::Text(_) => true,
        Node::List(items) => forall|i: int| 0 <= i < items@.len() ==> valid(#[trigger] items@[i]),
        Node::ComponentRef(_) => true,
    }
}

/// The handle of the live node that a node stands for. A list has none.
pub open spec fn handle_of<P>(node: Node<P>) -> Option<Handle> {
    match node {
        Node::Element(e) => e.reference,
        Node::Text(t) => t.reference,
        Node::List(_) => None,
        Node::ComponentRef(c) => c.spec_reference(),
    }
}

/// Whether the live node of `prev` stays in place for a node that looks like
/// `new`: both are of one kind, elements have one tag, nested components one
/// type, and `prev` is live. Lists have no live node of their own and are
/// always matched item by item.
pub open spec fn keeps<P>(prev: Option<Node<P>>, new: NodeView) -> bool {
    match (prev, new) {
        (Some(Node::Element(a)), NodeView::Element(b)) => a.tag@ == b.tag && a.reference is Some,
        (Some(Node::Text(a)), NodeView::Text(_)) => a.reference is Some,
        (Some(Node::List(_)), NodeView::List(_)) => true,
        (Some(Node::ComponentRef(a)), NodeView::ComponentRef(t)) => a.spec_type_id() == t
            && a.spec_reference() is Some && a.accepts() == t,
        _ => false,
    }
}

/// What reconciliation builds on: `prev` where its live node stays, nothing
/// where the new node is built afresh.
pub open spec fn basis<P>(prev: Option<Node<P>>, new: NodeView) -> Option<Node<P>> {
    if keeps(prev, new) {
        prev
    } else {
        None
    }
}

/// The children that a basis brings along.
pub open spec fn children_of<P>(basis: Option<Node<P>>) -> Seq<Node<P>> {
    match basis {
        Some(Node::Element(e)) => e.children@,
        Some(Node::List(items)) => items@,
        _ => Seq::empty(),
    }
}

/// The attributes that a basis brings along, in order.
pub open spec fn attributes_of<P>(basis: Option<Node<P>>) -> Seq<(Seq<char>, Seq<char>)> {
    match basis {
        Some(Node::Element(e)) => e.attributes.pairs(),
        _ => Seq::empty(),
    }
}

/// The classes that a basis brings along.
pub open spec fn classes_of<P>(basis: Option<Node<P>>) -> Set<Seq<char>> {
    match basis {
        Some(Node::Element(e)) => e.classes@,
        _ => Set::empty(),
    }
}

/// The node at place `k` of `prevs`, where there is one.
pub open spec fn at<P>(prevs: Seq<Node<P>>, k: int) -> Option<Node<P>> {
    if 0 <= k < prevs.len() {
        Some(prevs[k])
    } else {
        None
    }
}

/// How many fresh handles reconciliation hands out: none for a live node
/// that stays, one for each that is built.
pub open spec fn fresh<P>(prev: Option<Node<P>>, new: NodeView) -> nat
    decreases new,
{
    let basis = basis(prev, new);
    match new {
        NodeView::Element(b) => (if basis is None {
            1nat
        } else {
            0nat
        }) + total_fresh(children_of(basis), b.children),
        NodeView::Text(_) => if basis is None {
            1
        } else {
            0
        },
        NodeView::List(items) => total_fresh(children_of(basis), items),
        NodeView::ComponentRef(_) => if basis is None {
            1
        } else {
            0
        },
    }
}

/// The fresh handles for a sequence of nodes, each matched with the node at
/// its place in `prevs`.
pub open spec fn total_fresh<P>(prevs: Seq<Node<P>>, news: Seq<NodeView>) -> nat
    decreases news,
{
    if news.len() == 0 {
        0
    } else {
        total_fresh(prevs, news.drop_last()) + fresh(at(prevs, news.len() - 1), news.last())
    }
}

/// The handles that the tree `node` carries after it was reconciled with
/// `prev`, where `first` was the next fresh handle: a live node that stays
/// hands its handle on, a node that is built takes the next fresh handle, in
/// document order, and a nested component has had its properties sent.
pub open spec fn carried<P>(prev: Option<Node<P>>, node: Node<P>, first: int) -> bool
    decreases node,
{
    let basis = basis(prev, node@);
    let handle = if basis is None {
        Some(first as Handle)
    } else {
        handle_of(basis->0)
    };
    match node {
        Node::Element(e) => e.reference == handle && carried_all(
            children_of(basis),
            e.children@,
            if basis is None {
                first + 1
            } else {
                first
            },
        ),
        Node::Text(t) => t.reference == handle,
        Node::List(items) => carried_all(children_of(basis), items@, first),
        Node::ComponentRef(c) => c.spec_reference() == handle && c.pending() is None && c.accepts()
            == c.spec_type_id() && (basis is None ==> !c.mountable()),
    }
}

/// `carried` for a sequence of nodes, each matched with the node at its
/// place in `prevs`.
pub open spec fn carried_all<P>(prevs: Seq<Node<P>>, nodes: Seq<Node<P>>, first: int) -> bool
    decreases nodes,
{
    if nodes.len() == 0 {
        true
    } else {
        carried_all(prevs, nodes.drop_last(), first) && carried(
            at(prevs, nodes.len() - 1),
            nodes.last(),
            first + total_fresh(prevs, views(nodes.drop_last())),
        )
    }
}

/// Taking a subtree out of the live children of `parent`: each live node at
/// its top is removed, in order.
pub open spec fn removals<P>(node: Node<P>, parent: Handle) -> Seq<PatchView<P>>
    decreases node,
{
    match node {
        Node::List(items) => removals_all(items@, parent),
        _ => match handle_of(node) {
            Some(child) => seq![PatchView::RemoveChild { parent, child }],
            None => Seq::empty(),
        },
    }
}

/// `removals` for each node of a sequence, in order.
pub open spec fn removals_all<P>(nodes: Seq<Node<P>>, parent: Handle) -> Seq<PatchView<P>>
    decreases nodes,
{
    if nodes.len() == 0 {
        Seq::empty()
    } else {
        removals_all(nodes.drop_last(), parent) + removals(nodes.last(), parent)
    }
}

/// Giving up a subtree, depth first: the instances of nested components are
/// torn down and every handle is released, children before their parent.
pub open spec fn releases<P>(node: Node<P>) -> Seq<PatchView<P>>
    decreases node,
{
    match node {
        Node::Element(e) => releases_all(e.children@) + (match e.reference {
            Some(handle) => seq![PatchView::Release { handle }],
            None => Seq::empty(),
        }),
        Node::Text(t) => match t.reference {
            Some(handle) => seq![PatchView::Release { handle }],
            None => Seq::empty(),
        },
        Node::List(items) => releases_all(items@),
        Node::ComponentRef(c) => match c.spec_reference() {
            Some(handle) => seq![PatchView::Destroy { handle }, PatchView::Release { handle }],
            None => Seq::empty(),
        },
    }
}

/// `releases` for each node of a sequence, in order.
pub open spec fn releases_all<P>(nodes: Seq<Node<P>>) -> Seq<PatchView<P>>
    decreases nodes,
{
    if nodes.len() == 0 {
        Seq::empty()
    } else {
        releases_all(nodes.drop_last()) + releases(nodes.last())
    }
}

/// Tearing down a live subtree under `parent`: it is taken out of the live
/// tree, then given up.
pub open spec fn teardown<P>(node: Node<P>, parent: Handle) -> Seq<PatchView<P>> {
    removals(node, parent) + releases(node)
}

/// `teardown` for each node of a sequence, in order.
pub open spec fn teardown_all<P>(nodes: Seq<Node<P>>, parent: Handle) -> Seq<PatchView<P>>
    decreases nodes.len(),
{
    if nodes.len() == 0 {
        Seq::empty()
    } else {
        teardown_all(nodes.drop_last(), parent) + teardown(nodes.last(), parent)
    }
}

/// The patches that put `new` in the place of `prev` under `parent`, where
/// `new` starts at place `index` among the live children of `parent` and
/// `first` is the next fresh handle.
///
/// Where the live node of `prev` does not stay, `prev` is torn down first
/// and `new` is built: created, filled, and then inserted. Where it stays,
/// only what differs is written: attributes that are new or changed are set
/// and those that are gone removed, the class list is replaced where the set
/// changed, text is replaced where it differs, and a nested component is
/// sent its new properties. Children are reconciled place by place.
pub open spec fn patches<P>(
    prev: Option<Node<P>>,
    new: Node<P>,
    parent: Handle,
    index: int,
    first: int,
) -> Seq<PatchView<P>>
    decreases new, 0int,
{
    let basis = basis(prev, new@);
    let handle = if basis is None {
        first as Handle
    } else {
        handle_of(basis->0)->0
    };
    let gone = match prev {
        Some(p) => if basis is None {
            teardown(p, parent)
        } else {
            Seq::empty()
        },
        None => Seq::empty(),
    };
    let placed = if basis is None {
        seq![PatchView::InsertChild { parent, index: index as u64, child: handle }]
    } else {
        Seq::empty()
    };
    gone + (match new {
        Node::Element(b) => (if basis is None {
            seq![PatchView::CreateElement { handle, tag: b.tag@ }]
        } else {
            Seq::empty()
        }) + attribute_updates(handle, as_map(attributes_of(basis)), b.attributes.pairs())
            + attribute_removals(handle, attributes_of(basis), b.attributes@) + class_patches(
            handle,
            classes_of(basis),
            b.classes.tokens(),
        ) + control_patches(handle, b.tag@, option_view(b.value), b.checked) + children_patches(
            children_of(basis),
            b.children@,
            handle,
            0,
            if basis is None {
                first + 1
            } else {
                first
            },
        ) + placed,
        Node::Text(b) => match basis {
            Some(Node::Text(a)) => if a.text@ == b.text@ {
                Seq::empty()
            } else {
                seq![PatchView::SetText { handle, text: b.text@ }]
            },
            _ => seq![PatchView::CreateText { handle, text: b.text@ }] + placed,
        },
        Node::List(items) => children_patches(children_of(basis), items@, parent, index, first),
        Node::ComponentRef(c) => (if basis is None {
            seq![PatchView::Mount { handle, component: c.spec_type_id() }] + placed
        } else {
            Seq::empty()
        }) + (match c.pending() {
            Some(p) => seq![PatchView::Properties { handle, props: p.1 }],
            None => Seq::empty(),
        }),
    })
}

/// The patches for the nodes `news`, each reconciled with the node at its
/// place in `prevs`; the first of them starts at place `base` under `parent`.
pub open spec fn matched_patches<P>(
    prevs: Seq<Node<P>>,
    news: Seq<Node<P>>,
    parent: Handle,
    base: int,
    first: int,
) -> Seq<PatchView<P>>
    decreases news, 0int,
{
    if news.len() == 0 {
        Seq::empty()
    } else {
        let before = news.drop_last();
        matched_patches(prevs, before, parent, base, first) + patches(
            at(prevs, news.len() - 1),
            news.last(),
            parent,
            base + total_width(views(before)),
            first + total_fresh(prevs, views(before)),
        )
    }
}

/// The patches for a sequence of children: they are reconciled place by
/// place, then the nodes of `prevs` beyond the last place of `news` are torn
/// down.
pub open spec fn children_patches<P>(
    prevs: Seq<Node<P>>,
    news: Seq<Node<P>>,
    parent: Handle,
    base: int,
    first: int,
) -> Seq<PatchView<P>>
    decreases news, 1int,
{
    matched_patches(prevs, news, parent, base, first) + (if news.len() < prevs.len() {
        teardown_all(prevs.skip(news.len() as int), parent)
    } else {
        Seq::empty()
    })
}

/// A node takes no more places than it needs handles.
pub proof fn lemma_width_le_count(v: NodeView)
    ensures
        width(v) <= count(v),
    decreases v,
{
    match v {
        NodeView::List(items) => {
            lemma_total_width_le_count(items);
        },
        _ => {},
    }
}

/// A sequence of nodes takes no more places than it needs handles.
pub proof fn lemma_total_width_le_count(vs: Seq<NodeView>)
    ensures
        total_width(vs) <= total_count(vs),
    decreases vs,
{
    if vs.len() > 0 {
        lemma_total_width_le_count(vs.drop_last());
        lemma_width_le_count(vs.last());
    }
}

/// The first `k` nodes and the node after them need no more handles and
/// places than the whole sequence.
pub proof fn lemma_prefix_bounds(vs: Seq<NodeView>, k: int)
    requires
        0 <= k < vs.len(),
    ensures
        total_count(vs.take(k)) + count(vs[k]) <= total_count(vs),
        total_width(vs.take(k)) + width(vs[k]) <= total_width(vs),
        total_count(vs.take(k + 1)) == total_count(vs.take(k)) + count(vs[k]),
        total_width(vs.take(k + 1)) == total_width(vs.take(k)) + width(vs[k]),
    decreases vs.len() - k,
{
    let upto = vs.take(k + 1);
    assert(upto.drop_last() =~= vs.take(k));
    assert(upto.last() == vs[k]);
    if k + 1 < vs.len() {
        lemma_prefix_bounds(vs, k + 1);
    } else {
        assert(upto =~= vs);
    }
}

/// Reconciliation never needs more handles than building the tree anew.
pub proof fn lemma_fresh_le_count<P>(prev: Option<Node<P>>, v: NodeView)
    ensures
        fresh(prev, v) <= count(v),
    decreases v,
{
    let basis = basis(prev, v);
    match v {
        NodeView::Element(b) => {
            lemma_total_fresh_le_count(children_of(basis), b.children);
        },
        NodeView::List(items) => {
            lemma_total_fresh_le_count(children_of(basis), items);
        },
        _ => {},
    }
}

/// `lemma_fresh_le_count` for a sequence of nodes.
pub proof fn lemma_total_fresh_le_count<P>(prevs: Seq<Node<P>>, vs: Seq<NodeView>)
    ensures
        total_fresh(prevs, vs) <= total_count(vs),
    decreases vs,
{
    if vs.len() > 0 {
        lemma_total_fresh_le_count(prevs, vs.drop_last());
        lemma_fresh_le_count(at(prevs, vs.len() - 1), vs.last());
    }
}

/// Concatenation associates.
pub proof fn lemma_append<A>(log: Seq<A>, gone: Seq<A>, more: Seq<A>)
    ensures
        (log + gone) + more == log + (gone + more),
{
    assert((log + gone) + more =~= log + (gone + more));
}

/// Reconciling with `prev` is reconciling with what `prev` leaves to build
/// on, after `prev` was torn down where nothing of it stays.
pub proof fn lemma_on_basis<P>(prev: Option<Node<P>>, new: Node<P>, parent: Handle, index: int, first: int)
    ensures
        basis(basis(prev, new@), new@) == basis(prev, new@),
        fresh(prev, new@) == fresh(basis(prev, new@), new@),
        patches(prev, new, parent, index, first) == (match prev {
            Some(p) => if basis(prev, new@) is None {
                teardown(p, parent)
            } else {
                Seq::empty()
            },
            None => Seq::empty(),
        }) + patches(basis(prev, new@), new, parent, index, first),
{
    let ground = basis(prev, new@);
    assert(basis(ground, new@) == ground);
    let rest = patches(ground, new, parent, index, first);
    assert(Seq::<PatchView<P>>::empty() + rest =~= rest);
}

/// The handles that a node carries depend on `prev` only through what it
/// leaves to build on.
pub proof fn lemma_on_basis_carried<P>(prev: Option<Node<P>>, node: Node<P>, first: int)
    ensures
        carried(prev, node, first) == carried(basis(prev, node@), node, first),
{
    let ground = basis(prev, node@);
    assert(basis(ground, node@) == ground);
}

/// The views of the first `k` nodes are the first `k` views.
pub proof fn lemma_views_take<P>(nodes: Seq<Node<P>>, k: int)
    requires
        0 <= k <= nodes.len(),
    ensures
        views(nodes.take(k)) == views(nodes).take(k),
{
    assert(views(nodes.take(k)) =~= views(nodes).take(k));
}

} // verus!
