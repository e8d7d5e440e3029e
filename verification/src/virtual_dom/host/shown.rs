//! What it is for the live nodes to show a tree, and what holds of the
//! handles of trees that are shown.

use crate::virtual_dom::diff::{handle_of, is_control};
use crate::virtual_dom::host::{Dom, Kind};
use crate::virtual_dom::laws::occurs;
use crate::virtual_dom::vcomp::Handle;
use crate::virtual_dom::vnode::{Node, option_view};
use vstd::prelude::*;

verus! {

/// The handles at the top of a tree: those of the live nodes that stand
/// among the children of the parent, in order.
pub open spec fn roots<P>(node: Node<P>) -> Seq<Handle>
    decreases node,
{
    match node {
        Node::List(items) => roots_all(items@),
        _ => match handle_of(node) {
            Some(handle) => seq![handle],
            None => Seq::empty(),
        },
    }
}

/// The handles at the top of each of the trees, in order.
pub open spec fn roots_all<P>(nodes: Seq<Node<P>>) -> Seq<Handle>
    decreases nodes,
{
    if nodes.len() == 0 {
        Seq::empty()
    } else {
        roots_all(nodes.drop_last()) + roots(nodes.last())
    }
}

/// Whether the live nodes show the tree: every node of the tree has its
/// live node, of its kind, with its attributes and classes, and the children
/// of an element are the nodes at the top of its children, in order. With
/// `strict`, controls hold the control state of the tree as well; without,
/// their state is whatever the host made of it.
pub open spec fn shows<P>(dom: Dom, node: Node<P>, strict: bool) -> bool
    decreases node,
{
    match node {
        Node::Element(e) => {
            &&& e.reference matches Some(handle)
            &&& dom.contains_key(handle)
            &&& dom[handle].kind == Kind::Element(e.tag@)
            &&& dom[handle].attributes == e.attributes@
            &&& dom[handle].classes == e.classes@
            &&& strict && is_control(e.tag@) ==> dom[handle].value == option_view(e.value)
                && dom[handle].checked == e.checked
            &&& dom[handle].children == roots_all(e.children@)
            &&& forall|i: int| 0 <= i < e.children@.len() ==> shows(dom, #[trigger] e.children@[i], strict)
        },
        Node::Text(t) => {
            &&& t.reference matches Some(handle)
            &&& dom.contains_key(handle)
            &&& dom[handle].kind == Kind::Text(t.text@)
        },
        Node::List(items) => forall|i: int|
            0 <= i < items@.len() ==> shows(dom, #[trigger] items@[i], strict),
        Node::ComponentRef(c) => {
            &&& c.spec_reference() matches Some(handle)
            &&& dom.contains_key(handle)
            &&& dom[handle].kind == Kind::MountPoint(c.spec_type_id())
        },
    }
}

/// Whether `handle` names a node of one of the trees.
pub open spec fn occurs_in<P>(nodes: Seq<Node<P>>, handle: Handle) -> bool {
    exists|i: int| 0 <= i < nodes.len() && occurs(#[trigger] nodes[i], handle)
}

/// No handle names nodes of two of the trees.
pub open spec fn apart<P>(nodes: Seq<Node<P>>) -> bool {
    forall|i: int, j: int, handle: Handle|
        0 <= i < j < nodes.len() ==> !(#[trigger] occurs(nodes[i], handle) && #[trigger] occurs(
            nodes[j],
            handle,
        ))
}

/// No handle names two nodes of the tree.
pub open spec fn tidy<P>(node: Node<P>) -> bool
    decreases node,
{
    match node {
        Node::Element(e) => {
            &&& forall|i: int| 0 <= i < e.children@.len() ==> tidy(#[trigger] e.children@[i])
            &&& apart(e.children@)
            &&& e.reference matches Some(handle) ==> !occurs_in(e.children@, handle)
        },
        Node::Text(_) => true,
        Node::List(items) => {
            &&& forall|i: int| 0 <= i < items@.len() ==> tidy(#[trigger] items@[i])
            &&& apart(items@)
        },
        Node::ComponentRef(_) => true,
    }
}

/// The handles of a tree.
pub open spec fn handles<P>(node: Node<P>) -> Set<Handle> {
    Set::new(|handle: Handle| occurs(node, handle))
}

/// The handles of a sequence of trees.
pub open spec fn handles_all<P>(nodes: Seq<Node<P>>) -> Set<Handle> {
    Set::new(|handle: Handle| occurs_in(nodes, handle))
}

/// The handles at the top of a tree name nodes of the tree.
pub proof fn lemma_roots_occur<P>(node: Node<P>, handle: Handle)
    requires
        roots(node).contains(handle),
    ensures
        occurs(node, handle),
    decreases node, 1int,
{
    match node {
        Node::List(items) => {
            lemma_roots_all_occur(items@, handle);
        },
        _ => {
            assert(roots(node)[0] == handle);
        },
    }
}

/// The handles at the top of trees name nodes of the trees.
pub proof fn lemma_roots_all_occur<P>(nodes: Seq<Node<P>>, handle: Handle)
    requires
        roots_all(nodes).contains(handle),
    ensures
        occurs_in(nodes, handle),
    decreases nodes, 0int,
{
    if nodes.len() > 0 {
        let front = roots_all(nodes.drop_last());
        let back = roots(nodes.last());
        let k = choose|k: int| 0 <= k < (front + back).len() && (front + back)[k] == handle;
        if k < front.len() {
            assert(front[k] == handle);
            lemma_roots_all_occur(nodes.drop_last(), handle);
            let i = choose|i: int|
                0 <= i < nodes.drop_last().len() && occurs(#[trigger] nodes.drop_last()[i], handle);
            assert(nodes[i] == nodes.drop_last()[i]);
        } else {
            assert(back[k - front.len()] == handle);
            lemma_roots_occur(nodes.last(), handle);
            assert(nodes[nodes.len() - 1] == nodes.last());
        }
    }
}

/// The top nodes of the first tree stand before those of the others.
pub proof fn lemma_roots_from_front<P>(nodes: Seq<Node<P>>)
    requires
        nodes.len() > 0,
    ensures
        roots_all(nodes) == roots(nodes[0]) + roots_all(nodes.skip(1)),
    decreases nodes.len(),
{
    if nodes.len() == 1 {
        assert(nodes.drop_last() =~= Seq::empty());
        assert(nodes.skip(1) =~= Seq::empty());
        assert(roots_all(nodes.drop_last()) =~= Seq::empty());
        assert(roots_all(nodes) =~= roots(nodes[0]) + roots_all(nodes.skip(1)));
    } else {
        let front = nodes.drop_last();
        lemma_roots_from_front(front);
        assert(front[0] == nodes[0]);
        assert(front.skip(1) =~= nodes.skip(1).drop_last());
        assert(nodes.skip(1).last() == nodes.last());
        assert(roots_all(nodes) =~= roots(nodes[0]) + roots_all(nodes.skip(1)));
    }
}

/// The top nodes of trees, split behind the first `k` trees.
pub proof fn lemma_roots_split<P>(nodes: Seq<Node<P>>, k: int)
    requires
        0 <= k < nodes.len(),
    ensures
        roots_all(nodes.skip(k)) == roots(nodes[k]) + roots_all(nodes.skip(k + 1)),
        roots_all(nodes.take(k + 1)) == roots_all(nodes.take(k)) + roots(nodes[k]),
{
    lemma_roots_from_front(nodes.skip(k));
    assert(nodes.skip(k).skip(1) =~= nodes.skip(k + 1));
    assert(nodes.take(k + 1).drop_last() =~= nodes.take(k));
    assert(nodes.take(k + 1).last() == nodes[k]);
}

/// Live nodes that agree on the handles of a tree show the tree alike.
pub proof fn lemma_shows_alike<P>(dom: Dom, other: Dom, node: Node<P>, strict: bool)
    requires
        shows(dom, node, strict),
        forall|handle: Handle| #[trigger]
            occurs(node, handle) ==> other.contains_key(handle) && other[handle] == dom[handle],
    ensures
        shows(other, node, strict),
    decreases node,
{
    match node {
        Node::Element(e) => {
            assert(occurs(node, e.reference->0));
            assert forall|i: int| 0 <= i < e.children@.len() implies shows(
                other,
                #[trigger] e.children@[i],
                strict,
            ) by {
                assert forall|handle: Handle| #[trigger]
                    occurs(e.children@[i], handle) implies other.contains_key(handle)
                    && other[handle] == dom[handle] by {
                    assert(occurs(node, handle));
                }
                lemma_shows_alike(dom, other, e.children@[i], strict);
            }
        },
        Node::Text(t) => {
            assert(occurs(node, t.reference->0));
        },
        Node::List(items) => {
            assert forall|i: int| 0 <= i < items@.len() implies shows(
                other,
                #[trigger] items@[i],
                strict,
            ) by {
                assert forall|handle: Handle| #[trigger]
                    occurs(items@[i], handle) implies other.contains_key(handle) && other[handle]
                    == dom[handle] by {
                    assert(occurs(node, handle));
                }
                lemma_shows_alike(dom, other, items@[i], strict);
            }
        },
        Node::ComponentRef(c) => {
            assert(occurs(node, c.spec_reference()->0));
        },
    }
}

/// Live nodes that show a tree hold a live node for each handle of the tree.
pub proof fn lemma_shown_is_live<P>(dom: Dom, node: Node<P>, strict: bool, handle: Handle)
    requires
        shows(dom, node, strict),
        occurs(node, handle),
    ensures
        dom.contains_key(handle),
    decreases node,
{
    match node {
        Node::Element(e) => {
            if e.reference != Some(handle) {
                let i = choose|i: int|
                    0 <= i < e.children@.len() && occurs(#[trigger] e.children@[i], handle);
                lemma_shown_is_live(dom, e.children@[i], strict, handle);
            }
        },
        Node::List(items) => {
            let i = choose|i: int| 0 <= i < items@.len() && occurs(#[trigger] items@[i], handle);
            lemma_shown_is_live(dom, items@[i], strict, handle);
        },
        _ => {},
    }
}

} // verus!
