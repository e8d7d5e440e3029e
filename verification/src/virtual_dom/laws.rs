//! What holds of every reconciliation.

use super::attributes::{as_map, has_name, lemma_as_map_entry};
use super::diff::{
    at, attribute_removals, attribute_updates, attributes_of, basis, carried, carried_all,
    children_of, children_patches, class_patches, fresh, keeps, lemma_on_basis, live,
    matched_patches, patches, releases, releases_all, removals, teardown, total_fresh, valid,
};
use super::patch::PatchView;
use super::vcomp::Handle;
use super::vnode::{views, Node};
use vstd::prelude::*;

verus! {

/// Whether `handle` names a node of the tree.
pub open spec fn occurs<P>(node: Node<P>, handle: Handle) -> bool
    decreases node,
{
    match node {
        Node::Element(e) => e.reference == Some(handle) || exists|i: int|
            0 <= i < e.children@.len() && occurs(#[trigger] e.children@[i], handle),
        Node::Text(t) => t.reference == Some(handle),
        Node::List(items) => exists|i: int|
            0 <= i < items@.len() && occurs(#[trigger] items@[i], handle),
        Node::ComponentRef(c) => c.spec_reference() == Some(handle),
    }
}

/// Whether a component that is mounted at `handle` is nested in the tree.
pub open spec fn nests<P>(node: Node<P>, handle: Handle) -> bool
    decreases node,
{
    match node {
        Node::Element(e) => exists|i: int|
            0 <= i < e.children@.len() && nests(#[trigger] e.children@[i], handle),
        Node::Text(t) => false,
        Node::List(items) => exists|i: int|
            0 <= i < items@.len() && nests(#[trigger] items@[i], handle),
        Node::ComponentRef(c) => c.spec_reference() == Some(handle),
    }
}

/// A patch that writes state which the host may have changed by itself, or
/// that hands properties to a nested component: it changes neither an
/// attribute nor the shape of the live tree.
pub open spec fn is_write<P>(patch: PatchView<P>) -> bool {
    patch is SetValue || patch is SetChecked || patch is Properties
}

/// Every patch of the sequence is a write.
pub open spec fn only_writes<P>(patches: Seq<PatchView<P>>) -> bool {
    forall|i: int| 0 <= i < patches.len() ==> is_write(#[trigger] patches[i])
}

proof fn lemma_updates_none<P>(
    handle: Handle,
    before: Map<Seq<char>, Seq<char>>,
    pairs: Seq<(Seq<char>, Seq<char>)>,
)
    requires
        forall|i: int|
            0 <= i < pairs.len() ==> before.contains_key((#[trigger] pairs[i]).0) && before[pairs[i].0]
                == pairs[i].1,
    ensures
        attribute_updates::<P>(handle, before, pairs) == Seq::<PatchView<P>>::empty(),
    decreases pairs.len(),
{
    if pairs.len() > 0 {
        lemma_updates_none::<P>(handle, before, pairs.drop_last());
        assert(pairs.last() == pairs[pairs.len() - 1]);
        assert(attribute_updates::<P>(handle, before, pairs) =~= Seq::<PatchView<P>>::empty());
    }
}

proof fn lemma_removals_none<P>(
    handle: Handle,
    pairs: Seq<(Seq<char>, Seq<char>)>,
    after: Map<Seq<char>, Seq<char>>,
)
    requires
        forall|i: int| 0 <= i < pairs.len() ==> after.contains_key((#[trigger] pairs[i]).0),
    ensures
        attribute_removals::<P>(handle, pairs, after) == Seq::<PatchView<P>>::empty(),
    decreases pairs.len(),
{
    if pairs.len() > 0 {
        lemma_removals_none::<P>(handle, pairs.drop_last(), after);
        assert(pairs.last() == pairs[pairs.len() - 1]);
        assert(attribute_removals::<P>(handle, pairs, after) =~= Seq::<PatchView<P>>::empty());
    }
}

/// A tree that is reconciled with a live tree of the same structure receives
/// no patch that changes an attribute, a class list, a text or the shape of
/// the live tree, and takes no fresh handle: what is written is control
/// state and the properties of nested components.
pub proof fn lemma_same_structure_writes_only<P>(
    prev: Node<P>,
    new: Node<P>,
    parent: Handle,
    index: int,
    first: int,
)
    requires
        live(prev),
        valid(new),
        prev@ == new@,
    ensures
        only_writes(patches(Some(prev), new, parent, index, first)),
        fresh(Some(prev), new@) == 0,
    decreases new, 1int,
{
    assert(keeps(Some(prev), new@));
    match new {
        Node::Element(b) => {
            let a = prev->Element_0;
            let h = a.reference->0;
            assert(as_map(a.attributes.pairs()) == as_map(b.attributes.pairs()));
            assert forall|i: int| 0 <= i < b.attributes.pairs().len() implies a.attributes@.contains_key(
                (#[trigger] b.attributes.pairs()[i]).0,
            ) && a.attributes@[b.attributes.pairs()[i].0] == b.attributes.pairs()[i].1 by {
                lemma_as_map_entry(b.attributes.pairs(), i);
            }
            lemma_updates_none::<P>(h, a.attributes@, b.attributes.pairs());
            assert forall|i: int| 0 <= i < a.attributes.pairs().len() implies b.attributes@.contains_key(
                (#[trigger] a.attributes.pairs()[i]).0,
            ) by {
                assert(has_name(a.attributes.pairs(), a.attributes.pairs()[i].0));
            }
            lemma_removals_none::<P>(h, a.attributes.pairs(), b.attributes@);
            assert(views(a.children@) == views(b.children@));
            lemma_same_children_write_only(a.children@, b.children@, h, 0, first);
            assert(class_patches::<P>(h, a.classes@, b.classes.tokens()) =~= Seq::empty());
        },
        Node::Text(b) => {},
        Node::List(items) => {
            let a = prev->List_0;
            assert(views(a@) == views(items@));
            lemma_same_children_write_only(a@, items@, parent, index, first);
        },
        Node::ComponentRef(c) => {},
    }
}

/// `lemma_same_structure_writes_only` for the children of a node.
pub proof fn lemma_same_children_write_only<P>(
    prevs: Seq<Node<P>>,
    news: Seq<Node<P>>,
    parent: Handle,
    base: int,
    first: int,
)
    requires
        forall|i: int| 0 <= i < prevs.len() ==> live(#[trigger] prevs[i]),
        forall|i: int| 0 <= i < news.len() ==> valid(#[trigger] news[i]),
        views(prevs) == views(news),
    ensures
        only_writes(children_patches(prevs, news, parent, base, first)),
        total_fresh(prevs, views(news)) == 0,
    decreases news, 0int,
{
    assert(views(prevs).len() == prevs.len());
    assert(views(news).len() == news.len());
    lemma_same_matched_write_only(prevs, news, news.len() as int, parent, base, first);
    assert(news.take(news.len() as int) =~= news);
    assert(children_patches(prevs, news, parent, base, first) =~= matched_patches(
        prevs,
        news,
        parent,
        base,
        first,
    ));
}

proof fn lemma_same_matched_write_only<P>(
    prevs: Seq<Node<P>>,
    news: Seq<Node<P>>,
    k: int,
    parent: Handle,
    base: int,
    first: int,
)
    requires
        forall|i: int| 0 <= i < prevs.len() ==> live(#[trigger] prevs[i]),
        forall|i: int| 0 <= i < news.len() ==> valid(#[trigger] news[i]),
        views(prevs) == views(news),
        0 <= k <= news.len(),
    ensures
        only_writes(matched_patches(prevs, news.take(k), parent, base, first)),
        total_fresh(prevs, views(news.take(k))) == 0,
    decreases news, 0int, k,
{
    if k > 0 {
        lemma_same_matched_write_only(prevs, news, k - 1, parent, base, first);
        let upto = news.take(k);
        assert(upto.drop_last() =~= news.take(k - 1));
        assert(upto.last() == news[k - 1]);
        assert(views(upto).drop_last() =~= views(news.take(k - 1)));
        assert(views(upto).last() == news[k - 1]@);
        assert(views(prevs).len() == prevs.len());
        assert(views(news).len() == news.len());
        assert(views(prevs)[k - 1] == prevs[k - 1]@);
        assert(views(news)[k - 1] == news[k - 1]@);
        assert(prevs[k - 1]@ == news[k - 1]@);
        let before = upto.drop_last();
        lemma_same_structure_writes_only(
            prevs[k - 1],
            news[k - 1],
            parent,
            base + super::diff::total_width(views(before)),
            first + total_fresh(prevs, views(before)),
        );
    } else {
        assert(news.take(0) =~= Seq::empty());
        assert(views(news.take(0)) =~= Seq::empty());
    }
}

proof fn lemma_released_all<P>(nodes: Seq<Node<P>>, i: int, handle: Handle)
    requires
        0 <= i < nodes.len(),
        releases(nodes[i]).contains(PatchView::Release { handle }),
    ensures
        releases_all(nodes).contains(PatchView::Release { handle }),
    decreases nodes.len(),
{
    let wanted = PatchView::<P>::Release { handle };
    let head = releases_all(nodes.drop_last());
    let tail = releases(nodes.last());
    if i == nodes.len() - 1 {
        let k = choose|k: int| 0 <= k < tail.len() && tail[k] == wanted;
        assert((head + tail)[head.len() + k] == wanted);
    } else {
        assert(nodes.drop_last()[i] == nodes[i]);
        lemma_released_all(nodes.drop_last(), i, handle);
        let k = choose|k: int| 0 <= k < head.len() && head[k] == wanted;
        assert((head + tail)[k] == wanted);
    }
}

/// Whether no patch of the batch asks to tear an instance down.
pub open spec fn tears_nothing<P>(batch: Seq<PatchView<P>>) -> bool {
    forall|k: int| 0 <= k < batch.len() ==> !((#[trigger] batch[k]) is Destroy)
}

proof fn lemma_updates_tear_nothing<P>(
    handle: Handle,
    before: Map<Seq<char>, Seq<char>>,
    pairs: Seq<(Seq<char>, Seq<char>)>,
)
    ensures
        tears_nothing(attribute_updates::<P>(handle, before, pairs)),
    decreases pairs.len(),
{
    if pairs.len() > 0 {
        lemma_updates_tear_nothing::<P>(handle, before, pairs.drop_last());
    }
}

proof fn lemma_removals_tear_nothing<P>(
    handle: Handle,
    pairs: Seq<(Seq<char>, Seq<char>)>,
    after: Map<Seq<char>, Seq<char>>,
)
    ensures
        tears_nothing(attribute_removals::<P>(handle, pairs, after)),
    decreases pairs.len(),
{
    if pairs.len() > 0 {
        lemma_removals_tear_nothing::<P>(handle, pairs.drop_last(), after);
    }
}

/// Building a tree where nothing was asks for no teardown.
pub proof fn lemma_build_tears_nothing<P>(new: Node<P>, parent: Handle, index: int, first: int)
    ensures
        tears_nothing(patches(None, new, parent, index, first)),
    decreases new, 1int,
{
    let nothing = None::<Node<P>>;
    assert(basis(nothing, new@) is None);
    match new {
        Node::Element(b) => {
            let handle = first as Handle;
            lemma_updates_tear_nothing::<P>(
                handle,
                as_map(attributes_of(nothing)),
                b.attributes.pairs(),
            );
            lemma_removals_tear_nothing::<P>(handle, attributes_of(nothing), b.attributes@);
            lemma_built_tear_nothing(b.children@, b.children@.len() as int, handle, 0, first + 1);
            assert(b.children@.take(b.children@.len() as int) =~= b.children@);
        },
        Node::Text(b) => {},
        Node::List(items) => {
            lemma_built_tear_nothing(items@, items@.len() as int, parent, index, first);
            assert(items@.take(items@.len() as int) =~= items@);
        },
        Node::ComponentRef(c) => {},
    }
}

proof fn lemma_built_tear_nothing<P>(
    news: Seq<Node<P>>,
    k: int,
    parent: Handle,
    base: int,
    first: int,
)
    requires
        0 <= k <= news.len(),
    ensures
        tears_nothing(
            matched_patches(Seq::<Node<P>>::empty(), news.take(k), parent, base, first),
        ),
        tears_nothing(
            children_patches(Seq::<Node<P>>::empty(), news.take(k), parent, base, first),
        ),
    decreases news, 0int, k,
{
    let nobody = Seq::<Node<P>>::empty();
    if k > 0 {
        lemma_built_tear_nothing(news, k - 1, parent, base, first);
        let upto = news.take(k);
        assert(upto.drop_last() =~= news.take(k - 1));
        assert(upto.last() == news[k - 1]);
        let before = upto.drop_last();
        lemma_build_tears_nothing(
            news[k - 1],
            parent,
            base + super::diff::total_width(views(before)),
            first + total_fresh(nobody, views(before)),
        );
    } else {
        assert(news.take(0) =~= Seq::empty());
    }
}

proof fn lemma_asked_all<P>(nodes: Seq<Node<P>>, i: int, handle: Handle)
    requires
        0 <= i < nodes.len(),
        releases(nodes[i]).contains(PatchView::Destroy { handle }),
    ensures
        releases_all(nodes).contains(PatchView::Destroy { handle }),
    decreases nodes.len(),
{
    let wanted = PatchView::<P>::Destroy { handle };
    let head = releases_all(nodes.drop_last());
    let tail = releases(nodes.last());
    if i == nodes.len() - 1 {
        let k = choose|k: int| 0 <= k < tail.len() && tail[k] == wanted;
        assert((head + tail)[head.len() + k] == wanted);
    } else {
        assert(nodes.drop_last()[i] == nodes[i]);
        lemma_asked_all(nodes.drop_last(), i, handle);
        let k = choose|k: int| 0 <= k < head.len() && head[k] == wanted;
        assert((head + tail)[k] == wanted);
    }
}

/// Tearing down a subtree asks every instance that is nested in it to be
/// torn down: for each component that is mounted in the subtree the patches
/// hold the request, by its mount point.
pub proof fn lemma_teardown_asks_every_instance<P>(node: Node<P>, parent: Handle, handle: Handle)
    requires
        nests(node, handle),
    ensures
        releases(node).contains(PatchView::Destroy { handle }),
        teardown(node, parent).contains(PatchView::Destroy { handle }),
    decreases node,
{
    let wanted = PatchView::<P>::Destroy { handle };
    match node {
        Node::Element(e) => {
            let head = releases_all(e.children@);
            let i = choose|i: int| 0 <= i < e.children@.len() && nests(#[trigger] e.children@[i], handle);
            lemma_teardown_asks_every_instance(e.children@[i], parent, handle);
            lemma_asked_all(e.children@, i, handle);
            let k = choose|k: int| 0 <= k < head.len() && head[k] == wanted;
            assert(releases(node)[k] == wanted);
        },
        Node::Text(t) => {},
        Node::List(items) => {
            let i = choose|i: int| 0 <= i < items@.len() && nests(#[trigger] items@[i], handle);
            lemma_teardown_asks_every_instance(items@[i], parent, handle);
            lemma_asked_all(items@, i, handle);
        },
        Node::ComponentRef(c) => {
            assert(releases(node)[0] == wanted);
        },
    }
    let head = removals(node, parent);
    let tail = releases(node);
    let k = choose|k: int| 0 <= k < tail.len() && tail[k] == wanted;
    assert((head + tail)[head.len() + k] == wanted);
}

/// Giving up a subtree releases every handle that names a node of it.
pub proof fn lemma_releases_every_handle<P>(node: Node<P>, handle: Handle)
    requires
        occurs(node, handle),
    ensures
        releases(node).contains(PatchView::Release { handle }),
    decreases node,
{
    let wanted = PatchView::<P>::Release { handle };
    match node {
        Node::Element(e) => {
            let head = releases_all(e.children@);
            if e.reference == Some(handle) {
                let tail = seq![wanted];
                assert(releases(node) == head + tail);
                assert((head + tail)[head.len() as int] == wanted);
            } else {
                let i = choose|i: int| 0 <= i < e.children@.len() && occurs(#[trigger] e.children@[i], handle);
                lemma_releases_every_handle(e.children@[i], handle);
                lemma_released_all(e.children@, i, handle);
                let k = choose|k: int| 0 <= k < head.len() && head[k] == wanted;
                assert(releases(node)[k] == wanted);
            }
        },
        Node::Text(t) => {
            assert(releases(node)[0] == wanted);
        },
        Node::List(items) => {
            let i = choose|i: int| 0 <= i < items@.len() && occurs(#[trigger] items@[i], handle);
            lemma_releases_every_handle(items@[i], handle);
            lemma_released_all(items@, i, handle);
        },
        Node::ComponentRef(c) => {
            assert(releases(node)[1] == wanted);
        },
    }
}

/// Where the live node of `prev` does not stay for `new` (another kind of
/// node, another tag, another component type), the patches begin with the
/// whole teardown of `prev` and go on as if `new` were built where nothing
/// was. In the teardown every handle of `prev` is released: those of its own
/// nodes and the mount points of the components that are nested in it. The
/// tree that a nested component rendered under its mount point is not part
/// of `prev`: it belongs to the instance, which the teardown asks to be torn
/// down (`lemma_teardown_asks_every_instance`). Whoever sorts the patches
/// carries that out where the request stands, which is before the mount
/// point is released and before anything of `new` is built.
pub proof fn lemma_teardown_before_build<P>(
    prev: Node<P>,
    new: Node<P>,
    parent: Handle,
    index: int,
    first: int,
)
    requires
        !keeps(Some(prev), new@),
    ensures
        patches(Some(prev), new, parent, index, first) == teardown(prev, parent) + patches(
            None,
            new,
            parent,
            index,
            first,
        ),
        forall|handle: Handle| #[trigger]
            occurs(prev, handle) ==> teardown(prev, parent).contains(PatchView::Release { handle }),
{
    lemma_on_basis(Some(prev), new, parent, index, first);
    assert forall|handle: Handle| #[trigger] occurs(prev, handle) implies teardown(
        prev,
        parent,
    ).contains(PatchView::Release { handle }) by {
        lemma_releases_every_handle(prev, handle);
        let wanted = PatchView::<P>::Release { handle };
        let head = removals(prev, parent);
        let tail = releases(prev);
        let k = choose|k: int| 0 <= k < tail.len() && tail[k] == wanted;
        assert((head + tail)[head.len() + k] == wanted);
    }
}

/// After reconciliation every node of the tree has its handle, and the
/// sender of every nested component accepts the component's own type.
pub proof fn lemma_carried_is_live<P>(prev: Option<Node<P>>, node: Node<P>, first: int)
    requires
        carried(prev, node, first),
    ensures
        live(node),
    decreases node, 1int,
{
    let basis = basis(prev, node@);
    match node {
        Node::Element(e) => {
            let child_first = if basis is None {
                first + 1
            } else {
                first
            };
            assert forall|i: int| 0 <= i < e.children@.len() implies live(#[trigger] e.children@[i]) by {
                lemma_carried_all_is_live(children_of(basis), e.children@, child_first, i);
            }
        },
        Node::Text(t) => {},
        Node::List(items) => {
            assert forall|i: int| 0 <= i < items@.len() implies live(#[trigger] items@[i]) by {
                lemma_carried_all_is_live(children_of(basis), items@, first, i);
            }
        },
        Node::ComponentRef(c) => {},
    }
}

proof fn lemma_carried_all_is_live<P>(prevs: Seq<Node<P>>, nodes: Seq<Node<P>>, first: int, i: int)
    requires
        carried_all(prevs, nodes, first),
        0 <= i < nodes.len(),
    ensures
        live(nodes[i]),
    decreases nodes, 0int, nodes.len(),
{
    if i == nodes.len() - 1 {
        lemma_carried_is_live(
            at(prevs, nodes.len() - 1),
            nodes.last(),
            first + total_fresh(prevs, views(nodes.drop_last())),
        );
    } else {
        assert(nodes.drop_last()[i] == nodes[i]);
        lemma_carried_all_is_live(prevs, nodes.drop_last(), first, i);
    }
}

} // verus!
