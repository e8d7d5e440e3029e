//! Reconciliation is faithful: where the live nodes show the old tree, the
//! patches leave live nodes that show the new tree, in the place of the old
//! one, and touch nothing else.

use crate::virtual_dom::attributes::as_map;
use crate::virtual_dom::diff::{
    at, attribute_removals, attribute_updates, carried, children_patches, class_patches,
    control_patches, count, fresh, keeps, lemma_on_basis, lemma_on_basis_carried,
    lemma_total_width_le_count, patches, teardown, valid, width,
};
use crate::virtual_dom::host::{Dom, Live, apply_all, lemma_apply_few, lemma_apply_joined};
use crate::virtual_dom::host::built::lemma_built;
use crate::virtual_dom::host::effects::{lemma_element_written, lemma_torn_down, with_children};
use crate::virtual_dom::host::seats::{descends, fits, named, reseated, seated, top};
use crate::virtual_dom::host::shown::{
    handles, lemma_shown_is_live, lemma_shows_alike, occurs_in, roots, roots_all, shows,
};
use crate::virtual_dom::host::siblings::lemma_children;
use crate::virtual_dom::laws::occurs;
use crate::virtual_dom::patch::PatchView;
use crate::virtual_dom::vcomp::Handle;
use crate::virtual_dom::vnode::{Node, option_view, views};
use vstd::prelude::*;

verus! {

/// A text that keeps its live node.
proof fn lemma_kept_text<P>(
    dom: Dom,
    prev: Node<P>,
    new: Node<P>,
    result: Node<P>,
    parent: Handle,
    left: Seq<Handle>,
    right: Seq<Handle>,
    first: int,
)
    requires
        seated(dom, Some(prev), parent, left, right, first),
        keeps(Some(prev), new@),
        new is Text,
        result@ == new@,
        carried(Some(prev), result, first),
        fits(new, left, first),
    ensures
        reseated(
            dom,
            apply_all(dom, patches(Some(prev), new, parent, left.len() as int, first)),
            Some(prev),
            result,
            parent,
            left,
            right,
            first,
            first,
        ),
        roots(result).len() == 1,
{
    let a = prev->Text_0;
    let b = new->Text_0;
    let handle = a.reference->0;
    let written = patches(Some(prev), new, parent, left.len() as int, first);
    assert(occurs(prev, handle));
    assert(roots(result) =~= roots(prev));
    assert(dom[parent] == Live { children: dom[parent].children, ..dom[parent] });
    if a.text@ == b.text@ {
        assert(written =~= Seq::<PatchView<P>>::empty());
    } else {
        let set = PatchView::<P>::SetText { handle, text: b.text@ };
        assert(written =~= seq![set]);
        lemma_apply_few(dom, set);
    }
}

/// A nested component that keeps its instance.
proof fn lemma_kept_component<P>(
    dom: Dom,
    prev: Node<P>,
    new: Node<P>,
    result: Node<P>,
    parent: Handle,
    left: Seq<Handle>,
    right: Seq<Handle>,
    first: int,
)
    requires
        seated(dom, Some(prev), parent, left, right, first),
        keeps(Some(prev), new@),
        new is ComponentRef,
        result@ == new@,
        carried(Some(prev), result, first),
        fits(new, left, first),
    ensures
        reseated(
            dom,
            apply_all(dom, patches(Some(prev), new, parent, left.len() as int, first)),
            Some(prev),
            result,
            parent,
            left,
            right,
            first,
            first,
        ),
        roots(result).len() == 1,
{
    let a = prev->ComponentRef_0;
    let c = new->ComponentRef_0;
    let handle = a.spec_reference()->0;
    let written = patches(Some(prev), new, parent, left.len() as int, first);
    assert(occurs(prev, handle));
    assert(roots(result) =~= roots(prev));
    assert(dom[parent] == Live { children: dom[parent].children, ..dom[parent] });
    match c.pending() {
        Some(waiting) => {
            let sent = PatchView::<P>::Properties { handle, props: waiting.1 };
            assert(written =~= seq![sent]);
            lemma_apply_few(dom, sent);
        },
        None => {
            assert(written =~= Seq::<PatchView<P>>::empty());
        },
    }
}

/// A list whose items are matched with those of the list before.
proof fn lemma_kept_list<P>(
    dom: Dom,
    prev: Node<P>,
    new: Node<P>,
    result: Node<P>,
    parent: Handle,
    left: Seq<Handle>,
    right: Seq<Handle>,
    first: int,
)
    requires
        seated(dom, Some(prev), parent, left, right, first),
        keeps(Some(prev), new@),
        new is List,
        valid(new),
        result@ == new@,
        carried(Some(prev), result, first),
        fits(new, left, first),
    ensures
        reseated(
            dom,
            apply_all(dom, patches(Some(prev), new, parent, left.len() as int, first)),
            Some(prev),
            result,
            parent,
            left,
            right,
            first,
            first + fresh(Some(prev), new@),
        ),
        roots(result).len() == width(new@),
    decreases new, 7int,
{
    let before = prev->List_0@;
    let items = new->List_0@;
    let results = result->List_0@;
    let last = first + fresh(Some(prev), new@);
    let written = patches(Some(prev), new, parent, left.len() as int, first);
    let inner = children_patches(before, items, parent, left.len() as int, first);
    assert(written =~= inner);
    assert(!occurs_in(before, parent)) by {
        if occurs_in(before, parent) {
            assert(occurs(prev, parent));
        }
    }
    assert forall|handle: Handle| #[trigger] occurs_in(before, handle) implies !left.contains(
        handle,
    ) by {
        assert(occurs(prev, handle));
    }
    lemma_children(dom, before, items, results, parent, left, right, first);
    let after = apply_all(dom, inner);
    assert(left + roots_all(results) + roots_all(Seq::<Node<P>>::empty()) + right =~= left + roots(
        result,
    ) + right);
    assert forall|handle: Handle| #[trigger] occurs(result, handle) implies named(
        Some(prev),
        handle,
    ) || first <= handle < last by {
        let i = choose|i: int| 0 <= i < results.len() && occurs(#[trigger] results[i], handle);
        assert(descends(at(before, i), results[i], first, last));
        if named(at(before, i), handle) {
            assert(occurs(before[i], handle));
            assert(occurs_in(before, handle));
        }
    }
    assert(!occurs(result, parent)) by {
        if occurs(result, parent) {
            assert(occurs_in(results, parent));
        }
    }
    assert forall|handle: Handle| named(Some(prev), handle) && !occurs(result, handle) implies !(
    #[trigger] after.contains_key(handle)) by {
        assert(occurs_in(before, handle));
        if occurs_in(results, handle) {
            assert(occurs(result, handle));
        }
    }
    assert forall|handle: Handle| #[trigger]
        dom.contains_key(handle) && handle != parent && !named(Some(prev), handle)
            implies after.contains_key(handle) && after[handle] == dom[handle] by {
        if occurs_in(before, handle) {
            assert(occurs(prev, handle));
        }
    }
}

/// An element that keeps its live node.
proof fn lemma_kept_element<P>(
    dom: Dom,
    prev: Node<P>,
    new: Node<P>,
    result: Node<P>,
    parent: Handle,
    left: Seq<Handle>,
    right: Seq<Handle>,
    first: int,
)
    requires
        seated(dom, Some(prev), parent, left, right, first),
        keeps(Some(prev), new@),
        new is Element,
        valid(new),
        result@ == new@,
        carried(Some(prev), result, first),
        fits(new, left, first),
    ensures
        reseated(
            dom,
            apply_all(dom, patches(Some(prev), new, parent, left.len() as int, first)),
            Some(prev),
            result,
            parent,
            left,
            right,
            first,
            first + fresh(Some(prev), new@),
        ),
        roots(result).len() == 1,
    decreases new, 7int,
{
    let a = prev->Element_0;
    let b = new->Element_0;
    let e = result->Element_0;
    let handle = a.reference->0;
    let last = first + fresh(Some(prev), new@);
    let none = Seq::<Handle>::empty();
    let own = attribute_updates::<P>(handle, as_map(a.attributes.pairs()), b.attributes.pairs())
        + attribute_removals::<P>(handle, a.attributes.pairs(), b.attributes@) + class_patches::<P>(
        handle,
        a.classes@,
        b.classes.tokens(),
    ) + control_patches::<P>(handle, b.tag@, option_view(b.value), b.checked);
    let inner = children_patches(a.children@, b.children@, handle, 0, first);
    let written = patches(Some(prev), new, parent, left.len() as int, first);
    assert(written =~= own + inner);
    assert(occurs(prev, handle));
    // the element takes its new state
    lemma_element_written::<P>(
        dom,
        handle,
        a.attributes.pairs(),
        b.attributes.pairs(),
        b.classes.tokens(),
        b.tag@,
        option_view(b.value),
        b.checked,
    );
    let dom1 = apply_all(dom, own);
    // its children are reconciled
    lemma_total_width_le_count(views(b.children@));
    assert(dom1[handle].children =~= none + roots_all(a.children@) + none);
    assert forall|i: int| 0 <= i < a.children@.len() implies shows(
        dom1,
        #[trigger] a.children@[i],
        false,
    ) by {
        assert forall|h: Handle| #[trigger] occurs(a.children@[i], h) implies dom1.contains_key(h)
            && dom1[h] == dom[h] by {
            lemma_shown_is_live(dom, a.children@[i], false, h);
            assert(occurs_in(a.children@, h));
        }
        lemma_shows_alike(dom, dom1, a.children@[i], false);
    }
    lemma_children(dom1, a.children@, b.children@, e.children@, handle, none, none, first);
    let after = apply_all(dom1, inner);
    lemma_apply_joined(dom, own, inner);
    assert(none + roots_all(e.children@) + roots_all(Seq::<Node<P>>::empty()) + none =~= roots_all(
        e.children@,
    ));
    // and the parent holds it as before
    assert(roots(result) =~= roots(prev));
    assert(!occurs_in(a.children@, parent)) by {
        if occurs_in(a.children@, parent) {
            assert(occurs(prev, parent));
        }
    }
    assert(dom1.contains_key(parent));
    assert(after.contains_key(parent) && after[parent] == dom[parent]);
    assert(dom[parent] == Live { children: dom[parent].children, ..dom[parent] });
    assert forall|i: int, h: Handle|
        0 <= i < e.children@.len() && #[trigger] occurs(e.children@[i], h) implies occurs_in(
        a.children@,
        h,
    ) || first <= h < last by {
        assert(descends(at(a.children@, i), e.children@[i], first, last));
        if named(at(a.children@, i), h) {
            assert(occurs(a.children@[i], h));
        }
    }
    assert(!occurs_in(e.children@, handle)) by {
        if occurs_in(e.children@, handle) {
            let i = choose|i: int| 0 <= i < e.children@.len() && occurs(#[trigger] e.children@[i], handle);
        }
    }
    assert(!occurs(result, parent)) by {
        if occurs_in(e.children@, parent) {
            let i = choose|i: int| 0 <= i < e.children@.len() && occurs(#[trigger] e.children@[i], parent);
        }
    }
    assert forall|h: Handle| #[trigger] occurs(result, h) implies named(Some(prev), h) || first <= h
        < last by {
        if e.reference != Some(h) {
            let i = choose|i: int| 0 <= i < e.children@.len() && occurs(#[trigger] e.children@[i], h);
            if occurs_in(a.children@, h) {
                assert(occurs(prev, h));
            }
        }
    }
    assert forall|h: Handle| named(Some(prev), h) && !occurs(result, h) implies !(
    #[trigger] after.contains_key(h)) by {
        assert(occurs_in(a.children@, h));
        if occurs_in(e.children@, h) {
            assert(occurs(result, h));
        }
    }
    assert forall|h: Handle| #[trigger] dom.contains_key(h) && h != parent && !named(Some(prev), h)
        implies after.contains_key(h) && after[h] == dom[h] by {
        if occurs_in(a.children@, h) {
            assert(occurs(prev, h));
        }
        assert(dom1.contains_key(h));
    }
}

/// A tree that is reconciled with a tree whose live node stays.
proof fn lemma_kept<P>(
    dom: Dom,
    prev: Node<P>,
    new: Node<P>,
    result: Node<P>,
    parent: Handle,
    left: Seq<Handle>,
    right: Seq<Handle>,
    first: int,
)
    requires
        seated(dom, Some(prev), parent, left, right, first),
        keeps(Some(prev), new@),
        valid(new),
        result@ == new@,
        carried(Some(prev), result, first),
        fits(new, left, first),
    ensures
        reseated(
            dom,
            apply_all(dom, patches(Some(prev), new, parent, left.len() as int, first)),
            Some(prev),
            result,
            parent,
            left,
            right,
            first,
            first + fresh(Some(prev), new@),
        ),
        roots(result).len() == width(new@),
    decreases new, 8int,
{
    match new {
        Node::Element(_) => {
            lemma_kept_element(dom, prev, new, result, parent, left, right, first);
        },
        Node::Text(_) => {
            lemma_kept_text(dom, prev, new, result, parent, left, right, first);
        },
        Node::List(_) => {
            lemma_kept_list(dom, prev, new, result, parent, left, right, first);
        },
        Node::ComponentRef(_) => {
            lemma_kept_component(dom, prev, new, result, parent, left, right, first);
        },
    }
}

/// A tree that is built after the tree before was torn down.
proof fn lemma_rebuilt<P>(
    dom: Dom,
    prev: Node<P>,
    new: Node<P>,
    result: Node<P>,
    parent: Handle,
    left: Seq<Handle>,
    right: Seq<Handle>,
    first: int,
)
    requires
        seated(dom, Some(prev), parent, left, right, first),
        !keeps(Some(prev), new@),
        valid(new),
        result@ == new@,
        carried(None, result, first),
        fits(new, left, first),
    ensures
        reseated(
            dom,
            apply_all(
                dom,
                teardown(prev, parent) + patches(None, new, parent, left.len() as int, first),
            ),
            Some(prev),
            result,
            parent,
            left,
            right,
            first,
            first + fresh(None::<Node<P>>, new@),
        ),
        roots(result).len() == width(new@),
    decreases new, 9int,
{
    let last = first + fresh(None::<Node<P>>, new@);
    let gone = teardown(prev, parent);
    let built = patches(None, new, parent, left.len() as int, first);
    lemma_torn_down(dom, prev, parent, left, right);
    let dom0 = with_children(dom, parent, left + right).remove_keys(handles(prev));
    assert(dom0.contains_key(parent));
    assert(dom0[parent].children =~= left + top(None::<Node<P>>) + right);
    lemma_built(dom0, new, result, parent, left, right, first);
    lemma_apply_joined(dom, gone, built);
    let after = apply_all(dom0, built);
    assert forall|handle: Handle| #[trigger] occurs(prev, handle) implies handle < first
        && !dom0.contains_key(handle) by {
        lemma_shown_is_live(dom, prev, false, handle);
    }
    assert forall|handle: Handle| #[trigger]
        dom.contains_key(handle) && handle != parent && !named(Some(prev), handle)
            implies after.contains_key(handle) && after[handle] == dom[handle] by {
        assert(dom0.contains_key(handle));
    }
    assert forall|handle: Handle| named(Some(prev), handle) && !occurs(result, handle) implies !(
    #[trigger] after.contains_key(handle)) by {
        if after.contains_key(handle) {
        }
    }
}

/// Where the live nodes show the tree before, the patches of a
/// reconciliation leave live nodes that show the new tree in its place.
///
/// Before: the parent is live with the children `left`, then the top nodes
/// of the tree before, then `right`; the tree before has its handles, none
/// of them twice, and the live nodes show it; no handle from `first` on is
/// live. After: the parent holds `left`, then the top nodes of the new
/// tree, then `right`; the live nodes show the new tree with its attributes,
/// classes, children and control state; the handles that the new tree does
/// not carry on are live no more; and every live node that belongs neither
/// to the old tree nor to the new one is as it was.
pub proof fn lemma_reconciled<P>(
    dom: Dom,
    prev: Option<Node<P>>,
    new: Node<P>,
    result: Node<P>,
    parent: Handle,
    left: Seq<Handle>,
    right: Seq<Handle>,
    first: int,
)
    requires
        seated(dom, prev, parent, left, right, first),
        valid(new),
        result@ == new@,
        carried(prev, result, first),
        0 <= first,
        first + count(new@) <= u64::MAX,
        left.len() + width(new@) <= u64::MAX,
    ensures
        reseated(
            dom,
            apply_all(dom, patches(prev, new, parent, left.len() as int, first)),
            prev,
            result,
            parent,
            left,
            right,
            first,
            first + fresh(prev, new@),
        ),
        roots(result).len() == width(new@),
    decreases new, 10int,
{
    lemma_on_basis(prev, new, parent, left.len() as int, first);
    lemma_on_basis_carried(prev, result, first);
    let built = patches(None, new, parent, left.len() as int, first);
    match prev {
        Some(p) => {
            if keeps(prev, new@) {
                lemma_kept(dom, p, new, result, parent, left, right, first);
            } else {
                lemma_rebuilt(dom, p, new, result, parent, left, right, first);
            }
        },
        None => {
            lemma_built(dom, new, result, parent, left, right, first);
            assert(Seq::<PatchView<P>>::empty() + built =~= built);
        },
    }
}

} // verus!
