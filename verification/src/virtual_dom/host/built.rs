//! Building is faithful: the patches that build a tree where nothing was
//! leave live nodes that show it.

use crate::virtual_dom::attributes::as_map;
use crate::virtual_dom::diff::{
    at, attribute_removals, attribute_updates, carried, children_patches, class_patches,
    control_patches, fresh, lemma_total_width_le_count, patches, valid, width,
};
use crate::virtual_dom::host::{Dom, apply, apply_all, lemma_apply_few, lemma_apply_joined};
use crate::virtual_dom::host::effects::lemma_element_written;
use crate::virtual_dom::host::seats::{descends, fits, reseated, seated, top};
use crate::virtual_dom::host::shown::{
    lemma_shown_is_live, lemma_shows_alike, occurs_in, roots, roots_all, shows,
};
use crate::virtual_dom::host::siblings::lemma_children;
use crate::virtual_dom::laws::occurs;
use crate::virtual_dom::patch::PatchView;
use crate::virtual_dom::vcomp::Handle;
use crate::virtual_dom::vnode::{Node, option_view, views};
use vstd::prelude::*;

verus! {

/// A text that is built where nothing was.
proof fn lemma_built_text<P>(
    dom: Dom,
    new: Node<P>,
    result: Node<P>,
    parent: Handle,
    left: Seq<Handle>,
    right: Seq<Handle>,
    first: int,
)
    requires
        seated(dom, None::<Node<P>>, parent, left, right, first),
        new is Text,
        result@ == new@,
        carried(None, result, first),
        fits(new, left, first),
    ensures
        reseated(
            dom,
            apply_all(dom, patches(None, new, parent, left.len() as int, first)),
            None,
            result,
            parent,
            left,
            right,
            first,
            first + 1,
        ),
        roots(result).len() == 1,
{
    let handle = first as Handle;
    let text = new->Text_0.text@;
    let create = PatchView::<P>::CreateText { handle, text };
    let place = PatchView::<P>::InsertChild { parent, index: left.len() as u64, child: handle };
    let written = patches(None, new, parent, left.len() as int, first);
    assert(written =~= seq![create] + seq![place]);
    lemma_apply_few(dom, create);
    let dom1 = apply(dom, create);
    lemma_apply_few(dom1, place);
    lemma_apply_joined(dom, seq![create], seq![place]);
    let after = apply(dom1, place);
    assert(left + top(None::<Node<P>>) + right =~= left + right);
    assert((left + right).insert(left.len() as int, handle) =~= left + seq![handle] + right);
    assert(roots(result) =~= seq![handle]);
}

/// A nested component that is mounted where nothing was.
proof fn lemma_built_component<P>(
    dom: Dom,
    new: Node<P>,
    result: Node<P>,
    parent: Handle,
    left: Seq<Handle>,
    right: Seq<Handle>,
    first: int,
)
    requires
        seated(dom, None::<Node<P>>, parent, left, right, first),
        new is ComponentRef,
        result@ == new@,
        carried(None, result, first),
        fits(new, left, first),
    ensures
        reseated(
            dom,
            apply_all(dom, patches(None, new, parent, left.len() as int, first)),
            None,
            result,
            parent,
            left,
            right,
            first,
            first + 1,
        ),
        roots(result).len() == 1,
{
    let handle = first as Handle;
    let c = new->ComponentRef_0;
    let mount = PatchView::<P>::Mount { handle, component: c.spec_type_id() };
    let place = PatchView::<P>::InsertChild { parent, index: left.len() as u64, child: handle };
    let sent: Seq<PatchView<P>> = match c.pending() {
        Some(p) => seq![PatchView::Properties { handle, props: p.1 }],
        None => Seq::empty(),
    };
    let written = patches(None, new, parent, left.len() as int, first);
    assert(written =~= seq![mount] + seq![place] + sent);
    lemma_apply_few(dom, mount);
    let dom1 = apply(dom, mount);
    lemma_apply_few(dom1, place);
    lemma_apply_joined(dom, seq![mount], seq![place]);
    let after = apply(dom1, place);
    lemma_apply_joined(dom, seq![mount] + seq![place], sent);
    if c.pending() is Some {
        let waiting = c.pending()->0;
        lemma_apply_few(after, PatchView::<P>::Properties { handle, props: waiting.1 });
    }
    assert(apply_all(after, sent) == after);
    assert(left + top(None::<Node<P>>) + right =~= left + right);
    assert((left + right).insert(left.len() as int, handle) =~= left + seq![handle] + right);
    assert(roots(result) =~= seq![handle]);
}

/// A list that is built where nothing was.
proof fn lemma_built_list<P>(
    dom: Dom,
    new: Node<P>,
    result: Node<P>,
    parent: Handle,
    left: Seq<Handle>,
    right: Seq<Handle>,
    first: int,
)
    requires
        seated(dom, None::<Node<P>>, parent, left, right, first),
        new is List,
        valid(new),
        result@ == new@,
        carried(None, result, first),
        fits(new, left, first),
    ensures
        reseated(
            dom,
            apply_all(dom, patches(None, new, parent, left.len() as int, first)),
            None,
            result,
            parent,
            left,
            right,
            first,
            first + fresh(None::<Node<P>>, new@),
        ),
        roots(result).len() == width(new@),
    decreases new, 7int,
{
    let items = new->List_0@;
    let results = result->List_0@;
    let none = Seq::<Node<P>>::empty();
    let written = patches(None, new, parent, left.len() as int, first);
    let inner = children_patches(none, items, parent, left.len() as int, first);
    assert(written =~= inner);
    assert(roots_all(none) =~= Seq::<Handle>::empty());
    assert(left + top(None::<Node<P>>) + right =~= left + roots_all(none) + right);
    lemma_children(dom, none, items, results, parent, left, right, first);
    let after = apply_all(dom, inner);
    assert(left + roots_all(results) + roots_all(none) + right =~= left + roots(result) + right);
    assert forall|handle: Handle| #[trigger] occurs(result, handle) implies first <= handle < first
        + fresh(None::<Node<P>>, new@) by {
        let i = choose|i: int| 0 <= i < results.len() && occurs(#[trigger] results[i], handle);
        assert(descends(at(none, i), results[i], first, first + fresh(None::<Node<P>>, new@)));
    }
    assert(!occurs(result, parent)) by {
        if occurs(result, parent) {
            assert(occurs_in(results, parent));
        }
    }
}

/// An element that is built where nothing was.
proof fn lemma_built_element<P>(
    dom: Dom,
    new: Node<P>,
    result: Node<P>,
    parent: Handle,
    left: Seq<Handle>,
    right: Seq<Handle>,
    first: int,
)
    requires
        seated(dom, None::<Node<P>>, parent, left, right, first),
        new is Element,
        valid(new),
        result@ == new@,
        carried(None, result, first),
        fits(new, left, first),
    ensures
        reseated(
            dom,
            apply_all(dom, patches(None, new, parent, left.len() as int, first)),
            None,
            result,
            parent,
            left,
            right,
            first,
            first + fresh(None::<Node<P>>, new@),
        ),
        roots(result).len() == 1,
    decreases new, 7int,
{
    let b = new->Element_0;
    let e = result->Element_0;
    let handle = first as Handle;
    let none = Seq::<Node<P>>::empty();
    let nothing = Seq::<(Seq<char>, Seq<char>)>::empty();
    let last = first + fresh(None::<Node<P>>, new@);
    let create = PatchView::<P>::CreateElement { handle, tag: b.tag@ };
    let place = PatchView::<P>::InsertChild { parent, index: left.len() as u64, child: handle };
    let own = attribute_updates::<P>(handle, as_map(nothing), b.attributes.pairs())
        + attribute_removals::<P>(handle, nothing, b.attributes@) + class_patches::<P>(
        handle,
        Set::empty(),
        b.classes.tokens(),
    ) + control_patches::<P>(handle, b.tag@, option_view(b.value), b.checked);
    let inner = children_patches(none, b.children@, handle, 0, first + 1);
    let written = patches(None, new, parent, left.len() as int, first);
    assert(written =~= seq![create] + own + inner + seq![place]);
    // the element is made
    lemma_apply_few(dom, create);
    let dom1 = apply(dom, create);
    assert(as_map(nothing) =~= Map::<Seq<char>, Seq<char>>::empty());
    lemma_element_written::<P>(
        dom1,
        handle,
        nothing,
        b.attributes.pairs(),
        b.classes.tokens(),
        b.tag@,
        option_view(b.value),
        b.checked,
    );
    let dom2 = apply_all(dom1, own);
    lemma_apply_joined(dom, seq![create], own);
    // its children are built
    lemma_total_width_le_count(views(b.children@));
    assert(roots_all(none) =~= Seq::<Handle>::empty());
    assert(dom2[handle].children =~= Seq::<Handle>::empty() + roots_all(none) + Seq::<Handle>::empty());
    lemma_children(dom2, none, b.children@, e.children@, handle, Seq::empty(), Seq::empty(), first + 1);
    let dom3 = apply_all(dom2, inner);
    lemma_apply_joined(dom, seq![create] + own, inner);
    // and it takes its place
    assert(dom3.contains_key(parent) && dom3[parent] == dom[parent]) by {
        assert(dom2.contains_key(parent));
    }
    lemma_apply_few(dom3, place);
    let after = apply(dom3, place);
    lemma_apply_joined(dom, seq![create] + own + inner, seq![place]);
    assert(left + top(None::<Node<P>>) + right =~= left + right);
    assert((left + right).insert(left.len() as int, handle) =~= left + seq![handle] + right);
    assert(roots(result) =~= seq![handle]);
    assert(Seq::<Handle>::empty() + roots_all(e.children@) + roots_all(none) + Seq::<Handle>::empty()
        =~= roots_all(e.children@));
    assert forall|i: int, h: Handle|
        0 <= i < e.children@.len() && #[trigger] occurs(e.children@[i], h) implies first + 1 <= h
        < last by {
        assert(descends(at(none, i), e.children@[i], first + 1, last));
    }
    assert forall|i: int| 0 <= i < e.children@.len() implies shows(
        after,
        #[trigger] e.children@[i],
        true,
    ) by {
        assert forall|h: Handle| #[trigger] occurs(e.children@[i], h) implies after.contains_key(h)
            && after[h] == dom3[h] by {
            lemma_shown_is_live(dom3, e.children@[i], true, h);
        }
        lemma_shows_alike(dom3, after, e.children@[i], true);
    }
    assert(!occurs_in(e.children@, handle)) by {
        if occurs_in(e.children@, handle) {
            let i = choose|i: int| 0 <= i < e.children@.len() && occurs(#[trigger] e.children@[i], handle);
        }
    }
    assert(!occurs(result, parent)) by {
        if occurs_in(e.children@, parent) {
            let i = choose|i: int| 0 <= i < e.children@.len() && occurs(#[trigger] e.children@[i], parent);
        }
    }
    assert forall|h: Handle| #[trigger] dom.contains_key(h) && h != parent implies after.contains_key(
        h,
    ) && after[h] == dom[h] by {
        assert(dom2.contains_key(h));
    }
    assert(after[handle] == dom3[handle]);
    assert forall|h: Handle| #[trigger] occurs(result, h) implies first <= h < last by {
        if e.reference != Some(h) {
            let i = choose|i: int| 0 <= i < e.children@.len() && occurs(#[trigger] e.children@[i], h);
        }
    }
}

/// A tree that is built where nothing was.
pub proof fn lemma_built<P>(
    dom: Dom,
    new: Node<P>,
    result: Node<P>,
    parent: Handle,
    left: Seq<Handle>,
    right: Seq<Handle>,
    first: int,
)
    requires
        seated(dom, None::<Node<P>>, parent, left, right, first),
        valid(new),
        result@ == new@,
        carried(None, result, first),
        fits(new, left, first),
    ensures
        reseated(
            dom,
            apply_all(dom, patches(None, new, parent, left.len() as int, first)),
            None,
            result,
            parent,
            left,
            right,
            first,
            first + fresh(None::<Node<P>>, new@),
        ),
        roots(result).len() == width(new@),
    decreases new, 8int,
{
    match new {
        Node::Element(_) => {
            lemma_built_element(dom, new, result, parent, left, right, first);
        },
        Node::Text(_) => {
            lemma_built_text(dom, new, result, parent, left, right, first);
        },
        Node::List(_) => {
            lemma_built_list(dom, new, result, parent, left, right, first);
        },
        Node::ComponentRef(_) => {
            lemma_built_component(dom, new, result, parent, left, right, first);
        },
    }
}

} // verus!
