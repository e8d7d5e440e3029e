//! What the patches for one element, and those that tear a tree down, do to
//! the live nodes.

use crate::virtual_dom::attributes::{
    as_map, distinct_names, has_name, lemma_as_map_entry, position_of,
};
use crate::virtual_dom::diff::{
    attribute_removals, attribute_updates, class_patches, control_patches, handle_of, is_control,
    releases, releases_all, removals, removals_all, teardown, teardown_all,
};
use crate::virtual_dom::host::{Dom, Live, apply, apply_all, lemma_apply_few, lemma_apply_joined};
use crate::virtual_dom::host::shown::{handles, handles_all, occurs_in, roots, roots_all};
use crate::virtual_dom::laws::occurs;
use crate::virtual_dom::patch::PatchView;
use crate::virtual_dom::vcomp::Handle;
use crate::virtual_dom::vnode::Node;
use vstd::prelude::*;

verus! {

/// `before` with the entries of `pairs` written over it.
pub open spec fn overwritten(before: Map<Seq<char>, Seq<char>>, pairs: Seq<(Seq<char>, Seq<char>)>) -> Map<
    Seq<char>,
    Seq<char>,
> {
    Map::new(
        |name: Seq<char>| before.contains_key(name) || has_name(pairs, name),
        |name: Seq<char>|
            if has_name(pairs, name) {
                as_map(pairs)[name]
            } else {
                before[name]
            },
    )
}

/// `from` without the names of `pairs` that `after` does not hold.
pub open spec fn pruned(
    from: Map<Seq<char>, Seq<char>>,
    pairs: Seq<(Seq<char>, Seq<char>)>,
    after: Map<Seq<char>, Seq<char>>,
) -> Map<Seq<char>, Seq<char>> {
    Map::new(
        |name: Seq<char>| from.contains_key(name) && !(has_name(pairs, name) && !after.contains_key(name)),
        |name: Seq<char>| from[name],
    )
}

/// `dom` with the attributes of `handle` replaced.
pub open spec fn with_attributes(dom: Dom, handle: Handle, attributes: Map<Seq<char>, Seq<char>>) -> Dom {
    dom.insert(handle, Live { attributes, ..dom[handle] })
}

proof fn lemma_distinct_prefix(pairs: Seq<(Seq<char>, Seq<char>)>)
    requires
        distinct_names(pairs),
        pairs.len() > 0,
    ensures
        distinct_names(pairs.drop_last()),
        !has_name(pairs.drop_last(), pairs.last().0),
        forall|name: Seq<char>|
            has_name(pairs, name) <==> (has_name(pairs.drop_last(), name) || name == pairs.last().0),
        forall|name: Seq<char>| #[trigger]
            has_name(pairs.drop_last(), name) ==> as_map(pairs)[name] == as_map(pairs.drop_last())[name],
        as_map(pairs)[pairs.last().0] == pairs.last().1,
{
    let front = pairs.drop_last();
    let n = pairs.len() - 1;
    assert forall|i: int, j: int| 0 <= i < j < front.len() implies (#[trigger] front[i]).0 != (
    #[trigger] front[j]).0 by {
        assert(front[i] == pairs[i]);
        assert(front[j] == pairs[j]);
    }
    if has_name(front, pairs.last().0) {
        let p = position_of(front, pairs.last().0);
        assert(front[p] == pairs[p]);
        assert(pairs[p].0 == pairs[n].0);
    }
    assert forall|name: Seq<char>|
        has_name(pairs, name) <==> (has_name(front, name) || name == pairs.last().0) by {
        if has_name(pairs, name) {
            let p = position_of(pairs, name);
            if p < n {
                assert(front[p] == pairs[p]);
            }
        }
        if has_name(front, name) {
            let p = position_of(front, name);
            assert(front[p] == pairs[p]);
        }
        assert(pairs[n] == pairs.last());
    }
    assert forall|name: Seq<char>| #[trigger] has_name(front, name) implies as_map(pairs)[name]
        == as_map(front)[name] by {
        let p = position_of(front, name);
        assert(front[p] == pairs[p]);
        lemma_as_map_entry(front, p);
        lemma_as_map_entry(pairs, p);
    }
    lemma_as_map_entry(pairs, n);
}

/// Setting the attributes that are new or changed writes `pairs` over what
/// the element held.
pub proof fn lemma_attributes_set<P>(
    dom: Dom,
    handle: Handle,
    before: Map<Seq<char>, Seq<char>>,
    pairs: Seq<(Seq<char>, Seq<char>)>,
)
    requires
        dom.contains_key(handle),
        dom[handle].attributes == before,
        distinct_names(pairs),
    ensures
        apply_all(dom, attribute_updates::<P>(handle, before, pairs)) == with_attributes(
            dom,
            handle,
            overwritten(before, pairs),
        ),
    decreases pairs.len(),
{
    if pairs.len() == 0 {
        assert(overwritten(before, pairs) =~= before);
        assert(with_attributes(dom, handle, before) =~= dom);
    } else {
        let front = pairs.drop_last();
        let last = pairs.last();
        lemma_distinct_prefix(pairs);
        lemma_attributes_set::<P>(dom, handle, before, front);
        let middle = with_attributes(dom, handle, overwritten(before, front));
        let same = before.contains_key(last.0) && before[last.0] == last.1;
        let tail: Seq<PatchView<P>> = if same {
            Seq::empty()
        } else {
            seq![PatchView::SetAttribute { handle, name: last.0, value: last.1 }]
        };
        lemma_apply_joined(dom, attribute_updates::<P>(handle, before, front), tail);
        lemma_apply_few(middle, PatchView::<P>::SetAttribute { handle, name: last.0, value: last.1 });
        if same {
            assert(overwritten(before, pairs) =~= overwritten(before, front));
        } else {
            assert(overwritten(before, pairs) =~= overwritten(before, front).insert(last.0, last.1));
            assert(apply_all(middle, tail) =~= with_attributes(dom, handle, overwritten(before, pairs)));
        }
    }
}

/// Removing the attributes that are gone prunes what the element held.
pub proof fn lemma_attributes_removed<P>(
    dom: Dom,
    handle: Handle,
    pairs: Seq<(Seq<char>, Seq<char>)>,
    after: Map<Seq<char>, Seq<char>>,
)
    requires
        dom.contains_key(handle),
    ensures
        apply_all(dom, attribute_removals::<P>(handle, pairs, after)) == with_attributes(
            dom,
            handle,
            pruned(dom[handle].attributes, pairs, after),
        ),
    decreases pairs.len(),
{
    let held = dom[handle].attributes;
    if pairs.len() == 0 {
        assert(pruned(held, pairs, after) =~= held);
        assert(with_attributes(dom, handle, held) =~= dom);
    } else {
        let front = pairs.drop_last();
        let last = pairs.last();
        lemma_attributes_removed::<P>(dom, handle, front, after);
        let middle = with_attributes(dom, handle, pruned(held, front, after));
        let tail: Seq<PatchView<P>> = if after.contains_key(last.0) {
            Seq::empty()
        } else {
            seq![PatchView::RemoveAttribute { handle, name: last.0 }]
        };
        lemma_apply_joined(dom, attribute_removals::<P>(handle, front, after), tail);
        lemma_apply_few(middle, PatchView::<P>::RemoveAttribute { handle, name: last.0 });
        assert forall|name: Seq<char>|
            has_name(pairs, name) <==> (has_name(front, name) || name == last.0) by {
            if has_name(pairs, name) {
                let p = position_of(pairs, name);
                if p < pairs.len() - 1 {
                    assert(front[p] == pairs[p]);
                }
            }
            if has_name(front, name) {
                let p = position_of(front, name);
                assert(front[p] == pairs[p]);
            }
            assert(pairs[pairs.len() - 1] == last);
        }
        if after.contains_key(last.0) {
            assert(pruned(held, pairs, after) =~= pruned(held, front, after));
        } else {
            assert(pruned(held, pairs, after) =~= pruned(held, front, after).remove(last.0));
            assert(apply_all(middle, tail) =~= with_attributes(dom, handle, pruned(held, pairs, after)));
        }
    }
}

/// The patches for the attributes of an element leave it with the new
/// attributes, and change nothing else.
pub proof fn lemma_attributes_written<P>(
    dom: Dom,
    handle: Handle,
    before: Seq<(Seq<char>, Seq<char>)>,
    pairs: Seq<(Seq<char>, Seq<char>)>,
)
    requires
        dom.contains_key(handle),
        dom[handle].attributes == as_map(before),
        distinct_names(pairs),
    ensures
        apply_all(
            dom,
            attribute_updates::<P>(handle, as_map(before), pairs) + attribute_removals::<P>(
                handle,
                before,
                as_map(pairs),
            ),
        ) == with_attributes(dom, handle, as_map(pairs)),
{
    let updates = attribute_updates::<P>(handle, as_map(before), pairs);
    let removals = attribute_removals::<P>(handle, before, as_map(pairs));
    lemma_attributes_set::<P>(dom, handle, as_map(before), pairs);
    let middle = with_attributes(dom, handle, overwritten(as_map(before), pairs));
    lemma_attributes_removed::<P>(middle, handle, before, as_map(pairs));
    lemma_apply_joined(dom, updates, removals);
    let written = pruned(overwritten(as_map(before), pairs), before, as_map(pairs));
    assert(written =~= as_map(pairs));
    assert(with_attributes(middle, handle, written) =~= with_attributes(dom, handle, as_map(pairs)));
}

/// The patch for the classes of an element leaves it with the new classes,
/// and changes nothing else.
pub proof fn lemma_classes_written<P>(dom: Dom, handle: Handle, tokens: Seq<Seq<char>>)
    requires
        dom.contains_key(handle),
    ensures
        apply_all(dom, class_patches::<P>(handle, dom[handle].classes, tokens)) == dom.insert(
            handle,
            Live { classes: tokens.to_set(), ..dom[handle] },
        ),
{
    if tokens.to_set() == dom[handle].classes {
        assert(dom.insert(handle, Live { classes: tokens.to_set(), ..dom[handle] }) =~= dom);
    } else {
        lemma_apply_few(dom, PatchView::<P>::SetClasses { handle, classes: tokens });
    }
}

/// The patches for the control state of an element leave a control with the
/// new state, whatever it held, and change nothing else.
pub proof fn lemma_control_written<P>(
    dom: Dom,
    handle: Handle,
    tag: Seq<char>,
    value: Option<Seq<char>>,
    checked: bool,
)
    requires
        dom.contains_key(handle),
    ensures
        apply_all(dom, control_patches::<P>(handle, tag, value, checked)) == if is_control(tag) {
            dom.insert(handle, Live { value, checked, ..dom[handle] })
        } else {
            dom
        },
{
    if is_control(tag) {
        let first = PatchView::<P>::SetValue { handle, value };
        let second = PatchView::<P>::SetChecked { handle, checked };
        lemma_apply_few(dom, first);
        lemma_apply_few(apply(dom, first), second);
        lemma_apply_joined(dom, seq![first], seq![second]);
        assert(seq![first] + seq![second] =~= seq![first, second]);
        assert(apply(apply(dom, first), second) =~= dom.insert(
            handle,
            Live { value, checked, ..dom[handle] },
        ));
    }
}

/// The patches for the state of an element's own leave it with the new
/// attributes and classes, and a control with the new control state.
pub proof fn lemma_element_written<P>(
    dom: Dom,
    handle: Handle,
    before: Seq<(Seq<char>, Seq<char>)>,
    pairs: Seq<(Seq<char>, Seq<char>)>,
    tokens: Seq<Seq<char>>,
    tag: Seq<char>,
    value: Option<Seq<char>>,
    checked: bool,
)
    requires
        dom.contains_key(handle),
        dom[handle].attributes == as_map(before),
        distinct_names(pairs),
    ensures
        apply_all(
            dom,
            attribute_updates::<P>(handle, as_map(before), pairs) + attribute_removals::<P>(
                handle,
                before,
                as_map(pairs),
            ) + class_patches::<P>(handle, dom[handle].classes, tokens) + control_patches::<P>(
                handle,
                tag,
                value,
                checked,
            ),
        ) == dom.insert(
            handle,
            Live {
                attributes: as_map(pairs),
                classes: tokens.to_set(),
                value: if is_control(tag) {
                    value
                } else {
                    dom[handle].value
                },
                checked: if is_control(tag) {
                    checked
                } else {
                    dom[handle].checked
                },
                ..dom[handle]
            },
        ),
{
    let written = attribute_updates::<P>(handle, as_map(before), pairs) + attribute_removals::<P>(
        handle,
        before,
        as_map(pairs),
    );
    let classes = class_patches::<P>(handle, dom[handle].classes, tokens);
    let control = control_patches::<P>(handle, tag, value, checked);
    lemma_attributes_written::<P>(dom, handle, before, pairs);
    let dom1 = with_attributes(dom, handle, as_map(pairs));
    lemma_classes_written::<P>(dom1, handle, tokens);
    let dom2 = dom1.insert(handle, Live { classes: tokens.to_set(), ..dom1[handle] });
    lemma_control_written::<P>(dom2, handle, tag, value, checked);
    lemma_apply_joined(dom, written, classes);
    lemma_apply_joined(dom, written + classes, control);
    let wanted = dom.insert(
        handle,
        Live {
            attributes: as_map(pairs),
            classes: tokens.to_set(),
            value: if is_control(tag) {
                value
            } else {
                dom[handle].value
            },
            checked: if is_control(tag) {
                checked
            } else {
                dom[handle].checked
            },
            ..dom[handle]
        },
    );
    assert(apply_all(dom2, control) =~= wanted);
}

/// `dom` with the children of `parent` replaced.
pub open spec fn with_children(dom: Dom, parent: Handle, children: Seq<Handle>) -> Dom {
    dom.insert(parent, Live { children, ..dom[parent] })
}

/// Taking out a value that stands right behind `left`, and not in it.
pub proof fn lemma_remove_value(left: Seq<Handle>, handle: Handle, right: Seq<Handle>)
    requires
        !left.contains(handle),
    ensures
        (left + seq![handle] + right).remove_value(handle) == left + right,
{
    let whole = left + seq![handle] + right;
    whole.index_of_first_ensures(handle);
    assert(whole[left.len() as int] == handle);
    let found = whole.index_of_first(handle)->0;
    if found < left.len() {
        assert(left[found] == handle);
    }
    assert(found == left.len());
    assert(whole.remove(found) =~= left + right);
}

/// Taking a tree out of the children of its parent leaves the children
/// around it, where its top nodes stood together and none of them stands
/// before them as well.
pub proof fn lemma_removed<P>(
    dom: Dom,
    node: Node<P>,
    parent: Handle,
    left: Seq<Handle>,
    right: Seq<Handle>,
)
    requires
        dom.contains_key(parent),
        dom[parent].children == left + roots(node) + right,
        forall|handle: Handle| #[trigger] occurs(node, handle) ==> !left.contains(handle),
    ensures
        apply_all(dom, removals(node, parent)) == with_children(dom, parent, left + right),
    decreases node, 1int,
{
    match node {
        Node::List(items) => {
            assert forall|handle: Handle| #[trigger] occurs_in(items@, handle) implies !left.contains(
                handle,
            ) by {
                assert(occurs(node, handle));
            }
            lemma_removed_all(dom, items@, parent, left, right);
        },
        _ => {
            match handle_of(node) {
                Some(child) => {
                    assert(occurs(node, child));
                    lemma_apply_few(dom, PatchView::<P>::RemoveChild { parent, child });
                    lemma_remove_value(left, child, right);
                },
                None => {
                    lemma_apply_few(dom, PatchView::<P>::Release { handle: 0 });
                    assert(left + roots(node) + right =~= left + right);
                    assert(with_children(dom, parent, left + right) =~= dom);
                },
            }
        },
    }
}

/// `lemma_removed` for a sequence of trees.
pub proof fn lemma_removed_all<P>(
    dom: Dom,
    nodes: Seq<Node<P>>,
    parent: Handle,
    left: Seq<Handle>,
    right: Seq<Handle>,
)
    requires
        dom.contains_key(parent),
        dom[parent].children == left + roots_all(nodes) + right,
        forall|handle: Handle| #[trigger] occurs_in(nodes, handle) ==> !left.contains(handle),
    ensures
        apply_all(dom, removals_all(nodes, parent)) == with_children(dom, parent, left + right),
    decreases nodes, 0int,
{
    if nodes.len() == 0 {
        assert(left + roots_all(nodes) + right =~= left + right);
        assert(with_children(dom, parent, left + right) =~= dom);
    } else {
        let front = nodes.drop_last();
        let last = nodes.last();
        let behind = roots(last) + right;
        assert(left + roots_all(nodes) + right =~= left + roots_all(front) + behind);
        assert forall|handle: Handle| #[trigger] occurs_in(front, handle) implies !left.contains(
            handle,
        ) by {
            let i = choose|i: int| 0 <= i < front.len() && occurs(#[trigger] front[i], handle);
            assert(nodes[i] == front[i]);
            assert(occurs_in(nodes, handle));
        }
        lemma_removed_all(dom, front, parent, left, behind);
        let middle = with_children(dom, parent, left + behind);
        assert(left + behind =~= left + roots(last) + right);
        assert forall|handle: Handle| #[trigger] occurs(last, handle) implies !left.contains(
            handle,
        ) by {
            assert(nodes[nodes.len() - 1] == last);
            assert(occurs_in(nodes, handle));
        }
        lemma_removed(middle, last, parent, left, right);
        lemma_apply_joined(dom, removals_all(front, parent), removals(last, parent));
        assert(with_children(middle, parent, left + right) =~= with_children(dom, parent, left + right));
    }
}

/// Giving a tree up takes the live nodes of its handles away, and none
/// else.
pub proof fn lemma_released<P>(dom: Dom, node: Node<P>)
    ensures
        apply_all(dom, releases(node)) == dom.remove_keys(handles(node)),
    decreases node, 1int,
{
    match node {
        Node::Element(e) => {
            lemma_released_all(dom, e.children@);
            let middle = dom.remove_keys(handles_all(e.children@));
            match e.reference {
                Some(handle) => {
                    lemma_apply_few(middle, PatchView::<P>::Release { handle });
                    lemma_apply_joined(
                        dom,
                        releases_all(e.children@),
                        seq![PatchView::<P>::Release { handle }],
                    );
                    assert(middle.remove(handle) =~= dom.remove_keys(handles(node)));
                },
                None => {
                    lemma_apply_few(middle, PatchView::<P>::Release { handle: 0 });
                    lemma_apply_joined(dom, releases_all(e.children@), Seq::<PatchView<P>>::empty());
                    assert(middle =~= dom.remove_keys(handles(node)));
                },
            }
        },
        Node::Text(t) => {
            match t.reference {
                Some(handle) => {
                    lemma_apply_few(dom, PatchView::<P>::Release { handle });
                    assert(dom.remove(handle) =~= dom.remove_keys(handles(node)));
                },
                None => {
                    lemma_apply_few(dom, PatchView::<P>::Release { handle: 0 });
                    assert(dom =~= dom.remove_keys(handles(node)));
                },
            }
        },
        Node::List(items) => {
            lemma_released_all(dom, items@);
            assert(handles(node) =~= handles_all(items@));
        },
        Node::ComponentRef(c) => {
            match c.spec_reference() {
                Some(handle) => {
                    let first = PatchView::<P>::Destroy { handle };
                    let second = PatchView::<P>::Release { handle };
                    lemma_apply_few(dom, first);
                    lemma_apply_few(dom, second);
                    lemma_apply_joined(dom, seq![first], seq![second]);
                    assert(seq![first] + seq![second] =~= seq![first, second]);
                    assert(dom.remove(handle) =~= dom.remove_keys(handles(node)));
                },
                None => {
                    lemma_apply_few(dom, PatchView::<P>::Release { handle: 0 });
                    assert(dom =~= dom.remove_keys(handles(node)));
                },
            }
        },
    }
}

/// `lemma_released` for a sequence of trees.
pub proof fn lemma_released_all<P>(dom: Dom, nodes: Seq<Node<P>>)
    ensures
        apply_all(dom, releases_all(nodes)) == dom.remove_keys(handles_all(nodes)),
    decreases nodes, 0int,
{
    if nodes.len() == 0 {
        assert(dom =~= dom.remove_keys(handles_all(nodes)));
    } else {
        let front = nodes.drop_last();
        let last = nodes.last();
        lemma_released_all(dom, front);
        let middle = dom.remove_keys(handles_all(front));
        lemma_released(middle, last);
        lemma_apply_joined(dom, releases_all(front), releases(last));
        assert forall|handle: Handle|
            occurs_in(nodes, handle) <==> (occurs_in(front, handle) || occurs(last, handle)) by {
            if occurs_in(nodes, handle) {
                let i = choose|i: int| 0 <= i < nodes.len() && occurs(#[trigger] nodes[i], handle);
                if i < front.len() {
                    assert(front[i] == nodes[i]);
                }
            }
            if occurs_in(front, handle) {
                let i = choose|i: int| 0 <= i < front.len() && occurs(#[trigger] front[i], handle);
                assert(nodes[i] == front[i]);
            }
            assert(nodes[nodes.len() - 1] == last);
        }
        assert(middle.remove_keys(handles(last)) =~= dom.remove_keys(handles_all(nodes)));
    }
}

/// Tearing a tree down takes its top nodes out of the children of the
/// parent and the live nodes of its handles away, and changes nothing else.
pub proof fn lemma_torn_down<P>(
    dom: Dom,
    node: Node<P>,
    parent: Handle,
    left: Seq<Handle>,
    right: Seq<Handle>,
)
    requires
        dom.contains_key(parent),
        dom[parent].children == left + roots(node) + right,
        forall|handle: Handle| #[trigger] occurs(node, handle) ==> !left.contains(handle),
        !occurs(node, parent),
    ensures
        apply_all(dom, teardown(node, parent)) == with_children(dom, parent, left + right).remove_keys(
            handles(node),
        ),
{
    lemma_removed(dom, node, parent, left, right);
    lemma_released(with_children(dom, parent, left + right), node);
    lemma_apply_joined(dom, removals(node, parent), releases(node));
}

/// Tearing trees down takes their top nodes out of the children of the
/// parent and the live nodes of their handles away, and changes nothing
/// else.
pub proof fn lemma_torn_down_all<P>(
    dom: Dom,
    nodes: Seq<Node<P>>,
    parent: Handle,
    left: Seq<Handle>,
    right: Seq<Handle>,
)
    requires
        dom.contains_key(parent),
        dom[parent].children == left + roots_all(nodes) + right,
        forall|handle: Handle| #[trigger] occurs_in(nodes, handle) ==> !left.contains(handle),
        !occurs_in(nodes, parent),
    ensures
        apply_all(dom, teardown_all(nodes, parent)) == with_children(dom, parent, left + right).remove_keys(
            handles_all(nodes),
        ),
    decreases nodes.len(),
{
    if nodes.len() == 0 {
        assert(left + roots_all(nodes) + right =~= left + right);
        assert(with_children(dom, parent, left + right).remove_keys(handles_all(nodes)) =~= dom);
    } else {
        let front = nodes.drop_last();
        let last = nodes.last();
        let behind = roots(last) + right;
        assert(left + roots_all(nodes) + right =~= left + roots_all(front) + behind);
        assert forall|handle: Handle| #[trigger] occurs_in(front, handle) implies occurs_in(
            nodes,
            handle,
        ) by {
            let i = choose|i: int| 0 <= i < front.len() && occurs(#[trigger] front[i], handle);
            assert(nodes[i] == front[i]);
        }
        assert forall|handle: Handle| #[trigger] occurs(last, handle) implies occurs_in(
            nodes,
            handle,
        ) by {
            assert(nodes[nodes.len() - 1] == last);
        }
        lemma_torn_down_all(dom, front, parent, left, behind);
        let middle = with_children(dom, parent, left + behind).remove_keys(handles_all(front));
        assert(middle.contains_key(parent));
        assert(middle[parent].children =~= left + roots(last) + right);
        lemma_torn_down(middle, last, parent, left, right);
        lemma_apply_joined(dom, teardown_all(front, parent), teardown(last, parent));
        assert forall|handle: Handle|
            occurs_in(nodes, handle) <==> (occurs_in(front, handle) || occurs(last, handle)) by {
            if occurs_in(nodes, handle) {
                let i = choose|i: int| 0 <= i < nodes.len() && occurs(#[trigger] nodes[i], handle);
                if i < front.len() {
                    assert(front[i] == nodes[i]);
                }
            }
        }
        assert(with_children(middle, parent, left + right).remove_keys(handles(last)) =~= with_children(
            dom,
            parent,
            left + right,
        ).remove_keys(handles_all(nodes)));
    }
}

} // verus!
