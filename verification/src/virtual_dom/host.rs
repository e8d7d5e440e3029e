//! What the patches mean: a model of the live nodes that the host holds, and
//! what each patch does to them. The modules below prove that the patches of
//! a reconciliation do what they are for.

pub mod built;
pub mod effects;
pub mod faithful;
pub mod seats;
pub mod shown;
pub mod siblings;

use super::patch::PatchView;
use super::vcomp::{Handle, TypeTag};
use vstd::prelude::*;

verus! {

/// What kind of live node a handle names.
pub enum Kind {
    /// An element with this tag.
    Element(Seq<char>),
    /// A text node with this text.
    Text(Seq<char>),
    /// The mount point of an instance of this component type.
    MountPoint(TypeTag),
}

/// A live node as the host holds it.
pub struct Live {
    pub kind: Kind,
    pub attributes: Map<Seq<char>, Seq<char>>,
    pub classes: Set<Seq<char>>,
    pub value: Option<Seq<char>>,
    pub checked: bool,
    pub children: Seq<Handle>,
}

/// The live nodes of the host, by their handles.
pub type Dom = Map<Handle, Live>;

/// A live node of this kind that was just made.
pub open spec fn blank(kind: Kind) -> Live {
    Live {
        kind,
        attributes: Map::empty(),
        classes: Set::empty(),
        value: None,
        checked: false,
        children: Seq::empty(),
    }
}

/// What one patch does to the live nodes. A patch that names a handle which
/// is not live does nothing; so does one that delivers properties or tears
/// an instance down, which is not the host's business.
pub open spec fn apply<P>(dom: Dom, patch: PatchView<P>) -> Dom {
    match patch {
        PatchView::CreateElement { handle, tag } => dom.insert(handle, blank(Kind::Element(tag))),
        PatchView::CreateText { handle, text } => dom.insert(handle, blank(Kind::Text(text))),
        PatchView::Mount { handle, component } => dom.insert(
            handle,
            blank(Kind::MountPoint(component)),
        ),
        PatchView::SetText { handle, text } => if dom.contains_key(handle) {
            dom.insert(handle, Live { kind: Kind::Text(text), ..dom[handle] })
        } else {
            dom
        },
        PatchView::SetAttribute { handle, name, value } => if dom.contains_key(handle) {
            dom.insert(
                handle,
                Live { attributes: dom[handle].attributes.insert(name, value), ..dom[handle] },
            )
        } else {
            dom
        },
        PatchView::RemoveAttribute { handle, name } => if dom.contains_key(handle) {
            dom.insert(handle, Live { attributes: dom[handle].attributes.remove(name), ..dom[handle] })
        } else {
            dom
        },
        PatchView::SetClasses { handle, classes } => if dom.contains_key(handle) {
            dom.insert(handle, Live { classes: classes.to_set(), ..dom[handle] })
        } else {
            dom
        },
        PatchView::SetValue { handle, value } => if dom.contains_key(handle) {
            dom.insert(handle, Live { value, ..dom[handle] })
        } else {
            dom
        },
        PatchView::SetChecked { handle, checked } => if dom.contains_key(handle) {
            dom.insert(handle, Live { checked, ..dom[handle] })
        } else {
            dom
        },
        PatchView::InsertChild { parent, index, child } => if dom.contains_key(parent) && index
            <= dom[parent].children.len() {
            dom.insert(
                parent,
                Live { children: dom[parent].children.insert(index as int, child), ..dom[parent] },
            )
        } else {
            dom
        },
        PatchView::RemoveChild { parent, child } => if dom.contains_key(parent) {
            dom.insert(
                parent,
                Live { children: dom[parent].children.remove_value(child), ..dom[parent] },
            )
        } else {
            dom
        },
        PatchView::RemoveLastChild { parent } => if dom.contains_key(parent)
            && dom[parent].children.len() > 0 {
            dom.insert(parent, Live { children: dom[parent].children.drop_last(), ..dom[parent] })
        } else {
            dom
        },
        PatchView::Release { handle } => dom.remove(handle),
        PatchView::Properties { handle, props } => dom,
        PatchView::Destroy { handle } => dom,
    }
}

/// What a sequence of patches does to the live nodes, applied in order.
pub open spec fn apply_all<P>(dom: Dom, patches: Seq<PatchView<P>>) -> Dom
    decreases patches.len(),
{
    if patches.len() == 0 {
        dom
    } else {
        apply(apply_all(dom, patches.drop_last()), patches.last())
    }
}

/// Applying two sequences one after the other is applying them joined.
pub proof fn lemma_apply_joined<P>(dom: Dom, first: Seq<PatchView<P>>, second: Seq<PatchView<P>>)
    ensures
        apply_all(dom, first + second) == apply_all(apply_all(dom, first), second),
    decreases second.len(),
{
    if second.len() == 0 {
        assert(first + second =~= first);
    } else {
        lemma_apply_joined(dom, first, second.drop_last());
        assert((first + second).drop_last() =~= first + second.drop_last());
        assert((first + second).last() == second.last());
    }
}

/// Applying no patch changes nothing, and applying one patch is `apply`.
pub proof fn lemma_apply_few<P>(dom: Dom, patch: PatchView<P>)
    ensures
        apply_all(dom, Seq::<PatchView<P>>::empty()) == dom,
        apply_all(dom, seq![patch]) == apply(dom, patch),
{
    assert(seq![patch].drop_last() =~= Seq::<PatchView<P>>::empty());
}

} // verus!
