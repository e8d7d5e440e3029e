//! The mutations that reconciliation asks of the host, and the journal that
//! collects them.

use super::vcomp::{Handle, TypeTag};
use super::vnode::option_view;
use vstd::prelude::*;

verus! {

/// One mutation of the live tree, or one step in the life of a nested
/// component. Live nodes are named by their handles.
#[derive(Debug, PartialEq, Eq)]
#[allow(inconsistent_fields)]
pub enum Patch<P> {
    /// Make an element with this tag and name it `handle`.
    CreateElement { handle: Handle, tag: String },
    /// Make a text node with this text and name it `handle`.
    CreateText { handle: Handle, text: String },
    /// Replace the text of a text node.
    SetText { handle: Handle, text: String },
    /// Set one attribute of an element.
    SetAttribute { handle: Handle, name: String, value: String },
    /// Remove one attribute of an element.
    RemoveAttribute { handle: Handle, name: String },
    /// Replace the class list of an element.
    SetClasses { handle: Handle, classes: Vec<String> },
    /// Set the value of a control; `None` clears it.
    SetValue { handle: Handle, value: Option<String> },
    /// Set whether a control is checked.
    SetChecked { handle: Handle, checked: bool },
    /// Insert `child` among the children of `parent`, at place `index`.
    InsertChild { parent: Handle, index: u64, child: Handle },
    /// Take `child` out of the children of `parent`.
    RemoveChild { parent: Handle, child: Handle },
    /// Take the last child out of the children of `parent`.
    RemoveLastChild { parent: Handle },
    /// The handle names nothing from here on.
    Release { handle: Handle },
    /// Create an instance of the component type at the mount point `handle`.
    Mount { handle: Handle, component: TypeTag },
    /// Deliver properties to the instance mounted at `handle`.
    Properties { handle: Handle, props: P },
    /// Tear down the instance mounted at `handle`.
    Destroy { handle: Handle },
}

/// What a patch says, with its strings as character sequences.
#[allow(inconsistent_fields)]
pub enum PatchView<P> {
    CreateElement { handle: Handle, tag: Seq<char> },
    CreateText { handle: Handle, text: Seq<char> },
    SetText { handle: Handle, text: Seq<char> },
    SetAttribute { handle: Handle, name: Seq<char>, value: Seq<char> },
    RemoveAttribute { handle: Handle, name: Seq<char> },
    SetClasses { handle: Handle, classes: Seq<Seq<char>> },
    SetValue { handle: Handle, value: Option<Seq<char>> },
    SetChecked { handle: Handle, checked: bool },
    InsertChild { parent: Handle, index: u64, child: Handle },
    RemoveChild { parent: Handle, child: Handle },
    RemoveLastChild { parent: Handle },
    Release { handle: Handle },
    Mount { handle: Handle, component: TypeTag },
    Properties { handle: Handle, props: P },
    Destroy { handle: Handle },
}

impl<P> View for Patch<P> {
    type V = PatchView<P>;

    open spec fn view(&self) -> PatchView<P> {
        match *self {
            Patch::CreateElement { handle, tag } => PatchView::CreateElement { handle, tag: tag@ },
            Patch::CreateText { handle, text } => PatchView::CreateText { handle, text: text@ },
            Patch::SetText { handle, text } => PatchView::SetText { handle, text: text@ },
            Patch::SetAttribute { handle, name, value } => PatchView::SetAttribute {
                handle,
                name: name@,
                value: value@,
            },
            Patch::RemoveAttribute { handle, name } => PatchView::RemoveAttribute {
                handle,
                name: name@,
            },
            Patch::SetClasses { handle, classes } => PatchView::SetClasses {
                handle,
                classes: classes@.map_values(|t: String| t@),
            },
            Patch::SetValue { handle, value } => PatchView::SetValue {
                handle,
                value: option_view(value),
            },
            Patch::SetChecked { handle, checked } => PatchView::SetChecked { handle, checked },
            Patch::InsertChild { parent, index, child } => PatchView::InsertChild {
                parent,
                index,
                child,
            },
            Patch::RemoveChild { parent, child } => PatchView::RemoveChild { parent, child },
            Patch::RemoveLastChild { parent } => PatchView::RemoveLastChild { parent },
            Patch::Release { handle } => PatchView::Release { handle },
            Patch::Mount { handle, component } => PatchView::Mount { handle, component },
            Patch::Properties { handle, props } => PatchView::Properties { handle, props },
            Patch::Destroy { handle } => PatchView::Destroy { handle },
        }
    }
}

/// Hands out fresh handles and collects the patches of one or more
/// reconciliations, in the order in which the host has to apply them.
pub struct Patcher<P> {
    next: Handle,
    patches: Vec<Patch<P>>,
}

impl<P> Patcher<P> {
    /// The handle that is handed out next; every handle below it may be in use.
    pub closed spec fn next(&self) -> Handle {
        self.next
    }

    /// The patches collected so far.
    pub closed spec fn log(&self) -> Seq<PatchView<P>> {
        self.patches@.map_values(|p: Patch<P>| p@)
    }

    /// A patcher with an empty journal whose handles start at `first`.
    pub fn new(first: Handle) -> (r: Self)
        ensures
            r.next() == first,
            r.log() == Seq::<PatchView<P>>::empty(),
    {
        let r = Patcher { next: first, patches: Vec::new() };
        assert(r.log() =~= Seq::empty());
        r
    }

    /// The handle that is handed out next.
    pub fn peek(&self) -> (r: Handle)
        ensures
            r == self.next(),
    {
        self.next
    }

    /// How many patches wait in the journal.
    pub fn pending(&self) -> (n: usize)
        ensures
            n == self.log().len(),
    {
        self.patches.len()
    }

    /// Hands out a fresh handle.
    pub fn fresh(&mut self) -> (handle: Handle)
        requires
            old(self).next() < u64::MAX,
        ensures
            handle == old(self).next(),
            final(self).next() == old(self).next() + 1,
            final(self).log() == old(self).log(),
    {
        let handle = self.next;
        self.next = handle + 1;
        handle
    }

    /// Appends a patch to the journal.
    pub fn emit(&mut self, patch: Patch<P>)
        ensures
            final(self).log() == old(self).log().push(patch@),
            final(self).next() == old(self).next(),
    {
        self.patches.push(patch);
        assert(self.log() =~= old(self).log().push(patch@));
    }

    /// Hands the collected patches over and empties the journal.
    pub fn drain(&mut self) -> (patches: Vec<Patch<P>>)
        ensures
            patches@.map_values(|p: Patch<P>| p@) == old(self).log(),
            final(self).log() == Seq::<PatchView<P>>::empty(),
            final(self).next() == old(self).next(),
    {
        let mut patches = Vec::new();
        std::mem::swap(&mut patches, &mut self.patches);
        assert(self.log() =~= Seq::empty());
        patches
    }
}

} // verus!
