//! The component runtime: what a component is, the scope that holds one
//! instance of it with the tree that it rendered last, and the runtime that
//! holds the instances of one application and routes to them what
//! reconciliation asks for.

use crate::virtual_dom::diff::{
    carried, count, fresh, patches, ready, teardown, valid, width,
};
use crate::virtual_dom::patch::{PatchView, Patcher};
use crate::virtual_dom::vcomp::Handle;
use crate::virtual_dom::vnode::Node;
use vstd::prelude::*;

verus! {

/// Whether a component asks to be rendered again after an update.
pub type ShouldRender = bool;

/// What a component instance is updated with: a message of its own, or new
/// properties from its parent. Both go one way and keep one order.
pub enum ComponentUpdate<MSG, PROPS> {
    /// A message of the component's own.
    Message(MSG),
    /// New properties, delivered by the parent.
    Properties(PROPS),
}

/// A component: state that is created from properties, changed by updates
/// and rendered to a tree. The components nested in its tree are given
/// properties of the same type.
pub trait Component: Sized {
    /// What the component sends to itself.
    type Message;

    /// What its parent gives it.
    type Properties;

    /// Creates the state from the first properties.
    fn create(props: Self::Properties) -> Self;

    /// The state after `update`, the messages that the component sends to
    /// itself, which are delivered to it later, in order, and whether to
    /// render again.
    fn update(self, update: ComponentUpdate<Self::Message, Self::Properties>) -> (
        Self,
        Vec<Self::Message>,
        ShouldRender,
    );

    /// Renders the state.
    fn render(&self) -> Node<Self::Properties>;
}

/// How an update ended for the live tree.
#[derive(Debug, PartialEq, Eq, Clone, Copy)]
pub enum Outcome {
    /// The component did not ask to be rendered: nothing changed.
    Skipped,
    /// The new tree took the place of the old one.
    Patched,
    /// The new tree could not be reconciled: a nested component in it was not
    /// ready, or the handles ran out. Nothing changed.
    Refused,
}

/// One instance of a component, with the tree that it rendered last.
pub struct Scope<COMP: Component> {
    component: Option<COMP>,
    root: Option<Node<COMP::Properties>>,
    element: Handle,
    index: u64,
    destroyed: bool,
}

impl<COMP: Component> Scope<COMP> {
    /// The tree that was rendered last.
    pub closed spec fn root(&self) -> Option<Node<COMP::Properties>> {
        self.root
    }

    /// The live element under which the tree is rendered.
    pub closed spec fn element(&self) -> Handle {
        self.element
    }

    /// The place among the children of the element where the tree starts.
    pub closed spec fn index(&self) -> u64 {
        self.index
    }

    /// The state of the component, where the instance was created.
    pub closed spec fn state(&self) -> Option<COMP> {
        self.component
    }

    /// Whether the instance was created.
    pub open spec fn mounted(&self) -> bool {
        self.state() is Some
    }

    /// Whether the instance was torn down.
    pub closed spec fn destroyed(&self) -> bool {
        self.destroyed
    }

    /// The scope after its instance was torn down: it has no tree and takes
    /// no update; the state of the component, the element and the place
    /// stay.
    pub closed spec fn torn(self) -> Self {
        Scope { root: None, destroyed: true, ..self }
    }

    /// What `torn` changes and what it leaves.
    pub proof fn lemma_torn(self)
        ensures
            self.torn().destroyed(),
            self.torn().root() is None,
            self.torn().state() == self.state(),
            self.torn().element() == self.element(),
            self.torn().index() == self.index(),
            self.torn().torn() == self.torn(),
    {
    }

    /// Whether the instance takes updates: it was created and not torn down.
    pub open spec fn active(&self) -> bool {
        self.mounted() && !self.destroyed()
    }

    /// Whether the scope holds no instance yet and never has.
    pub open spec fn vacant(&self) -> bool {
        !self.mounted() && !self.destroyed() && self.root() is None
    }

    /// A scope that holds no instance yet.
    pub fn new() -> (r: Self)
        ensures
            r.vacant(),
    {
        Scope { component: None, root: None, element: 0, index: 0, destroyed: false }
    }

    /// Whether the instance takes updates.
    pub fn is_active(&self) -> (r: bool)
        ensures
            r == self.active(),
    {
        self.component.is_some() && !self.destroyed
    }

    /// Whether the instance was created.
    pub fn is_mounted(&self) -> (r: bool)
        ensures
            r == self.mounted(),
    {
        self.component.is_some()
    }

    /// Whether the scope holds no instance yet and never has.
    pub fn is_vacant(&self) -> (r: bool)
        ensures
            r == self.vacant(),
    {
        self.component.is_none() && !self.destroyed && self.root.is_none()
    }

    /// Whether the instance was torn down.
    pub fn is_destroyed(&self) -> (r: bool)
        ensures
            r == self.destroyed(),
    {
        self.destroyed
    }

    /// The tree that was rendered last.
    pub fn rendered(&self) -> (r: &Option<Node<COMP::Properties>>)
        ensures
            *r == self.root(),
    {
        &self.root
    }

    /// Puts `view` in the place of the tree that was rendered last and
    /// writes the patches to `patcher`. Where `patcher` cannot take the
    /// tree, nothing changes.
    pub fn install(&mut self, view: Node<COMP::Properties>, patcher: &mut Patcher<COMP::Properties>) -> (outcome:
        Outcome)
        requires
            old(self).active(),
        ensures
            final(self).active(),
            final(self).state() == old(self).state(),
            final(self).element() == old(self).element(),
            final(self).index() == old(self).index(),
            installed(
                old(self).root(),
                old(self).element(),
                old(self).index(),
                *old(patcher),
                view,
                outcome,
                final(self).root(),
                *final(patcher),
            ),
    {
        if !patcher.accepts(&view, self.index) {
            return Outcome::Refused;
        }
        let mut prev = None;
        std::mem::swap(&mut prev, &mut self.root);
        let root = patcher.reconcile(prev, view, self.element, self.index);
        self.root = Some(root);
        Outcome::Patched
    }

    /// What follows an update of the component: where it did not ask to be
    /// rendered, the tree that was rendered last stays and no patch is
    /// written; else the component is rendered and the new tree installed.
    pub fn rerender(&mut self, should_render: ShouldRender, patcher: &mut Patcher<COMP::Properties>) -> (outcome:
        Outcome)
        requires
            old(self).active(),
        ensures
            final(self).active(),
            final(self).element() == old(self).element(),
            final(self).index() == old(self).index(),
            should_render == (outcome != Outcome::Skipped),
            final(self).state() == old(self).state(),
            followed(
                should_render,
                old(self).state(),
                old(self).root(),
                old(self).element(),
                old(self).index(),
                *old(patcher),
                outcome,
                final(self).root(),
                *final(patcher),
            ),
    {
        if !should_render {
            return Outcome::Skipped;
        }
        let view = match &self.component {
            Some(component) => component.render(),
            None => {
                return Outcome::Refused;
            },
        };
        self.install(view, patcher)
    }

    /// Delivers one update to the component and renders again where the
    /// component asks for it. Returns how that ended, and the messages that
    /// the component sent to itself. The state that the scope holds from
    /// here on, the messages and the decision to render are those that the
    /// component gave for its state before and this update; what follows
    /// for the tree is what follows from that decision in the new state.
    pub fn update(
        &mut self,
        update: ComponentUpdate<COMP::Message, COMP::Properties>,
        patcher: &mut Patcher<COMP::Properties>,
    ) -> (r: (Outcome, Vec<COMP::Message>))
        requires
            old(self).active(),
        ensures
            final(self).active(),
            final(self).element() == old(self).element(),
            final(self).index() == old(self).index(),
            updated(old(self).state(), update, final(self).state(), r.1, r.0 != Outcome::Skipped),
            followed(
                r.0 != Outcome::Skipped,
                final(self).state(),
                old(self).root(),
                old(self).element(),
                old(self).index(),
                *old(patcher),
                r.0,
                final(self).root(),
                *final(patcher),
            ),
    {
        let mut taken = None;
        std::mem::swap(&mut taken, &mut self.component);
        let (component, mailbox, should_render) = taken.unwrap().update(update);
        self.component = Some(component);
        let outcome = self.rerender(should_render, patcher);
        (outcome, mailbox)
    }

    /// Creates the instance from `props` under the live element `element`,
    /// where its tree starts at place `index`, and renders it for the first
    /// time.
    pub fn mount_in_place(
        &mut self,
        element: Handle,
        index: u64,
        props: COMP::Properties,
        patcher: &mut Patcher<COMP::Properties>,
    ) -> (outcome: Outcome)
        requires
            old(self).vacant(),
        ensures
            final(self).active(),
            final(self).element() == element,
            final(self).index() == index,
            outcome != Outcome::Skipped,
            final(self).state() matches Some(state) && call_ensures(COMP::create, (props,), state),
            rendered(
                final(self).state(),
                None,
                element,
                index,
                *old(patcher),
                outcome,
                final(self).root(),
                *final(patcher),
            ),
    {
        self.component = Some(COMP::create(props));
        self.element = element;
        self.index = index;
        self.rerender(true, patcher)
    }

    /// Tears the instance down: its tree is taken out of the live tree and
    /// given up, and the instance takes no update from here on.
    pub fn destroy(&mut self, patcher: &mut Patcher<COMP::Properties>)
        ensures
            *final(self) == old(self).torn(),
            final(self).destroyed(),
            final(self).state() == old(self).state(),
            final(self).root() is None,
            final(self).element() == old(self).element(),
            final(self).index() == old(self).index(),
            final(patcher).next() == old(patcher).next(),
            final(patcher).log() == old(patcher).log() + (match old(self).root() {
                Some(root) => teardown(root, old(self).element()),
                None => Seq::empty(),
            }),
    {
        let mut prev = None;
        std::mem::swap(&mut prev, &mut self.root);
        match &prev {
            Some(root) => {
                patcher.teardown(root, self.element);
            },
            None => {
                assert(patcher.log() + Seq::<PatchView<COMP::Properties>>::empty() =~= patcher.log());
            },
        }
        self.destroyed = true;
    }
}

/// Whether a patcher whose next handle is `next` can take `view` for a tree
/// that starts at place `index`: the nested components of the tree are
/// ready, and neither the handles nor the places run out.
pub open spec fn fits<P>(view: Node<P>, next: Handle, index: u64) -> bool {
    ready(view) && next + count(view@) <= u64::MAX && index + width(view@) <= u64::MAX
}

/// What installing `view` under `element` at place `index` does to the tree
/// that was rendered last and to the patcher. A tree that fits is
/// reconciled with the tree before: the tree after has its view and carries
/// the handles, and the patcher received exactly the patches that reconcile
/// the two; its attributes list each name once, as those of every tree do.
/// A tree that does not fit is refused, and nothing changes.
pub open spec fn installed<P>(
    root_before: Option<Node<P>>,
    element: Handle,
    index: u64,
    patcher_before: Patcher<P>,
    view: Node<P>,
    outcome: Outcome,
    root_after: Option<Node<P>>,
    patcher_after: Patcher<P>,
) -> bool {
    if fits(view, patcher_before.next(), index) {
        &&& outcome == Outcome::Patched
        &&& valid(view)
        &&& root_after matches Some(root)
        &&& root@ == view@
        &&& carried(root_before, root, patcher_before.next() as int)
        &&& patcher_after.next() == patcher_before.next() + fresh(root_before, view@)
        &&& patcher_after.log() == patcher_before.log() + patches(
            root_before,
            view,
            element,
            index as int,
            patcher_before.next() as int,
        )
    } else {
        &&& outcome == Outcome::Refused
        &&& root_after == root_before
        &&& patcher_after.next() == patcher_before.next()
        &&& patcher_after.log() == patcher_before.log()
    }
}

/// What rendering the component in the state `state` does: a tree that
/// `render` returned there was installed.
pub open spec fn rendered<COMP: Component>(
    state: Option<COMP>,
    root_before: Option<Node<COMP::Properties>>,
    element: Handle,
    index: u64,
    patcher_before: Patcher<COMP::Properties>,
    outcome: Outcome,
    root_after: Option<Node<COMP::Properties>>,
    patcher_after: Patcher<COMP::Properties>,
) -> bool {
    &&& state matches Some(state)
    &&& exists|view: Node<COMP::Properties>|
        {
            &&& #[trigger] call_ensures(COMP::render, (&state,), view)
            &&& installed(
                root_before,
                element,
                index,
                patcher_before,
                view,
                outcome,
                root_after,
                patcher_after,
            )
        }
}

/// What follows an update for the tree that was rendered last. Where the
/// component did not ask to be rendered, the update is skipped: the tree
/// stays, no patch is written and no handle is taken. Else the component is
/// rendered in the state `state`.
pub open spec fn followed<COMP: Component>(
    should_render: ShouldRender,
    state: Option<COMP>,
    root_before: Option<Node<COMP::Properties>>,
    element: Handle,
    index: u64,
    patcher_before: Patcher<COMP::Properties>,
    outcome: Outcome,
    root_after: Option<Node<COMP::Properties>>,
    patcher_after: Patcher<COMP::Properties>,
) -> bool {
    if should_render {
        rendered(
            state,
            root_before,
            element,
            index,
            patcher_before,
            outcome,
            root_after,
            patcher_after,
        )
    } else {
        &&& outcome == Outcome::Skipped
        &&& root_after == root_before
        &&& patcher_after.next() == patcher_before.next()
        &&& patcher_after.log() == patcher_before.log()
    }
}

/// Whether the component, in the state `before`, answered `update` with the
/// state `after`, the messages `sent` to itself and the decision
/// `should_render`: what `update` may return there.
pub open spec fn updated<COMP: Component>(
    before: Option<COMP>,
    update: ComponentUpdate<COMP::Message, COMP::Properties>,
    after: Option<COMP>,
    sent: Vec<COMP::Message>,
    should_render: ShouldRender,
) -> bool {
    &&& before matches Some(state)
    &&& after matches Some(next)
    &&& call_ensures(COMP::update, (state, update), (next, sent, should_render))
}

} // verus!
