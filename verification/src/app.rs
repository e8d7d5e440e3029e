//! This module contains the `App` struct, which is used to bootstrap
//! a component in an isolated scope.

use crate::html::{fits, installed, Component, ComponentUpdate, Scope};
use crate::runtime::{
    delivered, ended, for_host, lemma_moved_on_twice, lemma_moved_on_unchanged, lemma_place_of,
    lemma_written, met, moved_on, place_of, received, sorted, Envelope, Fault, Instruction,
    Runtime,
};
use crate::runtime::{
    felled, lemma_delivered_to, lemma_host_part, lemma_unfolded_plain,
    lemma_update_without_render, Instance,
};
use crate::virtual_dom::laws::lemma_build_tears_nothing;
use crate::scheduler::{drained, Runnable, Scheduler};
use crate::virtual_dom::diff::{carried, fresh, patches, valid};
use crate::virtual_dom::host::faithful::lemma_reconciled;
use crate::virtual_dom::host::seats::{below, reseated, top};
use crate::virtual_dom::host::{apply, apply_all, lemma_apply_joined, Dom, Live};
use crate::virtual_dom::patch::{Patch, PatchView, Patcher};
use crate::virtual_dom::vcomp::Handle;
use crate::virtual_dom::vnode::Node;
use vstd::prelude::*;

verus! {

/// What the host says of a live element of its own: the handle that it gave
/// the element, and how many children the element has.
#[derive(Debug, Clone, Copy)]
pub struct Container {
    pub handle: Handle,
    pub children: u64,
}

/// What the host found when it looked for the elements that an application
/// can be mounted to.
#[derive(Debug, Clone, Copy)]
pub struct Document {
    /// The root element.
    pub html: Option<Container>,
    /// The body element, a child of the root element.
    pub body: Option<Container>,
}

/// An instance of an application.
pub struct App<COMP: Component> {
    /// `Scope` holder
    scope: Scope<COMP>,
}

/// What a mounted application is reached through: updates go in, and the
/// patches for the host come out.
pub struct ComponentLink<COMP: Component> {
    scheduler: Scheduler<Runtime<COMP>, Envelope<COMP>>,
    root: Handle,
    delivered: u64,
}

/// The patches that empty an element: its last child is removed, as often as
/// it has children.
pub open spec fn clearing<P>(element: Container) -> Seq<PatchView<P>> {
    Seq::new(element.children as nat, |i: int| PatchView::RemoveLastChild { parent: element.handle })
}

/// The first handle above `handle`, or `handle` where there is none.
pub open spec fn above(handle: Handle) -> Handle {
    if handle < u64::MAX {
        (handle + 1) as Handle
    } else {
        handle
    }
}

/// The greater of two handles.
pub open spec fn higher(a: Handle, b: Handle) -> Handle {
    if a < b {
        b
    } else {
        a
    }
}

/// The patch that takes the body element out of the root element.
pub open spec fn body_removal<P>(document: Document) -> Seq<PatchView<P>> {
    seq![PatchView::RemoveChild { parent: document.html->0.handle, child: document.body->0.handle }]
}

/// The runtime that a mounting starts from, after the patches `prepared`
/// made room under `element`, with `first` as the first handle of the
/// application: it holds one instance, at place `index` under `element`,
/// which was not created yet; its journal holds `prepared`; and there is no
/// defect.
pub open spec fn prepared_for<COMP: Component>(
    start: Runtime<COMP>,
    element: Container,
    index: u64,
    prepared: Seq<PatchView<COMP::Properties>>,
    first: Handle,
) -> bool {
    &&& start.settled()
    &&& start.journal() == prepared
    &&& start.next() == first
    &&& start.faults() == Seq::<Fault>::empty()
    &&& start.instances().len() == 1
    &&& start.instances()[0].at == element.handle
    &&& start.instances()[0].index == index
    &&& start.instances()[0].scope.vacant()
    &&& start.instances()[0].sent is None
}

/// What holds of the link to an application that was mounted with `props`
/// under `element` at place `index`, after the patches `prepared` had made
/// room for it, with `first` as the first handle of its own. From a runtime
/// that was prepared so, `props` were delivered to the root instance, which
/// creates the component from them and renders it for the first time; the
/// envelopes that this asked for were then delivered, each in turn with all
/// that it brought about, `delivered()` of them: all unless they were
/// `u64::MAX` or more. So the root instance stands first among the
/// instances, at its mount point, and was created; the journal begins with
/// `prepared`; and no handle below `first` was handed out.
pub open spec fn mounted_in<COMP: Component>(
    link: ComponentLink<COMP>,
    element: Container,
    index: u64,
    prepared: Seq<PatchView<COMP::Properties>>,
    first: Handle,
    props: COMP::Properties,
) -> bool where COMP::Properties: PartialEq + Clone {
    &&& link.root() == element.handle
    &&& link.at_rest()
    &&& (link.waiting() == 0 || link.delivered() == u64::MAX)
    &&& exists|start: Runtime<COMP>, created: Runtime<COMP>, asked: Vec<Envelope<COMP>>|
        {
            &&& prepared_for(start, element, index, prepared, first)
            &&& #[trigger] delivered(
                start,
                Envelope {
                    target: element.handle,
                    instruction: Instruction::Update(ComponentUpdate::Properties(props)),
                },
                created,
                asked@,
            )
            &&& drained(
                created,
                asked@,
                link.runtime(),
                link.queue(),
                link.delivered() as nat,
            )
        }
    &&& link.runtime().settled()
    &&& link.runtime().instances().len() >= 1
    &&& link.runtime().instances()[0].at == element.handle
    &&& link.runtime().instances()[0].index == index
    &&& link.runtime().instances()[0].scope.mounted()
    &&& prepared.is_prefix_of(link.runtime().journal())
    &&& first <= link.runtime().next()
}

/// What holds of the link to an application that was mounted with the
/// properties that the component starts from by default.
pub open spec fn mounted_by_default<COMP: Component>(
    link: ComponentLink<COMP>,
    element: Container,
    index: u64,
    prepared: Seq<PatchView<COMP::Properties>>,
    first: Handle,
) -> bool where COMP::Properties: Default + PartialEq + Clone {
    exists|props: COMP::Properties|
        {
            &&& call_ensures(COMP::Properties::default, (), props)
            &&& #[trigger] mounted_in(link, element, index, prepared, first, props)
        }
}

/// An application that was mounted with `props` created its root component
/// from exactly these properties and rendered it in the state that `create`
/// gave: where the tree fits, the runtime went on from patches that build
/// it where nothing was, after `prepared`; where it does not, from
/// `prepared` alone and the one defect that the tree was refused.
pub proof fn lemma_mounted_from<COMP: Component>(
    link: ComponentLink<COMP>,
    element: Container,
    index: u64,
    prepared: Seq<PatchView<COMP::Properties>>,
    first: Handle,
    props: COMP::Properties,
) where COMP::Properties: PartialEq + Clone
    requires
        mounted_in(link, element, index, prepared, first, props),
    ensures
        exists|state: COMP, view: Node<COMP::Properties>, created: Runtime<COMP>|
            {
                &&& call_ensures(COMP::create, (props,), state)
                &&& #[trigger] call_ensures(COMP::render, (&state,), view)
                &&& #[trigger] moved_on(created, link.runtime())
                &&& created.instances()[0].scope.state() == Some(state)
                &&& if fits(view, first, index) {
                    &&& created.journal() == prepared + for_host(
                        patches(None, view, element.handle, index as int, first as int),
                    )
                    &&& created.next() == first + fresh(None::<Node<COMP::Properties>>, view@)
                    &&& created.faults() == Seq::<Fault>::empty()
                    &&& valid(view)
                    &&& created.instances()[0].scope.root() matches Some(root) && root@ == view@
                        && carried(None, root, first as int)
                } else {
                    &&& created.journal() == prepared
                    &&& created.next() == first
                    &&& created.faults() == seq![Fault::Refused(element.handle)]
                    &&& created.instances()[0].scope.root() is None
                }
            },
{
    let envelope = Envelope::<COMP> {
        target: element.handle,
        instruction: Instruction::Update(ComponentUpdate::Properties(props)),
    };
    let (start, created, asked) = choose|
        start: Runtime<COMP>,
        created: Runtime<COMP>,
        asked: Vec<Envelope<COMP>>,
    |
        {
            &&& prepared_for(start, element, index, prepared, first)
            &&& #[trigger] delivered(start, envelope, created, asked@)
            &&& drained(created, asked@, link.runtime(), link.queue(), link.delivered() as nat)
        };
    assert(start.instances()[0].at == element.handle);
    lemma_place_of(start.instances(), element.handle);
    assert(place_of(start.instances(), element.handle) == Some(0int));
    lemma_written(start);
    lemma_drained_moved_on(created, asked@, link.runtime(), link.queue(), link.delivered() as nat);
    let (handed, written, sent) = choose|
        handed: Instance<COMP>,
        written: Patcher<COMP::Properties>,
        sent: Seq<Envelope<COMP>>,
    |
        {
            &&& #[trigger] received(
                start.instances()[0],
                envelope.instruction,
                start.written(),
                handed,
                written,
                sent,
                met(start, created),
            )
            &&& created.next() == written.next()
            &&& sorted(
                start.instances().update(0, handed),
                start.journal(),
                written.log(),
                sent,
                created,
                asked@,
            )
        };
    let state = handed.scope.state()->0;
    let view = choose|view: Node<COMP::Properties>|
        {
            &&& #[trigger] call_ensures(COMP::render, (&state,), view)
            &&& installed(
                None,
                element.handle,
                index,
                start.written(),
                view,
                ended(met(start, created)),
                handed.scope.root(),
                written,
            )
        };
    assert(start.written().log() =~= Seq::empty());
    let held = start.instances().update(0, handed);
    if fits(view, first, index) {
        assert(written.log() =~= patches(None, view, element.handle, index as int, first as int));
        lemma_build_tears_nothing(view, element.handle, index as int, first as int);
        assert(created.faults() =~= Seq::<Fault>::empty());
    } else {
        assert(written.log() =~= Seq::empty());
        assert(created.faults() =~= seq![Fault::Refused(element.handle)]);
    }
    lemma_unfolded_plain(held, written.log(), held.len());
    assert(created.instances().take(held.len() as int)[0] == created.instances()[0]);
    if !fits(view, first, index) {
        assert(created.journal() =~= prepared);
    }
}

/// What the host has after the patches that empty an element: the element
/// without children, and every other live node as it was.
pub proof fn lemma_cleared<P>(dom: Dom, element: Container)
    requires
        dom.contains_key(element.handle),
        dom[element.handle].children.len() == element.children,
    ensures
        apply_all(dom, clearing::<P>(element)) == dom.insert(
            element.handle,
            Live { children: Seq::empty(), ..dom[element.handle] },
        ),
{
    lemma_removed_last::<P>(dom, element.handle, element.children);
    assert(dom[element.handle].children.take(0) =~= Seq::empty());
}

proof fn lemma_removed_last<P>(dom: Dom, handle: Handle, removed: u64)
    requires
        dom.contains_key(handle),
        removed <= dom[handle].children.len(),
    ensures
        apply_all(dom, clearing::<P>(Container { handle, children: removed })) == dom.insert(
            handle,
            Live {
                children: dom[handle].children.take(dom[handle].children.len() - removed),
                ..dom[handle]
            },
        ),
    decreases removed,
{
    let children = dom[handle].children;
    let batch = clearing::<P>(Container { handle, children: removed });
    if removed == 0 {
        assert(children.take(children.len() as int) =~= children);
        assert(dom.insert(handle, Live { children, ..dom[handle] }) =~= dom);
    } else {
        let fewer = (removed - 1) as u64;
        lemma_removed_last::<P>(dom, handle, fewer);
        assert(batch.drop_last() =~= clearing::<P>(Container { handle, children: fewer }));
        assert(batch.last() == PatchView::<P>::RemoveLastChild { parent: handle });
        let kept = children.take(children.len() - fewer);
        assert(kept.drop_last() =~= children.take(children.len() - removed));
        let between = apply_all(dom, batch.drop_last());
        assert(apply(between, batch.last()) =~= dom.insert(
            handle,
            Live { children: children.take(children.len() - removed), ..dom[handle] },
        ));
    }
}

/// What the host shows once it applied the first patches of an application
/// that was mounted into `element`: where the element was live with as many
/// children as the library was told, and no handle from `first` on was
/// live, the element holds the top nodes of the tree that the component
/// rendered, and nothing else; the live nodes show that tree; none of the
/// children that the element had is among them; and every other live node
/// is as it was.
pub proof fn lemma_mounted_tree_shown<P>(
    dom: Dom,
    element: Container,
    view: Node<P>,
    root: Node<P>,
    first: Handle,
)
    requires
        dom.contains_key(element.handle),
        dom[element.handle].children.len() == element.children,
        below(dom, first as int),
        fits(view, first, 0),
        valid(view),
        root@ == view@,
        carried(None, root, first as int),
    ensures
        reseated(
            dom.insert(element.handle, Live { children: Seq::empty(), ..dom[element.handle] }),
            apply_all(
                dom,
                clearing::<P>(element) + for_host(
                    patches(None, view, element.handle, 0, first as int),
                ),
            ),
            None,
            root,
            element.handle,
            Seq::empty(),
            Seq::empty(),
            first as int,
            first + fresh(None::<Node<P>>, view@),
        ),
{
    let cleared = dom.insert(element.handle, Live { children: Seq::empty(), ..dom[element.handle] });
    let built = patches(None, view, element.handle, 0, first as int);
    lemma_cleared::<P>(dom, element);
    lemma_apply_joined(dom, clearing::<P>(element), for_host(built));
    lemma_host_part(cleared, built);
    assert(cleared[element.handle].children =~= Seq::<Handle>::empty() + top(None::<Node<P>>)
        + Seq::<Handle>::empty());
    assert(below(cleared, first as int)) by {
        assert forall|handle: Handle| #[trigger] cleared.contains_key(handle) implies handle
            < first by {
            assert(dom.contains_key(handle));
        }
    }
    lemma_reconciled(
        cleared,
        None,
        view,
        root,
        element.handle,
        Seq::empty(),
        Seq::empty(),
        first as int,
    );
}

/// A message that the component answers without a wish to be rendered and
/// without a message to itself, sent to a runtime that had sorted all that
/// was written and whose queue was empty: one envelope was delivered, no
/// other waits, and the tree of the instance, the journal, the handles and
/// the defects are as they were.
pub proof fn lemma_sent_without_render<COMP: Component>(
    before: Runtime<COMP>,
    target: Handle,
    message: COMP::Message,
    after: Runtime<COMP>,
    left: Seq<Envelope<COMP>>,
    delivered: nat,
) where COMP::Properties: PartialEq + Clone
    requires
        before.settled(),
        place_of(before.instances(), target) matches Some(i) && before.instances()[i].scope.active(),
        delivered >= 1,
        drained(
            before,
            seq![
                Envelope { target, instruction: Instruction::Update(ComponentUpdate::Message(message)) },
            ],
            after,
            left,
            delivered,
        ),
        forall|state: COMP, next: COMP, sent: Vec<COMP::Message>, should_render: bool|
            #[trigger] call_ensures(
                COMP::update,
                (state, ComponentUpdate::Message(message)),
                (next, sent, should_render),
            ) ==> !should_render && sent@.len() == 0,
    ensures
        delivered == 1,
        left == Seq::<Envelope<COMP>>::empty(),
        after.instances()[place_of(before.instances(), target)->0].scope.root()
            == before.instances()[place_of(before.instances(), target)->0].scope.root(),
        after.journal() == before.journal(),
        after.next() == before.next(),
        after.faults() == before.faults(),
        after.instances().len() == before.instances().len(),
{
    let envelope = Envelope::<COMP> {
        target,
        instruction: Instruction::Update(ComponentUpdate::Message(message)),
    };
    let waiting = seq![envelope];
    let (between, scheduled) = choose|between: Runtime<COMP>, scheduled: Vec<Envelope<COMP>>|
        {
            &&& #[trigger] waiting[0].ran(before, between, scheduled)
            &&& drained(between, waiting.skip(1) + scheduled@, after, left, (delivered - 1) as nat)
        };
    lemma_update_without_render(before, target, message, between, scheduled@);
    assert(scheduled@ =~= Seq::<Envelope<COMP>>::empty());
    assert(waiting.skip(1) + scheduled@ =~= Seq::<Envelope<COMP>>::empty());
}

/// Deliveries undo nothing: what the envelopes of a queue and all that they
/// brought about made of a runtime has moved on from it.
pub proof fn lemma_drained_moved_on<COMP: Component>(
    before: Runtime<COMP>,
    waiting: Seq<Envelope<COMP>>,
    after: Runtime<COMP>,
    left: Seq<Envelope<COMP>>,
    steps: nat,
) where COMP::Properties: PartialEq + Clone
    requires
        drained(before, waiting, after, left, steps),
    ensures
        moved_on(before, after),
    decreases steps,
{
    if steps == 0 {
        lemma_moved_on_unchanged(before);
    } else {
        let (between, scheduled) = choose|between: Runtime<COMP>, scheduled: Vec<Envelope<COMP>>|
            {
                &&& #[trigger] waiting[0].ran(before, between, scheduled)
                &&& drained(between, waiting.skip(1) + scheduled@, after, left, (steps - 1) as nat)
            };
        lemma_drained_moved_on(
            between,
            waiting.skip(1) + scheduled@,
            after,
            left,
            (steps - 1) as nat,
        );
        lemma_moved_on_twice(before, between, after);
    }
}

/// Removes anything from the given element.
pub fn clear_element<P>(element: &Container, patcher: &mut Patcher<P>)
    ensures
        final(patcher).next() == old(patcher).next(),
        final(patcher).log() == old(patcher).log() + clearing::<P>(*element),
{
    let ghost log0 = patcher.log();
    let mut removed: u64 = 0;
    while removed < element.children
        invariant
            removed <= element.children,
            patcher.next() == old(patcher).next(),
            patcher.log() == log0 + clearing::<P>(
                Container { handle: element.handle, children: removed },
            ),
        decreases element.children - removed,
    {
        patcher.emit(Patch::RemoveLastChild { parent: element.handle });
        removed += 1;
    }
}

/// The first handle above `handle`, or `handle` where there is none.
fn handle_above(handle: Handle) -> (r: Handle)
    ensures
        r == above(handle),
{
    if handle < u64::MAX {
        handle + 1
    } else {
        handle
    }
}

impl<COMP: Component> ComponentLink<COMP> {
    /// The runtime behind the link.
    pub closed spec fn runtime(&self) -> Runtime<COMP> {
        self.scheduler.context()
    }

    /// The mount point of the root instance.
    pub closed spec fn root(&self) -> Handle {
        self.root
    }

    /// The envelopes that wait to be delivered, the next first.
    pub closed spec fn queue(&self) -> Seq<Envelope<COMP>> {
        self.scheduler.pending()
    }

    /// How many envelopes wait to be delivered.
    pub open spec fn waiting(&self) -> nat {
        self.queue().len()
    }

    /// How many envelopes the last call delivered.
    pub closed spec fn delivered(&self) -> u64 {
        self.delivered
    }

    /// Whether nobody drains: between two calls that is so.
    pub closed spec fn at_rest(&self) -> bool {
        !self.scheduler.draining()
    }

}

impl<COMP: Component> ComponentLink<COMP> where COMP::Properties: PartialEq + Clone {
    /// Delivers an update to the root instance, and after it all that it
    /// brings about: the messages that components send to themselves and
    /// the properties for nested components, each in turn.
    /// Returns how many envelopes were delivered; one call delivers at most
    /// `u64::MAX` of them, and leaves the others waiting.
    pub fn send(&mut self, update: ComponentUpdate<COMP::Message, COMP::Properties>) -> (delivered:
        u64)
        requires
            old(self).at_rest(),
        ensures
            final(self).at_rest(),
            delivered == final(self).delivered(),
            final(self).waiting() == 0 || delivered == u64::MAX,
            final(self).root() == old(self).root(),
            moved_on(old(self).runtime(), final(self).runtime()),
            drained(
                old(self).runtime(),
                old(self).queue().push(
                    Envelope { target: old(self).root(), instruction: Instruction::Update(update) },
                ),
                final(self).runtime(),
                final(self).queue(),
                delivered as nat,
            ),
    {
        let envelope = Envelope { target: self.root, instruction: Instruction::Update(update) };
        let delivered = self.scheduler.put_and_try_run(envelope);
        self.delivered = delivered;
        delivered
    }

    /// Sends a message to the root component.
    pub fn send_message(&mut self, message: COMP::Message) -> (delivered: u64)
        requires
            old(self).at_rest(),
        ensures
            final(self).at_rest(),
            delivered == final(self).delivered(),
            final(self).waiting() == 0 || delivered == u64::MAX,
            final(self).root() == old(self).root(),
            moved_on(old(self).runtime(), final(self).runtime()),
            drained(
                old(self).runtime(),
                old(self).queue().push(
                    Envelope {
                        target: old(self).root(),
                        instruction: Instruction::Update(ComponentUpdate::Message(message)),
                    },
                ),
                final(self).runtime(),
                final(self).queue(),
                delivered as nat,
            ),
    {
        self.send(ComponentUpdate::Message(message))
    }

    /// Tears the application down: the root instance gives its tree up, and
    /// so does every instance nested in it, depth first, in the one
    /// delivery.
    pub fn destroy(&mut self) -> (delivered: u64)
        requires
            old(self).at_rest(),
        ensures
            final(self).at_rest(),
            delivered == final(self).delivered(),
            final(self).waiting() == 0 || delivered == u64::MAX,
            final(self).root() == old(self).root(),
            moved_on(old(self).runtime(), final(self).runtime()),
            drained(
                old(self).runtime(),
                old(self).queue().push(
                    Envelope { target: old(self).root(), instruction: Instruction::Destroy },
                ),
                final(self).runtime(),
                final(self).queue(),
                delivered as nat,
            ),
    {
        let envelope = Envelope { target: self.root, instruction: Instruction::Destroy };
        let delivered = self.scheduler.put_and_try_run(envelope);
        self.delivered = delivered;
        delivered
    }

}

impl<COMP: Component> ComponentLink<COMP> {
    /// Hands the defects that deliveries met to the host and empties their
    /// list.
    pub fn take_faults(&mut self) -> (faults: Vec<Fault>)
        ensures
            faults@ == old(self).runtime().faults(),
            final(self).runtime().faults() == Seq::<Fault>::empty(),
            final(self).runtime().journal() == old(self).runtime().journal(),
            final(self).runtime().next() == old(self).runtime().next(),
            final(self).runtime().instances() == old(self).runtime().instances(),
            final(self).runtime().unsorted() == old(self).runtime().unsorted(),
            final(self).root() == old(self).root(),
            final(self).queue() == old(self).queue(),
            final(self).delivered() == old(self).delivered(),
            final(self).at_rest() == old(self).at_rest(),
    {
        let runtime = self.scheduler.context_mut();
        runtime.take_faults()
    }

    /// Hands the waiting patches to the host and empties the journal.
    pub fn take_patches(&mut self) -> (patches: Vec<Patch<COMP::Properties>>)
        ensures
            patches@.map_values(|p: Patch<COMP::Properties>| p@) == old(self).runtime().journal(),
            final(self).runtime().journal() == Seq::<PatchView<COMP::Properties>>::empty(),
            final(self).runtime().faults() == old(self).runtime().faults(),
            final(self).runtime().next() == old(self).runtime().next(),
            final(self).runtime().instances() == old(self).runtime().instances(),
            final(self).runtime().unsorted() == old(self).runtime().unsorted(),
            final(self).root() == old(self).root(),
            final(self).queue() == old(self).queue(),
            final(self).delivered() == old(self).delivered(),
            final(self).at_rest() == old(self).at_rest(),
    {
        let runtime = self.scheduler.context_mut();
        runtime.take_patches()
    }

    /// Whether nobody drains.
    pub fn is_at_rest(&self) -> (r: bool)
        ensures
            r == self.at_rest(),
    {
        !self.scheduler.is_draining()
    }

    /// The runtime behind the link.
    pub fn runtime_ref(&self) -> (runtime: &Runtime<COMP>)
        ensures
            *runtime == self.runtime(),
    {
        self.scheduler.context_ref()
    }

    /// How many envelopes wait to be delivered.
    pub fn backlog(&self) -> (n: usize)
        ensures
            n == self.waiting(),
    {
        self.scheduler.len()
    }
}

impl<COMP> App<COMP> where COMP: Component, COMP::Properties: Default + PartialEq + Clone {
    /// The main entry point of an application: empties `element` and mounts
    /// the component into it, with the properties it starts from by default.
    /// If you would like to pass props, use the `mount_with_props` method.
    pub fn mount(self, element: Container) -> (link: ComponentLink<COMP>)
        ensures
            mounted_by_default(link, element, 0, clearing(element), above(element.handle)),
    {
        self.mount_with_props(element, COMP::Properties::default())
    }

    /// Alias to `mount` with the body element of `document`, which must be
    /// there.
    pub fn mount_to_body(self, document: &Document) -> (link: ComponentLink<COMP>)
        requires
            document.body is Some,
        ensures
            mounted_by_default(
                link,
                document.body->0,
                0,
                clearing(document.body->0),
                above(document.body->0.handle),
            ),
    {
        let element = document.body.unwrap();
        self.mount(element)
    }

    /// Alternative to `mount` which replaces the body element with a
    /// component which has a body element at the root of the tree that it
    /// renders. Use this method when you need to manipulate the body element.
    /// The root element and the body element of `document` must be there,
    /// the body among the children of the root.
    pub fn mount_as_body(self, document: &Document) -> (link: ComponentLink<COMP>)
        requires
            document.html is Some,
            document.body is Some,
            document.html->0.children >= 1,
        ensures
            mounted_by_default(
                link,
                document.html->0,
                (document.html->0.children - 1) as u64,
                body_removal(*document),
                above(higher(document.html->0.handle, document.body->0.handle)),
            ),
    {
        self.mount_as_body_with_props(document, COMP::Properties::default())
    }
}

impl<COMP: Component> App<COMP> {
    /// Creates a new `App` with a component in a context.
    pub fn new() -> (app: Self)
        ensures
            app.scope().vacant(),
    {
        let scope = Scope::new();
        App { scope }
    }

    /// The scope that waits to be mounted.
    pub closed spec fn scope(&self) -> Scope<COMP> {
        self.scope
    }

    /// Validity: the scope of an application holds no instance before the
    /// application is mounted, and mounting uses the application up.
    #[verifier::type_invariant]
    closed spec fn unmounted(&self) -> bool {
        self.scope.vacant()
    }

}

impl<COMP: Component> Default for App<COMP> {
    /// An application that waits to be mounted, as `new` gives it.
    fn default() -> (app: Self)
        ensures
            app.scope().vacant(),
    {
        App::new()
    }
}

impl<COMP> App<COMP> where COMP: Component, COMP::Properties: PartialEq + Clone {
    /// Mounts the component under `element` at place `index`, after the
    /// patches that make room for it were written to `patcher`: the root
    /// instance is created from `props` and rendered, and all that this
    /// brings about is delivered.
    fn mount_prepared(
        self,
        element: Container,
        index: u64,
        patcher: Patcher<COMP::Properties>,
        props: COMP::Properties,
    ) -> (link: ComponentLink<COMP>)
        ensures
            mounted_in(link, element, index, patcher.log(), patcher.next(), props),
    {
        proof {
            use_type_invariant(&self);
        }
        let mut runtime = Runtime::new(patcher);
        runtime.register(element.handle, index, self.scope);
        let ghost registered = runtime;
        let first = Envelope {
            target: element.handle,
            instruction: Instruction::Update(ComponentUpdate::Properties(props)),
        };
        assert(place_of(runtime.instances(), element.handle) == Some(0int)) by {
            assert(runtime.instances()[0].at == element.handle);
        }
        let asked = runtime.deliver(first);
        let ghost created = runtime;
        let mut scheduler = Scheduler::new(runtime);
        scheduler.absorb(asked);
        assert(scheduler.pending() =~= asked@);
        let delivered = scheduler.try_run();
        proof {
            lemma_moved_on_twice(registered, created, scheduler.context());
            assert(prepared_for(registered, element, index, patcher.log(), patcher.next()));
            lemma_delivered_to(registered, first, created, asked@);
            let (handed, written, sent) = choose|
                handed: Instance<COMP>,
                written: Patcher<COMP::Properties>,
                sent: Seq<Envelope<COMP>>,
            |
                {
                    &&& #[trigger] received(
                        registered.instances()[0],
                        first.instruction,
                        registered.written(),
                        handed,
                        written,
                        sent,
                        met(registered, created),
                    )
                    &&& created.next() == written.next()
                    &&& (created.instances()[0] == handed || created.instances()[0] == felled(
                        handed,
                    ))
                };
            handed.scope.lemma_torn();
            assert(created.instances()[0].scope.mounted());
        }
        ComponentLink { scheduler, root: element.handle, delivered }
    }

    /// The main entry point of an application which also allows passing
    /// properties: empties `element` and mounts the component into it.
    pub fn mount_with_props(self, element: Container, props: COMP::Properties) -> (link:
        ComponentLink<COMP>)
        ensures
            mounted_in(link, element, 0, clearing(element), above(element.handle), props),
    {
        let mut patcher = Patcher::new(handle_above(element.handle));
        clear_element(&element, &mut patcher);
        assert(patcher.log() =~= clearing(element));
        self.mount_prepared(element, 0, patcher, props)
    }

    /// Alias to `mount_with_props` with the body element of `document`,
    /// which must be there.
    pub fn mount_to_body_with_props(self, document: &Document, props: COMP::Properties) -> (link:
        ComponentLink<COMP>)
        requires
            document.body is Some,
        ensures
            mounted_in(
                link,
                document.body->0,
                0,
                clearing(document.body->0),
                above(document.body->0.handle),
                props,
            ),
    {
        let element = document.body.unwrap();
        self.mount_with_props(element, props)
    }

    /// Alternative to `mount_with_props` which replaces the body element
    /// with a component which has a body element at the root of the tree
    /// that it renders. The root element and the body element of `document`
    /// must be there, the body among the children of the root.
    pub fn mount_as_body_with_props(self, document: &Document, props: COMP::Properties) -> (link:
        ComponentLink<COMP>)
        requires
            document.html is Some,
            document.body is Some,
            document.html->0.children >= 1,
        ensures
            mounted_in(
                link,
                document.html->0,
                (document.html->0.children - 1) as u64,
                body_removal(*document),
                above(higher(document.html->0.handle, document.body->0.handle)),
                props,
            ),
    {
        let html_element = document.html.unwrap();
        let body_element = document.body.unwrap();
        let top = if html_element.handle < body_element.handle {
            body_element.handle
        } else {
            html_element.handle
        };
        let mut patcher = Patcher::new(handle_above(top));
        patcher.emit(Patch::RemoveChild { parent: html_element.handle, child: body_element.handle });
        assert(patcher.log() =~= body_removal(*document));
        self.mount_prepared(html_element, html_element.children - 1, patcher, props)
    }
}

} // verus!
