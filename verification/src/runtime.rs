//! The runtime of one application: the instances of its components, the
//! handles they share, and the journal of patches for the host.
//!
//! Reconciliation asks for three things that the host cannot do: to create
//! an instance of a nested component, to deliver properties to it, and to
//! tear it down. The runtime takes those out of what reconciliation wrote.
//! An instance is torn down at once, depth first, so that its tree is given
//! up before anything is built in its place. Properties become envelopes,
//! which are scheduled like every other update: no update is delivered from
//! inside a delivery.

use crate::html::{rendered, updated, Component, ComponentUpdate, Outcome, Scope, ShouldRender};
use crate::scheduler::Runnable;
use crate::virtual_dom::diff::teardown;
use crate::virtual_dom::laws::tears_nothing;
use crate::virtual_dom::host::{apply_all, lemma_apply_few, lemma_apply_joined, Dom};
use crate::virtual_dom::patch::{Patch, PatchView, Patcher};
use crate::virtual_dom::vcomp::Handle;
use vstd::prelude::*;
use vstd::std_specs::cmp::PartialEqSpec;

verus! {

/// What an envelope brings to an instance.
pub enum Instruction<MSG, PROPS> {
    /// An update for the component. The first properties create it.
    Update(ComponentUpdate<MSG, PROPS>),
    /// The instance is to be torn down.
    Destroy,
}

/// An instruction on its way to the instance at the mount point `target`.
pub struct Envelope<COMP: Component> {
    pub target: Handle,
    pub instruction: Instruction<COMP::Message, COMP::Properties>,
}

/// A defect that a delivery met. None of them is made good: the host is to
/// stop on the first.
#[derive(Debug, PartialEq, Eq, Clone, Copy)]
pub enum Fault {
    /// An envelope named a mount point at which no instance is.
    NoInstance(Handle),
    /// An update went to an instance that was torn down.
    TornDown(Handle),
    /// A message went to an instance that was not created yet.
    NotCreated(Handle),
    /// The tree that the component at this mount point rendered was refused:
    /// a nested component in it was not ready, or the handles ran out.
    Refused(Handle),
}

/// An instance with its mount point.
pub struct Instance<COMP: Component> {
    /// The live element that the instance is mounted to.
    pub at: Handle,
    /// The place among the children of that element where its tree starts.
    pub index: u64,
    /// The instance itself.
    pub scope: Scope<COMP>,
    /// The properties that were delivered to it last.
    pub sent: Option<COMP::Properties>,
}

/// The instances of one application, with the handles they share and the
/// journal of patches for the host.
pub struct Runtime<COMP: Component> {
    patcher: Patcher<COMP::Properties>,
    instances: Vec<Instance<COMP>>,
    journal: Vec<Patch<COMP::Properties>>,
    faults: Vec<Fault>,
}

/// What the host receives of a batch of patches: all but the properties for
/// nested components, which the runtime delivers itself.
pub open spec fn for_host<P>(batch: Seq<PatchView<P>>) -> Seq<PatchView<P>>
    decreases batch.len(),
{
    if batch.len() == 0 {
        Seq::empty()
    } else {
        for_host(batch.drop_last()) + (if batch.last() is Properties {
            Seq::empty()
        } else {
            seq![batch.last()]
        })
    }
}

/// The envelopes that a batch of patches asks for, in order: properties go
/// to the instance at the mount point that they name.
pub open spec fn asked_for<COMP: Component>(batch: Seq<PatchView<COMP::Properties>>) -> Seq<
    Envelope<COMP>,
>
    decreases batch.len(),
{
    if batch.len() == 0 {
        Seq::empty()
    } else {
        asked_for(batch.drop_last()) + (match batch.last() {
            PatchView::Properties { handle, props } => seq![
                Envelope {
                    target: handle,
                    instruction: Instruction::Update(ComponentUpdate::Properties(props)),
                },
            ],
            _ => Seq::empty(),
        })
    }
}

/// The mount points at which a batch of patches asks for a new instance, in
/// order.
pub open spec fn mounts<P>(batch: Seq<PatchView<P>>) -> Seq<Handle>
    decreases batch.len(),
{
    if batch.len() == 0 {
        Seq::empty()
    } else {
        mounts(batch.drop_last()) + (match batch.last() {
            PatchView::Mount { handle, component } => seq![handle],
            _ => Seq::empty(),
        })
    }
}

/// The place of the first instance at the mount point `target`.
pub open spec fn place_of<COMP: Component>(instances: Seq<Instance<COMP>>, target: Handle) -> Option<
    int,
> {
    if exists|i: int| 0 <= i < instances.len() && (#[trigger] instances[i]).at == target {
        Some(
            choose|i: int|
                0 <= i < instances.len() && (#[trigger] instances[i]).at == target && forall|j: int|
                    0 <= j < i ==> (#[trigger] instances[j]).at != target,
        )
    } else {
        None
    }
}

/// What no delivery undoes: the journal and the list of defects only grow,
/// no handle is handed out twice, no instance leaves its place or its mount
/// point, and an instance that was torn down stays so.
pub open spec fn moved_on<COMP: Component>(before: Runtime<COMP>, after: Runtime<COMP>) -> bool {
    &&& before.journal().is_prefix_of(after.journal())
    &&& before.faults().is_prefix_of(after.faults())
    &&& before.next() <= after.next()
    &&& before.instances().len() <= after.instances().len()
    &&& forall|i: int|
        0 <= i < before.instances().len() ==> {
            &&& (#[trigger] after.instances()[i]).at == before.instances()[i].at
            &&& after.instances()[i].index == before.instances()[i].index
            &&& before.instances()[i].scope.destroyed() ==> after.instances()[i].scope.destroyed()
            &&& before.instances()[i].scope.mounted() ==> after.instances()[i].scope.mounted()
        }
    &&& before.settled() ==> after.settled()
}

impl<COMP: Component> Runtime<COMP> {
    /// The patches that wait for the host.
    pub closed spec fn journal(&self) -> Seq<PatchView<COMP::Properties>> {
        self.journal@.map_values(|p: Patch<COMP::Properties>| p@)
    }

    /// The defects that deliveries met, in their order.
    pub closed spec fn faults(&self) -> Seq<Fault> {
        self.faults@
    }

    /// The next fresh handle.
    pub closed spec fn next(&self) -> Handle {
        self.patcher.next()
    }

    /// The instances, in the order in which they were asked for.
    pub closed spec fn instances(&self) -> Seq<Instance<COMP>> {
        self.instances@
    }

    /// The patcher, with the handles and with what reconciliation wrote and
    /// the runtime has yet to sort.
    pub closed spec fn written(&self) -> Patcher<COMP::Properties> {
        self.patcher
    }

    /// What reconciliation wrote and the runtime has yet to sort.
    pub closed spec fn unsorted(&self) -> Seq<PatchView<COMP::Properties>> {
        self.patcher.log()
    }

    /// Whether the runtime has sorted all that reconciliation wrote.
    pub open spec fn settled(&self) -> bool {
        self.unsorted().len() == 0
    }

    /// A runtime without instances that goes on with the handles of
    /// `patcher`. What `patcher` holds already is for the host.
    pub fn new(patcher: Patcher<COMP::Properties>) -> (r: Self)
        ensures
            r.journal() == patcher.log(),
            r.next() == patcher.next(),
            r.instances() == Seq::<Instance<COMP>>::empty(),
            r.faults() == Seq::<Fault>::empty(),
            r.settled(),
    {
        let mut patcher = patcher;
        let journal = patcher.drain();
        Runtime { patcher, instances: Vec::new(), journal, faults: Vec::new() }
    }

    /// Adds a scope that holds no instance yet, to be mounted to the live
    /// element `at`, where its tree starts at place `index`.
    pub fn register(&mut self, at: Handle, index: u64, scope: Scope<COMP>)
        requires
            scope.vacant(),
        ensures
            final(self).instances() == old(self).instances().push(
                Instance { at, index, scope, sent: None },
            ),
            final(self).journal() == old(self).journal(),
            final(self).faults() == old(self).faults(),
            final(self).next() == old(self).next(),
            final(self).unsorted() == old(self).unsorted(),
    {
        self.instances.push(Instance { at, index, scope, sent: None });
    }

    /// How many instances there are, those that were torn down among them.
    pub fn len(&self) -> (n: usize)
        ensures
            n == self.instances().len(),
    {
        self.instances.len()
    }

    /// How many patches wait for the host.
    pub fn pending(&self) -> (n: usize)
        ensures
            n == self.journal().len(),
    {
        self.journal.len()
    }

    /// The instance at place `i`.
    pub fn instance(&self, i: usize) -> (r: &Instance<COMP>)
        requires
            i < self.instances().len(),
        ensures
            *r == self.instances()[i as int],
    {
        &self.instances[i]
    }

    /// The place of the first instance at the mount point `target`.
    pub fn find(&self, target: Handle) -> (r: Option<usize>)
        ensures
            match r {
                Some(i) => place_of(self.instances(), target) == Some(i as int) && i
                    < self.instances().len() && self.instances()[i as int].at == target,
                None => place_of(self.instances(), target) is None,
            },
    {
        let mut i: usize = 0;
        while i < self.instances.len()
            invariant
                i <= self.instances@.len(),
                forall|j: int| 0 <= j < i ==> (#[trigger] self.instances@[j]).at != target,
            decreases self.instances@.len() - i,
        {
            if self.instances[i].at == target {
                proof {
                    let found = place_of(self.instances(), target)->0;
                    assert(found == i) by {
                        if found < i {
                            assert(self.instances@[found].at != target);
                        }
                    }
                }
                return Some(i);
            }
            i += 1;
        }
        None
    }

    /// How many defects deliveries have met.
    pub fn faulty(&self) -> (n: usize)
        ensures
            n == self.faults().len(),
    {
        self.faults.len()
    }

    /// The defect at place `i` of those that deliveries have met.
    pub fn fault(&self, i: usize) -> (r: Fault)
        requires
            i < self.faults().len(),
        ensures
            r == self.faults()[i as int],
    {
        self.faults[i]
    }

    /// Hands the defects over and empties their list.
    pub fn take_faults(&mut self) -> (faults: Vec<Fault>)
        ensures
            faults@ == old(self).faults(),
            final(self).faults() == Seq::<Fault>::empty(),
            final(self).journal() == old(self).journal(),
            final(self).next() == old(self).next(),
            final(self).instances() == old(self).instances(),
            final(self).unsorted() == old(self).unsorted(),
    {
        let mut faults = Vec::new();
        std::mem::swap(&mut faults, &mut self.faults);
        faults
    }

    /// Hands the waiting patches to the host and empties the journal.
    pub fn take_patches(&mut self) -> (patches: Vec<Patch<COMP::Properties>>)
        ensures
            patches@.map_values(|p: Patch<COMP::Properties>| p@) == old(self).journal(),
            final(self).journal() == Seq::<PatchView<COMP::Properties>>::empty(),
            final(self).faults() == old(self).faults(),
            final(self).next() == old(self).next(),
            final(self).instances() == old(self).instances(),
            final(self).unsorted() == old(self).unsorted(),
    {
        let mut patches = Vec::new();
        std::mem::swap(&mut patches, &mut self.journal);
        assert(self.journal() =~= Seq::empty());
        patches
    }
}

/// Puts `value` at place `i` of `items` and returns what was there.
fn exchange<T>(items: &mut Vec<T>, i: usize, value: T) -> (previous: T)
    requires
        i < old(items)@.len(),
    ensures
        previous == old(items)@[i as int],
        final(items)@ == old(items)@.update(i as int, value),
{
    items.push(value);
    let previous = items.swap_remove(i);
    assert(items@ =~= old(items)@.update(i as int, value));
    previous
}

/// The messages of a mailbox as envelopes for the instance at `target`, in
/// their order.
pub open spec fn enveloped<COMP: Component>(target: Handle, mailbox: Seq<COMP::Message>) -> Seq<
    Envelope<COMP>,
> {
    Seq::new(
        mailbox.len(),
        |i: int|
            Envelope {
                target,
                instruction: Instruction::Update(ComponentUpdate::Message(mailbox[i])),
            },
    )
}

/// The messages of a mailbox as envelopes for the instance at `target`, in
/// their order.
pub fn envelopes_of<COMP: Component>(target: Handle, mailbox: Vec<COMP::Message>) -> (envelopes: Vec<
    Envelope<COMP>,
>)
    ensures
        envelopes@ == enveloped::<COMP>(target, mailbox@),
{
    let ghost wanted = enveloped::<COMP>(target, mailbox@);
    let mut mailbox = mailbox;
    let mut reversed: Vec<Envelope<COMP>> = Vec::new();
    // `pop` hands the messages out last first: turn them round twice
    while mailbox.len() > 0
        invariant
            mailbox@.len() + reversed@.len() == wanted.len(),
            forall|i: int|
                0 <= i < mailbox@.len() ==> (Envelope::<COMP> {
                    target,
                    instruction: Instruction::Update(ComponentUpdate::Message(mailbox@[i])),
                }) == wanted[i],
            forall|i: int| 0 <= i < reversed@.len() ==> reversed@[i] == wanted[wanted.len() - 1 - i],
        decreases mailbox@.len(),
    {
        let message = mailbox.pop().unwrap();
        reversed.push(
            Envelope { target, instruction: Instruction::Update(ComponentUpdate::Message(message)) },
        );
    }
    let mut envelopes: Vec<Envelope<COMP>> = Vec::new();
    while reversed.len() > 0
        invariant
            reversed@.len() + envelopes@.len() == wanted.len(),
            forall|i: int| 0 <= i < reversed@.len() ==> reversed@[i] == wanted[wanted.len() - 1 - i],
            forall|i: int| 0 <= i < envelopes@.len() ==> envelopes@[i] == wanted[i],
        decreases reversed@.len(),
    {
        let envelope = reversed.pop().unwrap();
        envelopes.push(envelope);
    }
    assert(envelopes@ =~= wanted);
    envelopes
}

/// The patches that give the tree of an instance up, where it has one.
pub open spec fn given_up<COMP: Component>(instance: Instance<COMP>) -> Seq<
    PatchView<COMP::Properties>,
> {
    match instance.scope.root() {
        Some(root) => teardown(root, instance.scope.element()),
        None => Seq::empty(),
    }
}

/// The instance after it was torn down.
pub open spec fn felled<COMP: Component>(instance: Instance<COMP>) -> Instance<COMP> {
    Instance { scope: instance.scope.torn(), ..instance }
}

/// The place of the instance that a patch asks to tear down, where it asks
/// for that and the instance is there.
pub open spec fn asked_down<COMP: Component>(
    instances: Seq<Instance<COMP>>,
    patch: PatchView<COMP::Properties>,
) -> Option<int> {
    match patch {
        PatchView::Destroy { handle } => place_of(instances, handle),
        _ => None,
    }
}

/// A batch of patches with the teardowns that it asks for carried out, and
/// the instances after that. Each request to tear an instance down is
/// followed at once by the patches that give the tree of that instance up,
/// in which the requests for the instances nested in that tree are carried
/// out in the same way, `depth` requests deep; the instance is torn down
/// from there on. A request for an instance that is not there goes nowhere.
#[verifier::opaque]
pub open spec fn unfolded<COMP: Component>(
    instances: Seq<Instance<COMP>>,
    batch: Seq<PatchView<COMP::Properties>>,
    depth: nat,
) -> (Seq<PatchView<COMP::Properties>>, Seq<Instance<COMP>>)
    decreases depth, batch.len(),
{
    if depth == 0 {
        (batch, instances)
    } else if batch.len() == 0 {
        (Seq::empty(), instances)
    } else {
        let done = unfolded(instances, batch.drop_last(), depth);
        match asked_down(done.1, batch.last()) {
            Some(j) => {
                let inner = unfolded(
                    done.1.update(j, felled(done.1[j])),
                    given_up(done.1[j]),
                    (depth - 1) as nat,
                );
                (done.0.push(batch.last()) + inner.0, inner.1)
            },
            None => (done.0.push(batch.last()), done.1),
        }
    }
}

/// What `unfolded` is of a batch without patches, and at depth 0.
pub proof fn lemma_unfolded_nothing<COMP: Component>(
    instances: Seq<Instance<COMP>>,
    batch: Seq<PatchView<COMP::Properties>>,
    depth: nat,
)
    requires
        depth == 0 || batch.len() == 0,
    ensures
        unfolded(instances, batch, depth) == (batch, instances),
{
    reveal(unfolded);
    if depth > 0 {
        assert(batch =~= Seq::empty());
    }
}

/// What `unfolded` is of a batch with a last patch: the batch before that
/// patch unfolded, then the patch, then what the patch asks to tear down.
pub proof fn lemma_unfolded_last<COMP: Component>(
    instances: Seq<Instance<COMP>>,
    batch: Seq<PatchView<COMP::Properties>>,
    depth: nat,
)
    requires
        depth > 0,
        batch.len() > 0,
    ensures
        unfolded(instances, batch, depth) == ({
            let done = unfolded(instances, batch.drop_last(), depth);
            match asked_down(done.1, batch.last()) {
                Some(j) => {
                    let inner = unfolded(
                        done.1.update(j, felled(done.1[j])),
                        given_up(done.1[j]),
                        (depth - 1) as nat,
                    );
                    (done.0.push(batch.last()) + inner.0, inner.1)
                },
                None => (done.0.push(batch.last()), done.1),
            }
        }),
{
    reveal(unfolded);
}

/// The patches as the contracts speak of them.
pub open spec fn views_of<P>(patches: Seq<Patch<P>>) -> Seq<PatchView<P>> {
    patches.map_values(|p: Patch<P>| p@)
}

impl<COMP: Component> Runtime<COMP> {
    /// Tears the instance at place `j` down and returns the patches that
    /// give its tree up.
    fn fell(&mut self, j: usize) -> (patches: Vec<Patch<COMP::Properties>>)
        requires
            old(self).settled(),
            j < old(self).instances().len(),
        ensures
            final(self).settled(),
            final(self).next() == old(self).next(),
            final(self).faults() == old(self).faults(),
            final(self).journal() == old(self).journal(),
            final(self).instances() == old(self).instances().update(
                j as int,
                felled(old(self).instances()[j as int]),
            ),
            views_of(patches@) == given_up(old(self).instances()[j as int]),
    {
        let at = self.instances[j].at;
        let index = self.instances[j].index;
        let mut instance = exchange(
            &mut self.instances,
            j,
            Instance { at, index, scope: Scope::new(), sent: None },
        );
        instance.scope.destroy(&mut self.patcher);
        exchange(&mut self.instances, j, instance);
        assert(self.instances() =~= old(self).instances().update(
            j as int,
            felled(old(self).instances()[j as int]),
        ));
        let patches = self.patcher.drain();
        assert(views_of(patches@) =~= given_up(old(self).instances()[j as int]));
        patches
    }

    /// The place of the instance that the patch asks to tear down, where
    /// it asks for that and the instance is there.
    fn follow(&self, patch: &Patch<COMP::Properties>) -> (target: Option<usize>)
        ensures
            match target {
                Some(j) => j < self.instances().len() && asked_down(self.instances(), patch@)
                    == Some(j as int),
                None => asked_down(self.instances(), patch@) is None,
            },
    {
        if let Patch::Destroy { handle } = patch {
            assert(patch@ == PatchView::<COMP::Properties>::Destroy { handle: *handle });
            self.find(*handle)
        } else {
            assert(!(patch@ is Destroy));
            None
        }
    }

    /// Carries out the teardowns that a batch of patches asks for, `depth`
    /// requests deep, and returns the batch with the patches of each
    /// teardown behind its request.
    fn unfold(&mut self, batch: Vec<Patch<COMP::Properties>>, depth: usize) -> (out: Vec<
        Patch<COMP::Properties>,
    >)
        requires
            old(self).settled(),
        ensures
            final(self).settled(),
            final(self).next() == old(self).next(),
            final(self).faults() == old(self).faults(),
            final(self).journal() == old(self).journal(),
            views_of(out@) == unfolded(old(self).instances(), views_of(batch@), depth as nat).0,
            final(self).instances() == unfolded(
                old(self).instances(),
                views_of(batch@),
                depth as nat,
            ).1,
        decreases depth,
    {
        let ghost all = views_of(batch@);
        if depth == 0 {
            proof {
                lemma_unfolded_nothing(self.instances(), all, 0);
            }
            return batch;
        }
        let ghost instances0 = self.instances();
        let mut batch = batch;
        let mut out: Vec<Patch<COMP::Properties>> = Vec::new();
        let n = batch.len();
        let mut i: usize = 0;
        proof {
            assert(all.take(0) =~= Seq::empty());
            assert(views_of(out@) =~= Seq::empty());
            lemma_unfolded_nothing(instances0, all.take(0), depth as nat);
        }
        while i < n
            invariant
                i <= n,
                n == all.len(),
                batch@.len() == n,
                depth > 0,
                forall|j: int| i <= j < n ==> (#[trigger] batch@[j])@ == all[j],
                self.settled(),
                self.next() == old(self).next(),
                self.faults() == old(self).faults(),
                self.journal() == old(self).journal(),
                views_of(out@) == unfolded(instances0, all.take(i as int), depth as nat).0,
                self.instances() == unfolded(instances0, all.take(i as int), depth as nat).1,
            decreases n - i,
        {
            let ghost upto = all.take(i as int + 1);
            let ghost done = unfolded(instances0, all.take(i as int), depth as nat);
            proof {
                assert(upto.drop_last() =~= all.take(i as int));
                assert(upto.last() == all[i as int]);
                lemma_unfolded_last(instances0, upto, depth as nat);
            }
            let patch = exchange(&mut batch, i, Patch::Release { handle: 0 });
            let target = self.follow(&patch);
            let ghost before = views_of(out@);
            out.push(patch);
            assert(views_of(out@) =~= before.push(all[i as int]));
            match target {
                Some(j) => {
                    assert(asked_down(done.1, all[i as int]) == Some(j as int));
                    let more = self.fell(j);
                    let ghost ahead = views_of(out@);
                    let mut inner = self.unfold(more, depth - 1);
                    let ghost behind = views_of(inner@);
                    out.append(&mut inner);
                    assert(views_of(out@) =~= ahead + behind);
                },
                None => {
                    assert(asked_down(done.1, all[i as int]) is None);
                },
            }
            i += 1;
        }
        assert(all.take(i as int) =~= all);
        out
    }

    /// Sorts what reconciliation wrote. The teardowns that it asks for are
    /// carried out first, as deep as there are instances, which puts the
    /// patches of each teardown behind its request. Of the patches that
    /// there are then, those for the host go to the journal, each request
    /// for an instance adds a scope that holds none yet, and properties
    /// become envelopes, which are returned in their order.
    pub fn settle(&mut self) -> (envelopes: Vec<Envelope<COMP>>)
        ensures
            final(self).faults() == old(self).faults(),
            final(self).next() == old(self).next(),
            sorted(
                old(self).instances(),
                old(self).journal(),
                old(self).unsorted(),
                Seq::empty(),
                *final(self),
                envelopes@,
            ),
    {
        let ghost instances_before = self.instances();
        let ghost unfolding = unfolded(
            self.instances(),
            self.unsorted(),
            self.instances().len(),
        );
        let ghost unsorted = unfolding.0;
        let ghost journal0 = self.journal();
        let written = self.patcher.drain();
        let depth = self.instances.len();
        let mut batch = self.unfold(written, depth);
        let ghost instances0 = self.instances();
        proof {
            lemma_unfolded_on(instances_before, old(self).unsorted(), depth as nat);
        }
        let mut envelopes: Vec<Envelope<COMP>> = Vec::new();
        let n = batch.len();
        let mut i: usize = 0;
        assert(unsorted.take(0) =~= Seq::empty());
        assert(self.journal() =~= journal0 + for_host(unsorted.take(0)));
        while i < n
            invariant
                i <= n,
                n == unsorted.len(),
                batch@.len() == n,
                forall|j: int| i <= j < n ==> (#[trigger] batch@[j])@ == unsorted[j],
                self.settled(),
                self.next() == old(self).next(),
                self.faults() == old(self).faults(),
                self.journal() == journal0 + for_host(unsorted.take(i as int)),
                envelopes@ == asked_for::<COMP>(unsorted.take(i as int)),
                self.instances().len() == instances0.len() + mounts(unsorted.take(i as int)).len(),
                forall|k: int| 0 <= k < instances0.len() ==> (#[trigger] self.instances()[k]) == instances0[k],
                forall|k: int|
                    0 <= k < mounts(unsorted.take(i as int)).len() ==> {
                        let added = #[trigger] self.instances()[instances0.len() + k];
                        added.at == mounts(unsorted.take(i as int))[k] && added.index == 0
                            && added.scope.vacant() && added.sent is None
                    },
            decreases n - i,
        {
            let ghost upto = unsorted.take(i as int + 1);
            let ghost journal_before = self.journal();
            let ghost mounts_before = mounts(unsorted.take(i as int));
            proof {
                assert(upto.drop_last() =~= unsorted.take(i as int));
                assert(upto.last() == unsorted[i as int]);
            }
            let patch = exchange(&mut batch, i, Patch::Release { handle: 0 });
            match patch {
                Patch::Properties { handle, props } => {
                    envelopes.push(
                        Envelope {
                            target: handle,
                            instruction: Instruction::Update(ComponentUpdate::Properties(props)),
                        },
                    );
                    assert(self.journal() =~= journal0 + for_host(upto));
                },
                Patch::Mount { handle, component } => {
                    self.instances.push(
                        Instance { at: handle, index: 0, scope: Scope::new(), sent: None },
                    );
                    self.journal.push(Patch::Mount { handle, component });
                    assert(self.journal() =~= journal_before.push(unsorted[i as int]));
                    assert(self.journal() =~= journal0 + for_host(upto));
                    assert(mounts(upto) =~= mounts_before.push(handle));
                },
                other => {
                    self.journal.push(other);
                    assert(self.journal() =~= journal_before.push(unsorted[i as int]));
                    assert(self.journal() =~= journal0 + for_host(upto));
                },
            }
            proof {
                assert(mounts(upto).len() >= mounts_before.len());
                assert forall|k: int| 0 <= k < mounts(upto).len() implies {
                    let added = #[trigger] self.instances()[instances0.len() + k];
                    added.at == mounts(upto)[k] && added.index == 0 && added.scope.vacant()
                        && added.sent is None
                } by {
                    if k < mounts_before.len() {
                        assert(mounts(upto)[k] == mounts_before[k]);
                    }
                }
            }
            i += 1;
        }
        assert(unsorted.take(i as int) =~= unsorted);
        assert(self.instances().take(instances0.len() as int) =~= instances0);
        assert(Seq::<Envelope<COMP>>::empty() + envelopes@ =~= envelopes@);
        envelopes
    }

}

impl<COMP: Component> Instance<COMP> where COMP::Properties: PartialEq {
    /// Whether `props` are the properties that were delivered last.
    pub fn has_last(&self, props: &COMP::Properties) -> (r: bool)
        ensures
            COMP::Properties::obeys_eq_spec() ==> r == (self.sent matches Some(last)
                && last.eq_spec(props)),
            self.sent is None ==> !r,
    {
        match &self.sent {
            Some(last) => *last == *props,
            None => false,
        }
    }
}

/// Whether the instruction brings the instance, which takes updates, the
/// properties that were delivered to it last.
pub open spec fn again<COMP: Component>(
    instance: Instance<COMP>,
    instruction: Instruction<COMP::Message, COMP::Properties>,
) -> bool where COMP::Properties: PartialEq {
    &&& instance.scope.active()
    &&& instruction matches Instruction::Update(ComponentUpdate::Properties(props))
    &&& instance.sent matches Some(last)
    &&& last.eq_spec(&props)
}

/// The defects after one more was met, or none.
pub open spec fn noted(faults: Seq<Fault>, fault: Option<Fault>) -> Seq<Fault> {
    match fault {
        Some(fault) => faults.push(fault),
        None => faults,
    }
}

/// The defect that the last delivery met, where it met one.
pub open spec fn met<COMP: Component>(before: Runtime<COMP>, after: Runtime<COMP>) -> Option<Fault> {
    if after.faults().len() > before.faults().len() {
        Some(after.faults().last())
    } else {
        None
    }
}

/// How rendering ended, by whether a defect was met: a tree that was
/// refused is the one defect of rendering.
pub open spec fn ended(fault: Option<Fault>) -> Outcome {
    if fault is Some {
        Outcome::Refused
    } else {
        Outcome::Patched
    }
}

/// Nothing happened: the instance and what is written are as they were, and
/// nothing is scheduled.
pub open spec fn untouched<COMP: Component>(
    before: Instance<COMP>,
    written_before: Patcher<COMP::Properties>,
    after: Instance<COMP>,
    written_after: Patcher<COMP::Properties>,
    scheduled: Seq<Envelope<COMP>>,
) -> bool {
    &&& after == before
    &&& written_after.next() == written_before.next()
    &&& written_after.log() == written_before.log()
    &&& scheduled == Seq::<Envelope<COMP>>::empty()
}

/// What an instance that takes updates makes of an update that goes to its
/// component. The state of the instance, the messages that are scheduled
/// for it, in order, and the decision to render are what the component gave
/// for the state before and the update. Where the component did not ask to
/// be rendered, neither the tree nor what is written changed. Else the
/// component was rendered in its new state over the tree that it had
/// rendered last; a tree that was refused is the one defect.
pub open spec fn answered<COMP: Component>(
    before: Instance<COMP>,
    update: ComponentUpdate<COMP::Message, COMP::Properties>,
    written_before: Patcher<COMP::Properties>,
    after: Instance<COMP>,
    written_after: Patcher<COMP::Properties>,
    scheduled: Seq<Envelope<COMP>>,
    fault: Option<Fault>,
) -> bool where COMP::Properties: Clone {
    &&& after.scope.active()
    &&& after.scope.element() == before.scope.element()
    &&& after.scope.index() == before.scope.index()
    &&& fault is Some ==> fault == Some(Fault::Refused(before.at))
    &&& match update {
        ComponentUpdate::Message(_) => after.sent == before.sent,
        ComponentUpdate::Properties(props) => after.sent matches Some(last) && cloned(props, last),
    }
    &&& exists|sent: Vec<COMP::Message>, should_render: ShouldRender|
        {
            &&& #[trigger] updated(
                before.scope.state(),
                update,
                after.scope.state(),
                sent,
                should_render,
            )
            &&& scheduled == enveloped::<COMP>(before.at, sent@)
            &&& if should_render {
                rendered(
                    after.scope.state(),
                    before.scope.root(),
                    before.scope.element(),
                    before.scope.index(),
                    written_before,
                    ended(fault),
                    after.scope.root(),
                    written_after,
                )
            } else {
                &&& fault is None
                &&& after.scope.root() == before.scope.root()
                &&& written_after.next() == written_before.next()
                &&& written_after.log() == written_before.log()
            }
        }
}

/// What the first properties make of an instance that was not created yet:
/// the component is created from them, at the mount point of the instance,
/// and rendered where nothing was; a tree that was refused is the one
/// defect. Nothing is scheduled.
pub open spec fn created<COMP: Component>(
    before: Instance<COMP>,
    props: COMP::Properties,
    written_before: Patcher<COMP::Properties>,
    after: Instance<COMP>,
    written_after: Patcher<COMP::Properties>,
    scheduled: Seq<Envelope<COMP>>,
    fault: Option<Fault>,
) -> bool where COMP::Properties: Clone {
    &&& after.scope.active()
    &&& after.scope.element() == before.at
    &&& after.scope.index() == before.index
    &&& after.scope.state() matches Some(state)
    &&& call_ensures(COMP::create, (props,), state)
    &&& after.sent matches Some(last)
    &&& cloned(props, last)
    &&& fault is Some ==> fault == Some(Fault::Refused(before.at))
    &&& rendered(
        after.scope.state(),
        None,
        before.at,
        before.index,
        written_before,
        ended(fault),
        after.scope.root(),
        written_after,
    )
    &&& scheduled == Seq::<Envelope<COMP>>::empty()
}

/// What a teardown makes of an instance: the instance is torn down and has
/// no tree, the patches that take the tree which it had rendered last out
/// of the live tree and give it up are written, and nothing else changes.
/// Nothing is scheduled, and there is no defect.
pub open spec fn torn_down<COMP: Component>(
    before: Instance<COMP>,
    written_before: Patcher<COMP::Properties>,
    after: Instance<COMP>,
    written_after: Patcher<COMP::Properties>,
    scheduled: Seq<Envelope<COMP>>,
    fault: Option<Fault>,
) -> bool {
    &&& after.scope.destroyed()
    &&& after.scope.root() is None
    &&& after.scope.state() == before.scope.state()
    &&& after.scope.element() == before.scope.element()
    &&& after.scope.index() == before.scope.index()
    &&& after.sent == before.sent
    &&& written_after.next() == written_before.next()
    &&& written_after.log() == written_before.log() + (match before.scope.root() {
        Some(root) => teardown(root, before.scope.element()),
        None => Seq::empty(),
    })
    &&& scheduled == Seq::<Envelope<COMP>>::empty()
    &&& fault is None
}

/// What an instance and what is written are after the instance took an
/// instruction; `scheduled` is what the instance scheduled and `fault` the
/// defect that it met. The instance stays at its mount point. A teardown
/// tears it down. An update for an instance that takes updates goes to the
/// component, unless it brings the properties that were delivered last,
/// which changes nothing: the sender ignores properties till they change.
/// The first properties for an instance that was not created yet create
/// it. Every other update is misplaced and changes nothing.
pub open spec fn received<COMP: Component>(
    before: Instance<COMP>,
    instruction: Instruction<COMP::Message, COMP::Properties>,
    written_before: Patcher<COMP::Properties>,
    after: Instance<COMP>,
    written_after: Patcher<COMP::Properties>,
    scheduled: Seq<Envelope<COMP>>,
    fault: Option<Fault>,
) -> bool where COMP::Properties: PartialEq + Clone {
    &&& after.at == before.at
    &&& after.index == before.index
    &&& match instruction {
        Instruction::Destroy => torn_down(
            before,
            written_before,
            after,
            written_after,
            scheduled,
            fault,
        ),
        Instruction::Update(update) => if before.scope.active() {
            let ignored = fault is None && untouched(
                before,
                written_before,
                after,
                written_after,
                scheduled,
            );
            let taken = answered(
                before,
                update,
                written_before,
                after,
                written_after,
                scheduled,
                fault,
            );
            if update is Message {
                taken
            } else if COMP::Properties::obeys_eq_spec() {
                if again(before, instruction) {
                    ignored
                } else {
                    taken
                }
            } else {
                ignored || taken
            }
        } else if before.scope.vacant() && update is Properties {
            created(
                before,
                update->Properties_0,
                written_before,
                after,
                written_after,
                scheduled,
                fault,
            )
        } else {
            fault == misplaced(before, instruction) && untouched(
                before,
                written_before,
                after,
                written_after,
                scheduled,
            )
        },
    }
}

/// The defect of an instruction that goes where it cannot go: an update for
/// an instance that was torn down, or a message for one that was not
/// created yet.
pub open spec fn misplaced<COMP: Component>(
    instance: Instance<COMP>,
    instruction: Instruction<COMP::Message, COMP::Properties>,
) -> Option<Fault> {
    match instruction {
        Instruction::Update(update) => if instance.scope.active() {
            None
        } else if instance.scope.destroyed() {
            Some(Fault::TornDown(instance.at))
        } else if update is Message {
            Some(Fault::NotCreated(instance.at))
        } else {
            None
        },
        Instruction::Destroy => None,
    }
}

impl<COMP: Component> Instance<COMP> where COMP::Properties: PartialEq + Clone {
    /// Takes an instruction. The first properties create the instance and
    /// render it for the first time. Later properties go to the component
    /// unless they equal those that were delivered last: the sender ignores
    /// properties till they change. Messages go to the component. A teardown
    /// gives the tree of the instance up. An instance that was torn down
    /// takes nothing. Returns the messages that the component sent to
    /// itself, as envelopes.
    pub fn receive(
        &mut self,
        instruction: Instruction<COMP::Message, COMP::Properties>,
        patcher: &mut Patcher<COMP::Properties>,
    ) -> (r: (Vec<Envelope<COMP>>, Option<Fault>))
        ensures
            received(
                *old(self),
                instruction,
                *old(patcher),
                *final(self),
                *final(patcher),
                r.0@,
                r.1,
            ),
    {
        let target = self.at;
        match instruction {
            Instruction::Update(ComponentUpdate::Properties(props)) => {
                if self.scope.is_active() {
                    // ignore the properties till they change
                    if self.has_last(&props) {
                        return (Vec::new(), None);
                    }
                    self.sent = Some(props.clone());
                    let (outcome, mailbox) = self.scope.update(
                        ComponentUpdate::Properties(props),
                        patcher,
                    );
                    (envelopes_of(target, mailbox), refusal(outcome, target))
                } else if self.scope.is_vacant() {
                    self.sent = Some(props.clone());
                    let outcome = self.scope.mount_in_place(target, self.index, props, patcher);
                    (Vec::new(), refusal(outcome, target))
                } else if self.scope.is_destroyed() {
                    (Vec::new(), Some(Fault::TornDown(target)))
                } else {
                    (Vec::new(), None)
                }
            },
            Instruction::Update(ComponentUpdate::Message(message)) => {
                if self.scope.is_active() {
                    let (outcome, mailbox) = self.scope.update(
                        ComponentUpdate::Message(message),
                        patcher,
                    );
                    (envelopes_of(target, mailbox), refusal(outcome, target))
                } else if self.scope.is_destroyed() {
                    (Vec::new(), Some(Fault::TornDown(target)))
                } else {
                    (Vec::new(), Some(Fault::NotCreated(target)))
                }
            },
            Instruction::Destroy => {
                self.scope.destroy(patcher);
                assert(old(patcher).log().is_prefix_of(patcher.log()));
                (Vec::new(), None)
            },
        }
    }
}

/// The defect that a tree was refused, where it was.
pub fn refusal(outcome: Outcome, at: Handle) -> (fault: Option<Fault>)
    ensures
        fault == if outcome == Outcome::Refused {
            Some(Fault::Refused(at))
        } else {
            None
        },
{
    match outcome {
        Outcome::Refused => Some(Fault::Refused(at)),
        _ => None,
    }
}

/// What the runtime `after` is once it sorted the patches `batch` that were
/// written while it held `instances` and its journal was `journal`, where
/// `first` is what was scheduled before. The teardowns that the batch asks
/// for are carried out, as deep as there are instances. Of the patches that
/// there are then, the journal receives what is for the host, each request
/// for an instance adds a scope at its mount point that holds no instance
/// yet, and what the patches ask for is scheduled behind `first`, in order.
pub open spec fn sorted<COMP: Component>(
    instances: Seq<Instance<COMP>>,
    journal: Seq<PatchView<COMP::Properties>>,
    batch: Seq<PatchView<COMP::Properties>>,
    first: Seq<Envelope<COMP>>,
    after: Runtime<COMP>,
    scheduled: Seq<Envelope<COMP>>,
) -> bool {
    let unfolding = unfolded(instances, batch, instances.len());
    &&& after.settled()
    &&& after.journal() == journal + for_host(unfolding.0)
    &&& scheduled == first + asked_for::<COMP>(unfolding.0)
    &&& after.instances().len() == instances.len() + mounts(unfolding.0).len()
    &&& after.instances().take(instances.len() as int) == unfolding.1
    &&& forall|k: int|
        0 <= k < mounts(unfolding.0).len() ==> {
            let added = #[trigger] after.instances()[instances.len() + k];
            added.at == mounts(unfolding.0)[k] && added.index == 0 && added.scope.vacant()
                && added.sent is None
        }
}

/// What one delivery of `envelope` makes of the runtime `before`: the
/// runtime `after` and the envelopes `scheduled`. The instance at the
/// target receives the instruction, with the patcher of the runtime to
/// write to, and the runtime then sorts all that is written; the defect
/// that the instance met, where it met one, is noted. An envelope whose
/// target is no instance is a defect and goes to nobody.
pub open spec fn delivered<COMP: Component>(
    before: Runtime<COMP>,
    envelope: Envelope<COMP>,
    after: Runtime<COMP>,
    scheduled: Seq<Envelope<COMP>>,
) -> bool where COMP::Properties: PartialEq + Clone {
    &&& moved_on(before, after)
    &&& match place_of(before.instances(), envelope.target) {
        Some(i) => {
            &&& 0 <= i < before.instances().len()
            &&& before.instances()[i].at == envelope.target
            &&& after.faults() == noted(before.faults(), met(before, after))
            &&& exists|
                handed: Instance<COMP>,
                written: Patcher<COMP::Properties>,
                first: Seq<Envelope<COMP>>,
            |
                {
                    &&& #[trigger] received(
                        before.instances()[i],
                        envelope.instruction,
                        before.written(),
                        handed,
                        written,
                        first,
                        met(before, after),
                    )
                    &&& after.next() == written.next()
                    &&& sorted(
                        before.instances().update(i, handed),
                        before.journal(),
                        written.log(),
                        first,
                        after,
                        scheduled,
                    )
                }
        },
        None => {
            &&& after.faults() == before.faults().push(Fault::NoInstance(envelope.target))
            &&& after.next() == before.next()
            &&& sorted(
                before.instances(),
                before.journal(),
                before.unsorted(),
                Seq::empty(),
                after,
                scheduled,
            )
        },
    }
}

impl<COMP: Component> Runtime<COMP> where COMP::Properties: PartialEq + Clone {
    /// Hands an envelope to the instance at its target, which writes to the
    /// patcher what its tree needs. An envelope whose target is no instance
    /// is dropped. Returns the messages that the component sent to itself,
    /// as envelopes.
    pub fn hand(&mut self, envelope: Envelope<COMP>) -> (scheduled: Vec<Envelope<COMP>>)
        ensures
            final(self).journal() == old(self).journal(),
            final(self).instances().len() == old(self).instances().len(),
            match place_of(old(self).instances(), envelope.target) {
                Some(i) => {
                    &&& final(self).instances() == old(self).instances().update(
                        i,
                        final(self).instances()[i],
                    )
                    &&& final(self).faults() == noted(old(self).faults(), met(*old(self), *final(self)))
                    &&& received(
                        old(self).instances()[i],
                        envelope.instruction,
                        old(self).written(),
                        final(self).instances()[i],
                        final(self).written(),
                        scheduled@,
                        met(*old(self), *final(self)),
                    )
                },
                None => {
                    &&& final(self).instances() == old(self).instances()
                    &&& final(self).written() == old(self).written()
                    &&& final(self).faults() == old(self).faults().push(
                        Fault::NoInstance(envelope.target),
                    )
                    &&& scheduled@ == Seq::<Envelope<COMP>>::empty()
                },
            },
    {
        let Envelope { target, instruction } = envelope;
        match self.find(target) {
            Some(i) => {
                let at = self.instances[i].at;
                let index = self.instances[i].index;
                let mut instance = exchange(
                    &mut self.instances,
                    i,
                    Instance { at, index, scope: Scope::new(), sent: None },
                );
                let (scheduled, fault) = instance.receive(instruction, &mut self.patcher);
                exchange(&mut self.instances, i, instance);
                assert(self.instances() =~= old(self).instances().update(i as int, instance));
                if let Some(fault) = fault {
                    self.faults.push(fault);
                }
                assert(met(*old(self), *self) == fault);
                scheduled
            },
            None => {
                self.faults.push(Fault::NoInstance(target));
                Vec::new()
            },
        }
    }

    /// Delivers an envelope to the instance at its target and sorts what
    /// reconciliation wrote. The first properties create the instance and
    /// render it for the first time. Later properties go to the component
    /// unless they equal those that were delivered last: the sender ignores
    /// properties till they change. Messages go to the component. A teardown
    /// gives the tree of the instance up. An envelope whose target is no
    /// instance, or an instance that was torn down, is dropped. Returns the
    /// envelopes to schedule: the messages that the component sent to
    /// itself, then what reconciliation asked for.
    pub fn deliver(&mut self, envelope: Envelope<COMP>) -> (scheduled: Vec<Envelope<COMP>>)
        ensures
            delivered(*old(self), envelope, *final(self), scheduled@),
    {
        let ghost target = envelope.target;
        let ghost instruction = envelope.instruction;
        let mut scheduled = self.hand(envelope);
        let ghost handed = *self;
        let ghost sent = scheduled@;
        let mut asked = self.settle();
        let ghost wanted = asked@;
        scheduled.append(&mut asked);
        proof {
            lemma_delivered(*old(self), handed, *self, target, instruction, sent, wanted);
        }
        scheduled
    }
}

/// What holds of a delivery, which hands the envelope over and then sorts
/// what was written.
proof fn lemma_delivered<COMP: Component>(
    before: Runtime<COMP>,
    handed: Runtime<COMP>,
    after: Runtime<COMP>,
    target: Handle,
    instruction: Instruction<COMP::Message, COMP::Properties>,
    sent: Seq<Envelope<COMP>>,
    asked: Seq<Envelope<COMP>>,
) where COMP::Properties: PartialEq + Clone
    requires
        handed.journal() == before.journal(),
        handed.instances().len() == before.instances().len(),
        match place_of(before.instances(), target) {
            Some(i) => {
                &&& handed.instances() == before.instances().update(i, handed.instances()[i])
                &&& handed.faults() == noted(before.faults(), met(before, handed))
                &&& received(
                    before.instances()[i],
                    instruction,
                    before.written(),
                    handed.instances()[i],
                    handed.written(),
                    sent,
                    met(before, handed),
                )
            },
            None => {
                &&& handed.instances() == before.instances()
                &&& handed.written() == before.written()
                &&& handed.faults() == before.faults().push(Fault::NoInstance(target))
                &&& sent == Seq::<Envelope<COMP>>::empty()
            },
        },
        after.faults() == handed.faults(),
        after.next() == handed.next(),
        sorted(
            handed.instances(),
            handed.journal(),
            handed.unsorted(),
            Seq::empty(),
            after,
            asked,
        ),
    ensures
        delivered(before, Envelope { target, instruction }, after, sent + asked),
{
    lemma_written(before);
    lemma_written(handed);
    lemma_place_of(before.instances(), target);
    let depth = handed.instances().len();
    let unfolding = unfolded(handed.instances(), handed.unsorted(), depth);
    lemma_unfolded_on(handed.instances(), handed.unsorted(), depth);
    assert(before.journal().is_prefix_of(after.journal()));
    assert(sent + asked =~= sent + asked_for::<COMP>(unfolding.0));
    assert(sorted(
        handed.instances(),
        before.journal(),
        handed.unsorted(),
        sent,
        after,
        sent + asked,
    ));
    assert forall|k: int| 0 <= k < before.instances().len() implies (
    #[trigger] after.instances()[k]) == unfolding.1[k] by {
        assert(after.instances().take(depth as int)[k] == after.instances()[k]);
    }
    match place_of(before.instances(), target) {
        Some(i) => {
            assert(met(before, after) == met(before, handed));
            lemma_received_on(
                before.instances()[i],
                instruction,
                before.written(),
                handed.instances()[i],
                handed.written(),
                sent,
                met(before, handed),
            );
            assert forall|k: int| 0 <= k < before.instances().len() implies {
                &&& (#[trigger] after.instances()[k]).at == before.instances()[k].at
                &&& after.instances()[k].index == before.instances()[k].index
                &&& before.instances()[k].scope.destroyed() ==> after.instances()[k].scope.destroyed()
                &&& before.instances()[k].scope.mounted() ==> after.instances()[k].scope.mounted()
            } by {
                assert(after.instances()[k] == unfolding.1[k]);
                if k != i {
                    assert(handed.instances()[k] == before.instances()[k]);
                }
            }
        },
        None => {
            assert(sent + asked =~= Seq::<Envelope<COMP>>::empty() + asked);
            assert forall|k: int| 0 <= k < before.instances().len() implies {
                &&& (#[trigger] after.instances()[k]).at == before.instances()[k].at
                &&& after.instances()[k].index == before.instances()[k].index
                &&& before.instances()[k].scope.destroyed() ==> after.instances()[k].scope.destroyed()
                &&& before.instances()[k].scope.mounted() ==> after.instances()[k].scope.mounted()
            } by {
                assert(after.instances()[k] == unfolding.1[k]);
            }
        },
    }
}

/// After a delivery the instance at the target is as it was when it had
/// received the instruction, unless what it wrote asked for its own
/// teardown.
pub proof fn lemma_delivered_to<COMP: Component>(
    before: Runtime<COMP>,
    envelope: Envelope<COMP>,
    after: Runtime<COMP>,
    scheduled: Seq<Envelope<COMP>>,
) where COMP::Properties: PartialEq + Clone
    requires
        delivered(before, envelope, after, scheduled),
        place_of(before.instances(), envelope.target) is Some,
    ensures
        exists|handed: Instance<COMP>, written: Patcher<COMP::Properties>, first: Seq<Envelope<COMP>>|
            {
                &&& #[trigger] received(
                    before.instances()[place_of(before.instances(), envelope.target)->0],
                    envelope.instruction,
                    before.written(),
                    handed,
                    written,
                    first,
                    met(before, after),
                )
                &&& after.next() == written.next()
                &&& {
                    let now = after.instances()[place_of(before.instances(), envelope.target)->0];
                    now == handed || now == felled(handed)
                }
            },
{
    let i = place_of(before.instances(), envelope.target)->0;
    let (handed, written, first) = choose|
        handed: Instance<COMP>,
        written: Patcher<COMP::Properties>,
        first: Seq<Envelope<COMP>>,
    |
        {
            &&& #[trigger] received(
                before.instances()[i],
                envelope.instruction,
                before.written(),
                handed,
                written,
                first,
                met(before, after),
            )
            &&& after.next() == written.next()
            &&& sorted(
                before.instances().update(i, handed),
                before.journal(),
                written.log(),
                first,
                after,
                scheduled,
            )
        };
    let held = before.instances().update(i, handed);
    lemma_unfolded_on(held, written.log(), held.len());
    assert(after.instances().take(held.len() as int)[i] == after.instances()[i]);
}

/// How many of the instances were not torn down.
pub open spec fn standing<COMP: Component>(instances: Seq<Instance<COMP>>) -> nat
    decreases instances.len(),
{
    if instances.len() == 0 {
        0
    } else {
        standing(instances.drop_last()) + (if instances.last().scope.destroyed() {
            0nat
        } else {
            1nat
        })
    }
}

/// Whether every instance that was torn down has no tree, as every
/// instance has that a teardown left.
pub open spec fn cleared<COMP: Component>(instances: Seq<Instance<COMP>>) -> bool {
    forall|k: int|
        0 <= k < instances.len() && (#[trigger] instances[k]).scope.destroyed()
            ==> instances[k].scope.root() is None
}

proof fn lemma_standing_bound<COMP: Component>(instances: Seq<Instance<COMP>>)
    ensures
        standing(instances) <= instances.len(),
    decreases instances.len(),
{
    if instances.len() > 0 {
        lemma_standing_bound(instances.drop_last());
    }
}

proof fn lemma_standing_fewer<COMP: Component>(
    before: Seq<Instance<COMP>>,
    after: Seq<Instance<COMP>>,
)
    requires
        after.len() == before.len(),
        forall|k: int|
            0 <= k < before.len() && (#[trigger] before[k]).scope.destroyed()
                ==> after[k].scope.destroyed(),
    ensures
        standing(after) <= standing(before),
    decreases before.len(),
{
    if before.len() > 0 {
        assert forall|k: int|
            0 <= k < before.drop_last().len() && (#[trigger] before.drop_last()[k]).scope.destroyed()
                implies after.drop_last()[k].scope.destroyed() by {
            assert(before[k].scope.destroyed());
        }
        lemma_standing_fewer(before.drop_last(), after.drop_last());
        assert(before[before.len() - 1] == before.last());
    }
}

proof fn lemma_standing_felled<COMP: Component>(instances: Seq<Instance<COMP>>, j: int)
    requires
        0 <= j < instances.len(),
        !instances[j].scope.destroyed(),
    ensures
        standing(instances.update(j, felled(instances[j]))) + 1 == standing(instances),
    decreases instances.len(),
{
    let after = instances.update(j, felled(instances[j]));
    instances[j].scope.lemma_torn();
    if j == instances.len() - 1 {
        assert(after.drop_last() =~= instances.drop_last());
    } else {
        assert(after.drop_last() =~= instances.drop_last().update(j, felled(instances[j])));
        assert(instances.drop_last()[j] == instances[j]);
        lemma_standing_felled(instances.drop_last(), j);
    }
}

/// The place of the first instance at a mount point depends on the mount
/// points alone.
proof fn lemma_same_place<COMP: Component>(
    before: Seq<Instance<COMP>>,
    after: Seq<Instance<COMP>>,
    target: Handle,
)
    requires
        after.len() == before.len(),
        forall|k: int| 0 <= k < before.len() ==> (#[trigger] after[k]).at == before[k].at,
    ensures
        place_of(after, target) == place_of(before, target),
{
    lemma_place_of(before, target);
    lemma_place_of(after, target);
    match place_of(before, target) {
        Some(i) => {
            assert(after[i].at == target);
            let j = place_of(after, target)->0;
            assert(before[j].at == after[j].at);
            lemma_first(before, target);
            lemma_first(after, target);
            if j < i {
                assert(before[j].at != target);
            }
            if i < j {
                assert(after[i].at != target);
            }
        },
        None => {
            if place_of(after, target) is Some {
                let j = place_of(after, target)->0;
                assert(before[j].at == after[j].at);
            }
        },
    }
}

/// No instance before the place of the first instance at a mount point is
/// at that mount point.
proof fn lemma_first<COMP: Component>(instances: Seq<Instance<COMP>>, target: Handle)
    ensures
        place_of(instances, target) matches Some(i) ==> forall|j: int|
            0 <= j < i ==> (#[trigger] instances[j]).at != target,
{
    if exists|i: int| 0 <= i < instances.len() && (#[trigger] instances[i]).at == target {
        let n = choose|i: int| 0 <= i < instances.len() && (#[trigger] instances[i]).at == target;
        lemma_first_place(instances, target, n);
    }
}

/// Whether every instance that the patches ask to tear down is torn down
/// among `instances`.
pub open spec fn carried_out<COMP: Component>(
    batch: Seq<PatchView<COMP::Properties>>,
    instances: Seq<Instance<COMP>>,
) -> bool {
    forall|k: int|
        0 <= k < batch.len() ==> (asked_down(instances, #[trigger] batch[k]) matches Some(j)
            ==> instances[j].scope.destroyed())
}

/// Whether the instances `after` are the instances `before` later on:
/// each at its mount point, and torn down if it was.
pub open spec fn later<COMP: Component>(
    before: Seq<Instance<COMP>>,
    after: Seq<Instance<COMP>>,
) -> bool {
    &&& after.len() == before.len()
    &&& forall|k: int|
        0 <= k < before.len() ==> {
            &&& (#[trigger] after[k]).at == before[k].at
            &&& before[k].scope.destroyed() ==> after[k].scope.destroyed()
        }
}

proof fn lemma_later_on<COMP: Component>(
    before: Seq<Instance<COMP>>,
    between: Seq<Instance<COMP>>,
    after: Seq<Instance<COMP>>,
)
    requires
        later(before, between),
        later(between, after),
    ensures
        later(before, after),
{
    assert forall|k: int| 0 <= k < before.len() implies {
        &&& (#[trigger] after[k]).at == before[k].at
        &&& before[k].scope.destroyed() ==> after[k].scope.destroyed()
    } by {
        assert(between[k].at == before[k].at);
    }
}

proof fn lemma_unfolded_later<COMP: Component>(
    instances: Seq<Instance<COMP>>,
    batch: Seq<PatchView<COMP::Properties>>,
    depth: nat,
)
    requires
        cleared(instances),
    ensures
        later(instances, unfolded(instances, batch, depth).1),
        cleared(unfolded(instances, batch, depth).1),
        standing(unfolded(instances, batch, depth).1) <= standing(instances),
{
    let after = unfolded(instances, batch, depth).1;
    lemma_unfolded_on(instances, batch, depth);
    lemma_standing_fewer(instances, after);
    assert forall|k: int| 0 <= k < after.len() && (#[trigger] after[k]).scope.destroyed()
        implies after[k].scope.root() is None by {
        instances[k].scope.lemma_torn();
    }
}

proof fn lemma_carried_later<COMP: Component>(
    batch: Seq<PatchView<COMP::Properties>>,
    before: Seq<Instance<COMP>>,
    after: Seq<Instance<COMP>>,
)
    requires
        carried_out(batch, before),
        later(before, after),
    ensures
        carried_out(batch, after),
{
    assert forall|k: int| 0 <= k < batch.len() implies (asked_down(after, #[trigger] batch[k])
        matches Some(j) ==> after[j].scope.destroyed()) by {
        if batch[k] is Destroy {
            let handle = batch[k]->Destroy_handle;
            lemma_same_place(before, after, handle);
            lemma_place_of(before, handle);
        }
    }
}

proof fn lemma_carried_joined<COMP: Component>(
    ahead: Seq<PatchView<COMP::Properties>>,
    behind: Seq<PatchView<COMP::Properties>>,
    instances: Seq<Instance<COMP>>,
)
    requires
        carried_out(ahead, instances),
        carried_out(behind, instances),
    ensures
        carried_out(ahead + behind, instances),
{
    assert forall|k: int| 0 <= k < (ahead + behind).len() implies (asked_down(
        instances,
        #[trigger] (ahead + behind)[k],
    ) matches Some(j) ==> instances[j].scope.destroyed()) by {
        if k < ahead.len() {
            assert((ahead + behind)[k] == ahead[k]);
        } else {
            assert((ahead + behind)[k] == behind[k - ahead.len()]);
        }
    }
}

/// Nothing is left undone: a depth that is no less than the number of
/// instances that were not torn down is enough to carry out every teardown
/// that the patches ask for, those that the teardowns themselves ask for
/// among them. As deep as there are instances is always enough.
pub proof fn lemma_unfolded_whole<COMP: Component>(
    instances: Seq<Instance<COMP>>,
    batch: Seq<PatchView<COMP::Properties>>,
    depth: nat,
)
    requires
        cleared(instances),
        standing(instances) <= depth,
    ensures
        carried_out(unfolded(instances, batch, depth).0, unfolded(instances, batch, depth).1),
    decreases depth, batch.len(),
{
    let whole = unfolded(instances, batch, depth);
    if batch.len() == 0 {
        lemma_unfolded_nothing(instances, batch, depth);
    } else if depth == 0 {
        lemma_unfolded_nothing(instances, batch, depth);
        lemma_none_standing(instances);
        assert forall|k: int| 0 <= k < batch.len() implies (asked_down(
            instances,
            #[trigger] batch[k],
        ) matches Some(j) ==> instances[j].scope.destroyed()) by {
            if batch[k] is Destroy {
                lemma_place_of(instances, batch[k]->Destroy_handle);
            }
        }
    } else {
        lemma_unfolded_last(instances, batch, depth);
        let done = unfolded(instances, batch.drop_last(), depth);
        lemma_unfolded_whole(instances, batch.drop_last(), depth);
        lemma_unfolded_later(instances, batch.drop_last(), depth);
        let last = batch.last();
        let one = seq![last];
        assert(done.0.push(last) =~= done.0 + one);
        match asked_down(done.1, last) {
            Some(j) => {
                lemma_whole_last(done.0, done.1, last, j, depth);
            },
            None => {
                assert(carried_out(one, done.1)) by {
                    assert(one[0] == last);
                }
                lemma_carried_joined(done.0, one, done.1);
            },
        }
    }
}

/// `lemma_unfolded_whole` for a last patch that asks for a teardown.
proof fn lemma_whole_last<COMP: Component>(
    ahead: Seq<PatchView<COMP::Properties>>,
    instances: Seq<Instance<COMP>>,
    last: PatchView<COMP::Properties>,
    j: int,
    depth: nat,
)
    requires
        depth > 0,
        cleared(instances),
        standing(instances) <= depth,
        carried_out(ahead, instances),
        asked_down(instances, last) == Some(j),
    ensures
        ({
            let inner = unfolded(
                instances.update(j, felled(instances[j])),
                given_up(instances[j]),
                (depth - 1) as nat,
            );
            carried_out((ahead + seq![last]) + inner.0, inner.1)
        }),
    decreases depth, 0nat, 0nat,
{
    let handle = last->Destroy_handle;
    lemma_place_of(instances, handle);
    instances[j].scope.lemma_torn();
    let between = instances.update(j, felled(instances[j]));
    let inner = unfolded(between, given_up(instances[j]), (depth - 1) as nat);
    assert(cleared(between));
    assert(later(instances, between));
    lemma_unfolded_later(between, given_up(instances[j]), (depth - 1) as nat);
    lemma_later_on(instances, between, inner.1);
    if instances[j].scope.destroyed() {
        lemma_unfolded_nothing(between, given_up(instances[j]), (depth - 1) as nat);
        assert(carried_out(inner.0, inner.1));
    } else {
        lemma_standing_felled(instances, j);
        lemma_unfolded_whole(between, given_up(instances[j]), (depth - 1) as nat);
    }
    lemma_carried_later(ahead, instances, inner.1);
    let one = seq![last];
    assert(carried_out(one, inner.1)) by {
        assert(one[0] == last);
        lemma_same_place(instances, inner.1, handle);
        assert(between[j].scope.destroyed());
    }
    lemma_carried_joined(ahead, one, inner.1);
    lemma_carried_joined(ahead + one, inner.0, inner.1);
}

/// Where no instance stands, every instance was torn down.
proof fn lemma_none_standing<COMP: Component>(instances: Seq<Instance<COMP>>)
    requires
        standing(instances) == 0,
    ensures
        forall|k: int| 0 <= k < instances.len() ==> (#[trigger] instances[k]).scope.destroyed(),
    decreases instances.len(),
{
    if instances.len() > 0 {
        lemma_none_standing(instances.drop_last());
        assert forall|k: int| 0 <= k < instances.len() implies (
        #[trigger] instances[k]).scope.destroyed() by {
            if k < instances.len() - 1 {
                assert(instances.drop_last()[k] == instances[k]);
            }
        }
    }
}

/// What the runtime sorted left no teardown undone, where the instances
/// that were torn down before had no tree.
pub proof fn lemma_sorted_whole<COMP: Component>(
    instances: Seq<Instance<COMP>>,
    batch: Seq<PatchView<COMP::Properties>>,
)
    requires
        cleared(instances),
    ensures
        carried_out(
            unfolded(instances, batch, instances.len()).0,
            unfolded(instances, batch, instances.len()).1,
        ),
{
    lemma_standing_bound(instances);
    lemma_unfolded_whole(instances, batch, instances.len());
}

/// A batch that asks for no teardown stays as it is, and so do the
/// instances.
pub proof fn lemma_unfolded_plain<COMP: Component>(
    instances: Seq<Instance<COMP>>,
    batch: Seq<PatchView<COMP::Properties>>,
    depth: nat,
)
    requires
        tears_nothing(batch),
    ensures
        unfolded(instances, batch, depth) == (batch, instances),
    decreases batch.len(),
{
    if depth > 0 && batch.len() > 0 {
        lemma_unfolded_last(instances, batch, depth);
        lemma_unfolded_plain(instances, batch.drop_last(), depth);
        assert(batch.drop_last().push(batch.last()) =~= batch);
    } else {
        lemma_unfolded_nothing(instances, batch, depth);
    }
}

/// Carrying out the teardowns that a batch asks for leaves every instance
/// at its place and at its mount point, with what was delivered to it last
/// and with the state of its component. An instance is as it was, or it is
/// torn down and has no tree.
pub proof fn lemma_unfolded_on<COMP: Component>(
    instances: Seq<Instance<COMP>>,
    batch: Seq<PatchView<COMP::Properties>>,
    depth: nat,
)
    ensures
        unfolded(instances, batch, depth).1.len() == instances.len(),
        forall|k: int|
            0 <= k < instances.len() ==> {
                let now = #[trigger] unfolded(instances, batch, depth).1[k];
                &&& now.at == instances[k].at
                &&& now.index == instances[k].index
                &&& now.sent == instances[k].sent
                &&& now.scope.state() == instances[k].scope.state()
                &&& now.scope.element() == instances[k].scope.element()
                &&& now.scope.index() == instances[k].scope.index()
                &&& instances[k].scope.destroyed() ==> now.scope.destroyed()
                &&& now == instances[k] || now == felled(instances[k])
            },
    decreases depth, batch.len(),
{
    if depth > 0 && batch.len() > 0 {
        lemma_unfolded_last(instances, batch, depth);
        lemma_unfolded_on(instances, batch.drop_last(), depth);
        let done = unfolded(instances, batch.drop_last(), depth);
        match asked_down(done.1, batch.last()) {
            Some(j) => {
                lemma_place_of(done.1, batch.last()->Destroy_handle);
                done.1[j].scope.lemma_torn();
                let between = done.1.update(j, felled(done.1[j]));
                lemma_unfolded_on(between, given_up(done.1[j]), (depth - 1) as nat);
                let last = unfolded(between, given_up(done.1[j]), (depth - 1) as nat).1;
                assert(unfolded(instances, batch, depth).1 == last);
                assert forall|k: int| 0 <= k < instances.len() implies {
                    let now = #[trigger] last[k];
                    &&& now.at == instances[k].at
                    &&& now.index == instances[k].index
                    &&& now.sent == instances[k].sent
                    &&& now.scope.state() == instances[k].scope.state()
                    &&& now.scope.element() == instances[k].scope.element()
                    &&& now.scope.index() == instances[k].scope.index()
                    &&& instances[k].scope.destroyed() ==> now.scope.destroyed()
                    &&& now == instances[k] || now == felled(instances[k])
                } by {
                    let mid = between[k];
                    let was = done.1[k];
                    assert(mid == was || mid == felled(was));
                    instances[k].scope.lemma_torn();
                    was.scope.lemma_torn();
                    mid.scope.lemma_torn();
                }
            },
            None => {},
        }
    } else {
        lemma_unfolded_nothing(instances, batch, depth);
    }
}

/// What every instruction leaves as it is: the instance stays where it is,
/// what was created or torn down stays so, and what is written only grows.
pub proof fn lemma_received_on<COMP: Component>(
    before: Instance<COMP>,
    instruction: Instruction<COMP::Message, COMP::Properties>,
    written_before: Patcher<COMP::Properties>,
    after: Instance<COMP>,
    written_after: Patcher<COMP::Properties>,
    scheduled: Seq<Envelope<COMP>>,
    fault: Option<Fault>,
) where COMP::Properties: PartialEq + Clone
    requires
        received(before, instruction, written_before, after, written_after, scheduled, fault),
    ensures
        before.scope.destroyed() ==> after.scope.destroyed(),
        before.scope.mounted() ==> after.scope.mounted(),
        written_before.next() <= written_after.next(),
        written_before.log().is_prefix_of(written_after.log()),
{
}

/// An update that does not ask to render changes nothing but the state of
/// the component: where the component answers the message `message` in the
/// state it is in with no wish to be rendered, whatever else it answers, the
/// delivery of the message to the instance leaves the tree that the
/// instance rendered last, the journal, the handles, the defects and the
/// number of instances as they were, and schedules nothing but the messages
/// that the component sent to itself in that answer.
pub proof fn lemma_update_without_render<COMP: Component>(
    before: Runtime<COMP>,
    target: Handle,
    message: COMP::Message,
    after: Runtime<COMP>,
    scheduled: Seq<Envelope<COMP>>,
) where COMP::Properties: PartialEq + Clone
    requires
        before.settled(),
        place_of(before.instances(), target) matches Some(i) && before.instances()[i].scope.active(),
        delivered(
            before,
            Envelope { target, instruction: Instruction::Update(ComponentUpdate::Message(message)) },
            after,
            scheduled,
        ),
        forall|state: COMP, next: COMP, sent: Vec<COMP::Message>, should_render: ShouldRender|
            #[trigger] call_ensures(
                COMP::update,
                (state, ComponentUpdate::Message(message)),
                (next, sent, should_render),
            ) ==> !should_render,
    ensures
        after.instances()[place_of(before.instances(), target)->0].scope.root()
            == before.instances()[place_of(before.instances(), target)->0].scope.root(),
        after.journal() == before.journal(),
        after.next() == before.next(),
        after.faults() == before.faults(),
        after.instances().len() == before.instances().len(),
        exists|sent: Vec<COMP::Message>|
            {
                &&& #[trigger] updated(
                    before.instances()[place_of(before.instances(), target)->0].scope.state(),
                    ComponentUpdate::Message(message),
                    after.instances()[place_of(before.instances(), target)->0].scope.state(),
                    sent,
                    false,
                )
                &&& scheduled == enveloped::<COMP>(target, sent@)
            },
{
    let i = place_of(before.instances(), target)->0;
    let instruction = Instruction::<COMP::Message, COMP::Properties>::Update(
        ComponentUpdate::Message(message),
    );
    lemma_written(before);
    let (handed, written, first) = choose|
        handed: Instance<COMP>,
        written: Patcher<COMP::Properties>,
        first: Seq<Envelope<COMP>>,
    |
        {
            &&& #[trigger] received(
                before.instances()[i],
                instruction,
                before.written(),
                handed,
                written,
                first,
                met(before, after),
            )
            &&& after.next() == written.next()
            &&& sorted(
                before.instances().update(i, handed),
                before.journal(),
                written.log(),
                first,
                after,
                scheduled,
            )
        };
    let (sent, should_render) = choose|sent: Vec<COMP::Message>, should_render: ShouldRender|
        {
            &&& #[trigger] updated(
                before.instances()[i].scope.state(),
                ComponentUpdate::Message(message),
                handed.scope.state(),
                sent,
                should_render,
            )
            &&& first == enveloped::<COMP>(before.instances()[i].at, sent@)
            &&& !should_render ==> {
                &&& met(before, after) is None
                &&& handed.scope.root() == before.instances()[i].scope.root()
                &&& written.next() == before.written().next()
                &&& written.log() == before.written().log()
            }
        };
    assert(!should_render);
    assert(written.log() =~= Seq::empty());
    let held = before.instances().update(i, handed);
    lemma_unfolded_nothing(held, written.log(), held.len());
    assert(after.instances().take(held.len() as int)[i] == after.instances()[i]);
    assert(after.journal() =~= before.journal());
    assert(scheduled =~= first);
    assert(scheduled == enveloped::<COMP>(target, sent@));
}

/// The host makes nothing of the properties for nested components: what it
/// has after the patches that are for it is what it has after all of them.
pub proof fn lemma_host_part<P>(dom: Dom, batch: Seq<PatchView<P>>)
    ensures
        apply_all(dom, for_host(batch)) == apply_all(dom, batch),
    decreases batch.len(),
{
    if batch.len() > 0 {
        lemma_host_part(dom, batch.drop_last());
        let head = for_host(batch.drop_last());
        if batch.last() is Properties {
            assert(for_host(batch) =~= head);
        } else {
            lemma_apply_joined(dom, head, seq![batch.last()]);
            lemma_apply_few(apply_all(dom, head), batch.last());
        }
    }
}

/// Among instances of which one is at the mount point `target`, one is the
/// first.
proof fn lemma_first_place<COMP: Component>(instances: Seq<Instance<COMP>>, target: Handle, n: int)
    requires
        0 <= n < instances.len(),
        instances[n].at == target,
    ensures
        exists|i: int|
            0 <= i < instances.len() && (#[trigger] instances[i]).at == target && forall|j: int|
                0 <= j < i ==> (#[trigger] instances[j]).at != target,
    decreases n,
{
    if exists|j: int| 0 <= j < n && (#[trigger] instances[j]).at == target {
        let j = choose|j: int| 0 <= j < n && (#[trigger] instances[j]).at == target;
        lemma_first_place(instances, target, j);
    } else {
        assert(instances[n].at == target);
    }
}

/// The place of the first instance at a mount point is a place of the
/// instances, and the instance there is at the mount point.
pub proof fn lemma_place_of<COMP: Component>(instances: Seq<Instance<COMP>>, target: Handle)
    ensures
        place_of(instances, target) matches Some(i) ==> 0 <= i < instances.len()
            && instances[i].at == target,
{
    if exists|i: int| 0 <= i < instances.len() && (#[trigger] instances[i]).at == target {
        let n = choose|i: int| 0 <= i < instances.len() && (#[trigger] instances[i]).at == target;
        lemma_first_place(instances, target, n);
    }
}

/// What is written and yet to sort is what the patcher holds.
pub proof fn lemma_written<COMP: Component>(runtime: Runtime<COMP>)
    ensures
        runtime.written().log() == runtime.unsorted(),
        runtime.written().next() == runtime.next(),
{
}

/// `moved_on` holds of a runtime that did not change.
pub proof fn lemma_moved_on_unchanged<COMP: Component>(runtime: Runtime<COMP>)
    ensures
        moved_on(runtime, runtime),
{
}

/// What has moved on twice has moved on.
pub proof fn lemma_moved_on_twice<COMP: Component>(
    before: Runtime<COMP>,
    between: Runtime<COMP>,
    after: Runtime<COMP>,
)
    requires
        moved_on(before, between),
        moved_on(between, after),
    ensures
        moved_on(before, after),
{
    assert forall|i: int| 0 <= i < before.instances().len() implies {
        &&& (#[trigger] after.instances()[i]).at == before.instances()[i].at
        &&& after.instances()[i].index == before.instances()[i].index
        &&& before.instances()[i].scope.destroyed() ==> after.instances()[i].scope.destroyed()
        &&& before.instances()[i].scope.mounted() ==> after.instances()[i].scope.mounted()
    } by {
        assert(between.instances()[i].at == before.instances()[i].at);
    }
}

impl<COMP: Component> Runnable<Runtime<COMP>> for Envelope<COMP> where
    COMP::Properties: PartialEq + Clone,
 {
    open spec fn keeps(before: Runtime<COMP>, after: Runtime<COMP>) -> bool {
        moved_on(before, after)
    }

    proof fn lemma_keeps_unchanged(context: Runtime<COMP>) {
        lemma_moved_on_unchanged(context);
    }

    proof fn lemma_keeps_on(before: Runtime<COMP>, between: Runtime<COMP>, after: Runtime<COMP>) {
        lemma_moved_on_twice(before, between, after);
    }

    /// A run of an envelope is its delivery.
    open spec fn ran(self, before: Runtime<COMP>, after: Runtime<COMP>, scheduled: Vec<Self>) -> bool {
        delivered(before, self, after, scheduled@)
    }

    /// Delivers the envelope to the runtime and hands back the envelopes
    /// that the delivery asked for.
    fn run(self, context: &mut Runtime<COMP>) -> (scheduled: Vec<Self>) {
        context.deliver(self)
    }
}

} // verus!
