//! A reference to a nested component, as it stands in a parent's tree.

use vstd::prelude::*;
use vstd::std_specs::cmp::PartialEqSpec;

verus! {

/// The identity of a component type.
pub type TypeTag = u64;

/// What names a live node of the host.
pub type Handle = u64;

/// A virtual component: the type of the nested component, the properties
/// that wait to be delivered to it, what delivers them, and what creates the
/// instance.
#[derive(Debug)]
pub struct VComp<P> {
    type_id: TypeTag,
    /// The properties that wait, under the type they were attached for.
    props: Option<(TypeTag, P)>,
    /// The component type whose properties the sender accepts.
    sender: TypeTag,
    /// The component type that the generator builds; gone once it has run.
    generator: Option<TypeTag>,
    /// The mount point of the instance that the sender reaches.
    reference: Option<Handle>,
    /// For each callback that was made of a function, the instance that its
    /// messages go to, once the parent has said so.
    activators: Vec<Option<Handle>>,
}

/// A function of the parent that turns what a nested component reports into
/// a message for the parent. It can be used once its activator is set.
pub struct Callback<F> {
    function: F,
    activator: usize,
}

/// Converts property and stores activator to attach sender in the rendering state.
pub trait Transformer<FROM, TO>: Sized {
    /// What a conversion does: how the property `to` and the virtual
    /// component after the conversion follow from `from` and from the
    /// virtual component before it.
    spec fn transformed(before: Self, from: FROM, after: Self, to: TO) -> bool;

    fn transform(&mut self, from: FROM) -> (to: TO)
        ensures
            Self::transformed(*old(self), from, *final(self), to),
    ;
}

impl<P, T> Transformer<T, T> for VComp<P> {
    /// A value that has the type of the property already is the property,
    /// and the virtual component stays as it is.
    open spec fn transformed(before: Self, from: T, after: Self, to: T) -> bool {
        to == from && after == before
    }

    fn transform(&mut self, from: T) -> T {
        from
    }
}

impl<'a, P, T: Clone> Transformer<&'a T, T> for VComp<P> {
    /// A reference to a value of the type of the property gives a clone of
    /// the value, and the virtual component stays as it is.
    open spec fn transformed(before: Self, from: &'a T, after: Self, to: T) -> bool {
        cloned(*from, to) && after == before
    }

    fn transform(&mut self, from: &'a T) -> T {
        from.clone()
    }
}

impl<P, F> Transformer<F, Option<Callback<F>>> for VComp<P> {
    /// A function becomes a callback of that function with an activator of
    /// its own, the last of the virtual component, which is not set yet.
    /// Nothing else of the virtual component changes.
    open spec fn transformed(before: Self, from: F, after: Self, to: Option<Callback<F>>) -> bool {
        &&& to matches Some(callback)
        &&& callback.function() == from
        &&& callback.activator() == before.activators().len()
        &&& after.activators() == before.activators().push(None)
        &&& after.pending() == before.pending()
        &&& after.spec_type_id() == before.spec_type_id()
        &&& after.accepts() == before.accepts()
        &&& after.mountable() == before.mountable()
        &&& after.spec_reference() == before.spec_reference()
    }

    fn transform(&mut self, from: F) -> Option<Callback<F>> {
        Some(self.callback(from))
    }
}

impl<F> Callback<F> {
    /// The function that makes the message.
    pub closed spec fn function(&self) -> F {
        self.function
    }

    /// The place of the activator among those of the virtual component.
    pub closed spec fn activator(&self) -> nat {
        self.activator as nat
    }

    /// Turns `arg` into a message. Returns it with the instance that it
    /// goes to. The callback must have been made by `comp` and activated.
    pub fn emit<P, IN, MSG>(&self, comp: &VComp<P>, arg: IN) -> (r: (Handle, MSG)) where
        F: Fn(IN) -> MSG,

        requires
            self.activator() < comp.activators().len(),
            comp.activators()[self.activator() as int] is Some,
            call_requires(self.function(), (arg,)),
        ensures
            Some(r.0) == comp.activators()[self.activator() as int],
            call_ensures(self.function(), (arg,), r.1),
    {
        let msg = (self.function)(arg);
        let sender = comp.activators[self.activator].unwrap();
        (sender, msg)
    }

    /// Whether the callback was activated in `comp`.
    pub fn is_active<P>(&self, comp: &VComp<P>) -> (r: bool)
        ensures
            r == (self.activator() < comp.activators().len() && comp.activators()[self.activator() as int] is Some),
    {
        self.activator < comp.activators.len() && comp.activators[self.activator].is_some()
    }
}

impl<P> VComp<P> {
    /// The component type that this reference stands for.
    pub closed spec fn spec_type_id(&self) -> TypeTag {
        self.type_id
    }

    /// The properties that wait to be delivered, with the type they were
    /// attached for.
    pub closed spec fn pending(&self) -> Option<(TypeTag, P)> {
        self.props
    }

    /// The component type whose properties the sender accepts.
    pub closed spec fn accepts(&self) -> TypeTag {
        self.sender
    }

    /// Whether the generator has not run yet.
    pub closed spec fn mountable(&self) -> bool {
        self.generator == Some(self.type_id)
    }

    /// The mount point of the instance, once there is one.
    pub closed spec fn spec_reference(&self) -> Option<Handle> {
        self.reference
    }

    /// The activators of the callbacks that were made, in their order.
    pub closed spec fn activators(&self) -> Seq<Option<Handle>> {
        self.activators@
    }

    /// Whether properties wait that the sender accepts.
    pub open spec fn sendable(&self) -> bool {
        self.pending() matches Some(p) && p.0 == self.accepts()
    }

    /// Prepares a reference to a component of type `child`: nothing waits to
    /// be delivered, the sender accepts the properties of `child`, and the
    /// generator is ready to create the instance. Returns the properties to
    /// start from as well.
    pub fn lazy(child: TypeTag) -> (r: (P, Self)) where P: Default
        ensures
            call_ensures(P::default, (), r.0),
            r.1.spec_type_id() == child,
            r.1.pending() is None,
            r.1.accepts() == child,
            r.1.mountable(),
            r.1.spec_reference() is None,
            r.1.activators() == Seq::<Option<Handle>>::empty(),
    {
        let properties = P::default();
        let comp = VComp {
            type_id: child,
            props: None,
            sender: child,
            generator: Some(child),
            reference: None,
            activators: Vec::new(),
        };
        (properties, comp)
    }

    /// Attach properties associated with the component.
    pub fn set_props(&mut self, props: P)
        ensures
            final(self).pending() == Some((old(self).spec_type_id(), props)),
            final(self).spec_type_id() == old(self).spec_type_id(),
            final(self).accepts() == old(self).accepts(),
            final(self).mountable() == old(self).mountable(),
            final(self).spec_reference() == old(self).spec_reference(),
            final(self).activators() == old(self).activators(),
    {
        self.props = Some((self.type_id, props));
    }

    /// Takes the waiting properties for delivery to the instance. They must
    /// wait, and be those of the component type that the sender accepts.
    pub fn send_props(&mut self) -> (props: P)
        requires
            old(self).sendable(),
        ensures
            old(self).pending() matches Some(p) && p.1 == props,
            final(self).pending() is None,
            final(self).spec_type_id() == old(self).spec_type_id(),
            final(self).accepts() == old(self).accepts(),
            final(self).mountable() == old(self).mountable(),
            final(self).spec_reference() == old(self).spec_reference(),
            final(self).activators() == old(self).activators(),
    {
        let mut taken = None;
        std::mem::swap(&mut taken, &mut self.props);
        let (_, props) = taken.unwrap();
        props
    }

    /// Takes over the sender of the older node, and with it the instance
    /// that the older node reached. Both must stand for one component type.
    pub fn grab_sender_of(&mut self, other: Self)
        requires
            old(self).spec_type_id() == other.spec_type_id(),
        ensures
            final(self).accepts() == other.accepts(),
            final(self).spec_reference() == other.spec_reference(),
            final(self).pending() == old(self).pending(),
            final(self).spec_type_id() == old(self).spec_type_id(),
            final(self).mountable() == old(self).mountable(),
            final(self).activators() == old(self).activators(),
    {
        self.sender = other.sender;
        self.reference = other.reference;
    }

    /// Runs the generator: records `element` as the mount point and returns
    /// the component type of which an instance is to be created there. The
    /// generator runs once.
    pub fn mount(&mut self, element: Handle) -> (child: TypeTag)
        requires
            old(self).mountable(),
        ensures
            child == old(self).spec_type_id(),
            !final(self).mountable(),
            final(self).spec_reference() == Some(element),
            final(self).pending() == old(self).pending(),
            final(self).spec_type_id() == old(self).spec_type_id(),
            final(self).accepts() == old(self).accepts(),
            final(self).activators() == old(self).activators(),
    {
        self.generator = None;
        self.reference = Some(element);
        self.type_id
    }

    /// Makes a callback of a function of the parent, with an activator of
    /// its own, which is not set yet.
    pub fn callback<F>(&mut self, from: F) -> (callback: Callback<F>)
        ensures
            callback.function() == from,
            callback.activator() == old(self).activators().len(),
            final(self).activators() == old(self).activators().push(None),
            final(self).pending() == old(self).pending(),
            final(self).spec_type_id() == old(self).spec_type_id(),
            final(self).accepts() == old(self).accepts(),
            final(self).mountable() == old(self).mountable(),
            final(self).spec_reference() == old(self).spec_reference(),
    {
        let activator = self.activators.len();
        self.activators.push(None);
        Callback { function: from, activator }
    }

    /// Sets every activator: the messages of the callbacks go to `sender`.
    pub fn activate(&mut self, sender: Handle)
        ensures
            final(self).activators() == Seq::new(
                old(self).activators().len(),
                |i: int| Some(sender),
            ),
            final(self).pending() == old(self).pending(),
            final(self).spec_type_id() == old(self).spec_type_id(),
            final(self).accepts() == old(self).accepts(),
            final(self).mountable() == old(self).mountable(),
            final(self).spec_reference() == old(self).spec_reference(),
    {
        let n = self.activators.len();
        let mut set: Vec<Option<Handle>> = Vec::new();
        while set.len() < n
            invariant
                set@.len() <= n,
                forall|i: int| 0 <= i < set@.len() ==> set@[i] == Some(sender),
            decreases n - set@.len(),
        {
            set.push(Some(sender));
        }
        self.activators = set;
        assert(self.activators() =~= Seq::new(old(self).activators().len(), |i: int| Some(sender)));
    }

    #[verifier::when_used_as_spec(spec_type_id)]
    pub fn type_id(&self) -> (r: TypeTag)
        ensures
            r == self.spec_type_id(),
    {
        self.type_id
    }

    #[verifier::when_used_as_spec(spec_reference)]
    pub fn reference(&self) -> (r: Option<Handle>)
        ensures
            r == self.spec_reference(),
    {
        self.reference
    }

    /// The component type whose properties the sender accepts.
    pub fn accepted(&self) -> (r: TypeTag)
        ensures
            r == self.accepts(),
    {
        self.sender
    }

    /// Whether properties wait that the sender accepts.
    pub fn is_sendable(&self) -> (r: bool)
        ensures
            r == self.sendable(),
    {
        match &self.props {
            Some(p) => p.0 == self.sender,
            None => false,
        }
    }

    /// Whether the generator has not run yet.
    pub fn is_mountable(&self) -> (r: bool)
        ensures
            r == self.mountable(),
    {
        match self.generator {
            Some(child) => child == self.type_id,
            None => false,
        }
    }
}

impl<P> PartialEq for VComp<P> {
    /// Virtual components are equal when they stand for one component type,
    /// whatever properties wait in them.
    fn eq(&self, other: &VComp<P>) -> (r: bool) {
        self.type_id == other.type_id
    }
}

impl<P> vstd::std_specs::cmp::PartialEqSpecImpl for VComp<P> {
    open spec fn obeys_eq_spec() -> bool {
        true
    }

    open spec fn eq_spec(&self, other: &VComp<P>) -> bool {
        self.spec_type_id() == other.spec_type_id()
    }
}

} // verus!
