//! The nodes of the virtual tree and their structural equality.

use super::attributes::{inserted, Attributes};
use super::classes::Classes;
use super::vcomp::{Handle, TypeTag, VComp};
use vstd::prelude::*;
use vstd::std_specs::cmp::PartialEqSpec;

verus! {

/// A piece of text.
#[derive(Debug)]
pub struct Text {
    pub text: String,
    pub reference: Option<Handle>,
}

/// An element with its attributes, classes, control state and children.
#[derive(Debug)]
pub struct Element<P> {
    pub tag: String,
    pub reference: Option<Handle>,
    pub attributes: Attributes,
    pub classes: Classes,
    pub value: Option<String>,
    pub checked: bool,
    pub children: Vec<Node<P>>,
}

/// A node of the virtual tree. `P` is what a nested component is given as
/// its properties.
#[derive(Debug)]
pub enum Node<P> {
    Element(Element<P>),
    Text(Text),
    List(Vec<Node<P>>),
    ComponentRef(VComp<P>),
}

/// What an element is, apart from any live handle.
pub struct ElementView {
    pub tag: Seq<char>,
    pub attributes: Map<Seq<char>, Seq<char>>,
    pub classes: Set<Seq<char>>,
    pub value: Option<Seq<char>>,
    pub checked: bool,
    pub children: Seq<NodeView>,
}

/// What a node is, apart from any live handle and from the properties held
/// for a nested component.
pub enum NodeView {
    Element(ElementView),
    Text(Seq<char>),
    List(Seq<NodeView>),
    ComponentRef(TypeTag),
}

/// The characters of an optional string.
pub open spec fn option_view(s: Option<String>) -> Option<Seq<char>> {
    match s {
        Some(s) => Some(s@),
        None => None,
    }
}

/// The views of a sequence of nodes, place by place.
pub open spec fn views<P>(nodes: Seq<Node<P>>) -> Seq<NodeView>
    decreases nodes, 0int,
{
    Seq::new(
        nodes.len(),
        |i: int|
            if 0 <= i < nodes.len() {
                node_view(nodes[i])
            } else {
                NodeView::List(Seq::empty())
            },
    )
}

/// The view of one node.
pub open spec fn node_view<P>(node: Node<P>) -> NodeView
    decreases node, 1int,
{
    match node {
        Node::Element(e) => NodeView::Element(
            ElementView {
                tag: e.tag@,
                attributes: e.attributes@,
                classes: e.classes@,
                value: option_view(e.value),
                checked: e.checked,
                children: views(e.children@),
            },
        ),
        Node::Text(t) => NodeView::Text(t.text@),
        Node::List(nodes) => NodeView::List(views(nodes@)),
        Node::ComponentRef(c) => NodeView::ComponentRef(c.spec_type_id()),
    }
}

impl<P> View for Node<P> {
    type V = NodeView;

    open spec fn view(&self) -> NodeView {
        node_view(*self)
    }
}

/// Whether two optional strings hold the same.
pub fn same_option(a: &Option<String>, b: &Option<String>) -> (r: bool)
    ensures
        r == (option_view(*a) == option_view(*b)),
{
    match (a, b) {
        (Some(x), Some(y)) => *x == *y,
        (None, None) => true,
        _ => false,
    }
}

/// Whether two sequences of nodes are equal place by place.
pub fn same_nodes<P>(a: &Vec<Node<P>>, b: &Vec<Node<P>>) -> (r: bool)
    ensures
        r == (views(a@) == views(b@)),
    decreases a, 0int,
{
    if a.len() != b.len() {
        assert(views(a@).len() != views(b@).len());
        return false;
    }
    let mut i: usize = 0;
    while i < a.len()
        invariant
            i <= a.len(),
            a.len() == b.len(),
            forall|j: int| 0 <= j < i ==> #[trigger] views(a@)[j] == views(b@)[j],
        decreases a.len() - i,
    {
        if !a[i].same_as(&b[i]) {
            assert(views(a@)[i as int] == node_view(a@[i as int]));
            assert(views(b@)[i as int] == node_view(b@[i as int]));
            return false;
        }
        assert(views(a@)[i as int] == node_view(a@[i as int]));
        assert(views(b@)[i as int] == node_view(b@[i as int]));
        i += 1;
    }
    assert(views(a@) =~= views(b@));
    true
}

impl<P> Node<P> {
    /// Structural equality: the same variant with the same contents,
    /// children compared in order, attributes and classes in whatever order;
    /// live handles and the properties of nested components do not count.
    pub fn same_as(&self, other: &Node<P>) -> (r: bool)
        ensures
            r == (self@ == other@),
        decreases self, 1int,
    {
        match (self, other) {
            (Node::Element(a), Node::Element(b)) => {
                a.tag == b.tag && same_option(&a.value, &b.value) && a.checked == b.checked
                    && a.attributes.same_as(&b.attributes) && a.classes.same_as(&b.classes)
                    && same_nodes(&a.children, &b.children)
            },
            (Node::Text(a), Node::Text(b)) => a.text == b.text,
            (Node::List(a), Node::List(b)) => same_nodes(a, b),
            (Node::ComponentRef(a), Node::ComponentRef(b)) => a.type_id() == b.type_id(),
            _ => false,
        }
    }
}

impl Text {
    /// A text that is not rendered yet.
    pub fn new(text: &str) -> (r: Self)
        ensures
            r.text@ == text@,
            r.reference is None,
    {
        Text { text: text.to_owned(), reference: None }
    }
}

impl<P> Element<P> {
    /// An element with this tag and nothing else, not rendered yet.
    pub fn new(tag: &str) -> (r: Self)
        ensures
            r.tag@ == tag@,
            r.reference is None,
            r.attributes@ == Map::<Seq<char>, Seq<char>>::empty(),
            r.attributes.pairs() == Seq::<(Seq<char>, Seq<char>)>::empty(),
            r.classes@ == Set::<Seq<char>>::empty(),
            r.classes.tokens() == Seq::<Seq<char>>::empty(),
            r.value is None,
            !r.checked,
            r.children@ == Seq::<Node<P>>::empty(),
    {
        Element {
            tag: tag.to_owned(),
            reference: None,
            attributes: Attributes::new(),
            classes: Classes::new(),
            value: None,
            checked: false,
            children: Vec::new(),
        }
    }

    /// The tag of the element.
    pub fn tag(&self) -> (r: &str)
        ensures
            r@ == self.tag@,
    {
        self.tag.as_str()
    }

    /// Sets the attribute `name` to `value`.
    pub fn add_attribute(&mut self, name: &str, value: &str)
        ensures
            final(self).attributes@ == old(self).attributes@.insert(name@, value@),
            final(self).attributes.pairs() == inserted(old(self).attributes.pairs(), name@, value@),
            *final(self) == (Element { attributes: final(self).attributes, ..*old(self) }),
    {
        self.attributes.insert(name.to_owned(), value.to_owned());
    }

    /// Adds `class` to the class set.
    pub fn add_class(&mut self, class: &str)
        ensures
            final(self).classes@ == old(self).classes@.insert(class@),
            final(self).classes.tokens() == if old(self).classes@.contains(class@) {
                old(self).classes.tokens()
            } else {
                old(self).classes.tokens().push(class@)
            },
            *final(self) == (Element { classes: final(self).classes, ..*old(self) }),
    {
        self.classes.insert(class.to_owned());
    }

    /// Appends `child` to the children.
    pub fn add_child(&mut self, child: Node<P>)
        ensures
            final(self).children@ == old(self).children@.push(child),
            *final(self) == (Element { children: final(self).children, ..*old(self) }),
    {
        self.children.push(child);
    }

    /// Sets the value of the control.
    pub fn set_value(&mut self, value: &str)
        ensures
            option_view(final(self).value) == Some(value@),
            *final(self) == (Element { value: final(self).value, ..*old(self) }),
    {
        self.value = Some(value.to_owned());
    }

    /// Sets whether the control is checked.
    pub fn set_checked(&mut self, checked: bool)
        ensures
            *final(self) == (Element { checked, ..*old(self) }),
    {
        self.checked = checked;
    }
}

impl<P> Node<P> {
    /// A text node that is not rendered yet.
    pub fn text(text: &str) -> (r: Self)
        ensures
            r@ == NodeView::Text(text@),
            r matches Node::Text(t) && t.reference is None,
    {
        Node::Text(Text::new(text))
    }

    /// The handle of the live node that this node stands for. A list has
    /// none, nor has a node that is not rendered.
    pub fn handle(&self) -> (r: Option<Handle>)
        ensures
            r == match *self {
                Node::Element(e) => e.reference,
                Node::Text(t) => t.reference,
                Node::List(_) => None,
                Node::ComponentRef(c) => c.spec_reference(),
            },
    {
        match self {
            Node::Element(e) => e.reference,
            Node::Text(t) => t.reference,
            Node::List(_) => None,
            Node::ComponentRef(c) => c.reference(),
        }
    }
}

impl<P> PartialEq for Node<P> {
    fn eq(&self, other: &Node<P>) -> (r: bool) {
        self.same_as(other)
    }
}

impl<P> vstd::std_specs::cmp::PartialEqSpecImpl for Node<P> {
    open spec fn obeys_eq_spec() -> bool {
        true
    }

    open spec fn eq_spec(&self, other: &Node<P>) -> bool {
        self@ == other@
    }
}

/// Structural equality is reflexive and symmetric.
pub proof fn lemma_equality_is_reflexive_and_symmetric<P>(a: Node<P>, b: Node<P>)
    ensures
        a.eq_spec(&a),
        a.eq_spec(&b) == b.eq_spec(&a),
{
}

/// Structural equality ignores the order in which attributes were inserted:
/// two elements that received the same two attributes under different names,
/// in either order, on top of the same attributes, and that agree in
/// everything else, are equal.
pub proof fn lemma_equality_ignores_insertion_order<P>(
    a: Element<P>,
    b: Element<P>,
    base: Map<Seq<char>, Seq<char>>,
    name1: Seq<char>,
    value1: Seq<char>,
    name2: Seq<char>,
    value2: Seq<char>,
)
    requires
        name1 != name2,
        a.attributes@ == base.insert(name1, value1).insert(name2, value2),
        b.attributes@ == base.insert(name2, value2).insert(name1, value1),
        a.tag@ == b.tag@,
        a.classes@ == b.classes@,
        option_view(a.value) == option_view(b.value),
        a.checked == b.checked,
        views(a.children@) == views(b.children@),
    ensures
        Node::Element(a).eq_spec(&Node::Element(b)),
{
    assert(a.attributes@ =~= b.attributes@);
}

} // verus!
