use yew::virtual_dom::patch::{Patch, Patcher};
use yew::virtual_dom::vcomp::VComp;
use yew::virtual_dom::vnode::{Element, Node};

fn element(tag: &str) -> Element<u32> {
    Element::new(tag)
}

fn component(kind: u64, props: u32) -> Node<u32> {
    let (_, mut comp) = VComp::<u32>::lazy(kind);
    comp.set_props(props);
    Node::ComponentRef(comp)
}

#[test]
fn builds_a_tree_where_nothing_was() {
    let mut div = element("div");
    div.add_attribute("id", "main");
    div.add_class("wide");
    div.add_child(Node::text("hello"));
    div.add_child(Node::Element(element("p")));

    let mut patcher = Patcher::new(10);
    assert!(patcher.accepts(&Node::Element(element("div")), 0));
    let root = patcher.reconcile(None, Node::Element(div), 1, 4);

    assert_eq!(root.handle(), Some(10));
    assert_eq!(patcher.peek(), 13);
    assert_eq!(
        patcher.drain(),
        vec![
            Patch::CreateElement { handle: 10, tag: "div".into() },
            Patch::SetAttribute { handle: 10, name: "id".into(), value: "main".into() },
            Patch::SetClasses { handle: 10, classes: vec!["wide".into()] },
            Patch::CreateText { handle: 11, text: "hello".into() },
            Patch::InsertChild { parent: 10, index: 0, child: 11 },
            Patch::CreateElement { handle: 12, tag: "p".into() },
            Patch::InsertChild { parent: 10, index: 1, child: 12 },
            Patch::InsertChild { parent: 1, index: 4, child: 10 },
        ]
    );
    if let Node::Element(e) = root {
        assert_eq!(e.children[0].handle(), Some(11));
        assert_eq!(e.children[1].handle(), Some(12));
    } else {
        panic!("an element was built");
    }
}

#[test]
fn same_tree_gets_no_patch() {
    let make = || {
        let mut div = element("div");
        div.add_attribute("a", "1");
        div.add_attribute("b", "2");
        div.add_class("x");
        div.add_child(Node::text("t"));
        div.add_child(Node::List(vec![Node::Element(element("i")), Node::text("u")]));
        Node::Element(div)
    };
    let mut patcher = Patcher::new(0);
    let first = patcher.reconcile(None, make(), 100, 0);
    let next_handle = patcher.peek();
    patcher.drain();

    let second = patcher.reconcile(Some(first), make(), 100, 0);
    assert_eq!(patcher.drain(), vec![]);
    assert_eq!(patcher.peek(), next_handle);
    assert_eq!(second.handle(), Some(0));
}

#[test]
fn attribute_order_gets_no_patch() {
    let mut a = element("div");
    a.add_attribute("a", "1");
    a.add_attribute("b", "2");
    let mut b = element("div");
    b.add_attribute("b", "2");
    b.add_attribute("a", "1");
    assert_eq!(Node::Element(element("div")), Node::<u32>::Element(element("div")));

    let mut patcher = Patcher::new(0);
    let first = patcher.reconcile(None, Node::Element(a), 100, 0);
    patcher.drain();
    patcher.reconcile(Some(first), Node::Element(b), 100, 0);
    assert_eq!(patcher.drain(), vec![]);
}

#[test]
fn control_state_is_written_again() {
    let make = |checked: bool| {
        let mut input = element("input");
        input.add_attribute("type", "checkbox");
        input.set_checked(checked);
        Node::Element(input)
    };
    let mut patcher = Patcher::new(7);
    let first = patcher.reconcile(None, make(false), 1, 0);
    assert_eq!(
        patcher.drain(),
        vec![
            Patch::CreateElement { handle: 7, tag: "input".into() },
            Patch::SetAttribute { handle: 7, name: "type".into(), value: "checkbox".into() },
            Patch::SetValue { handle: 7, value: None },
            Patch::SetChecked { handle: 7, checked: false },
            Patch::InsertChild { parent: 1, index: 0, child: 7 },
        ]
    );
    patcher.reconcile(Some(first), make(false), 1, 0);
    assert_eq!(
        patcher.drain(),
        vec![
            Patch::SetValue { handle: 7, value: None },
            Patch::SetChecked { handle: 7, checked: false },
        ]
    );
}

#[test]
fn attributes_are_set_changed_and_removed() {
    let mut before = element("div");
    before.add_attribute("keep", "1");
    before.add_attribute("change", "old");
    before.add_attribute("drop", "x");
    before.add_class("a");
    let mut after = element("div");
    after.add_attribute("change", "new");
    after.add_attribute("keep", "1");
    after.add_attribute("add", "y");
    after.add_class("b");
    after.add_class("a");

    let mut patcher = Patcher::new(0);
    let first = patcher.reconcile(None, Node::Element(before), 9, 0);
    patcher.drain();
    let second = patcher.reconcile(Some(first), Node::Element(after), 9, 0);
    assert_eq!(second.handle(), Some(0));
    assert_eq!(
        patcher.drain(),
        vec![
            Patch::SetAttribute { handle: 0, name: "change".into(), value: "new".into() },
            Patch::SetAttribute { handle: 0, name: "add".into(), value: "y".into() },
            Patch::RemoveAttribute { handle: 0, name: "drop".into() },
            Patch::SetClasses { handle: 0, classes: vec!["b".into(), "a".into()] },
        ]
    );
}

#[test]
fn text_is_replaced_only_where_it_differs() {
    let mut patcher: Patcher<u32> = Patcher::new(3);
    let first = patcher.reconcile(None, Node::text("one"), 1, 0);
    patcher.drain();
    let second = patcher.reconcile(Some(first), Node::text("one"), 1, 0);
    assert_eq!(patcher.drain(), vec![]);
    let third = patcher.reconcile(Some(second), Node::text("two"), 1, 0);
    assert_eq!(patcher.drain(), vec![Patch::SetText { handle: 3, text: "two".into() }]);
    assert_eq!(third.handle(), Some(3));
}

#[test]
fn another_kind_of_node_tears_the_old_one_down_first() {
    let mut div = element("div");
    div.add_child(Node::Element(element("span")));
    div.add_child(Node::text("inside"));

    let mut patcher = Patcher::new(20);
    let first = patcher.reconcile(None, Node::Element(div), 1, 0);
    patcher.drain();

    let second = patcher.reconcile(Some(first), Node::text("x"), 1, 0);
    assert_eq!(
        patcher.drain(),
        vec![
            Patch::RemoveChild { parent: 1, child: 20 },
            Patch::Release { handle: 21 },
            Patch::Release { handle: 22 },
            Patch::Release { handle: 20 },
            Patch::CreateText { handle: 23, text: "x".into() },
            Patch::InsertChild { parent: 1, index: 0, child: 23 },
        ]
    );
    assert_eq!(second.handle(), Some(23));
}

#[test]
fn another_tag_is_another_element() {
    let mut patcher: Patcher<u32> = Patcher::new(0);
    let first = patcher.reconcile(None, Node::Element(element("div")), 5, 2);
    patcher.drain();
    let second = patcher.reconcile(Some(first), Node::Element(element("p")), 5, 2);
    assert_eq!(
        patcher.drain(),
        vec![
            Patch::RemoveChild { parent: 5, child: 0 },
            Patch::Release { handle: 0 },
            Patch::CreateElement { handle: 1, tag: "p".into() },
            Patch::InsertChild { parent: 5, index: 2, child: 1 },
        ]
    );
    assert_eq!(second.handle(), Some(1));
}

#[test]
fn children_are_matched_by_position() {
    let mut before = element("ul");
    before.add_child(Node::text("a"));
    before.add_child(Node::text("b"));
    before.add_child(Node::text("c"));
    let mut after = element("ul");
    after.add_child(Node::text("a"));
    after.add_child(Node::Element(element("li")));

    let mut patcher = Patcher::new(0);
    let first = patcher.reconcile(None, Node::Element(before), 9, 0);
    patcher.drain();
    let second = patcher.reconcile(Some(first), Node::Element(after), 9, 0);
    assert_eq!(
        patcher.drain(),
        vec![
            Patch::RemoveChild { parent: 0, child: 2 },
            Patch::Release { handle: 2 },
            Patch::CreateElement { handle: 4, tag: "li".into() },
            Patch::InsertChild { parent: 0, index: 1, child: 4 },
            Patch::RemoveChild { parent: 0, child: 3 },
            Patch::Release { handle: 3 },
        ]
    );

    let mut longer = element("ul");
    longer.add_child(Node::text("a"));
    longer.add_child(Node::Element(element("li")));
    longer.add_child(Node::text("z"));
    patcher.reconcile(Some(second), Node::Element(longer), 9, 0);
    assert_eq!(
        patcher.drain(),
        vec![
            Patch::CreateText { handle: 5, text: "z".into() },
            Patch::InsertChild { parent: 0, index: 2, child: 5 },
        ]
    );
}

#[test]
fn a_list_puts_its_items_among_the_children_of_the_parent() {
    let list = Node::List(vec![
        Node::text("a"),
        Node::List(vec![Node::text("b"), Node::text("c")]),
        Node::Element(element("hr")),
    ]);
    let mut patcher: Patcher<u32> = Patcher::new(0);
    let first = patcher.reconcile(None, list, 9, 3);
    assert_eq!(first.handle(), None);
    assert_eq!(
        patcher.drain(),
        vec![
            Patch::CreateText { handle: 0, text: "a".into() },
            Patch::InsertChild { parent: 9, index: 3, child: 0 },
            Patch::CreateText { handle: 1, text: "b".into() },
            Patch::InsertChild { parent: 9, index: 4, child: 1 },
            Patch::CreateText { handle: 2, text: "c".into() },
            Patch::InsertChild { parent: 9, index: 5, child: 2 },
            Patch::CreateElement { handle: 3, tag: "hr".into() },
            Patch::InsertChild { parent: 9, index: 6, child: 3 },
        ]
    );

    let shorter = Node::List(vec![Node::text("a"), Node::List(vec![Node::text("b")])]);
    patcher.reconcile(Some(first), shorter, 9, 3);
    assert_eq!(
        patcher.drain(),
        vec![
            Patch::RemoveChild { parent: 9, child: 2 },
            Patch::Release { handle: 2 },
            Patch::RemoveChild { parent: 9, child: 3 },
            Patch::Release { handle: 3 },
        ]
    );
}

#[test]
fn a_nested_component_is_mounted_once_and_sent_its_properties() {
    let mut patcher = Patcher::new(0);
    let first = patcher.reconcile(None, component(1, 11), 9, 0);
    assert_eq!(
        patcher.drain(),
        vec![
            Patch::Mount { handle: 0, component: 1 },
            Patch::InsertChild { parent: 9, index: 0, child: 0 },
            Patch::Properties { handle: 0, props: 11 },
        ]
    );
    let second = patcher.reconcile(Some(first), component(1, 12), 9, 0);
    assert_eq!(patcher.drain(), vec![Patch::Properties { handle: 0, props: 12 }]);
    assert_eq!(second.handle(), Some(0));

    let third = patcher.reconcile(Some(second), component(2, 13), 9, 0);
    assert_eq!(
        patcher.drain(),
        vec![
            Patch::RemoveChild { parent: 9, child: 0 },
            Patch::Destroy { handle: 0 },
            Patch::Release { handle: 0 },
            Patch::Mount { handle: 1, component: 2 },
            Patch::InsertChild { parent: 9, index: 0, child: 1 },
            Patch::Properties { handle: 1, props: 13 },
        ]
    );
    assert_eq!(third.handle(), Some(1));
}

#[test]
fn a_tree_is_refused_where_a_component_is_not_ready_or_handles_run_out() {
    let (_, comp) = VComp::<u32>::lazy(1);
    let unready = Node::ComponentRef(comp);
    let patcher: Patcher<u32> = Patcher::new(0);
    assert!(!patcher.accepts(&unready, 0));
    assert!(patcher.accepts(&component(1, 1), 0));

    let full: Patcher<u32> = Patcher::new(u64::MAX);
    assert!(!full.accepts(&Node::text("x"), 0));
    assert!(full.accepts(&Node::List(vec![]), 0));
    assert!(!patcher.accepts(&Node::text("x"), u64::MAX));
}
