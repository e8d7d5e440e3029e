use yew::virtual_dom::attributes::Attributes;
use yew::virtual_dom::classes::Classes;
use yew::virtual_dom::vcomp::{Transformer, VComp};
use yew::virtual_dom::vnode::{Element, Node};

#[test]
fn lazy_prepares_a_component_that_waits() {
    let (properties, comp) = VComp::<u32>::lazy(7);
    assert_eq!(properties, 0);
    assert_eq!(comp.type_id(), 7);
    assert_eq!(comp.accepted(), 7);
    assert_eq!(comp.reference(), None);
    assert!(comp.is_mountable());
    assert!(!comp.is_sendable());
}

#[test]
fn properties_are_sent_once() {
    let (_, mut comp) = VComp::<u32>::lazy(7);
    comp.set_props(3);
    assert!(comp.is_sendable());
    assert_eq!(comp.send_props(), 3);
    assert!(!comp.is_sendable());
    comp.set_props(4);
    assert_eq!(comp.send_props(), 4);
}

#[test]
fn the_generator_runs_once() {
    let (_, mut comp) = VComp::<u32>::lazy(7);
    assert_eq!(comp.mount(12), 7);
    assert!(!comp.is_mountable());
    assert_eq!(comp.reference(), Some(12));
}

#[test]
fn the_sender_of_the_older_node_reaches_the_same_instance() {
    let (_, mut older) = VComp::<u32>::lazy(7);
    older.mount(12);
    let (_, mut newer) = VComp::<u32>::lazy(7);
    newer.set_props(5);
    newer.grab_sender_of(older);
    assert_eq!(newer.reference(), Some(12));
    assert_eq!(newer.accepted(), 7);
    assert!(newer.is_mountable());
    assert_eq!(newer.send_props(), 5);
}

#[test]
fn components_are_equal_by_their_type() {
    let (_, mut a) = VComp::<u32>::lazy(7);
    a.set_props(1);
    let (_, mut b) = VComp::<u32>::lazy(7);
    b.set_props(2);
    let (_, c) = VComp::<u32>::lazy(8);
    assert_eq!(Node::ComponentRef(a), Node::ComponentRef(b));
    let (_, a) = VComp::<u32>::lazy(7);
    assert_ne!(Node::ComponentRef(a), Node::ComponentRef(c));
}

#[test]
fn values_and_references_are_transformed_to_properties() {
    let (_, mut comp) = VComp::<u32>::lazy(7);
    let by_value: String = comp.transform("x".to_string());
    assert_eq!(by_value, "x");
    let text = "y".to_string();
    let by_reference: String = comp.transform(&text);
    assert_eq!(by_reference, "y");
}

#[test]
fn a_function_is_transformed_to_a_callback_that_waits_to_be_activated() {
    let (_, mut comp) = VComp::<u32>::lazy(7);
    let double = comp.callback(|n: u32| n * 2);
    let text = comp.callback(|n: u32| format!("{}", n));
    assert!(!double.is_active(&comp));
    comp.activate(31);
    assert!(double.is_active(&comp));
    assert!(text.is_active(&comp));
    assert_eq!(double.emit(&comp, 4), (31, 8));
    assert_eq!(text.emit(&comp, 4), (31, "4".to_string()));

    let late = comp.callback(|n: u32| n + 1);
    assert!(!late.is_active(&comp));
    assert!(double.is_active(&comp));
}

#[test]
fn equality_ignores_the_order_of_attributes_and_classes() {
    let mut a: Element<()> = Element::new("div");
    a.add_attribute("a", "1");
    a.add_attribute("b", "2");
    a.add_class("x");
    a.add_class("y");
    let mut b: Element<()> = Element::new("div");
    b.add_attribute("b", "2");
    b.add_attribute("a", "1");
    b.add_class("y");
    b.add_class("x");
    let a = Node::Element(a);
    let b = Node::Element(b);
    assert_eq!(a, b);
    assert_eq!(b, a);
    assert_eq!(a, a);
    assert_ne!(Node::<()>::text("correct"), Node::<()>::text("incorrect"));
    assert_ne!(Node::<()>::text("div"), Node::Element(Element::new("div")));
    assert_ne!(Node::<()>::List(vec![]), Node::List(vec![Node::text("")]));
}

#[test]
fn attributes_keep_the_order_of_the_first_insertion() {
    let mut attributes = Attributes::new();
    assert_eq!(attributes.insert("a".into(), "1".into()), None);
    assert_eq!(attributes.insert("b".into(), "2".into()), None);
    assert_eq!(attributes.insert("a".into(), "3".into()), Some("1".to_string()));
    assert_eq!(attributes.len(), 2);
    assert_eq!(attributes.name_at(0), "a");
    assert_eq!(attributes.value_at(0), "3");
    assert_eq!(attributes.name_at(1), "b");
    assert_eq!(attributes.get("a"), Some(&"3".to_string()));
    assert_eq!(attributes.get("c"), None);
    assert!(attributes.contains_key("b"));
    assert!(!attributes.contains_key("c"));
    assert_eq!(attributes.position(&"b".to_string()), Some(1));

    let mut other = Attributes::new();
    other.insert("b".into(), "2".into());
    assert!(other.included_in(&attributes));
    assert!(!attributes.included_in(&other));
    assert!(!attributes.same_as(&other));
    other.insert("a".into(), "3".into());
    assert!(attributes.same_as(&other));
}

#[test]
fn classes_hold_each_token_once() {
    let mut classes = Classes::new();
    assert!(classes.insert("a".into()));
    assert!(classes.insert("b".into()));
    assert!(!classes.insert("a".into()));
    assert_eq!(classes.len(), 2);
    assert_eq!(classes.token_at(1), "b");
    assert!(classes.contains("a"));
    assert!(!classes.contains("c"));

    let mut other = Classes::new();
    other.insert("b".into());
    assert!(other.included_in(&classes));
    assert!(!classes.same_as(&other));
    other.insert("a".into());
    assert!(classes.same_as(&other));
}
