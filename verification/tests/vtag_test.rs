use yew::virtual_dom::vnode::{Element, Node};

fn tag(name: &str) -> Element<()> {
    Element::new(name)
}

#[test]
fn it_compares_tags() {
    let a: Node<()> = Node::Element(tag("div"));
    let b: Node<()> = Node::Element(tag("div"));
    let c: Node<()> = Node::Element(tag("p"));

    assert_eq!(a, b);
    assert_ne!(a, c);
}

#[test]
fn it_compares_text() {
    let mut a = tag("div");
    a.add_child(Node::text("correct"));
    let a: Node<()> = Node::Element(a);

    let mut b = tag("div");
    b.add_child(Node::text("correct"));
    let b: Node<()> = Node::Element(b);

    let mut c = tag("div");
    c.add_child(Node::text("incorrect"));
    let c: Node<()> = Node::Element(c);

    assert_eq!(a, b);
    assert_ne!(a, c);
}

#[test]
fn it_compares_attributes() {
    let mut a = tag("div");
    a.add_attribute("a", "test");
    let a: Node<()> = Node::Element(a);

    let mut b = tag("div");
    b.add_attribute("a", "test");
    let b: Node<()> = Node::Element(b);

    let mut c = tag("div");
    c.add_attribute("a", "fail");
    let c: Node<()> = Node::Element(c);

    assert_eq!(a, b);
    assert_ne!(a, c);
}

#[test]
fn it_compares_children() {
    let mut a = tag("div");
    a.add_child(Node::Element(tag("p")));
    let a: Node<()> = Node::Element(a);

    let mut b = tag("div");
    b.add_child(Node::Element(tag("p")));
    let b: Node<()> = Node::Element(b);

    let mut c = tag("div");
    c.add_child(Node::Element(tag("span")));
    let c: Node<()> = Node::Element(c);

    assert_eq!(a, b);
    assert_ne!(a, c);
}

#[test]
fn it_compares_classes() {
    let mut a = tag("div");
    a.add_class("test");
    let a: Node<()> = Node::Element(a);

    let mut b = tag("div");
    b.add_class("test");
    let b: Node<()> = Node::Element(b);

    let mut c = tag("div");
    c.add_class("fail");
    let c: Node<()> = Node::Element(c);

    assert_eq!(a, b);
    assert_ne!(a, c);
}

#[test]
fn it_compares_values() {
    let mut a = tag("input");
    a.set_value("test");
    let a: Node<()> = Node::Element(a);

    let mut b = tag("input");
    b.set_value("test");
    let b: Node<()> = Node::Element(b);

    let mut c = tag("input");
    c.set_value("fail");
    let c: Node<()> = Node::Element(c);

    assert_eq!(a, b);
    assert_ne!(a, c);
}

#[test]
fn it_compares_kinds() {
    let mut a = tag("input");
    a.add_attribute("type", "text");
    let a: Node<()> = Node::Element(a);

    let mut b = tag("input");
    b.add_attribute("type", "text");
    let b: Node<()> = Node::Element(b);

    let mut c = tag("input");
    c.add_attribute("type", "hidden");
    let c: Node<()> = Node::Element(c);

    assert_eq!(a, b);
    assert_ne!(a, c);
}

#[test]
fn it_compares_checked() {
    let mut a = tag("input");
    a.add_attribute("type", "checkbox");
    a.set_checked(false);
    let a: Node<()> = Node::Element(a);

    let mut b = tag("input");
    b.add_attribute("type", "checkbox");
    b.set_checked(false);
    let b: Node<()> = Node::Element(b);

    let mut c = tag("input");
    c.add_attribute("type", "checkbox");
    c.set_checked(true);
    let c: Node<()> = Node::Element(c);

    assert_eq!(a, b);
    assert_ne!(a, c);
}

#[test]
fn it_allows_aria_attributes() {
    let mut link = tag("a");
    link.add_class("btn");
    link.add_class("btn-primary");
    link.add_attribute("data-toggle", "collapse");
    link.add_attribute("href", "#collapseExample");
    link.add_attribute("role", "button");
    link.add_attribute("aria-expanded", "false");
    link.add_attribute("aria-controls", "collapseExample");
    link.add_child(Node::text("Link with href"));

    let mut button = tag("button");
    button.add_class("btn");
    button.add_class("btn-primary");
    button.add_attribute("type", "button");
    button.add_attribute("data-toggle", "collapse");
    button.add_attribute("data-target", "#collapseExample");
    button.add_attribute("aria-expanded", "false");
    button.add_attribute("aria-controls", "collapseExample");
    button.add_child(Node::text("Button with data-target"));

    let mut div = tag("div");
    div.add_attribute("own-attribute-with-multiple-parts", "works");

    let mut p = tag("p");
    p.add_attribute("aria-controls", "it-works");
    p.add_child(Node::Element(link));
    p.add_child(Node::Element(button));
    p.add_child(Node::Element(div));
    let a: Node<()> = Node::Element(p);

    if let Node::Element(vtag) = a {
        assert!(vtag.attributes.contains_key("aria-controls"));
        assert_eq!(
            vtag.attributes.get("aria-controls"),
            Some(&"it-works".into())
        );
    } else {
        panic!("vtag expected");
    }
}
