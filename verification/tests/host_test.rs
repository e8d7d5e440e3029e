use std::collections::{BTreeMap, BTreeSet, HashMap};

use yew::virtual_dom::patch::{Patch, Patcher};
use yew::virtual_dom::vcomp::VComp;
use yew::virtual_dom::vnode::{Element, Node};

/// A live node of a host that does what the patches say.
#[derive(Default)]
struct Live {
    tag: String,
    text: Option<String>,
    attributes: BTreeMap<String, String>,
    classes: BTreeSet<String>,
    checked: Option<bool>,
    children: Vec<u64>,
}

#[derive(Default)]
struct Host {
    nodes: HashMap<u64, Live>,
}

impl Host {
    fn with_root(handle: u64) -> Host {
        let mut host = Host::default();
        host.nodes.insert(handle, Live { tag: "root".into(), ..Live::default() });
        host
    }

    fn apply(&mut self, patch: &Patch<u32>) {
        match patch {
            Patch::CreateElement { handle, tag } => {
                assert!(self.nodes.insert(*handle, Live { tag: tag.clone(), ..Live::default() }).is_none());
            }
            Patch::Mount { handle, component } => {
                let tag = format!("component-{}", component);
                assert!(self.nodes.insert(*handle, Live { tag, ..Live::default() }).is_none());
            }
            Patch::CreateText { handle, text } => {
                let live = Live { text: Some(text.clone()), ..Live::default() };
                assert!(self.nodes.insert(*handle, live).is_none());
            }
            Patch::SetText { handle, text } => {
                self.nodes.get_mut(handle).unwrap().text = Some(text.clone());
            }
            Patch::SetAttribute { handle, name, value } => {
                self.nodes.get_mut(handle).unwrap().attributes.insert(name.clone(), value.clone());
            }
            Patch::RemoveAttribute { handle, name } => {
                assert!(self.nodes.get_mut(handle).unwrap().attributes.remove(name).is_some());
            }
            Patch::SetClasses { handle, classes } => {
                self.nodes.get_mut(handle).unwrap().classes = classes.iter().cloned().collect();
            }
            Patch::SetValue { handle, value } => {
                let live = self.nodes.get_mut(handle).unwrap();
                match value {
                    Some(value) => live.attributes.insert("value!".into(), value.clone()),
                    None => live.attributes.remove("value!"),
                };
            }
            Patch::SetChecked { handle, checked } => {
                self.nodes.get_mut(handle).unwrap().checked = Some(*checked);
            }
            Patch::InsertChild { parent, index, child } => {
                assert!(self.nodes.contains_key(child));
                self.nodes.get_mut(parent).unwrap().children.insert(*index as usize, *child);
            }
            Patch::RemoveChild { parent, child } => {
                let children = &mut self.nodes.get_mut(parent).unwrap().children;
                let at = children.iter().position(|c| c == child).unwrap();
                children.remove(at);
            }
            Patch::RemoveLastChild { parent } => {
                self.nodes.get_mut(parent).unwrap().children.pop().unwrap();
            }
            Patch::Release { handle } => {
                assert!(self.nodes.remove(handle).is_some());
            }
            Patch::Properties { .. } | Patch::Destroy { .. } => {}
        }
    }

    /// What the host shows under `handle`, written out.
    fn show(&self, handle: u64) -> String {
        let live = &self.nodes[&handle];
        if let Some(text) = &live.text {
            return format!("'{}'", text);
        }
        let mut out = format!("<{}", live.tag);
        for (name, value) in &live.attributes {
            out += &format!(" {}={}", name, value);
        }
        for class in &live.classes {
            out += &format!(" .{}", class);
        }
        if let Some(checked) = live.checked {
            out += &format!(" checked={}", checked);
        }
        out += ">";
        for child in &live.children {
            out += &self.show(*child);
        }
        out + "</>"
    }
}

/// What a tree is to look like, written out as `Host::show` does.
fn picture(node: &Node<u32>) -> String {
    match node {
        Node::Text(t) => format!("'{}'", t.text),
        Node::List(items) => items.iter().map(picture).collect(),
        Node::ComponentRef(c) => format!("<component-{}></>", c.type_id()),
        Node::Element(e) => {
            let mut pairs = BTreeMap::new();
            for i in 0..e.attributes.len() {
                pairs.insert(e.attributes.name_at(i).clone(), e.attributes.value_at(i).clone());
            }
            let control = e.tag == "input" || e.tag == "textarea";
            if control {
                if let Some(value) = &e.value {
                    pairs.insert("value!".to_string(), value.clone());
                }
            }
            let mut classes = BTreeSet::new();
            for i in 0..e.classes.len() {
                classes.insert(e.classes.token_at(i).clone());
            }
            let mut out = format!("<{}", e.tag);
            for (name, value) in &pairs {
                out += &format!(" {}={}", name, value);
            }
            for class in &classes {
                out += &format!(" .{}", class);
            }
            if control {
                out += &format!(" checked={}", e.checked);
            }
            out += ">";
            for child in &e.children {
                out += &picture(child);
            }
            out + "</>"
        }
    }
}

fn text(s: &str) -> Node<u32> {
    Node::text(s)
}

fn tag(name: &str, attributes: &[(&str, &str)], classes: &[&str], children: Vec<Node<u32>>) -> Node<u32> {
    let mut e = Element::new(name);
    for (name, value) in attributes {
        e.add_attribute(name, value);
    }
    for class in classes {
        e.add_class(class);
    }
    for child in children {
        e.add_child(child);
    }
    Node::Element(e)
}

fn input(value: Option<&str>, checked: bool) -> Node<u32> {
    let mut e = Element::new("input");
    if let Some(value) = value {
        e.set_value(value);
    }
    e.set_checked(checked);
    Node::Element(e)
}

fn comp(kind: u64, props: u32) -> Node<u32> {
    let (_, mut c) = VComp::<u32>::lazy(kind);
    c.set_props(props);
    Node::ComponentRef(c)
}

/// The trees of one page, each unlike the one before in another way.
fn pages() -> Vec<Node<u32>> {
    vec![
        tag("div", &[], &[], vec![]),
        tag("div", &[("id", "a")], &["x"], vec![text("one"), text("two")]),
        tag("div", &[("id", "b"), ("lang", "en")], &["x", "y"], vec![text("one"), tag("p", &[], &[], vec![])]),
        tag(
            "div",
            &[("lang", "en")],
            &[],
            vec![
                Node::List(vec![text("a"), text("b"), tag("i", &[], &[], vec![text("c")])]),
                text("d"),
                comp(3, 1),
            ],
        ),
        tag(
            "div",
            &[("lang", "de")],
            &["z"],
            vec![Node::List(vec![text("a")]), tag("b", &[], &[], vec![]), comp(3, 2), input(Some("v"), true)],
        ),
        tag(
            "div",
            &[],
            &["z"],
            vec![Node::List(vec![]), Node::List(vec![text("q"), Node::List(vec![text("r")])]), comp(4, 2), input(None, false)],
        ),
        Node::List(vec![text("top"), tag("ul", &[], &[], vec![tag("li", &[], &[], vec![text("1")])])]),
        text("only"),
        Node::List(vec![]),
        comp(9, 9),
        tag("textarea", &[("rows", "2")], &["k"], vec![]),
    ]
}

#[test]
fn the_host_shows_each_tree_after_its_patches() {
    let all = pages();
    for start in 0..all.len() {
        let mut host = Host::with_root(0);
        host.nodes.get_mut(&0).unwrap().children = vec![];
        let mut patcher: Patcher<u32> = Patcher::new(1);
        let mut shown: Option<Node<u32>> = None;
        // walk through the pages from `start` on, round and round
        for step in 0..2 * all.len() {
            let new = pages().swap_remove((start + step * (start + 1)) % all.len());
            let expected = format!("<root>{}</>", picture(&new));
            assert!(patcher.accepts(&new, 0));
            let result = patcher.reconcile(shown.take(), new, 0, 0);
            for patch in patcher.drain() {
                host.apply(&patch);
            }
            assert_eq!(host.show(0), expected);
            // nothing is left over: every live node is shown
            let mut handles = 0;
            count_handles(&result, &mut handles);
            assert_eq!(host.nodes.len(), handles + 1);
            shown = Some(result);
        }
    }
}

fn count_handles(node: &Node<u32>, total: &mut usize) {
    match node {
        Node::Element(e) => {
            *total += 1;
            for child in &e.children {
                count_handles(child, total);
            }
        }
        Node::List(items) => {
            for item in items {
                count_handles(item, total);
            }
        }
        _ => *total += 1,
    }
}

#[test]
fn the_host_keeps_the_neighbours_of_a_tree() {
    let mut host = Host::with_root(0);
    host.nodes.insert(100, Live { text: Some("left".into()), ..Live::default() });
    host.nodes.insert(101, Live { text: Some("right".into()), ..Live::default() });
    host.nodes.get_mut(&0).unwrap().children = vec![100, 101];
    let mut patcher: Patcher<u32> = Patcher::new(200);
    let mut shown: Option<Node<u32>> = None;
    for new in pages() {
        let expected = format!("<root>'left'{}'right'</>", picture(&new));
        let result = patcher.reconcile(shown.take(), new, 0, 1);
        for patch in patcher.drain() {
            host.apply(&patch);
        }
        assert_eq!(host.show(0), expected);
        shown = Some(result);
    }
}
