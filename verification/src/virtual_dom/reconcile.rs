//! Reconciliation: a new tree is put in the place of an old one, and the
//! patches for the host are written to the journal.

use super::attributes::{as_map, Attributes};
use super::classes::Classes;
use super::diff::{
    at, attribute_removals, attribute_updates, attributes_of, basis, carried, carried_all,
    children_of, children_patches, class_patches, classes_of, control_patches, count, fresh,
    is_control, keeps, lemma_append, lemma_on_basis, lemma_on_basis_carried, lemma_prefix_bounds,
    lemma_total_fresh_le_count, lemma_total_width_le_count, lemma_views_take, matched_patches,
    patches, ready, releases, releases_all, removals, removals_all, teardown, teardown_all,
    total_count, total_fresh, total_width, valid, width,
};
use super::patch::{Patch, PatchView, Patcher};
use super::vcomp::{Handle, VComp};
use super::vnode::{option_view, views, Element, Node, Text};
use vstd::prelude::*;

verus! {

impl<P> Patcher<P> {
    /// Sets on `handle` the attributes of `new` that `prev` does not hold with
    /// the same value, then removes those that only `prev` holds.
    pub fn diff_attributes(&mut self, handle: Handle, prev: &Attributes, new: &Attributes)
        ensures
            final(self).next() == old(self).next(),
            final(self).log() == old(self).log() + attribute_updates::<P>(
                handle,
                prev@,
                new.pairs(),
            ) + attribute_removals::<P>(handle, prev.pairs(), new@),
    {
        let ghost log0 = self.log();
        let mut i: usize = 0;
        while i < new.len()
            invariant
                i <= new.pairs().len(),
                self.next() == old(self).next(),
                self.log() == log0 + attribute_updates::<P>(handle, prev@, new.pairs().take(i as int)),
            decreases new.pairs().len() - i,
        {
            let name = new.name_at(i);
            let value = new.value_at(i);
            proof {
                let upto = new.pairs().take(i as int + 1);
                assert(upto.drop_last() =~= new.pairs().take(i as int));
                assert(upto.last() == new.pairs()[i as int]);
            }
            let same = match prev.get(name.as_str()) {
                Some(v) => *v == *value,
                None => false,
            };
            if !same {
                self.emit(Patch::SetAttribute { handle, name: name.clone(), value: value.clone() });
            }
            i += 1;
        }
        assert(new.pairs().take(i as int) =~= new.pairs());
        let ghost log1 = self.log();
        let mut j: usize = 0;
        while j < prev.len()
            invariant
                j <= prev.pairs().len(),
                self.next() == old(self).next(),
                self.log() == log1 + attribute_removals::<P>(handle, prev.pairs().take(j as int), new@),
            decreases prev.pairs().len() - j,
        {
            let name = prev.name_at(j);
            proof {
                let upto = prev.pairs().take(j as int + 1);
                assert(upto.drop_last() =~= prev.pairs().take(j as int));
                assert(upto.last() == prev.pairs()[j as int]);
            }
            if !new.contains_key(name.as_str()) {
                self.emit(Patch::RemoveAttribute { handle, name: name.clone() });
            }
            j += 1;
        }
        assert(prev.pairs().take(j as int) =~= prev.pairs());
    }

    /// Replaces the class list of `handle` where the set of tokens changed.
    pub fn diff_classes(&mut self, handle: Handle, prev: &Classes, new: &Classes)
        ensures
            final(self).next() == old(self).next(),
            final(self).log() == old(self).log() + class_patches::<P>(handle, prev@, new.tokens()),
    {
        if !new.same_as(prev) {
            let mut classes: Vec<String> = Vec::new();
            let mut i: usize = 0;
            while i < new.len()
                invariant
                    i <= new.tokens().len(),
                    classes@.map_values(|t: String| t@) == new.tokens().take(i as int),
                decreases new.tokens().len() - i,
            {
                let ghost before = classes@.map_values(|t: String| t@);
                let token = new.token_at(i).clone();
                assert(token@ == new.tokens()[i as int]);
                classes.push(token);
                assert(classes@.map_values(|t: String| t@) =~= before.push(token@));
                assert(before.push(token@) =~= new.tokens().take(i as int + 1));
                i += 1;
            }
            assert(new.tokens().take(i as int) =~= new.tokens());
            self.emit(Patch::SetClasses { handle, classes });
        }
    }

    /// Writes the control state of `handle` where its tag names a control.
    pub fn write_control(
        &mut self,
        handle: Handle,
        tag: &String,
        value: &Option<String>,
        checked: bool,
    )
        ensures
            final(self).next() == old(self).next(),
            final(self).log() == old(self).log() + control_patches::<P>(
                handle,
                tag@,
                option_view(*value),
                checked,
            ),
    {
        if is_control_tag(tag) {
            let value = match value {
                Some(v) => Some(v.clone()),
                None => None,
            };
            self.emit(Patch::SetValue { handle, value });
            self.emit(Patch::SetChecked { handle, checked });
        }
    }

    /// Takes the live nodes at the top of `node` out of the children of
    /// `parent`.
    pub fn remove(&mut self, node: &Node<P>, parent: Handle)
        ensures
            final(self).next() == old(self).next(),
            final(self).log() == old(self).log() + removals(*node, parent),
        decreases node, 1int,
    {
        match node {
            Node::List(items) => {
                self.remove_all(items, parent);
            },
            Node::Element(e) => {
                if let Some(child) = e.reference {
                    self.emit(Patch::RemoveChild { parent, child });
                }
            },
            Node::Text(t) => {
                if let Some(child) = t.reference {
                    self.emit(Patch::RemoveChild { parent, child });
                }
            },
            Node::ComponentRef(c) => {
                if let Some(child) = c.reference() {
                    self.emit(Patch::RemoveChild { parent, child });
                }
            },
        }
    }

    /// Takes the live nodes at the top of each of `nodes` out of the children
    /// of `parent`, in order.
    pub fn remove_all(&mut self, nodes: &Vec<Node<P>>, parent: Handle)
        ensures
            final(self).next() == old(self).next(),
            final(self).log() == old(self).log() + removals_all(nodes@, parent),
        decreases nodes, 0int,
    {
        let ghost log0 = self.log();
        let mut i: usize = 0;
        while i < nodes.len()
            invariant
                i <= nodes@.len(),
                self.next() == old(self).next(),
                self.log() == log0 + removals_all(nodes@.take(i as int), parent),
            decreases nodes@.len() - i,
        {
            proof {
                let upto = nodes@.take(i as int + 1);
                assert(upto.drop_last() =~= nodes@.take(i as int));
                assert(upto.last() == nodes@[i as int]);
            }
            self.remove(&nodes[i], parent);
            i += 1;
        }
        assert(nodes@.take(i as int) =~= nodes@);
    }

    /// Gives up the subtree `node`, depth first.
    pub fn release(&mut self, node: &Node<P>)
        ensures
            final(self).next() == old(self).next(),
            final(self).log() == old(self).log() + releases(*node),
        decreases node, 1int,
    {
        match node {
            Node::Element(e) => {
                self.release_all(&e.children);
                if let Some(handle) = e.reference {
                    self.emit(Patch::Release { handle });
                }
            },
            Node::Text(t) => {
                if let Some(handle) = t.reference {
                    self.emit(Patch::Release { handle });
                }
            },
            Node::List(items) => {
                self.release_all(items);
            },
            Node::ComponentRef(c) => {
                if let Some(handle) = c.reference() {
                    self.emit(Patch::Destroy { handle });
                    self.emit(Patch::Release { handle });
                }
            },
        }
    }

    /// Gives up each of `nodes`, in order.
    pub fn release_all(&mut self, nodes: &Vec<Node<P>>)
        ensures
            final(self).next() == old(self).next(),
            final(self).log() == old(self).log() + releases_all(nodes@),
        decreases nodes, 0int,
    {
        let ghost log0 = self.log();
        let mut i: usize = 0;
        while i < nodes.len()
            invariant
                i <= nodes@.len(),
                self.next() == old(self).next(),
                self.log() == log0 + releases_all(nodes@.take(i as int)),
            decreases nodes@.len() - i,
        {
            proof {
                let upto = nodes@.take(i as int + 1);
                assert(upto.drop_last() =~= nodes@.take(i as int));
                assert(upto.last() == nodes@[i as int]);
            }
            self.release(&nodes[i]);
            i += 1;
        }
        assert(nodes@.take(i as int) =~= nodes@);
    }

    /// Tears down the live subtree `node` under `parent`.
    pub fn teardown(&mut self, node: &Node<P>, parent: Handle)
        ensures
            final(self).next() == old(self).next(),
            final(self).log() == old(self).log() + teardown(*node, parent),
    {
        self.remove(node, parent);
        self.release(node);
    }

    /// Puts `new` in the place of `prev` under `parent`, where `new` starts at
    /// place `index` among the live children of `parent`. Returns `new` with
    /// the handles of its live nodes.
    pub fn reconcile(&mut self, prev: Option<Node<P>>, new: Node<P>, parent: Handle, index: u64) -> (result:
        Node<P>)
        requires
            ready(new),
            old(self).next() + count(new@) <= u64::MAX,
            index + width(new@) <= u64::MAX,
        ensures
            result@ == new@,
            valid(new),
            valid(result),
            carried(prev, result, old(self).next() as int),
            final(self).next() == old(self).next() + fresh(prev, new@),
            final(self).log() == old(self).log() + patches(
                prev,
                new,
                parent,
                index as int,
                old(self).next() as int,
            ),
    {
        let placed = self.place(prev, new, parent, index);
        placed.0
    }

    /// Whether `new` can be reconciled at place `index`: its nested
    /// components are ready, and neither the handles nor the places run out.
    pub fn accepts(&self, new: &Node<P>, index: u64) -> (r: bool)
        ensures
            r == (ready(*new) && self.next() + count(new@) <= u64::MAX && index + width(new@)
                <= u64::MAX),
    {
        if !is_ready(new) {
            return false;
        }
        let handles = match count_of(new) {
            Some(n) => n.checked_add(self.peek()),
            None => None,
        };
        let places = match width_of(new) {
            Some(n) => n.checked_add(index),
            None => None,
        };
        handles.is_some() && places.is_some()
    }

    /// `reconcile`, which also returns the place after the last live node of
    /// `new` among the children of `parent`.
    fn place(&mut self, prev: Option<Node<P>>, new: Node<P>, parent: Handle, index: u64) -> (r: (
        Node<P>,
        u64,
    ))
        requires
            ready(new),
            old(self).next() + count(new@) <= u64::MAX,
            index + width(new@) <= u64::MAX,
        ensures
            r.0@ == new@,
            valid(new),
            valid(r.0),
            r.1 == index + width(new@),
            carried(prev, r.0, old(self).next() as int),
            final(self).next() == old(self).next() + fresh(prev, new@),
            final(self).log() == old(self).log() + patches(
                prev,
                new,
                parent,
                index as int,
                old(self).next() as int,
            ),
        decreases new, 0int,
    {
        let ghost first = self.next() as int;
        let ghost log0 = self.log();
        let kept = stays(&prev, &new);
        let ground: Option<Node<P>> = if kept {
            prev
        } else {
            match &prev {
                Some(p) => {
                    self.teardown(p, parent);
                },
                None => {},
            }
            None
        };
        proof {
            lemma_on_basis(prev, new, parent, index as int, first);
        }
        let ghost gone = self.log().skip(log0.len() as int);
        assert(self.log() =~= log0 + gone);
        let r = match new {
            Node::Element(b) => self.place_element(ground, b, parent, index),
            Node::Text(b) => self.place_text(ground, b, parent, index),
            Node::List(items) => self.place_list(ground, items, parent, index),
            Node::ComponentRef(c) => self.place_component(ground, c, parent, index),
        };
        proof {
            lemma_on_basis_carried(prev, r.0, first);
            lemma_append(log0, gone, patches(ground, new, parent, index as int, first));
        }
        r
    }

    /// `place` for an element, built on `ground`.
    fn place_element(
        &mut self,
        ground: Option<Node<P>>,
        b: Element<P>,
        parent: Handle,
        index: u64,
    ) -> (r: (Node<P>, u64))
        requires
            basis(ground, Node::Element(b)@) == ground,
            ready(Node::Element(b)),
            old(self).next() + count(Node::Element(b)@) <= u64::MAX,
            index + 1 <= u64::MAX,
        ensures
            r.0@ == Node::Element(b)@,
            valid(Node::Element(b)),
            valid(r.0),
            r.1 == index + 1,
            carried(ground, r.0, old(self).next() as int),
            final(self).next() == old(self).next() + fresh(ground, Node::Element(b)@),
            final(self).log() == old(self).log() + patches(
                ground,
                Node::Element(b),
                parent,
                index as int,
                old(self).next() as int,
            ),
        decreases b, 2int,
    {
        let ghost first = self.next() as int;
        let ghost log0 = self.log();
        let ghost whole = Node::Element(b);
        let Element { tag, reference: _, attributes, classes, value, checked, children } = b;
        proof {
            lemma_total_width_le_count(views(children@));
            use_type_invariant(&attributes);
            attributes.lemma_wf();
        }
        let built = ground.is_none();
        let (handle, before_attributes, before_classes, before_children) = match ground {
            Some(Node::Element(a)) => (a.reference.unwrap(), a.attributes, a.classes, a.children),
            _ => {
                let handle = self.fresh();
                self.emit(Patch::CreateElement { handle, tag: tag.clone() });
                (handle, Attributes::new(), Classes::new(), Vec::new())
            },
        };
        assert(before_attributes.pairs() == attributes_of(ground));
        assert(before_classes@ == classes_of(ground));
        assert(before_children@ == children_of(ground));
        let ghost a0: Seq<PatchView<P>> = if built {
            seq![PatchView::CreateElement { handle, tag: tag@ }]
        } else {
            Seq::empty()
        };
        assert(self.log() =~= log0 + a0);
        self.diff_attributes(handle, &before_attributes, &attributes);
        let ghost a1 = a0 + attribute_updates::<P>(
            handle,
            as_map(attributes_of(ground)),
            attributes.pairs(),
        );
        let ghost a2 = a1 + attribute_removals::<P>(handle, attributes_of(ground), attributes@);
        assert(self.log() =~= log0 + a2);
        self.diff_classes(handle, &before_classes, &classes);
        let ghost a3 = a2 + class_patches::<P>(handle, classes_of(ground), classes.tokens());
        assert(self.log() =~= log0 + a3);
        self.write_control(handle, &tag, &value, checked);
        let ghost a4 = a3 + control_patches::<P>(handle, tag@, option_view(value), checked);
        assert(self.log() =~= log0 + a4);
        let ghost child_first = self.next() as int;
        let renewed = self.renew(before_children, children, handle, 0);
        let ghost a5 = a4 + children_patches(
            children_of(ground),
            children@,
            handle,
            0,
            child_first,
        );
        assert(self.log() =~= log0 + a5);
        if built {
            self.emit(Patch::InsertChild { parent, index, child: handle });
        }
        let ghost a6 = a5 + (if built {
            seq![PatchView::<P>::InsertChild { parent, index, child: handle }]
        } else {
            Seq::empty()
        });
        assert(self.log() =~= log0 + a6);
        let node = Node::Element(
            Element {
                tag,
                reference: Some(handle),
                attributes,
                classes,
                value,
                checked,
                children: renewed.0,
            },
        );
        assert(a6 =~= Seq::<PatchView<P>>::empty() + a6);
        assert(patches(ground, whole, parent, index as int, first) == Seq::<PatchView<P>>::empty()
            + a6);
        (node, index + 1)
    }

    /// `place` for a text, built on `ground`.
    fn place_text(&mut self, ground: Option<Node<P>>, b: Text, parent: Handle, index: u64) -> (r: (
        Node<P>,
        u64,
    ))
        requires
            basis(ground, Node::<P>::Text(b)@) == ground,
            old(self).next() + 1 <= u64::MAX,
            index + 1 <= u64::MAX,
        ensures
            r.0@ == Node::<P>::Text(b)@,
            valid(r.0),
            r.1 == index + 1,
            carried(ground, r.0, old(self).next() as int),
            final(self).next() == old(self).next() + fresh(ground, Node::<P>::Text(b)@),
            final(self).log() == old(self).log() + patches(
                ground,
                Node::Text(b),
                parent,
                index as int,
                old(self).next() as int,
            ),
    {
        let ghost log0 = self.log();
        let ghost first = self.next() as int;
        let ghost whole = Node::<P>::Text(b);
        let handle = match ground {
            Some(Node::Text(a)) => {
                let handle = a.reference.unwrap();
                if !(a.text == b.text) {
                    self.emit(Patch::SetText { handle, text: b.text.clone() });
                }
                handle
            },
            _ => {
                let handle = self.fresh();
                self.emit(Patch::CreateText { handle, text: b.text.clone() });
                self.emit(Patch::InsertChild { parent, index, child: handle });
                handle
            },
        };
        let ghost emitted = self.log().skip(log0.len() as int);
        assert(self.log() =~= log0 + emitted);
        assert(patches(ground, whole, parent, index as int, first) =~= emitted);
        (Node::Text(Text { text: b.text, reference: Some(handle) }), index + 1)
    }

    /// `place` for a list, built on `ground`.
    fn place_list(
        &mut self,
        ground: Option<Node<P>>,
        items: Vec<Node<P>>,
        parent: Handle,
        index: u64,
    ) -> (r: (Node<P>, u64))
        requires
            basis(ground, Node::List(items)@) == ground,
            ready(Node::List(items)),
            old(self).next() + count(Node::List(items)@) <= u64::MAX,
            index + width(Node::List(items)@) <= u64::MAX,
        ensures
            r.0@ == Node::List(items)@,
            valid(Node::List(items)),
            valid(r.0),
            r.1 == index + width(Node::List(items)@),
            carried(ground, r.0, old(self).next() as int),
            final(self).next() == old(self).next() + fresh(ground, Node::List(items)@),
            final(self).log() == old(self).log() + patches(
                ground,
                Node::List(items),
                parent,
                index as int,
                old(self).next() as int,
            ),
        decreases items, 2int,
    {
        let ghost log0 = self.log();
        let ghost first = self.next() as int;
        let ghost whole = Node::List(items);
        let before_children = match ground {
            Some(Node::List(a)) => a,
            _ => Vec::new(),
        };
        assert(before_children@ == children_of(ground));
        let renewed = self.renew(before_children, items, parent, index);
        let ghost emitted = children_patches(children_of(ground), items@, parent, index as int, first);
        assert(patches(ground, whole, parent, index as int, first) =~= emitted);
        (Node::List(renewed.0), renewed.1)
    }

    /// `place` for a nested component, built on `ground`.
    fn place_component(
        &mut self,
        ground: Option<Node<P>>,
        c: VComp<P>,
        parent: Handle,
        index: u64,
    ) -> (r: (Node<P>, u64))
        requires
            basis(ground, Node::ComponentRef(c)@) == ground,
            ready(Node::ComponentRef(c)),
            old(self).next() + 1 <= u64::MAX,
            index + 1 <= u64::MAX,
        ensures
            r.0@ == Node::ComponentRef(c)@,
            valid(r.0),
            r.1 == index + 1,
            carried(ground, r.0, old(self).next() as int),
            final(self).next() == old(self).next() + fresh(ground, Node::ComponentRef(c)@),
            final(self).log() == old(self).log() + patches(
                ground,
                Node::ComponentRef(c),
                parent,
                index as int,
                old(self).next() as int,
            ),
    {
        let ghost log0 = self.log();
        let ghost first = self.next() as int;
        let ghost whole = Node::ComponentRef(c);
        let mut c = c;
        let handle = match ground {
            Some(Node::ComponentRef(a)) => {
                let handle = a.reference().unwrap();
                c.grab_sender_of(a);
                handle
            },
            _ => {
                let handle = self.fresh();
                let component = c.mount(handle);
                self.emit(Patch::Mount { handle, component });
                self.emit(Patch::InsertChild { parent, index, child: handle });
                handle
            },
        };
        let props = c.send_props();
        self.emit(Patch::Properties { handle, props });
        let ghost emitted = self.log().skip(log0.len() as int);
        assert(self.log() =~= log0 + emitted);
        assert(patches(ground, whole, parent, index as int, first) =~= emitted);
        (Node::ComponentRef(c), index + 1)
    }

    /// Reconciles the children `news` with `prevs` place by place, the first
    /// of them at place `base` under `parent`, then tears down what `prevs`
    /// holds beyond them. Returns the children with their handles, and the
    /// place after their last live node.
    fn renew(&mut self, prevs: Vec<Node<P>>, news: Vec<Node<P>>, parent: Handle, base: u64) -> (r: (
        Vec<Node<P>>,
        u64,
    ))
        requires
            forall|i: int| 0 <= i < news@.len() ==> ready(#[trigger] news@[i]),
            old(self).next() + total_count(views(news@)) <= u64::MAX,
            base + total_width(views(news@)) <= u64::MAX,
        ensures
            views(r.0@) == views(news@),
            forall|i: int| 0 <= i < r.0@.len() ==> valid(#[trigger] r.0@[i]),
            forall|i: int| 0 <= i < news@.len() ==> valid(#[trigger] news@[i]),
            r.1 == base + total_width(views(news@)),
            carried_all(prevs@, r.0@, old(self).next() as int),
            final(self).next() == old(self).next() + total_fresh(prevs@, views(news@)),
            final(self).log() == old(self).log() + children_patches(
                prevs@,
                news@,
                parent,
                base as int,
                old(self).next() as int,
            ),
        decreases news, 1int,
    {
        let ghost first = self.next() as int;
        let ghost log0 = self.log();
        let ghost prevs0 = prevs@;
        let ghost news0 = news@;
        let mut rest_prev = prevs;
        let mut rest_new = news;
        let mut out: Vec<Node<P>> = Vec::new();
        let mut cursor: u64 = base;
        let n = rest_new.len();
        let mut k: usize = 0;
        assert(news0.take(0) =~= Seq::empty());
        assert(views(out@) =~= views(news0.take(0)));
        while k < n
            invariant
                news0 == news@,
                prevs0 == prevs@,
                n == news0.len(),
                rest_new@.len() == n,
                rest_prev@.len() == prevs0.len(),
                k <= n,
                out@.len() == k,
                forall|j: int| k <= j < n ==> rest_new@[j] == news0[j],
                forall|j: int| k <= j < prevs0.len() ==> rest_prev@[j] == prevs0[j],
                forall|i: int| 0 <= i < news0.len() ==> ready(#[trigger] news0[i]),
                first + total_count(views(news0)) <= u64::MAX,
                base + total_width(views(news0)) <= u64::MAX,
                views(out@) == views(news0.take(k as int)),
                forall|j: int| 0 <= j < k ==> valid(#[trigger] out@[j]),
                forall|j: int| 0 <= j < k ==> valid(#[trigger] news0[j]),
                carried_all(prevs0, out@, first),
                self.next() == first + total_fresh(prevs0, views(news0.take(k as int))),
                cursor == base + total_width(views(news0.take(k as int))),
                self.log() == log0 + matched_patches(
                    prevs0,
                    news0.take(k as int),
                    parent,
                    base as int,
                    first,
                ),
            decreases n - k,
        {
            let ghost done = news0.take(k as int);
            let ghost upto = news0.take(k as int + 1);
            proof {
                assert(upto.drop_last() =~= done);
                assert(upto.last() == news0[k as int]);
                lemma_views_take(news0, k as int);
                lemma_views_take(news0, k as int + 1);
                lemma_prefix_bounds(views(news0), k as int);
                lemma_total_fresh_le_count(prevs0, views(done));
                assert(views(upto).drop_last() =~= views(done));
                assert(views(upto).last() == news0[k as int]@);
            }
            let new = take_at(&mut rest_new, k);
            let prev = if k < rest_prev.len() {
                Some(take_at(&mut rest_prev, k))
            } else {
                None
            };
            assert(prev == at(prevs0, k as int));
            let ghost before = out@;
            let placed = self.place(prev, new, parent, cursor);
            cursor = placed.1;
            out.push(placed.0);
            proof {
                assert(out@.drop_last() =~= before);
                assert(out@.last() == placed.0);
                assert(views(out@) =~= views(upto));
            }
            k += 1;
        }
        assert(news0.take(k as int) =~= news0);
        if n < rest_prev.len() {
            assert(rest_prev@.skip(n as int) =~= prevs0.skip(n as int));
            self.teardown_from(&rest_prev, n, parent);
        }
        (out, cursor)
    }

    /// Tears down the nodes of `nodes` from place `from` on.
    pub fn teardown_from(&mut self, nodes: &Vec<Node<P>>, from: usize, parent: Handle)
        requires
            from <= nodes@.len(),
        ensures
            final(self).next() == old(self).next(),
            final(self).log() == old(self).log() + teardown_all(nodes@.skip(from as int), parent),
    {
        let ghost log0 = self.log();
        let mut i: usize = from;
        while i < nodes.len()
            invariant
                from <= i <= nodes@.len(),
                self.next() == old(self).next(),
                self.log() == log0 + teardown_all(nodes@.subrange(from as int, i as int), parent),
            decreases nodes@.len() - i,
        {
            proof {
                let upto = nodes@.subrange(from as int, i as int + 1);
                assert(upto.drop_last() =~= nodes@.subrange(from as int, i as int));
                assert(upto.last() == nodes@[i as int]);
            }
            self.teardown(&nodes[i], parent);
            i += 1;
        }
        assert(nodes@.subrange(from as int, i as int) =~= nodes@.skip(from as int));
    }
}

/// Takes the node at place `i` out of `nodes` and leaves an empty list there.
fn take_at<P>(nodes: &mut Vec<Node<P>>, i: usize) -> (node: Node<P>)
    requires
        i < old(nodes)@.len(),
    ensures
        node == old(nodes)@[i as int],
        final(nodes)@.len() == old(nodes)@.len(),
        forall|j: int| 0 <= j < old(nodes)@.len() && j != i ==> final(nodes)@[j] == old(nodes)@[j],
{
    nodes.push(Node::List(Vec::new()));
    nodes.swap_remove(i)
}

/// Whether every nested component in the tree is ready.
pub fn is_ready<P>(node: &Node<P>) -> (r: bool)
    ensures
        r == ready(*node),
    decreases node, 1int,
{
    match node {
        Node::Element(e) => are_ready(&e.children),
        Node::Text(_) => true,
        Node::List(items) => are_ready(items),
        Node::ComponentRef(c) => c.is_sendable() && c.is_mountable() && c.accepted() == c.type_id(),
    }
}

/// Whether every nested component in each of the trees is ready.
pub fn are_ready<P>(nodes: &Vec<Node<P>>) -> (r: bool)
    ensures
        r == (forall|i: int| 0 <= i < nodes@.len() ==> ready(#[trigger] nodes@[i])),
    decreases nodes, 0int,
{
    let mut i: usize = 0;
    while i < nodes.len()
        invariant
            i <= nodes@.len(),
            forall|j: int| 0 <= j < i ==> ready(#[trigger] nodes@[j]),
        decreases nodes@.len() - i,
    {
        if !is_ready(&nodes[i]) {
            return false;
        }
        i += 1;
    }
    true
}

/// How many handles the tree needs when it is built anew, where that number
/// fits.
pub fn count_of<P>(node: &Node<P>) -> (r: Option<u64>)
    ensures
        match r {
            Some(n) => n == count(node@),
            None => count(node@) > u64::MAX,
        },
    decreases node, 1int,
{
    match node {
        Node::Element(e) => match total_count_of(&e.children) {
            Some(n) => n.checked_add(1),
            None => None,
        },
        Node::Text(_) => Some(1),
        Node::List(items) => total_count_of(items),
        Node::ComponentRef(_) => Some(1),
    }
}

/// How many handles the trees need when they are built anew, where that
/// number fits.
pub fn total_count_of<P>(nodes: &Vec<Node<P>>) -> (r: Option<u64>)
    ensures
        match r {
            Some(n) => n == total_count(views(nodes@)),
            None => total_count(views(nodes@)) > u64::MAX,
        },
    decreases nodes, 0int,
{
    let mut total: u64 = 0;
    let mut i: usize = 0;
    assert(views(nodes@).take(0) =~= Seq::empty());
    while i < nodes.len()
        invariant
            i <= nodes@.len(),
            total == total_count(views(nodes@).take(i as int)),
        decreases nodes@.len() - i,
    {
        proof {
            lemma_prefix_bounds(views(nodes@), i as int);
        }
        let more = match count_of(&nodes[i]) {
            Some(n) => total.checked_add(n),
            None => None,
        };
        match more {
            Some(sum) => {
                total = sum;
            },
            None => {
                return None;
            },
        }
        i += 1;
    }
    assert(views(nodes@).take(i as int) =~= views(nodes@));
    Some(total)
}

/// How many places the tree takes among the live children of its parent,
/// where that number fits.
pub fn width_of<P>(node: &Node<P>) -> (r: Option<u64>)
    ensures
        match r {
            Some(n) => n == width(node@),
            None => width(node@) > u64::MAX,
        },
    decreases node, 1int,
{
    match node {
        Node::List(items) => total_width_of(items),
        _ => Some(1),
    }
}

/// How many places the trees take, where that number fits.
pub fn total_width_of<P>(nodes: &Vec<Node<P>>) -> (r: Option<u64>)
    ensures
        match r {
            Some(n) => n == total_width(views(nodes@)),
            None => total_width(views(nodes@)) > u64::MAX,
        },
    decreases nodes, 0int,
{
    let mut total: u64 = 0;
    let mut i: usize = 0;
    assert(views(nodes@).take(0) =~= Seq::empty());
    while i < nodes.len()
        invariant
            i <= nodes@.len(),
            total == total_width(views(nodes@).take(i as int)),
        decreases nodes@.len() - i,
    {
        proof {
            lemma_prefix_bounds(views(nodes@), i as int);
        }
        let more = match width_of(&nodes[i]) {
            Some(n) => total.checked_add(n),
            None => None,
        };
        match more {
            Some(sum) => {
                total = sum;
            },
            None => {
                return None;
            },
        }
        i += 1;
    }
    assert(views(nodes@).take(i as int) =~= views(nodes@));
    Some(total)
}

/// Whether the host keeps control state for elements of this tag.
pub fn is_control_tag(tag: &String) -> (r: bool)
    ensures
        r == is_control(tag@),
{
    let input = "input".to_owned();
    let textarea = "textarea".to_owned();
    *tag == input || *tag == textarea
}

/// Whether the live node of `prev` stays in place for `new`.
pub fn stays<P>(prev: &Option<Node<P>>, new: &Node<P>) -> (r: bool)
    ensures
        r == keeps(*prev, new@),
{
    match (prev, new) {
        (Some(Node::Element(a)), Node::Element(b)) => a.tag == b.tag && a.reference.is_some(),
        (Some(Node::Text(a)), Node::Text(_)) => a.reference.is_some(),
        (Some(Node::List(_)), Node::List(_)) => true,
        (Some(Node::ComponentRef(a)), Node::ComponentRef(b)) => a.type_id() == b.type_id()
            && a.reference().is_some() && a.accepted() == b.type_id(),
        _ => false,
    }
}

} // verus!
