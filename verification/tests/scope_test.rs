use yew::app::{App, Container, Document};
use yew::html::{Component, ComponentUpdate, Outcome, Scope, ShouldRender};
use yew::runtime::{Envelope, Fault, Instruction, Runtime};
use yew::scheduler::Runnable;
use yew::virtual_dom::patch::{Patch, Patcher};
use yew::virtual_dom::vcomp::VComp;
use yew::virtual_dom::vnode::{Element, Node};

/// Renders its first number as text, and a nested panel for each other one.
struct Panel {
    numbers: Vec<u32>,
}

enum Msg {
    Put(Vec<u32>),
    Peek,
    Twice(u32),
    Broken,
}

impl Default for Panel {
    fn default() -> Self {
        Panel { numbers: vec![] }
    }
}

impl Component for Panel {
    type Message = Msg;
    type Properties = Vec<u32>;

    fn create(props: Vec<u32>) -> Self {
        Panel { numbers: props }
    }

    fn update(mut self, update: ComponentUpdate<Msg, Vec<u32>>) -> (Self, Vec<Msg>, ShouldRender) {
        let mut mailbox = Vec::new();
        let should_render = match update {
            ComponentUpdate::Message(Msg::Put(numbers)) => {
                self.numbers = numbers;
                true
            }
            ComponentUpdate::Message(Msg::Peek) => false,
            ComponentUpdate::Message(Msg::Twice(n)) => {
                mailbox.push(Msg::Put(vec![n]));
                mailbox.push(Msg::Put(vec![n + 1]));
                false
            }
            ComponentUpdate::Message(Msg::Broken) => {
                self.numbers = vec![1000];
                true
            }
            ComponentUpdate::Properties(numbers) => {
                // each delivery of properties leaves a trace in the mailbox
                mailbox.push(Msg::Peek);
                let changed = self.numbers != numbers;
                self.numbers = numbers;
                changed
            }
        };
        (self, mailbox, should_render)
    }

    fn render(&self) -> Node<Vec<u32>> {
        if self.numbers == vec![1000] {
            // a nested component that was never given its properties
            let (_, comp) = VComp::<Vec<u32>>::lazy(1);
            return Node::ComponentRef(comp);
        }
        let mut div: Element<Vec<u32>> = Element::new("div");
        let first = self.numbers.first().copied().unwrap_or(0);
        div.add_child(Node::text(&format!("{}", first)));
        for n in self.numbers.iter().skip(1) {
            let (_, mut comp) = VComp::<Vec<u32>>::lazy(1);
            comp.set_props(vec![*n]);
            div.add_child(Node::ComponentRef(comp));
        }
        Node::Element(div)
    }
}

fn mounted(props: Vec<u32>, patcher: &mut Patcher<Vec<u32>>) -> Scope<Panel> {
    let mut scope: Scope<Panel> = Scope::new();
    assert!(scope.is_vacant());
    assert!(!scope.is_mounted());
    let outcome = scope.mount_in_place(1, 0, props, patcher);
    assert_eq!(outcome, Outcome::Patched);
    assert!(scope.is_active());
    assert!(!scope.is_vacant());
    scope
}

#[test]
fn mounting_renders_the_first_tree() {
    let mut patcher = Patcher::new(2);
    let scope = mounted(vec![5], &mut patcher);
    assert_eq!(
        patcher.drain(),
        vec![
            Patch::CreateElement { handle: 2, tag: "div".into() },
            Patch::CreateText { handle: 3, text: "5".into() },
            Patch::InsertChild { parent: 2, index: 0, child: 3 },
            Patch::InsertChild { parent: 1, index: 0, child: 2 },
        ]
    );
    assert_eq!(scope.rendered().as_ref().and_then(|root| root.handle()), Some(2));
}

#[test]
fn an_update_that_asks_for_it_patches_the_tree() {
    let mut patcher = Patcher::new(2);
    let mut scope = mounted(vec![5], &mut patcher);
    patcher.drain();
    let (outcome, mailbox) = scope.update(ComponentUpdate::Message(Msg::Put(vec![7])), &mut patcher);
    assert_eq!(outcome, Outcome::Patched);
    assert!(mailbox.is_empty());
    let (_, mailbox) = scope.update(ComponentUpdate::Properties(vec![7]), &mut patcher);
    assert_eq!(mailbox.len(), 1);
    assert_eq!(patcher.drain(), vec![Patch::SetText { handle: 3, text: "7".into() }]);
}

#[test]
fn an_update_that_does_not_ask_to_render_changes_nothing() {
    let mut patcher = Patcher::new(2);
    let mut scope = mounted(vec![5], &mut patcher);
    patcher.drain();
    let next = patcher.peek();
    let mut expected: Element<Vec<u32>> = Element::new("div");
    expected.add_child(Node::text("5"));
    let expected = Some(Node::Element(expected));

    let (outcome, _) = scope.update(ComponentUpdate::Message(Msg::Peek), &mut patcher);
    assert_eq!(outcome, Outcome::Skipped);
    assert_eq!(patcher.pending(), 0);
    assert_eq!(patcher.peek(), next);
    assert_eq!(scope.rendered(), &expected);
    assert_eq!(scope.rendered().as_ref().and_then(|root| root.handle()), Some(2));

    // properties go the same way as messages, and the component decides
    let (outcome, _) = scope.update(ComponentUpdate::Properties(vec![5]), &mut patcher);
    assert_eq!(outcome, Outcome::Skipped);
    assert_eq!(patcher.pending(), 0);
    let (outcome, _) = scope.update(ComponentUpdate::Properties(vec![6]), &mut patcher);
    assert_eq!(outcome, Outcome::Patched);
    assert_eq!(patcher.drain(), vec![Patch::SetText { handle: 3, text: "6".into() }]);

    assert_eq!(scope.rerender(false, &mut patcher), Outcome::Skipped);
    assert_eq!(patcher.pending(), 0);
}

#[test]
fn a_tree_that_is_not_ready_is_refused_and_changes_nothing() {
    let mut patcher = Patcher::new(2);
    let mut scope = mounted(vec![5], &mut patcher);
    patcher.drain();
    let (outcome, _) = scope.update(ComponentUpdate::Message(Msg::Broken), &mut patcher);
    assert_eq!(outcome, Outcome::Refused);
    assert_eq!(patcher.pending(), 0);
    assert_eq!(scope.rendered().as_ref().and_then(|root| root.handle()), Some(2));

    let (_, comp) = VComp::<Vec<u32>>::lazy(1);
    assert_eq!(scope.install(Node::ComponentRef(comp), &mut patcher), Outcome::Refused);
    assert_eq!(scope.install(Node::text("plain"), &mut patcher), Outcome::Patched);

    let mut full = Patcher::new(u64::MAX);
    let mut other: Scope<Panel> = Scope::new();
    assert_eq!(other.mount_in_place(1, 0, vec![1], &mut full), Outcome::Refused);
    assert!(other.is_active());
    assert!(other.rendered().is_none());
    assert_eq!(full.pending(), 0);
}

#[test]
fn destroying_an_instance_gives_its_tree_up() {
    let mut patcher = Patcher::new(2);
    let mut scope = mounted(vec![5], &mut patcher);
    patcher.drain();
    scope.destroy(&mut patcher);
    assert!(!scope.is_active());
    assert!(scope.is_destroyed());
    assert!(scope.rendered().is_none());
    assert_eq!(
        patcher.drain(),
        vec![
            Patch::RemoveChild { parent: 1, child: 2 },
            Patch::Release { handle: 3 },
            Patch::Release { handle: 2 },
        ]
    );
}

#[test]
fn mount_empties_the_element_first() {
    let app: App<Panel> = App::new();
    let mut link = app.mount(Container { handle: 40, children: 2 });
    assert_eq!(link.backlog(), 0);
    assert_eq!(
        link.take_patches(),
        vec![
            Patch::RemoveLastChild { parent: 40 },
            Patch::RemoveLastChild { parent: 40 },
            Patch::CreateElement { handle: 41, tag: "div".into() },
            Patch::CreateText { handle: 42, text: "0".into() },
            Patch::InsertChild { parent: 41, index: 0, child: 42 },
            Patch::InsertChild { parent: 40, index: 0, child: 41 },
        ]
    );
    let runtime = link.runtime_ref();
    assert_eq!(runtime.len(), 1);
    assert_eq!(runtime.find(40), Some(0));
    assert!(runtime.instance(0).scope.is_active());
}

#[test]
fn mount_with_props_starts_from_the_properties() {
    let app: App<Panel> = App::new();
    let mut link = app.mount_with_props(Container { handle: 0, children: 0 }, vec![9]);
    assert_eq!(
        link.take_patches(),
        vec![
            Patch::CreateElement { handle: 1, tag: "div".into() },
            Patch::CreateText { handle: 2, text: "9".into() },
            Patch::InsertChild { parent: 1, index: 0, child: 2 },
            Patch::InsertChild { parent: 0, index: 0, child: 1 },
        ]
    );
}

#[test]
fn mount_to_body_mounts_into_the_body() {
    let document = Document {
        html: Some(Container { handle: 1, children: 2 }),
        body: Some(Container { handle: 2, children: 1 }),
    };
    let mut link = App::<Panel>::new().mount_to_body(&document);
    let patches = link.take_patches();
    assert_eq!(patches[0], Patch::RemoveLastChild { parent: 2 });
    assert_eq!(patches[1], Patch::CreateElement { handle: 3, tag: "div".into() });
    assert_eq!(patches[4], Patch::InsertChild { parent: 2, index: 0, child: 3 });

    let mut link = App::<Panel>::new().mount_to_body_with_props(&document, vec![4]);
    let patches = link.take_patches();
    assert_eq!(patches[2], Patch::CreateText { handle: 4, text: "4".into() });
}

#[test]
fn mount_as_body_takes_the_place_of_the_body() {
    let document = Document {
        html: Some(Container { handle: 1, children: 2 }),
        body: Some(Container { handle: 2, children: 5 }),
    };
    let mut link = App::<Panel>::new().mount_as_body(&document);
    assert_eq!(
        link.take_patches(),
        vec![
            Patch::RemoveChild { parent: 1, child: 2 },
            Patch::CreateElement { handle: 3, tag: "div".into() },
            Patch::CreateText { handle: 4, text: "0".into() },
            Patch::InsertChild { parent: 3, index: 0, child: 4 },
            Patch::InsertChild { parent: 1, index: 1, child: 3 },
        ]
    );

    let mut link = App::<Panel>::new().mount_as_body_with_props(&document, vec![8]);
    let patches = link.take_patches();
    assert_eq!(patches[2], Patch::CreateText { handle: 4, text: "8".into() });
    assert_eq!(patches[4], Patch::InsertChild { parent: 1, index: 1, child: 3 });
}

#[test]
fn messages_are_delivered_in_the_order_in_which_they_were_sent() {
    let mut link = App::<Panel>::new().mount_with_props(Container { handle: 0, children: 0 }, vec![1]);
    link.take_patches();
    // the component sends itself Put([10]) and Put([11]): they follow in order
    assert_eq!(link.send_message(Msg::Twice(10)), 3);
    assert_eq!(
        link.take_patches(),
        vec![
            Patch::SetText { handle: 2, text: "10".into() },
            Patch::SetText { handle: 2, text: "11".into() },
        ]
    );
    // new properties are delivered, and the message that follows them
    assert_eq!(link.send(ComponentUpdate::Properties(vec![11])), 2);
    assert_eq!(link.take_patches(), vec![]);
    // the same properties again are ignored
    assert_eq!(link.send(ComponentUpdate::Properties(vec![11])), 1);
    assert_eq!(link.take_patches(), vec![]);
    assert_eq!(link.send_message(Msg::Peek), 1);
    assert_eq!(link.take_patches(), vec![]);
}

#[test]
fn nested_components_are_created_updated_and_torn_down_in_turn() {
    let mut link = App::<Panel>::new().mount_with_props(Container { handle: 0, children: 0 }, vec![1, 2]);
    assert_eq!(
        link.take_patches(),
        vec![
            Patch::CreateElement { handle: 1, tag: "div".into() },
            Patch::CreateText { handle: 2, text: "1".into() },
            Patch::InsertChild { parent: 1, index: 0, child: 2 },
            Patch::Mount { handle: 3, component: 1 },
            Patch::InsertChild { parent: 1, index: 1, child: 3 },
            Patch::InsertChild { parent: 0, index: 0, child: 1 },
            // the nested instance renders after its parent
            Patch::CreateElement { handle: 4, tag: "div".into() },
            Patch::CreateText { handle: 5, text: "2".into() },
            Patch::InsertChild { parent: 4, index: 0, child: 5 },
            Patch::InsertChild { parent: 3, index: 0, child: 4 },
        ]
    );
    assert_eq!(link.runtime_ref().len(), 2);
    assert_eq!(link.runtime_ref().find(3), Some(1));
    assert!(link.runtime_ref().instance(1).scope.is_active());

    // new properties go to the instance that is there
    assert_eq!(link.send_message(Msg::Put(vec![1, 7])), 3);
    assert_eq!(link.take_patches(), vec![Patch::SetText { handle: 5, text: "7".into() }]);
    assert_eq!(link.runtime_ref().len(), 2);
    assert_eq!(link.runtime_ref().instance(1).sent, Some(vec![7]));

    // the same properties are not delivered again: the nested component is not asked
    assert_eq!(link.send_message(Msg::Put(vec![1, 7])), 2);
    assert_eq!(link.take_patches(), vec![]);

    // the nested component goes: its instance is torn down at once, and
    // its tree is given up before its mount point is released
    assert_eq!(link.send_message(Msg::Put(vec![1])), 1);
    assert_eq!(
        link.take_patches(),
        vec![
            Patch::RemoveChild { parent: 1, child: 3 },
            Patch::Destroy { handle: 3 },
            Patch::RemoveChild { parent: 3, child: 4 },
            Patch::Release { handle: 5 },
            Patch::Release { handle: 4 },
            Patch::Release { handle: 3 },
        ]
    );
    assert!(link.runtime_ref().instance(1).scope.is_destroyed());
    assert!(link.runtime_ref().instance(0).scope.is_active());

    assert_eq!(link.destroy(), 1);
    assert_eq!(
        link.take_patches(),
        vec![
            Patch::RemoveChild { parent: 0, child: 1 },
            Patch::Release { handle: 2 },
            Patch::Release { handle: 1 },
        ]
    );
    assert_eq!(link.take_faults(), vec![]);
    // an instance that was torn down takes no update: that is a defect
    assert_eq!(link.send_message(Msg::Put(vec![3])), 1);
    assert_eq!(link.take_patches(), vec![]);
    assert_eq!(link.take_faults(), vec![Fault::TornDown(0)]);
    assert_eq!(link.take_faults(), vec![]);
}

#[test]
fn a_tree_that_is_refused_is_a_defect() {
    let mut link = App::<Panel>::new().mount_with_props(Container { handle: 0, children: 3 }, vec![1000]);
    assert_eq!(link.take_faults(), vec![Fault::Refused(0)]);
    assert_eq!(
        link.take_patches(),
        vec![
            Patch::RemoveLastChild { parent: 0 },
            Patch::RemoveLastChild { parent: 0 },
            Patch::RemoveLastChild { parent: 0 },
        ]
    );
    assert_eq!(link.runtime_ref().len(), 1);
    assert!(link.runtime_ref().instance(0).scope.rendered().is_none());
    assert!(link.is_at_rest());

    let mut link = App::<Panel>::new().mount_with_props(Container { handle: 0, children: 0 }, vec![1]);
    link.take_patches();
    assert_eq!(link.send_message(Msg::Broken), 1);
    assert_eq!(link.take_patches(), vec![]);
    assert_eq!(link.take_faults(), vec![Fault::Refused(0)]);
}

#[test]
fn the_runtime_sorts_what_reconciliation_wrote() {
    let mut patcher: Patcher<Vec<u32>> = Patcher::new(10);
    patcher.emit(Patch::RemoveLastChild { parent: 9 });
    let mut runtime: Runtime<Panel> = Runtime::new(patcher);
    assert_eq!(runtime.pending(), 1);
    runtime.register(9, 0, Scope::new());
    assert_eq!(runtime.find(9), Some(0));
    assert_eq!(runtime.find(8), None);

    // an envelope for nobody is dropped, and noted as a defect
    let dropped = runtime.deliver(Envelope { target: 8, instruction: Instruction::Destroy });
    assert!(dropped.is_empty());
    assert_eq!(runtime.faulty(), 1);
    assert_eq!(runtime.fault(0), Fault::NoInstance(8));
    // so is a message for an instance that was not created yet
    let early = runtime.deliver(Envelope {
        target: 9,
        instruction: Instruction::Update(ComponentUpdate::Message(Msg::Peek)),
    });
    assert!(early.is_empty());
    assert_eq!(runtime.pending(), 1);
    assert_eq!(runtime.take_faults(), vec![Fault::NoInstance(8), Fault::NotCreated(9)]);

    let asked = runtime.deliver(Envelope {
        target: 9,
        instruction: Instruction::Update(ComponentUpdate::Properties(vec![1, 2, 3])),
    });
    assert_eq!(asked.len(), 2);
    assert_eq!(asked[0].target, 12);
    assert!(matches!(
        &asked[0].instruction,
        Instruction::Update(ComponentUpdate::Properties(props)) if props == &vec![2]
    ));
    assert_eq!(asked[1].target, 13);
    assert_eq!(runtime.len(), 3);
    assert_eq!(runtime.instance(1).at, 12);
    assert_eq!(runtime.instance(2).at, 13);
    assert!(runtime.instance(2).scope.is_vacant());
    let patches = runtime.take_patches();
    assert_eq!(patches.len(), 9);
    assert_eq!(patches[4], Patch::Mount { handle: 12, component: 1 });
    assert_eq!(patches[6], Patch::Mount { handle: 13, component: 1 });

    let asked = runtime.deliver(Envelope {
        target: 9,
        instruction: Instruction::Update(ComponentUpdate::Message(Msg::Twice(4))),
    });
    assert_eq!(asked.len(), 2);
    assert_eq!(asked[0].target, 9);
    assert!(matches!(
        &asked[0].instruction,
        Instruction::Update(ComponentUpdate::Message(Msg::Put(numbers))) if numbers == &vec![4]
    ));
    assert_eq!(runtime.pending(), 0);
    assert_eq!(runtime.faulty(), 0);

    let hand = runtime.hand(Envelope { target: 12, instruction: Instruction::Destroy });
    assert!(hand.is_empty());
    assert!(runtime.instance(1).scope.is_destroyed());
    assert!(runtime.settle().is_empty());
    let late = runtime.deliver(Envelope {
        target: 12,
        instruction: Instruction::Update(ComponentUpdate::Properties(vec![5])),
    });
    assert!(late.is_empty());
    assert_eq!(runtime.take_faults(), vec![Fault::TornDown(12)]);
}

#[test]
fn running_an_envelope_delivers_it() {
    let mut runtime: Runtime<Panel> = Runtime::new(Patcher::new(10));
    runtime.register(9, 0, Scope::new());
    let first = Envelope {
        target: 9,
        instruction: Instruction::Update(ComponentUpdate::Properties(vec![1])),
    };
    assert!(first.run(&mut runtime).is_empty());
    assert!(runtime.instance(0).scope.is_active());
    assert!(!runtime.take_patches().is_empty());

    // the messages that the component sent to itself come back in order,
    // and an update that does not ask to render writes nothing
    let twice = Envelope {
        target: 9,
        instruction: Instruction::Update(ComponentUpdate::Message(Msg::Twice(4))),
    };
    let asked = twice.run(&mut runtime);
    assert_eq!(asked.len(), 2);
    assert_eq!(asked[0].target, 9);
    assert!(matches!(
        &asked[0].instruction,
        Instruction::Update(ComponentUpdate::Message(Msg::Put(numbers))) if numbers == &vec![4]
    ));
    assert_eq!(asked[1].target, 9);
    assert!(matches!(
        &asked[1].instruction,
        Instruction::Update(ComponentUpdate::Message(Msg::Put(numbers))) if numbers == &vec![5]
    ));
    assert!(runtime.take_patches().is_empty());
    assert_eq!(runtime.faulty(), 0);

    let nobody = Envelope { target: 7, instruction: Instruction::Destroy };
    assert!(nobody.run(&mut runtime).is_empty());
    assert_eq!(runtime.take_faults(), vec![Fault::NoInstance(7)]);
}

#[test]
fn a_default_application_mounts_like_a_new_one() {
    let element = Container { handle: 40, children: 1 };
    let mut by_default = App::<Panel>::default().mount(element);
    let mut by_new = App::<Panel>::new().mount(element);
    let patches = by_default.take_patches();
    assert_eq!(patches.len(), 5);
    assert_eq!(patches, by_new.take_patches());
    // the component started from the default properties
    assert_eq!(patches[2], Patch::CreateText { handle: 42, text: "0".into() });
}

#[test]
fn a_teardown_reaches_the_journal() {
    let mut runtime: Runtime<Panel> = Runtime::new(Patcher::new(10));
    runtime.register(9, 0, Scope::new());
    let first = runtime.deliver(Envelope {
        target: 9,
        instruction: Instruction::Update(ComponentUpdate::Properties(vec![5])),
    });
    assert!(first.is_empty());
    assert_eq!(runtime.take_patches().len(), 4);

    let asked = runtime.deliver(Envelope { target: 9, instruction: Instruction::Destroy });
    assert!(asked.is_empty());
    assert_eq!(runtime.faulty(), 0);
    assert!(runtime.instance(0).scope.is_destroyed());
    assert_eq!(
        runtime.take_patches(),
        vec![
            Patch::RemoveChild { parent: 9, child: 10 },
            Patch::Release { handle: 11 },
            Patch::Release { handle: 10 },
        ]
    );
    // a second teardown finds no tree and writes nothing
    assert!(runtime.deliver(Envelope { target: 9, instruction: Instruction::Destroy }).is_empty());
    assert!(runtime.take_patches().is_empty());
}

#[test]
fn a_nested_tree_is_given_up_before_its_place_is_taken() {
    // the root renders a nested panel, which renders a nested panel of its own
    let mut runtime: Runtime<Panel> = Runtime::new(Patcher::new(10));
    runtime.register(9, 0, Scope::new());
    let mut waiting = runtime.deliver(Envelope {
        target: 9,
        instruction: Instruction::Update(ComponentUpdate::Properties(vec![1, 2])),
    });
    assert_eq!(waiting.len(), 1);
    let outer = waiting.remove(0);
    assert_eq!(outer.target, 12);
    assert!(runtime.deliver(outer).is_empty());
    runtime.hand(Envelope {
        target: 12,
        instruction: Instruction::Update(ComponentUpdate::Message(Msg::Put(vec![2, 3]))),
    });
    let mut waiting = runtime.settle();
    assert_eq!(waiting.len(), 1);
    let inner = waiting.remove(0);
    assert!(runtime.deliver(inner).is_empty());
    assert_eq!(runtime.len(), 3);
    let inner_at = runtime.instance(2).at;
    runtime.take_patches();

    // the root drops its nested panel: both nested instances are torn down
    // at once, the inner one first, and nothing is left to schedule
    let asked = runtime.deliver(Envelope {
        target: 9,
        instruction: Instruction::Update(ComponentUpdate::Message(Msg::Put(vec![1]))),
    });
    assert!(asked.is_empty());
    assert!(runtime.instance(1).scope.is_destroyed());
    assert!(runtime.instance(2).scope.is_destroyed());
    assert!(runtime.instance(1).scope.rendered().is_none());
    assert!(runtime.instance(2).scope.rendered().is_none());
    let patches = runtime.take_patches();
    let place = |wanted: &Patch<Vec<u32>>| patches.iter().position(|p| p == wanted).unwrap();
    let outer_asked = place(&Patch::Destroy { handle: 12 });
    let inner_asked = place(&Patch::Destroy { handle: inner_at });
    let inner_gone = place(&Patch::Release { handle: inner_at });
    let outer_gone = place(&Patch::Release { handle: 12 });
    assert!(outer_asked < inner_asked);
    assert!(inner_asked < inner_gone);
    assert!(inner_gone < outer_gone);
    assert_eq!(outer_gone, patches.len() - 1);
    assert_eq!(runtime.faulty(), 0);
}
