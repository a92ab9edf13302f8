use alien_signals::{Computed, Effect, Host, Node, Runtime, Signal};
use std::cell::RefCell;
use std::collections::HashMap;
use std::rc::Rc;

type Rt = Runtime<Val>;
type Getter = Rc<dyn Fn(&mut Rt, &Table, Option<&Val>) -> Val>;
type Thunk = Rc<dyn Fn(&mut Rt, &Table)>;
type Equality = Rc<dyn Fn(&Val, &Val) -> bool>;

/// Holds the closures of the nodes, by node.
struct Table {
    getters: RefCell<HashMap<usize, Getter>>,
    thunks: RefCell<HashMap<usize, Thunk>>,
    equalities: RefCell<HashMap<usize, Equality>>,
}

impl Table {
    fn new() -> Self {
        Table {
            getters: RefCell::new(HashMap::new()),
            thunks: RefCell::new(HashMap::new()),
            equalities: RefCell::new(HashMap::new()),
        }
    }
}

impl Host<Val> for Table {
    type Getter = Getter;
    type Thunk = Thunk;
    type Equality = Equality;

    fn bind_getter(&self, node: Node, getter: Getter) {
        self.getters.borrow_mut().insert(node.id, getter);
    }

    fn bind_thunk(&self, node: Node, thunk: Thunk) {
        self.thunks.borrow_mut().insert(node.id, thunk);
    }

    fn bind_equality(&self, node: Node, equality: Equality) {
        self.equalities.borrow_mut().insert(node.id, equality);
    }

    fn compute(&self, rt: &mut Rt, node: Node, previous: Option<&Val>) -> Val {
        let getter = self.getters.borrow().get(&node.id).cloned().unwrap();
        getter(rt, self, previous)
    }

    fn run(&self, rt: &mut Rt, node: Node) {
        let thunk = self.thunks.borrow().get(&node.id).cloned();
        if let Some(thunk) = thunk {
            thunk(rt, self);
        }
    }

    fn equates(&self, node: Node, a: Val, b: Val) -> bool {
        self.same(node, &a, &b)
    }

    fn same(&self, node: Node, a: &Val, b: &Val) -> bool {
        let equality = self.equalities.borrow().get(&node.id).cloned().unwrap();
        equality(a, b)
    }
}

#[allow(dead_code)]
fn getter(f: impl Fn(&mut Rt, &Table, Option<&Val>) -> Val + 'static) -> Getter {
    Rc::new(f)
}

#[allow(dead_code)]
fn thunk(f: impl Fn(&mut Rt, &Table) + 'static) -> Thunk {
    Rc::new(f)
}

#[allow(dead_code)]
fn equality(f: impl Fn(&Val, &Val) -> bool + 'static) -> Equality {
    Rc::new(f)
}

/// The values of these graphs: lists, and their lengths.
#[derive(Clone, PartialEq, Debug)]
enum Val {
    List(Vec<i32>),
    Len(usize),
}

impl Val {
    fn list(self) -> Vec<i32> {
        match self {
            Val::List(v) => v,
            Val::Len(_) => panic!("not a list"),
        }
    }

    fn list_mut(&mut self) -> &mut Vec<i32> {
        match self {
            Val::List(v) => v,
            Val::Len(_) => panic!("not a list"),
        }
    }
}

#[test]
fn should_not_throw_when_triggering_with_no_dependencies() {
    let mut rt = Rt::new();
    let host = Table::new();
    alien_signals::trigger(&mut rt, &host, |_: &mut Rt, _: &Table| {});
}

#[test]
fn should_trigger_updates_for_dependent_computed_signals() {
    let mut rt = Rt::new();
    let host = Table::new();
    let arr = Signal::new(&mut rt, Val::List(vec![]));
    let length = Computed::new(
        &mut rt,
        &host,
        getter(move |rt, host, _| Val::Len(arr.get(rt, host).list().len())),
    );

    assert_eq!(length.get(&mut rt, &host), Val::Len(0));
    arr.update(&mut rt, &host, |arr: &mut Val| arr.list_mut().push(1));
    alien_signals::trigger(&mut rt, &host, move |rt: &mut Rt, host: &Table| {
        let _ = arr.get(rt, host);
    });
    assert_eq!(length.get(&mut rt, &host), Val::Len(1));
}

#[test]
fn should_trigger_updates_for_the_second_source_signal() {
    let mut rt = Rt::new();
    let host = Table::new();
    let src1 = Signal::new(&mut rt, Val::List(vec![]));
    let src2 = Signal::new(&mut rt, Val::List(vec![]));
    let length = Computed::new(
        &mut rt,
        &host,
        getter(move |rt, host, _| Val::Len(src2.get(rt, host).list().len())),
    );

    assert_eq!(length.get(&mut rt, &host), Val::Len(0));
    src2.update(&mut rt, &host, |arr: &mut Val| arr.list_mut().push(1));
    alien_signals::trigger(&mut rt, &host, move |rt: &mut Rt, host: &Table| {
        let _ = src1.get(rt, host);
        let _ = src2.get(rt, host);
    });
    assert_eq!(length.get(&mut rt, &host), Val::Len(1));
}

#[test]
fn should_trigger_effect_once() {
    let mut rt = Rt::new();
    let host = Table::new();
    let src1 = Signal::new(&mut rt, Val::List(vec![]));
    let src2 = Signal::new(&mut rt, Val::List(vec![]));

    let triggers = std::rc::Rc::new(std::sync::Mutex::new(0));

    Effect::new(&mut rt, &host, thunk({
        let triggers = triggers.clone();
        move |rt, host| {
            *triggers.lock().unwrap() += 1;
            let _ = src1.get(rt, host);
            let _ = src2.get(rt, host);
        }
    }));

    assert_eq!(*triggers.lock().unwrap(), 1);
    alien_signals::trigger(&mut rt, &host, move |rt: &mut Rt, host: &Table| {
        let _ = src1.get(rt, host);
        let _ = src2.get(rt, host);
    });
    assert_eq!(*triggers.lock().unwrap(), 2);
}

#[test]
fn should_not_notify_the_trigger_function_sub() {
    let mut rt = Rt::new();
    let host = Table::new();
    let src1 = Signal::new(&mut rt, Val::List(vec![]));
    let src2 = Computed::new(&mut rt, &host, getter(move |rt, host, _| src1.get(rt, host)));

    Effect::new(&mut rt, &host, thunk(move |rt, host| {
        let _ = src1.get(rt, host);
        let _ = src2.get(rt, host);
    }));
    alien_signals::trigger(&mut rt, &host, move |rt: &mut Rt, host: &Table| {
        let _ = src1.get(rt, host);
        let _ = src2.get(rt, host);
    });
}
