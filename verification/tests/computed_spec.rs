use alien_signals::{Computed, Host, Node, Runtime, Signal};
use std::cell::RefCell;
use std::collections::HashMap;
use std::rc::Rc;

type Rt = Runtime<Val>;
type Getter = Rc<dyn Fn(&mut Rt, &Table, Option<&Val>) -> Val>;
type Thunk = Rc<dyn Fn(&mut Rt, &Table)>;
type Equality = Rc<dyn Fn(&Val, &Val) -> bool>;

/// Holds the closures of the nodes, by node.
struct Table {
    getters: RefCell<HashMap<usize, Getter>>,
    thunks: RefCell<HashMap<usize, Thunk>>,
    equalities: RefCell<HashMap<usize, Equality>>,
}

impl Table {
    fn new() -> Self {
        Table {
            getters: RefCell::new(HashMap::new()),
            thunks: RefCell::new(HashMap::new()),
            equalities: RefCell::new(HashMap::new()),
        }
    }
}

impl Host<Val> for Table {
    type Getter = Getter;
    type Thunk = Thunk;
    type Equality = Equality;

    fn bind_getter(&self, node: Node, getter: Getter) {
        self.getters.borrow_mut().insert(node.id, getter);
    }

    fn bind_thunk(&self, node: Node, thunk: Thunk) {
        self.thunks.borrow_mut().insert(node.id, thunk);
    }

    fn bind_equality(&self, node: Node, equality: Equality) {
        self.equalities.borrow_mut().insert(node.id, equality);
    }

    fn compute(&self, rt: &mut Rt, node: Node, previous: Option<&Val>) -> Val {
        let getter = self.getters.borrow().get(&node.id).cloned().unwrap();
        getter(rt, self, previous)
    }

    fn run(&self, rt: &mut Rt, node: Node) {
        let thunk = self.thunks.borrow().get(&node.id).cloned();
        if let Some(thunk) = thunk {
            thunk(rt, self);
        }
    }

    fn equates(&self, node: Node, a: Val, b: Val) -> bool {
        self.same(node, &a, &b)
    }

    fn same(&self, node: Node, a: &Val, b: &Val) -> bool {
        let equality = self.equalities.borrow().get(&node.id).cloned().unwrap();
        equality(a, b)
    }
}

#[allow(dead_code)]
fn getter(f: impl Fn(&mut Rt, &Table, Option<&Val>) -> Val + 'static) -> Getter {
    Rc::new(f)
}

#[allow(dead_code)]
fn thunk(f: impl Fn(&mut Rt, &Table) + 'static) -> Thunk {
    Rc::new(f)
}

#[allow(dead_code)]
fn equality(f: impl Fn(&Val, &Val) -> bool + 'static) -> Equality {
    Rc::new(f)
}

type Val = i32;

#[test]
fn should_correctly_propagate_changes_through_computed_signals() {
    let mut rt = Rt::new();
    let host = Table::new();
    let src = Signal::new(&mut rt, 0);
    let c1 = Computed::new(&mut rt, &host, getter(move |rt, host, _| {
        println!("before src.get()");
        let src_mod_2 = src.get(rt, host) % 2;
        println!("after src.get()");
        src_mod_2
    }));
    let c2 = Computed::new(&mut rt, &host, getter(move |rt, host, _| {
        println!("before c1.get()");
        let c1 = c1.get(rt, host);
        println!("after c1.get()");
        c1
    }));
    let c3 = Computed::new(&mut rt, &host, getter(move |rt, host, _| {
        println!("before c2.get()");
        let c2 = c2.get(rt, host);
        println!("after c2.get()");
        c2
    }));

    let _ = c3.get(&mut rt, &host);
    src.set(&mut rt, &host, 1);
    let _ = c2.get(&mut rt, &host);
    src.set(&mut rt, &host, 3);

    assert_eq!(c3.get(&mut rt, &host), 1);
}

#[test]
fn should_propagate_updated_source_value_through_chained_computation() {
    let mut rt = Rt::new();
    let host = Table::new();
    let src = Signal::new(&mut rt, 0);
    let a = Computed::new(&mut rt, &host, getter(move |rt, host, _| src.get(rt, host)));
    let b = Computed::new(&mut rt, &host, getter(move |rt, host, _| a.get(rt, host) % 2));
    let c = Computed::new(&mut rt, &host, getter(move |rt, host, _| src.get(rt, host)));
    let d = Computed::new(
        &mut rt,
        &host,
        getter(move |rt, host, _| b.get(rt, host) + c.get(rt, host)),
    );

    assert_eq!(d.get(&mut rt, &host), 0);
    src.set(&mut rt, &host, 2);
    assert_eq!(d.get(&mut rt, &host), 2);
}

#[test]
fn should_not_update_if_the_signal_value_is_reverted() {
    let times = std::rc::Rc::new(std::sync::Mutex::new(0));

    let mut rt = Rt::new();
    let host = Table::new();
    let src = Signal::new(&mut rt, 0);
    let c1 = Computed::new(&mut rt, &host, getter({
        let times = times.clone();
        move |rt, host, _| {
            *times.lock().unwrap() += 1;
            src.get(rt, host)
        }
    }));

    let _ = c1.get(&mut rt, &host);
    assert_eq!(*times.lock().unwrap(), 1);
    src.set(&mut rt, &host, 1);
    src.set(&mut rt, &host, 0);
    let _ = c1.get(&mut rt, &host);
    assert_eq!(*times.lock().unwrap(), 1);
}
