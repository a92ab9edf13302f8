use alien_signals::{set_active_sub, Computed, Effect, EffectScope, Host, Node, Runtime, Signal};
use std::cell::RefCell;
use std::collections::HashMap;
use std::rc::Rc;

type Rt = Runtime<Val>;
type Getter = Rc<dyn Fn(&mut Rt, &Table, Option<&Val>) -> Val>;
type Thunk = Rc<dyn Fn(&mut Rt, &Table)>;
type Equality = Rc<dyn Fn(&Val, &Val) -> bool>;

/// Holds the closures of the nodes, by node.
struct Table {
    getters: RefCell<HashMap<usize, Getter>>,
    thunks: RefCell<HashMap<usize, Thunk>>,
    equalities: RefCell<HashMap<usize, Equality>>,
}

impl Table {
    fn new() -> Self {
        Table {
            getters: RefCell::new(HashMap::new()),
            thunks: RefCell::new(HashMap::new()),
            equalities: RefCell::new(HashMap::new()),
        }
    }
}

impl Host<Val> for Table {
    type Getter = Getter;
    type Thunk = Thunk;
    type Equality = Equality;

    fn bind_getter(&self, node: Node, getter: Getter) {
        self.getters.borrow_mut().insert(node.id, getter);
    }

    fn bind_thunk(&self, node: Node, thunk: Thunk) {
        self.thunks.borrow_mut().insert(node.id, thunk);
    }

    fn bind_equality(&self, node: Node, equality: Equality) {
        self.equalities.borrow_mut().insert(node.id, equality);
    }

    fn compute(&self, rt: &mut Rt, node: Node, previous: Option<&Val>) -> Val {
        let getter = self.getters.borrow().get(&node.id).cloned().unwrap();
        getter(rt, self, previous)
    }

    fn run(&self, rt: &mut Rt, node: Node) {
        let thunk = self.thunks.borrow().get(&node.id).cloned();
        if let Some(thunk) = thunk {
            thunk(rt, self);
        }
    }

    fn equates(&self, node: Node, a: Val, b: Val) -> bool {
        self.same(node, &a, &b)
    }

    fn same(&self, node: Node, a: &Val, b: &Val) -> bool {
        let equality = self.equalities.borrow().get(&node.id).cloned().unwrap();
        equality(a, b)
    }
}

#[allow(dead_code)]
fn getter(f: impl Fn(&mut Rt, &Table, Option<&Val>) -> Val + 'static) -> Getter {
    Rc::new(f)
}

#[allow(dead_code)]
fn thunk(f: impl Fn(&mut Rt, &Table) + 'static) -> Thunk {
    Rc::new(f)
}

#[allow(dead_code)]
fn equality(f: impl Fn(&Val, &Val) -> bool + 'static) -> Equality {
    Rc::new(f)
}

type Val = i32;

#[test]
fn should_pause_tracking_in_computed() {
    let mut rt = Rt::new();
    let host = Table::new();
    let src = Signal::new(&mut rt, 0);

    let computed_trigger_times = std::rc::Rc::new(std::sync::Mutex::new(0));
    let c = Computed::new(&mut rt, &host, getter({
        let computed_trigger_times = computed_trigger_times.clone();
        move |rt, host, _| {
            *computed_trigger_times.lock().unwrap() += 1;
            let current_sub = set_active_sub(rt, None);
            let value = src.get(rt, host);
            set_active_sub(rt, current_sub);
            value
        }
    }));

    assert_eq!(c.get(&mut rt, &host), 0);
    assert_eq!(*computed_trigger_times.lock().unwrap(), 1);

    src.set(&mut rt, &host, 1);
    src.set(&mut rt, &host, 2);
    src.set(&mut rt, &host, 3);

    assert_eq!(c.get(&mut rt, &host), 0);
    assert_eq!(*computed_trigger_times.lock().unwrap(), 1);
}

#[test]
fn should_pause_tracking_in_effect() {
    let mut rt = Rt::new();
    let host = Table::new();
    let src = Signal::new(&mut rt, 0);
    let is = Signal::new(&mut rt, 0);

    let effect_trigger_times = std::rc::Rc::new(std::sync::Mutex::new(0));
    Effect::new(&mut rt, &host, thunk({
        let effect_trigger_times = effect_trigger_times.clone();
        move |rt, host| {
            *effect_trigger_times.lock().unwrap() += 1;
            if is.get(rt, host) > 0 {
                let current_sub = set_active_sub(rt, None);
                let _ = src.get(rt, host);
                set_active_sub(rt, current_sub);
            }
        }
    }));

    assert_eq!(*effect_trigger_times.lock().unwrap(), 1);

    is.set(&mut rt, &host, 1);
    assert_eq!(*effect_trigger_times.lock().unwrap(), 2);

    src.set(&mut rt, &host, 1);
    src.set(&mut rt, &host, 2);
    src.set(&mut rt, &host, 3);
    assert_eq!(*effect_trigger_times.lock().unwrap(), 2);

    is.set(&mut rt, &host, 2);
    assert_eq!(*effect_trigger_times.lock().unwrap(), 3);

    src.set(&mut rt, &host, 4);
    src.set(&mut rt, &host, 5);
    src.set(&mut rt, &host, 6);
    assert_eq!(*effect_trigger_times.lock().unwrap(), 3);

    is.set(&mut rt, &host, 0);
    assert_eq!(*effect_trigger_times.lock().unwrap(), 4);

    src.set(&mut rt, &host, 7);
    src.set(&mut rt, &host, 8);
    src.set(&mut rt, &host, 9);
    assert_eq!(*effect_trigger_times.lock().unwrap(), 4);
}

#[test]
fn should_dispose_computed_in_effect_scope() {
    let mut rt = Rt::new();
    let host = Table::new();
    let src = Signal::new(&mut rt, 0);

    let effect_trigger_times = std::rc::Rc::new(std::sync::Mutex::new(0));
    EffectScope::new(&mut rt, &host, {
        let effect_trigger_times = effect_trigger_times.clone();
        move |rt: &mut Rt, host: &Table| {
            Effect::new(rt, host, thunk({
                let effect_trigger_times = effect_trigger_times.clone();
                move |rt, host| {
                    *effect_trigger_times.lock().unwrap() += 1;
                    let current_sub = set_active_sub(rt, None);
                    let _ = src.get(rt, host);
                    set_active_sub(rt, current_sub);
                }
            }));
        }
    });

    assert_eq!(*effect_trigger_times.lock().unwrap(), 1);

    src.set(&mut rt, &host, 1);
    src.set(&mut rt, &host, 2);
    src.set(&mut rt, &host, 3);
    assert_eq!(*effect_trigger_times.lock().unwrap(), 1);
}
