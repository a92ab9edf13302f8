use alien_signals::{Effect, EffectScope, Host, Node, Runtime, Signal};
use std::cell::RefCell;
use std::collections::HashMap;
use std::rc::Rc;

type Rt = Runtime<Val>;
type Getter = Rc<dyn Fn(&mut Rt, &Table, Option<&Val>) -> Val>;
type Thunk = Rc<dyn Fn(&mut Rt, &Table)>;
type Equality = Rc<dyn Fn(&Val, &Val) -> bool>;

/// Holds the closures of the nodes, by node.
struct Table {
    getters: RefCell<HashMap<usize, Getter>>,
    thunks: RefCell<HashMap<usize, Thunk>>,
    equalities: RefCell<HashMap<usize, Equality>>,
}

impl Table {
    fn new() -> Self {
        Table {
            getters: RefCell::new(HashMap::new()),
            thunks: RefCell::new(HashMap::new()),
            equalities: RefCell::new(HashMap::new()),
        }
    }
}

impl Host<Val> for Table {
    type Getter = Getter;
    type Thunk = Thunk;
    type Equality = Equality;

    fn bind_getter(&self, node: Node, getter: Getter) {
        self.getters.borrow_mut().insert(node.id, getter);
    }

    fn bind_thunk(&self, node: Node, thunk: Thunk) {
        self.thunks.borrow_mut().insert(node.id, thunk);
    }

    fn bind_equality(&self, node: Node, equality: Equality) {
        self.equalities.borrow_mut().insert(node.id, equality);
    }

    fn compute(&self, rt: &mut Rt, node: Node, previous: Option<&Val>) -> Val {
        let getter = self.getters.borrow().get(&node.id).cloned().unwrap();
        getter(rt, self, previous)
    }

    fn run(&self, rt: &mut Rt, node: Node) {
        let thunk = self.thunks.borrow().get(&node.id).cloned();
        if let Some(thunk) = thunk {
            thunk(rt, self);
        }
    }

    fn equates(&self, node: Node, a: Val, b: Val) -> bool {
        self.same(node, &a, &b)
    }

    fn same(&self, node: Node, a: &Val, b: &Val) -> bool {
        let equality = self.equalities.borrow().get(&node.id).cloned().unwrap();
        equality(a, b)
    }
}

#[allow(dead_code)]
fn getter(f: impl Fn(&mut Rt, &Table, Option<&Val>) -> Val + 'static) -> Getter {
    Rc::new(f)
}

#[allow(dead_code)]
fn thunk(f: impl Fn(&mut Rt, &Table) + 'static) -> Thunk {
    Rc::new(f)
}

#[allow(dead_code)]
fn equality(f: impl Fn(&Val, &Val) -> bool + 'static) -> Equality {
    Rc::new(f)
}

type Val = i32;

#[test]
fn should_not_trigger_after_stop() {
    let mut rt = Rt::new();
    let host = Table::new();
    let count = Signal::new(&mut rt, 0);

    let triggers = std::rc::Rc::new(std::sync::Mutex::new(0));

    let mut _effect1 = None;

    #[allow(unused_assignments)]
    let effect_scope = EffectScope::new(&mut rt, &host, {
        let triggers = triggers.clone();
        move |rt: &mut Rt, host: &Table| {
            _effect1 = Some(Effect::new(rt, host, thunk({
                let triggers = triggers.clone();
                move |rt, host| {
                    *triggers.lock().unwrap() += 1;
                    let _ = count.get(rt, host);
                }
            })));
            assert_eq!(*triggers.lock().unwrap(), 1);

            count.set(rt, host, 2);
            assert_eq!(*triggers.lock().unwrap(), 2);
        }
    });

    count.set(&mut rt, &host, 3);
    assert_eq!(*triggers.lock().unwrap(), 3);
    effect_scope.dispose(&mut rt);
    count.set(&mut rt, &host, 4);
    assert_eq!(*triggers.lock().unwrap(), 3);
}

#[test]
fn should_dispose_inner_effects_if_created_in_an_effect() {
    let mut rt = Rt::new();
    let host = Table::new();
    let source = Signal::new(&mut rt, 1);

    let triggers = std::rc::Rc::new(std::sync::Mutex::new(0));

    Effect::new(&mut rt, &host, thunk({
        let triggers = triggers.clone();
        move |rt, host| {
            let effect_scope = EffectScope::new(rt, host, {
                let triggers = triggers.clone();
                move |rt: &mut Rt, host: &Table| {
                    Effect::new(rt, host, thunk({
                        let triggers = triggers.clone();
                        move |rt, host| {
                            let _ = source.get(rt, host);
                            *triggers.lock().unwrap() += 1;
                        }
                    }));
                }
            });
            assert_eq!(*triggers.lock().unwrap(), 1);

            source.set(rt, host, 2);
            assert_eq!(*triggers.lock().unwrap(), 2);
            effect_scope.dispose(rt);
            source.set(rt, host, 3);
            assert_eq!(*triggers.lock().unwrap(), 2);
        }
    }));
}

#[test]
fn should_track_signal_updates_in_an_inner_scope_when_accessed_by_an_outer_effect() {
    let mut rt = Rt::new();
    let host = Table::new();
    let source = Signal::new(&mut rt, 1);

    let triggers = std::rc::Rc::new(std::sync::Mutex::new(0));

    Effect::new(&mut rt, &host, thunk({
        let triggers = triggers.clone();
        move |rt, host| {
            EffectScope::new(rt, host, move |rt: &mut Rt, host: &Table| {
                let _ = source.get(rt, host);
            });
            *triggers.lock().unwrap() += 1;
        }
    }));

    assert_eq!(*triggers.lock().unwrap(), 1);
    source.set(&mut rt, &host, 2);
    assert_eq!(*triggers.lock().unwrap(), 2);
}
