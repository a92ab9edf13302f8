use alien_signals::{set_active_sub, Computed, Effect, Host, Node, Runtime, Signal};
use std::cell::RefCell;
use std::collections::HashMap;
use std::rc::Rc;

type Rt = Runtime<Val>;
type Getter = Rc<dyn Fn(&mut Rt, &Table, Option<&Val>) -> Val>;
type Thunk = Rc<dyn Fn(&mut Rt, &Table)>;
type Equality = Rc<dyn Fn(&Val, &Val) -> bool>;

/// Holds the closures of the nodes, by node.
struct Table {
    getters: RefCell<HashMap<usize, Getter>>,
    thunks: RefCell<HashMap<usize, Thunk>>,
    equalities: RefCell<HashMap<usize, Equality>>,
}

impl Table {
    fn new() -> Self {
        Table {
            getters: RefCell::new(HashMap::new()),
            thunks: RefCell::new(HashMap::new()),
            equalities: RefCell::new(HashMap::new()),
        }
    }
}

impl Host<Val> for Table {
    type Getter = Getter;
    type Thunk = Thunk;
    type Equality = Equality;

    fn bind_getter(&self, node: Node, getter: Getter) {
        self.getters.borrow_mut().insert(node.id, getter);
    }

    fn bind_thunk(&self, node: Node, thunk: Thunk) {
        self.thunks.borrow_mut().insert(node.id, thunk);
    }

    fn bind_equality(&self, node: Node, equality: Equality) {
        self.equalities.borrow_mut().insert(node.id, equality);
    }

    fn compute(&self, rt: &mut Rt, node: Node, previous: Option<&Val>) -> Val {
        let getter = self.getters.borrow().get(&node.id).cloned().unwrap();
        getter(rt, self, previous)
    }

    fn run(&self, rt: &mut Rt, node: Node) {
        let thunk = self.thunks.borrow().get(&node.id).cloned();
        if let Some(thunk) = thunk {
            thunk(rt, self);
        }
    }

    fn equates(&self, node: Node, a: Val, b: Val) -> bool {
        self.same(node, &a, &b)
    }

    fn same(&self, node: Node, a: &Val, b: &Val) -> bool {
        let equality = self.equalities.borrow().get(&node.id).cloned().unwrap();
        equality(a, b)
    }
}

#[allow(dead_code)]
fn getter(f: impl Fn(&mut Rt, &Table, Option<&Val>) -> Val + 'static) -> Getter {
    Rc::new(f)
}

#[allow(dead_code)]
fn thunk(f: impl Fn(&mut Rt, &Table) + 'static) -> Thunk {
    Rc::new(f)
}

#[allow(dead_code)]
fn equality(f: impl Fn(&Val, &Val) -> bool + 'static) -> Equality {
    Rc::new(f)
}

type Val = i32;

type Disposer = Box<dyn FnOnce(&mut Rt)>;

#[test]
fn issue48() {
    let mut rt = Rt::new();
    let host = Table::new();
    let source = Signal::new(&mut rt, 0);
    let dispose_inner: std::rc::Rc<std::sync::Mutex<Option<Disposer>>> =
        std::rc::Rc::new(std::sync::Mutex::new(None));

    let _ = reaction(
        &mut rt,
        &host,
        move |rt, host| source.get(rt, host),
        move |rt, host, val, _| {
            if *val == 1 {
                let dispose_reaction = reaction(
                    rt,
                    host,
                    move |rt, host| source.get(rt, host),
                    |_, _, _, _| {},
                    Default::default(),
                );
                dispose_inner.lock().unwrap().replace(Box::new(dispose_reaction));
            } else if *val == 2 {
                let taken = dispose_inner.lock().unwrap().take();
                if let Some(dispose_inner) = taken {
                    dispose_inner(rt);
                }
            }
        },
        Default::default(),
    );

    source.set(&mut rt, &host, 1);
    source.set(&mut rt, &host, 2);
    source.set(&mut rt, &host, 3);
}

struct ReactionOptions {
    fire_immediately: bool,
    equals: std::rc::Rc<dyn Fn(&Val, &Val) -> bool>,
    scheduler: std::rc::Rc<dyn Fn(&mut Rt, &Table, Box<dyn Fn(&mut Rt, &Table)>)>,
    once: bool,
}
impl Default for ReactionOptions {
    fn default() -> Self {
        Self {
            fire_immediately: false,
            equals: std::rc::Rc::new(|a: &Val, b: &Val| a == b),
            scheduler: std::rc::Rc::new(|rt, host, f| f(rt, host)),
            once: false,
        }
    }
}

fn reaction(
    rt: &mut Rt,
    host: &Table,
    data_fn: impl Fn(&mut Rt, &Table) -> Val + 'static,
    effect_fn: impl Fn(&mut Rt, &Table, &Val, Option<&Val>) + 'static,
    ReactionOptions {
        fire_immediately,
        equals,
        scheduler,
        once,
    }: ReactionOptions,
) -> impl FnOnce(&mut Rt) {
    let effect_fn = std::rc::Rc::new(effect_fn);

    let prev_value = std::rc::Rc::new(std::sync::Mutex::new(None));
    let version = std::rc::Rc::new(std::sync::Mutex::new(0));

    let watched = Computed::new(rt, host, getter(move |rt, host, _| data_fn(rt, host)));

    let dispose: std::rc::Rc<std::sync::Mutex<Option<Disposer>>> =
        std::rc::Rc::new(std::sync::Mutex::new(None));
    let effect = Effect::new(rt, host, thunk({
        let dispose = dispose.clone();
        move |rt, host| {
            let current = watched.get(rt, host);
            if !fire_immediately && *version.lock().unwrap() == 0 {
                *prev_value.lock().unwrap() = Some(current.clone());
            }
            *version.lock().unwrap() += 1;
            if equals(&current, prev_value.lock().unwrap().as_ref().unwrap()) {
                return;
            }
            let old_value = prev_value.lock().unwrap().replace(current.clone());
            untracked(rt, {
                let scheduler = std::rc::Rc::clone(&scheduler);
                let effect_fn = effect_fn.clone();
                let version = version.clone();
                let dispose = dispose.clone();
                move |rt: &mut Rt| {
                    scheduler(rt, host, Box::new(move |rt, host| {
                        effect_fn(rt, host, &current, old_value.as_ref());
                        if once {
                            if (fire_immediately && *version.lock().unwrap() > 1)
                                || (!fire_immediately && *version.lock().unwrap() > 0)
                            {
                                let taken = dispose.lock().unwrap().take();
                                if let Some(dispose) = taken {
                                    dispose(rt);
                                }
                            }
                        }
                    }));
                }
            });
        }
    }));
    *dispose.lock().unwrap() = Some(Box::new(move |rt: &mut Rt| {
        effect.dispose(rt);
    }));

    move |rt: &mut Rt| {
        let taken = dispose.lock().unwrap().take();
        if let Some(dispose) = taken {
            dispose(rt);
        }
    }
}

fn untracked<T>(rt: &mut Rt, callback: impl FnOnce(&mut Rt) -> T) -> T {
    let current_sub = set_active_sub(rt, None);
    let result = callback(rt);
    set_active_sub(rt, current_sub);
    result
}
