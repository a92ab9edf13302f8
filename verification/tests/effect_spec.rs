use alien_signals::{
    end_batch, get_active_sub, set_active_sub, start_batch, Computed, Effect, EffectScope, Flags, Host,
    Node, Runtime, Signal,
};
use std::cell::RefCell;
use std::collections::HashMap;
use std::rc::Rc;

type Rt = Runtime<Val>;
type Getter = Rc<dyn Fn(&mut Rt, &Table, Option<&Val>) -> Val>;
type Thunk = Rc<dyn Fn(&mut Rt, &Table)>;
type Equality = Rc<dyn Fn(&Val, &Val) -> bool>;

/// Holds the closures of the nodes, by node.
struct Table {
    getters: RefCell<HashMap<usize, Getter>>,
    thunks: RefCell<HashMap<usize, Thunk>>,
    equalities: RefCell<HashMap<usize, Equality>>,
}

impl Table {
    fn new() -> Self {
        Table {
            getters: RefCell::new(HashMap::new()),
            thunks: RefCell::new(HashMap::new()),
            equalities: RefCell::new(HashMap::new()),
        }
    }
}

impl Host<Val> for Table {
    type Getter = Getter;
    type Thunk = Thunk;
    type Equality = Equality;

    fn bind_getter(&self, node: Node, getter: Getter) {
        self.getters.borrow_mut().insert(node.id, getter);
    }

    fn bind_thunk(&self, node: Node, thunk: Thunk) {
        self.thunks.borrow_mut().insert(node.id, thunk);
    }

    fn bind_equality(&self, node: Node, equality: Equality) {
        self.equalities.borrow_mut().insert(node.id, equality);
    }

    fn compute(&self, rt: &mut Rt, node: Node, previous: Option<&Val>) -> Val {
        let getter = self.getters.borrow().get(&node.id).cloned().unwrap();
        getter(rt, self, previous)
    }

    fn run(&self, rt: &mut Rt, node: Node) {
        let thunk = self.thunks.borrow().get(&node.id).cloned();
        if let Some(thunk) = thunk {
            thunk(rt, self);
        }
    }

    fn equates(&self, node: Node, a: Val, b: Val) -> bool {
        self.same(node, &a, &b)
    }

    fn same(&self, node: Node, a: &Val, b: &Val) -> bool {
        let equality = self.equalities.borrow().get(&node.id).cloned().unwrap();
        equality(a, b)
    }
}

#[allow(dead_code)]
fn getter(f: impl Fn(&mut Rt, &Table, Option<&Val>) -> Val + 'static) -> Getter {
    Rc::new(f)
}

#[allow(dead_code)]
fn thunk(f: impl Fn(&mut Rt, &Table) + 'static) -> Thunk {
    Rc::new(f)
}

#[allow(dead_code)]
fn equality(f: impl Fn(&Val, &Val) -> bool + 'static) -> Equality {
    Rc::new(f)
}

/// The values of these graphs.
#[derive(Clone, PartialEq, Debug)]
enum Val {
    Int(i32),
    Bool(bool),
    Unit,
}

impl Val {
    fn as_int(self) -> i32 {
        match self {
            Val::Int(i) => i,
            _ => panic!("not an integer"),
        }
    }

    fn as_bool(self) -> bool {
        match self {
            Val::Bool(b) => b,
            _ => panic!("not a boolean"),
        }
    }
}

#[test]
fn should_clear_subscription_when_untracked_by_all_subscribers() {
    let b_run_times = std::rc::Rc::new(std::sync::Mutex::new(0));

    let mut rt = Rt::new();
    let host = Table::new();
    let a = Signal::new(&mut rt, Val::Int(0));
    let b = Computed::new(&mut rt, &host, getter({
        let b_run_times = b_run_times.clone();
        move |rt, host, _| {
            *b_run_times.lock().unwrap() += 1;
            Val::Int(a.get(rt, host).as_int() * 2)
        }
    }));
    let effect = Effect::new(&mut rt, &host, thunk(move |rt, host| {
        println!("[effect] b: {}", b.get(rt, host).as_int());
    }));

    assert_eq!(*b_run_times.lock().unwrap(), 1);
    a.set(&mut rt, &host, Val::Int(2));
    assert_eq!(*b_run_times.lock().unwrap(), 2);
    effect.dispose(&mut rt);
    a.set(&mut rt, &host, Val::Int(3));
    assert_eq!(*b_run_times.lock().unwrap(), 2);
}

#[test]
fn should_not_run_untracked_inner_effect() {
    let mut rt = Rt::new();
    let host = Table::new();
    let a = Signal::new(&mut rt, Val::Int(3));
    let b = Computed::new(
        &mut rt,
        &host,
        getter(move |rt, host, _| Val::Bool(a.get(rt, host).as_int() > 0)),
    );
    Effect::new(&mut rt, &host, thunk(move |rt, host| {
        if b.get(rt, host).as_bool() {
            Effect::new(rt, host, thunk(move |rt, host| {
                if a.get(rt, host).as_int() == 0 {
                    panic!("bad");
                }
            }));
        }
    }));

    a.set(&mut rt, &host, Val::Int(2));
    a.set(&mut rt, &host, Val::Int(1));
    a.set(&mut rt, &host, Val::Int(0));
}

#[test]
fn should_run_outer_effect_first() {
    let mut rt = Rt::new();
    let host = Table::new();
    let a = Signal::new(&mut rt, Val::Int(1));
    let b = Signal::new(&mut rt, Val::Int(1));

    Effect::new(&mut rt, &host, thunk(move |rt, host| {
        if a.get(rt, host).as_int() > 0 {
            Effect::new(rt, host, thunk(move |rt, host| {
                let _ = b.get(rt, host);
                if a.get(rt, host).as_int() == 0 {
                    panic!("bad");
                }
            }));
        }
    }));

    start_batch(&mut rt);
    b.set(&mut rt, &host, Val::Int(0));
    a.set(&mut rt, &host, Val::Int(0));
    end_batch(&mut rt, &host);
}

#[test]
fn should_not_trigger_inner_effect_when_resolve_maybe_dirty() {
    let mut rt = Rt::new();
    let host = Table::new();
    let a = Signal::new(&mut rt, Val::Int(0));
    let b = Computed::new(
        &mut rt,
        &host,
        getter(move |rt, host, _| Val::Int(a.get(rt, host).as_int() % 2)),
    );

    let inner_trigger_times = std::rc::Rc::new(std::sync::Mutex::new(0));

    Effect::new(&mut rt, &host, thunk(move |rt, host| {
        let inner_trigger_times = inner_trigger_times.clone();
        Effect::new(rt, host, thunk(move |rt, host| {
            let _ = b.get(rt, host);
            *inner_trigger_times.lock().unwrap() += 1;
            if *inner_trigger_times.lock().unwrap() >= 2 {
                panic!("bad");
            }
        }));
    }));

    a.set(&mut rt, &host, Val::Int(2));
}

#[test]
fn should_notify_inner_effects_in_the_same_order_as_non_inner_effects() {
    let mut rt = Rt::new();
    let host = Table::new();
    let a = Signal::new(&mut rt, Val::Int(0));
    let b = Signal::new(&mut rt, Val::Int(0));
    let c = Computed::new(
        &mut rt,
        &host,
        getter(move |rt, host, _| Val::Int(a.get(rt, host).as_int() - b.get(rt, host).as_int())),
    );
    let order1 = std::rc::Rc::new(std::sync::Mutex::new(vec![]));
    let order2 = std::rc::Rc::new(std::sync::Mutex::new(vec![]));
    let order3 = std::rc::Rc::new(std::sync::Mutex::new(vec![]));

    Effect::new(&mut rt, &host, thunk({
        let order1 = order1.clone();
        move |rt, host| {
            order1.lock().unwrap().push("effect1");
            let _ = a.get(rt, host);
        }
    }));
    Effect::new(&mut rt, &host, thunk({
        let order1 = order1.clone();
        move |rt, host| {
            order1.lock().unwrap().push("effect2");
            let _ = a.get(rt, host);
            let _ = b.get(rt, host);
        }
    }));

    let _ = c.get(&mut rt, &host);
    Effect::new(&mut rt, &host, {
        let order2 = order2.clone();
        thunk(move |rt, host| {
            Effect::new(rt, host, thunk({
                let order2 = order2.clone();
                move |rt, host| {
                    order2.lock().unwrap().push("effect1");
                    let _ = a.get(rt, host);
                }
            }));
            Effect::new(rt, host, thunk({
                let order2 = order2.clone();
                move |rt, host| {
                    order2.lock().unwrap().push("effect2");
                    let _ = a.get(rt, host);
                    let _ = b.get(rt, host);
                }
            }));
        })
    });

    EffectScope::new(&mut rt, &host, {
        let order3 = order3.clone();
        move |rt: &mut Rt, host: &Table| {
            Effect::new(rt, host, thunk({
                let order3 = order3.clone();
                move |rt, host| {
                    order3.lock().unwrap().push("effect1");
                    let _ = a.get(rt, host);
                }
            }));
            Effect::new(rt, host, thunk({
                let order3 = order3.clone();
                move |rt, host| {
                    order3.lock().unwrap().push("effect2");
                    let _ = a.get(rt, host);
                    let _ = b.get(rt, host);
                }
            }));
        }
    });

    order1.lock().unwrap().clear();
    order2.lock().unwrap().clear();
    order3.lock().unwrap().clear();

    start_batch(&mut rt);
    b.set(&mut rt, &host, Val::Int(1));
    a.set(&mut rt, &host, Val::Int(1));
    end_batch(&mut rt, &host);

    assert_eq!(order1.lock().unwrap().as_slice(), ["effect2", "effect1"]);
    assert_eq!(order2.lock().unwrap().as_slice(), order1.lock().unwrap().as_slice());
    assert_eq!(order3.lock().unwrap().as_slice(), order1.lock().unwrap().as_slice());
}

#[test]
fn should_custom_effect_support_batch() {
    fn batch_effect<F: Fn(&mut Rt, &Table) + 'static>(rt: &mut Rt, host: &Table, f: F) -> Effect {
        Effect::new(rt, host, thunk(move |rt, host| {
            start_batch(rt);
            f(rt, host);
            end_batch(rt, host);
        }))
    }

    let logs = std::rc::Rc::new(std::sync::Mutex::new(vec![]));
    let mut rt = Rt::new();
    let host = Table::new();
    let a = Signal::new(&mut rt, Val::Int(0));
    let b = Signal::new(&mut rt, Val::Int(0));

    let aa = Computed::new(&mut rt, &host, getter({
        let logs = logs.clone();
        move |rt, host, _| {
            logs.lock().unwrap().push("aa-0");
            if a.get(rt, host).as_int() == 0 {
                b.set(rt, host, Val::Int(1));
            }
            logs.lock().unwrap().push("aa-1");
            Val::Unit
        }
    }));
    let bb = Computed::new(&mut rt, &host, getter({
        let logs = logs.clone();
        move |rt, host, _| {
            logs.lock().unwrap().push("bb");
            b.get(rt, host)
        }
    }));

    batch_effect(&mut rt, &host, move |rt, host| {
        let _ = bb.get(rt, host);
    });
    batch_effect(&mut rt, &host, move |rt, host| {
        let _ = aa.get(rt, host);
    });

    assert_eq!(logs.lock().unwrap().as_slice(), ["bb", "aa-0", "aa-1", "bb"]);
}

#[test]
fn should_duplicate_subscribers_do_not_affect_the_notify_order() {
    let mut rt = Rt::new();
    let host = Table::new();
    let src1 = Signal::new(&mut rt, Val::Int(0));
    let src2 = Signal::new(&mut rt, Val::Int(0));
    let order = std::rc::Rc::new(std::sync::Mutex::new(vec![]));

    Effect::new(&mut rt, &host, thunk({
        let order = order.clone();
        move |rt, host| {
            order.lock().unwrap().push("a");
            let current_sub = set_active_sub(rt, None);
            let is_one = src2.get(rt, host).as_int() == 1;
            set_active_sub(rt, current_sub);
            if is_one {
                let _ = src1.get(rt, host);
            }
            let _ = src2.get(rt, host);
            let _ = src1.get(rt, host);
        }
    }));
    Effect::new(&mut rt, &host, thunk({
        let order = order.clone();
        move |rt, host| {
            order.lock().unwrap().push("b");
            let _ = src1.get(rt, host);
        }
    }));
    src2.set(&mut rt, &host, Val::Int(1));

    order.lock().unwrap().clear();
    let next = src1.get(&mut rt, &host).as_int() + 1;
    src1.set(&mut rt, &host, Val::Int(next));

    assert_eq!(order.lock().unwrap().as_slice(), ["a", "b"]);
}

#[test]
fn should_handle_side_effect_with_inner_effects() {
    let mut rt = Rt::new();
    let host = Table::new();
    let a = Signal::new(&mut rt, Val::Int(0));
    let b = Signal::new(&mut rt, Val::Int(0));
    let order = std::rc::Rc::new(std::sync::Mutex::new(vec![]));

    Effect::new(&mut rt, &host, thunk({
        let order = order.clone();
        move |rt, host| {
            Effect::new(rt, host, thunk({
                let order = order.clone();
                move |rt, host| {
                    let _ = a.get(rt, host);
                    order.lock().unwrap().push("a");
                }
            }));
            Effect::new(rt, host, thunk({
                let order = order.clone();
                move |rt, host| {
                    let _ = b.get(rt, host);
                    order.lock().unwrap().push("b");
                }
            }));
            assert_eq!(order.lock().unwrap().as_slice(), ["a", "b"]);

            order.lock().unwrap().clear();
            b.set(rt, host, Val::Int(1));
            a.set(rt, host, Val::Int(1));
            assert_eq!(order.lock().unwrap().as_slice(), ["b", "a"]);
        }
    }));
}

#[test]
fn should_handle_flags_are_indirectly_updated_dyring_check_dirty() {
    let mut rt = Rt::new();
    let host = Table::new();
    let a = Signal::new(&mut rt, Val::Bool(false));
    let b = Computed::new(&mut rt, &host, getter(move |rt, host, _| a.get(rt, host)));
    let c = Computed::new(&mut rt, &host, getter(move |rt, host, _| {
        let _ = b.get(rt, host);
        Val::Int(0)
    }));
    let d = Computed::new(&mut rt, &host, getter(move |rt, host, _| {
        let _ = c.get(rt, host);
        b.get(rt, host)
    }));

    let triggers = std::rc::Rc::new(std::sync::Mutex::new(0));

    Effect::new(&mut rt, &host, thunk({
        let triggers = triggers.clone();
        move |rt, host| {
            let _ = d.get(rt, host);
            *triggers.lock().unwrap() += 1;
        }
    }));
    assert_eq!(*triggers.lock().unwrap(), 1);
    a.set(&mut rt, &host, Val::Bool(true));
    assert_eq!(*triggers.lock().unwrap(), 2);
}

#[test]
fn should_handle_effect_recursion_for_the_first_execution() {
    let mut rt = Rt::new();
    let host = Table::new();
    let src1 = Signal::new(&mut rt, Val::Int(0));
    let src2 = Signal::new(&mut rt, Val::Int(0));

    let triggers1 = std::rc::Rc::new(std::sync::Mutex::new(0));
    let triggers2 = std::rc::Rc::new(std::sync::Mutex::new(0));

    Effect::new(&mut rt, &host, thunk({
        let triggers1 = triggers1.clone();
        move |rt, host| {
            *triggers1.lock().unwrap() += 1;
            let next = i32::min(src1.get(rt, host).as_int() + 1, 5);
            src1.set(rt, host, Val::Int(next));
        }
    }));
    Effect::new(&mut rt, &host, thunk({
        let triggers2 = triggers2.clone();
        move |rt, host| {
            *triggers2.lock().unwrap() += 1;
            let next = i32::min(src2.get(rt, host).as_int() + 1, 5);
            src2.set(rt, host, Val::Int(next));
            let _ = src2.get(rt, host);
        }
    }));

    assert_eq!(*triggers1.lock().unwrap(), 1);
    assert_eq!(*triggers2.lock().unwrap(), 1);
}

#[test]
fn should_support_custom_recurse_effect() {
    let mut rt = Rt::new();
    let host = Table::new();
    let src = Signal::new(&mut rt, Val::Int(0));

    let triggers = std::rc::Rc::new(std::sync::Mutex::new(0));

    Effect::new(&mut rt, &host, thunk({
        let triggers = triggers.clone();
        move |rt, host| {
            get_active_sub(rt)
                .unwrap()
                .update_flags(rt, |f: &mut Flags| *f = *f & !Flags::recursed_check());
            *triggers.lock().unwrap() += 1;
            let next = i32::min(src.get(rt, host).as_int() + 1, 5);
            src.set(rt, host, Val::Int(next));
        }
    }));

    assert_eq!(*triggers.lock().unwrap(), 6);
}
