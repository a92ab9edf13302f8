use alien_signals::{
    end_batch, get_active_sub, get_batch_depth, start_batch, Computed, Effect, EffectScope, Flags,
    Host, Node, Runtime, Signal,
};
use std::cell::RefCell;
use std::collections::HashMap;
use std::rc::Rc;

type Rt = Runtime<Val>;
type Getter = Rc<dyn Fn(&mut Rt, &Table, Option<&Val>) -> Val>;
type Thunk = Rc<dyn Fn(&mut Rt, &Table)>;
type Equality = Rc<dyn Fn(&Val, &Val) -> bool>;

/// Holds the closures of the nodes, by node.
struct Table {
    getters: RefCell<HashMap<usize, Getter>>,
    thunks: RefCell<HashMap<usize, Thunk>>,
    equalities: RefCell<HashMap<usize, Equality>>,
}

impl Table {
    fn new() -> Self {
        Table {
            getters: RefCell::new(HashMap::new()),
            thunks: RefCell::new(HashMap::new()),
            equalities: RefCell::new(HashMap::new()),
        }
    }
}

impl Host<Val> for Table {
    type Getter = Getter;
    type Thunk = Thunk;
    type Equality = Equality;

    fn bind_getter(&self, node: Node, getter: Getter) {
        self.getters.borrow_mut().insert(node.id, getter);
    }

    fn bind_thunk(&self, node: Node, thunk: Thunk) {
        self.thunks.borrow_mut().insert(node.id, thunk);
    }

    fn bind_equality(&self, node: Node, equality: Equality) {
        self.equalities.borrow_mut().insert(node.id, equality);
    }

    fn compute(&self, rt: &mut Rt, node: Node, previous: Option<&Val>) -> Val {
        let getter = self.getters.borrow().get(&node.id).cloned().unwrap();
        getter(rt, self, previous)
    }

    fn run(&self, rt: &mut Rt, node: Node) {
        let thunk = self.thunks.borrow().get(&node.id).cloned();
        if let Some(thunk) = thunk {
            thunk(rt, self);
        }
    }

    fn equates(&self, node: Node, a: Val, b: Val) -> bool {
        self.same(node, &a, &b)
    }

    fn same(&self, node: Node, a: &Val, b: &Val) -> bool {
        let equality = self.equalities.borrow().get(&node.id).cloned().unwrap();
        equality(a, b)
    }
}

#[allow(dead_code)]
fn getter(f: impl Fn(&mut Rt, &Table, Option<&Val>) -> Val + 'static) -> Getter {
    Rc::new(f)
}

#[allow(dead_code)]
fn thunk(f: impl Fn(&mut Rt, &Table) + 'static) -> Thunk {
    Rc::new(f)
}

#[allow(dead_code)]
fn equality(f: impl Fn(&Val, &Val) -> bool + 'static) -> Equality {
    Rc::new(f)
}

type Val = i32;

fn counter() -> Rc<RefCell<usize>> {
    Rc::new(RefCell::new(0))
}

#[test]
fn flags_combine_mark_by_mark() {
    let stale = Flags::mutable() | Flags::dirty();
    assert!(stale.mutable && stale.dirty);
    assert!(!stale.watching && !stale.recursed_check && !stale.recursed && !stale.pending);
    assert_eq!(stale & Flags::dirty(), Flags::dirty());
    assert_eq!(stale & Flags::pending(), Flags::none());
    assert_eq!(!Flags::none() & Flags::pending(), Flags::pending());
    assert_eq!(!stale & stale, Flags::none());
    assert_eq!(stale.difference(Flags::dirty()), Flags::mutable());
    assert_eq!(Flags::watching().difference(Flags::pending()), Flags::watching());
    assert!((stale & Flags::watching()).is_zero());
    assert!(stale.is_nonzero());
    assert!(Flags::none().is_zero());
    assert!(!Flags::none().is_nonzero());
    assert!(Flags::recursed().recursed && Flags::recursed_check().recursed_check);
}

#[test]
fn a_new_runtime_is_empty() {
    let rt = Rt::new();
    assert_eq!(get_batch_depth(&rt), 0);
    assert!(get_active_sub(&rt).is_none());
    assert_eq!(rt.queued(), 0);
}

#[test]
fn every_dependency_is_a_subscription() {
    let mut rt = Rt::new();
    let host = Table::new();
    let a = Signal::new(&mut rt, 1);
    let b = Computed::new(&mut rt, &host, getter(move |rt, host, _| a.get(rt, host) + 1));
    let c = Computed::new(
        &mut rt,
        &host,
        getter(move |rt, host, _| a.get(rt, host) + b.get(rt, host)),
    );
    let e = Effect::new(&mut rt, &host, thunk(move |rt, host| {
        let _ = c.get(rt, host);
        let _ = a.get(rt, host);
    }));

    assert_eq!(rt.dependencies(b.node), vec![a.node]);
    assert_eq!(rt.dependencies(c.node), vec![a.node, b.node]);
    assert_eq!(rt.dependencies(e.node), vec![c.node, a.node]);
    assert_eq!(rt.subscribers(a.node), vec![c.node, b.node, e.node]);
    assert_eq!(rt.subscribers(b.node), vec![c.node]);
    assert_eq!(rt.subscribers(c.node), vec![e.node]);

    let nodes = [a.node, b.node, c.node, e.node];
    for n in nodes {
        for d in rt.dependencies(n) {
            assert!(rt.subscribers(d).contains(&n));
        }
        for s in rt.subscribers(n) {
            assert!(rt.dependencies(s).contains(&n));
        }
    }
}

#[test]
fn a_dependency_read_twice_is_recorded_once() {
    let mut rt = Rt::new();
    let host = Table::new();
    let a = Signal::new(&mut rt, 1);
    let b = Signal::new(&mut rt, 2);
    let c = Computed::new(&mut rt, &host, getter(move |rt, host, _| {
        a.get(rt, host) + a.get(rt, host) + b.get(rt, host) + a.get(rt, host)
    }));

    assert_eq!(c.get(&mut rt, &host), 5);
    assert_eq!(rt.dependencies(c.node), vec![a.node, b.node]);

    a.set(&mut rt, &host, 10);
    assert_eq!(c.get(&mut rt, &host), 32);
    assert_eq!(rt.dependencies(c.node), vec![a.node, b.node]);
    assert_eq!(rt.subscribers(a.node), vec![c.node]);
}

#[test]
fn a_read_behind_another_subscriber_is_recorded_twice() {
    let mut rt = Rt::new();
    let host = Table::new();
    let a = Signal::new(&mut rt, 1);
    let b = Signal::new(&mut rt, 2);
    let x = Computed::new(&mut rt, &host, getter(move |rt, host, _| {
        a.get(rt, host) + b.get(rt, host) + a.get(rt, host)
    }));
    let y = Computed::new(&mut rt, &host, getter(move |rt, host, _| a.get(rt, host)));

    assert_eq!(x.get(&mut rt, &host), 4);
    assert_eq!(rt.dependencies(x.node), vec![a.node, b.node]);
    assert_eq!(y.get(&mut rt, &host), 1);

    a.set(&mut rt, &host, 3);
    assert_eq!(x.get(&mut rt, &host), 8);
    assert_eq!(rt.dependencies(x.node), vec![a.node, b.node, a.node]);
    assert_eq!(rt.subscribers(a.node), vec![x.node, y.node, x.node]);
}

#[test]
fn dependencies_that_are_no_longer_read_are_let_go_of() {
    let mut rt = Rt::new();
    let host = Table::new();
    let flag = Signal::new(&mut rt, 1);
    let a = Signal::new(&mut rt, 10);
    let b = Signal::new(&mut rt, 20);
    let c = Computed::new(&mut rt, &host, getter(move |rt, host, _| {
        if flag.get(rt, host) > 0 {
            a.get(rt, host)
        } else {
            b.get(rt, host)
        }
    }));

    assert_eq!(c.get(&mut rt, &host), 10);
    assert_eq!(rt.dependencies(c.node), vec![flag.node, a.node]);
    assert_eq!(rt.subscribers(b.node), vec![]);

    flag.set(&mut rt, &host, 0);
    assert_eq!(c.get(&mut rt, &host), 20);
    assert_eq!(rt.dependencies(c.node), vec![flag.node, b.node]);
    assert_eq!(rt.subscribers(a.node), vec![]);
    assert_eq!(rt.subscribers(b.node), vec![c.node]);
}

#[test]
fn an_effect_is_spared_when_its_signal_is_written_back() {
    let mut rt = Rt::new();
    let host = Table::new();
    let a = Signal::new(&mut rt, 0);
    let runs = counter();
    let e = Effect::new(&mut rt, &host, thunk({
        let runs = runs.clone();
        move |rt, host| {
            *runs.borrow_mut() += 1;
            let _ = a.get(rt, host);
        }
    }));
    assert_eq!(*runs.borrow(), 1);

    start_batch(&mut rt);
    a.set(&mut rt, &host, 1);
    assert_eq!(rt.queued(), 1);
    assert!(e.node.flags(&rt).pending);
    a.set(&mut rt, &host, 0);
    end_batch(&mut rt, &host);

    assert_eq!(*runs.borrow(), 1);
    assert_eq!(rt.queued(), 0);
    assert_eq!(e.node.flags(&rt), Flags::watching());
    assert_eq!(a.node.flags(&rt), Flags::mutable());
}

#[test]
fn a_computed_is_spared_when_its_signal_is_written_back() {
    let mut rt = Rt::new();
    let host = Table::new();
    let a = Signal::new(&mut rt, 0);
    let runs = counter();
    let c = Computed::new(&mut rt, &host, getter({
        let runs = runs.clone();
        move |rt, host, _| {
            *runs.borrow_mut() += 1;
            a.get(rt, host) * 2
        }
    }));
    assert_eq!(c.get(&mut rt, &host), 0);
    a.set(&mut rt, &host, 7);
    assert!(c.node.flags(&rt).pending);
    a.set(&mut rt, &host, 0);
    assert_eq!(c.get(&mut rt, &host), 0);
    assert_eq!(*runs.borrow(), 1);
    assert_eq!(c.node.flags(&rt), Flags::mutable());
}

#[test]
fn what_depends_on_an_unchanged_computed_is_spared() {
    let mut rt = Rt::new();
    let host = Table::new();
    let a = Signal::new(&mut rt, 1);
    let parity = Computed::new(&mut rt, &host, getter(move |rt, host, _| a.get(rt, host) % 2));
    let runs = counter();
    Effect::new(&mut rt, &host, thunk({
        let runs = runs.clone();
        move |rt, host| {
            *runs.borrow_mut() += 1;
            let _ = parity.get(rt, host);
        }
    }));
    assert_eq!(*runs.borrow(), 1);
    a.set(&mut rt, &host, 3);
    assert_eq!(*runs.borrow(), 1);
    a.set(&mut rt, &host, 4);
    assert_eq!(*runs.borrow(), 2);
}

#[test]
fn disposing_an_effect_twice_changes_nothing() {
    let mut rt = Rt::new();
    let host = Table::new();
    let a = Signal::new(&mut rt, 0);
    let runs = counter();
    let e = Effect::new(&mut rt, &host, thunk({
        let runs = runs.clone();
        move |rt, host| {
            *runs.borrow_mut() += 1;
            let _ = a.get(rt, host);
        }
    }));
    let node = e.node;
    assert_eq!(rt.dependencies(node), vec![a.node]);
    assert_eq!(rt.subscribers(a.node), vec![node]);

    e.dispose(&mut rt);
    assert_eq!(node.flags(&rt), Flags::none());
    assert_eq!(rt.dependencies(node), vec![]);
    assert_eq!(rt.subscribers(a.node), vec![]);

    Effect { node }.dispose(&mut rt);
    assert_eq!(node.flags(&rt), Flags::none());
    assert_eq!(rt.dependencies(node), vec![]);
    assert_eq!(rt.subscribers(a.node), vec![]);

    a.set(&mut rt, &host, 1);
    assert_eq!(*runs.borrow(), 1);
}

#[test]
fn disposing_a_scope_twice_changes_nothing() {
    let mut rt = Rt::new();
    let host = Table::new();
    let a = Signal::new(&mut rt, 0);
    let runs = counter();
    let inner = Rc::new(RefCell::new(None));
    let scope = EffectScope::new(&mut rt, &host, {
        let runs = runs.clone();
        let inner = inner.clone();
        move |rt: &mut Rt, host: &Table| {
            let e = Effect::new(rt, host, thunk({
                let runs = runs.clone();
                move |rt, host| {
                    *runs.borrow_mut() += 1;
                    let _ = a.get(rt, host);
                }
            }));
            *inner.borrow_mut() = Some(e.node);
        }
    });
    let node = scope.node;
    let effect = inner.borrow().unwrap();
    assert_eq!(rt.dependencies(node), vec![effect]);
    assert_eq!(rt.subscribers(effect), vec![node]);

    scope.dispose(&mut rt);
    assert_eq!(rt.dependencies(node), vec![]);
    assert_eq!(rt.dependencies(effect), vec![]);
    assert_eq!(rt.subscribers(a.node), vec![]);
    assert_eq!(effect.flags(&rt), Flags::none());

    EffectScope { node }.dispose(&mut rt);
    Effect { node: effect }.dispose(&mut rt);
    assert_eq!(rt.dependencies(node), vec![]);
    assert_eq!(rt.dependencies(effect), vec![]);
    assert_eq!(node.flags(&rt), Flags::none());

    a.set(&mut rt, &host, 1);
    assert_eq!(*runs.borrow(), 1);
}

#[test]
fn a_computed_without_subscribers_lets_go_of_its_dependencies() {
    let mut rt = Rt::new();
    let host = Table::new();
    let a = Signal::new(&mut rt, 1);
    let b = Computed::new(&mut rt, &host, getter(move |rt, host, _| a.get(rt, host) + 1));
    let e = Effect::new(&mut rt, &host, thunk(move |rt, host| {
        let _ = b.get(rt, host);
    }));
    assert_eq!(rt.subscribers(a.node), vec![b.node]);

    e.dispose(&mut rt);
    assert_eq!(rt.subscribers(b.node), vec![]);
    assert_eq!(rt.dependencies(b.node), vec![]);
    assert_eq!(rt.subscribers(a.node), vec![]);
    assert_eq!(b.node.flags(&rt), Flags::mutable() | Flags::dirty());
    assert_eq!(b.get(&mut rt, &host), 2);
}

#[test]
fn batches_nest() {
    let mut rt = Rt::new();
    let host = Table::new();
    let a = Signal::new(&mut rt, 0);
    let seen = Rc::new(RefCell::new(vec![]));
    Effect::new(&mut rt, &host, thunk({
        let seen = seen.clone();
        move |rt, host| seen.borrow_mut().push(a.get(rt, host))
    }));

    start_batch(&mut rt);
    assert_eq!(get_batch_depth(&rt), 1);
    start_batch(&mut rt);
    assert_eq!(get_batch_depth(&rt), 2);
    a.set(&mut rt, &host, 1);
    a.set(&mut rt, &host, 2);
    end_batch(&mut rt, &host);
    assert_eq!(get_batch_depth(&rt), 1);
    assert_eq!(*seen.borrow(), vec![0]);
    assert_eq!(rt.queued(), 1);
    end_batch(&mut rt, &host);
    assert_eq!(get_batch_depth(&rt), 0);
    assert_eq!(*seen.borrow(), vec![0, 2]);
    assert_eq!(rt.queued(), 0);
}

#[test]
fn a_trigger_in_a_batch_waits_for_its_end() {
    let mut rt = Rt::new();
    let host = Table::new();
    let a = Signal::new(&mut rt, 0);
    let runs = counter();
    Effect::new(&mut rt, &host, thunk({
        let runs = runs.clone();
        move |rt, host| {
            *runs.borrow_mut() += 1;
            let _ = a.get(rt, host);
        }
    }));

    start_batch(&mut rt);
    alien_signals::trigger(&mut rt, &host, move |rt: &mut Rt, host: &Table| {
        let _ = a.get(rt, host);
    });
    assert_eq!(*runs.borrow(), 1);
    assert_eq!(rt.queued(), 1);
    end_batch(&mut rt, &host);
    assert_eq!(*runs.borrow(), 2);
}

#[test]
fn a_signal_compares_by_the_equality_that_it_was_given() {
    let mut rt = Rt::new();
    let host = Table::new();
    let a = Signal::new_with_eq_fn(&mut rt, &host, 1, equality(|x, y| x.abs() == y.abs()));
    let runs = counter();
    Effect::new(&mut rt, &host, thunk({
        let runs = runs.clone();
        move |rt, host| {
            *runs.borrow_mut() += 1;
            let _ = a.get(rt, host);
        }
    }));

    a.set(&mut rt, &host, -1);
    assert_eq!(*runs.borrow(), 1);
    assert_eq!(a.get(&mut rt, &host), 1);
    a.set(&mut rt, &host, 2);
    assert_eq!(*runs.borrow(), 2);
    assert_eq!(a.get(&mut rt, &host), 2);
}

#[test]
fn a_computed_compares_by_the_equality_that_it_was_given() {
    let mut rt = Rt::new();
    let host = Table::new();
    let a = Signal::new(&mut rt, 1);
    let tens = Computed::new_with_eq(
        &mut rt,
        &host,
        getter(move |rt, host, _| a.get(rt, host)),
        equality(|x, y| x / 10 == y / 10),
    );
    let runs = counter();
    let last = Computed::new(&mut rt, &host, getter({
        let runs = runs.clone();
        move |rt, host, _| {
            *runs.borrow_mut() += 1;
            tens.get(rt, host)
        }
    }));

    assert_eq!(last.get(&mut rt, &host), 1);
    a.set(&mut rt, &host, 5);
    assert_eq!(last.get(&mut rt, &host), 1);
    assert_eq!(*runs.borrow(), 1);
    a.set(&mut rt, &host, 15);
    assert_eq!(last.get(&mut rt, &host), 15);
    assert_eq!(*runs.borrow(), 2);
}

#[test]
fn a_getter_is_given_the_value_before() {
    let mut rt = Rt::new();
    let host = Table::new();
    let a = Signal::new(&mut rt, 1);
    let sum = Computed::new(&mut rt, &host, getter(move |rt, host, previous| {
        a.get(rt, host) + previous.copied().unwrap_or(100)
    }));
    assert_eq!(sum.get(&mut rt, &host), 101);
    a.set(&mut rt, &host, 2);
    assert_eq!(sum.get(&mut rt, &host), 103);
}

#[test]
fn set_with_and_update_write_what_the_closure_makes() {
    let mut rt = Rt::new();
    let host = Table::new();
    let a = Signal::new(&mut rt, 20);
    let double = Computed::new(&mut rt, &host, getter(move |rt, host, _| a.get(rt, host) * 2));
    assert_eq!(double.get(&mut rt, &host), 40);

    a.set_with(&mut rt, &host, |v: &Val| v + 1);
    assert_eq!(a.get(&mut rt, &host), 21);
    assert_eq!(double.get(&mut rt, &host), 42);

    a.update(&mut rt, &host, |v: &mut Val| *v *= 2);
    assert_eq!(a.get(&mut rt, &host), 42);
    assert_eq!(double.get(&mut rt, &host), 84);
}

#[test]
fn the_marks_of_a_node_can_be_read_and_set() {
    let mut rt = Rt::new();
    let a = Signal::new(&mut rt, 0);
    let node = a.node;
    assert_eq!(node.flags(&rt), Flags::mutable());
    node.add_flags(&mut rt, Flags::pending() | Flags::recursed());
    assert_eq!(node.flags(&rt), Flags::mutable() | Flags::pending() | Flags::recursed());
    node.remove_flags(&mut rt, Flags::recursed() | Flags::dirty());
    assert_eq!(node.flags(&rt), Flags::mutable() | Flags::pending());
    node.update_flags(&mut rt, |f: &mut Flags| *f = *f & Flags::mutable());
    assert_eq!(node.flags(&rt), Flags::mutable());
    node.set_flags(&mut rt, Flags::mutable() | Flags::dirty());
    assert_eq!(node.flags(&rt), Flags::mutable() | Flags::dirty());
    let copy = a.clone();
    assert_eq!(copy.node, node);
}

#[test]
fn reads_are_attributed_to_the_node_under_evaluation() {
    let mut rt = Rt::new();
    let host = Table::new();
    let seen = Rc::new(RefCell::new(None));
    let e = Effect::new(&mut rt, &host, thunk({
        let seen = seen.clone();
        move |rt, _| *seen.borrow_mut() = get_active_sub(rt)
    }));
    assert_eq!(*seen.borrow(), Some(e.node));
    assert!(get_active_sub(&rt).is_none());
    assert!(!e.node.flags(&rt).recursed_check);
    assert!(e.node.flags(&rt).watching);
}

#[test]
fn a_read_in_a_scope_is_attributed_to_the_effect_above() {
    let mut rt = Rt::new();
    let host = Table::new();
    let a = Signal::new(&mut rt, 0);
    let inner = Rc::new(RefCell::new(None));
    let e = Effect::new(&mut rt, &host, thunk({
        let inner = inner.clone();
        move |rt, host| {
            let scope = EffectScope::new(rt, host, move |rt: &mut Rt, host: &Table| {
                let _ = a.get(rt, host);
            });
            *inner.borrow_mut() = Some(scope.node);
        }
    }));
    let scope = inner.borrow().unwrap();
    assert_eq!(rt.dependencies(scope), vec![]);
    assert_eq!(rt.dependencies(e.node), vec![scope, a.node]);
    assert_eq!(rt.subscribers(a.node), vec![e.node]);
}

#[test]
fn an_effect_above_is_queued_but_runs_only_if_it_read_the_signal() {
    let mut rt = Rt::new();
    let host = Table::new();
    let a = Signal::new(&mut rt, 0);
    let order = Rc::new(RefCell::new(vec![]));
    let outer = Effect::new(&mut rt, &host, thunk({
        let order = order.clone();
        move |rt, host| {
            order.borrow_mut().push("outer");
            Effect::new(rt, host, thunk({
                let order = order.clone();
                move |rt, host| {
                    order.borrow_mut().push("inner");
                    let _ = a.get(rt, host);
                }
            }));
        }
    }));
    order.borrow_mut().clear();
    start_batch(&mut rt);
    a.set(&mut rt, &host, 1);
    assert_eq!(rt.queued(), 2);
    assert!(!outer.node.flags(&rt).watching);
    end_batch(&mut rt, &host);
    assert_eq!(*order.borrow(), vec!["inner"]);
    assert_eq!(outer.node.flags(&rt), Flags::watching());
}

#[test]
fn queued_effects_run_the_outermost_first() {
    let mut rt = Rt::new();
    let host = Table::new();
    let a = Signal::new(&mut rt, 0);
    let order = Rc::new(RefCell::new(vec![]));
    Effect::new(&mut rt, &host, thunk({
        let order = order.clone();
        move |rt, host| {
            order.borrow_mut().push("outer");
            Effect::new(rt, host, thunk({
                let order = order.clone();
                move |rt, host| {
                    order.borrow_mut().push("inner");
                    let _ = a.get(rt, host);
                }
            }));
            let _ = a.get(rt, host);
        }
    }));
    assert_eq!(*order.borrow(), vec!["outer", "inner"]);
    order.borrow_mut().clear();
    a.set(&mut rt, &host, 1);
    assert_eq!(*order.borrow(), vec!["outer", "inner"]);
}

#[test]
fn a_value_found_equal_to_the_current_one_is_not_taken_over() {
    let mut rt = Rt::new();
    let host = Table::new();
    let a = Signal::new_with_eq_fn(&mut rt, &host, 1, equality(|x, y| x.abs() == y.abs()));
    let runs = counter();
    Effect::new(&mut rt, &host, thunk({
        let runs = runs.clone();
        move |rt, host| {
            *runs.borrow_mut() += 1;
            let _ = a.get(rt, host);
        }
    }));

    start_batch(&mut rt);
    a.set(&mut rt, &host, 2);
    a.set(&mut rt, &host, -1);
    assert!(a.node.flags(&rt).dirty);
    end_batch(&mut rt, &host);

    assert_eq!(*runs.borrow(), 1);
    assert_eq!(a.get(&mut rt, &host), 1);
    assert_eq!(a.node.flags(&rt), Flags::mutable());
}

#[test]
fn a_queued_node_that_is_no_effect_is_passed_over() {
    let mut rt = Rt::new();
    let host = Table::new();
    let a = Signal::new(&mut rt, 1);
    let runs = counter();
    let c = Computed::new(&mut rt, &host, getter({
        let runs = runs.clone();
        move |rt, host, _| {
            *runs.borrow_mut() += 1;
            a.get(rt, host) + 1
        }
    }));
    assert_eq!(c.get(&mut rt, &host), 2);
    c.node.add_flags(&mut rt, Flags::watching());

    start_batch(&mut rt);
    a.set(&mut rt, &host, 5);
    assert_eq!(rt.queued(), 1);
    end_batch(&mut rt, &host);

    assert_eq!(rt.queued(), 0);
    assert_eq!(*runs.borrow(), 1);
    assert_eq!(rt.dependencies(c.node), vec![a.node]);
    assert_eq!(c.get(&mut rt, &host), 6);
    assert_eq!(*runs.borrow(), 2);
}

#[test]
fn the_accessors_tell_what_a_node_is() {
    let mut rt = Rt::new();
    let host = Table::new();
    let a = Signal::new(&mut rt, 1);
    let c = Computed::new(&mut rt, &host, getter(move |rt, host, _| a.get(rt, host)));
    let e = Effect::new(&mut rt, &host, thunk(|_, _| {}));
    let s = EffectScope::new(&mut rt, &host, |_: &mut Rt, _: &Table| {});

    assert_eq!(rt.kind(a.node), alien_signals::NodeKind::Signal);
    assert_eq!(rt.kind(c.node), alien_signals::NodeKind::Computed);
    assert_eq!(rt.kind(e.node), alien_signals::NodeKind::Effect);
    assert_eq!(rt.kind(s.node), alien_signals::NodeKind::Scope);
    assert!(rt.contains(s.node));
    assert!(!rt.contains(Node { id: 4 }));
    assert!(!rt.has_value(c.node));
    assert_eq!(rt.evaluations(), 0);
    assert_eq!(c.get(&mut rt, &host), 1);
    assert!(rt.has_value(c.node));
    a.set(&mut rt, &host, 2);
    assert_eq!(c.get(&mut rt, &host), 2);
    assert_eq!(rt.evaluations(), 1);
}

/// A signal, a computed of it whose value never changes, and a computed of
/// that, all evaluated once; then the signal written to and written back.
fn written_back(rt: &mut Rt, host: &Table, runs: &Rc<RefCell<usize>>) -> (Node, Node, Node) {
    let a = Signal::new(rt, 1);
    let b = Computed::new(rt, host, getter({
        let runs = runs.clone();
        move |rt, host, _| {
            *runs.borrow_mut() += 1;
            a.get(rt, host) * 0
        }
    }));
    let c = Computed::new(rt, host, getter(move |rt, host, _| b.get(rt, host) + 1));
    assert_eq!(c.get(rt, host), 1);
    assert_eq!(*runs.borrow(), 1);
    start_batch(rt);
    a.set(rt, host, 2);
    a.set(rt, host, 1);
    end_batch(rt, host);
    assert_eq!(a.node.flags(rt), Flags::mutable() | Flags::dirty());
    assert_eq!(b.node.flags(rt), Flags::mutable() | Flags::pending());
    assert_eq!(c.node.flags(rt), Flags::mutable() | Flags::pending());
    (a.node, b.node, c.node)
}

#[test]
fn a_validation_asks_the_dependencies_of_a_pending_computed_first() {
    let mut rt = Rt::new();
    let host = Table::new();
    let runs = counter();
    let (a, b, c) = written_back(&mut rt, &host, &runs);
    let counted = rt.evaluations();

    assert!(!rt.check_dirty(&host, 1, c));

    assert_eq!(*runs.borrow(), 1);
    assert_eq!(a.flags(&rt), Flags::mutable());
    assert_eq!(b.flags(&rt), Flags::mutable());
    assert_eq!(c.flags(&rt), Flags::mutable() | Flags::pending());
    assert_eq!(rt.evaluations(), counted);
}

#[test]
fn a_validation_ends_at_once_where_the_subscriber_is_dirty() {
    let mut rt = Rt::new();
    let host = Table::new();
    let runs = counter();
    let (a, b, c) = written_back(&mut rt, &host, &runs);
    c.add_flags(&mut rt, Flags::dirty());

    assert!(rt.check_dirty(&host, 1, c));

    assert_eq!(*runs.borrow(), 1);
    assert_eq!(a.flags(&rt), Flags::mutable() | Flags::dirty());
    assert_eq!(b.flags(&rt), Flags::mutable() | Flags::pending());
}

#[test]
fn draw_brings_a_dependency_up_to_date_and_tells_of_a_new_value() {
    let mut rt = Rt::new();
    let host = Table::new();
    let a = Signal::new(&mut rt, 1);
    start_batch(&mut rt);
    a.set(&mut rt, &host, 2);
    assert_eq!(a.node.flags(&rt), Flags::mutable() | Flags::dirty());

    assert!(rt.draw(&host, a.node, true));
    assert_eq!(a.node.flags(&rt), Flags::mutable());
    assert_eq!(rt.current_clone(a.node), 2);

    a.set(&mut rt, &host, 3);
    a.set(&mut rt, &host, 2);
    assert!(!rt.draw(&host, a.node, true));
    assert_eq!(a.node.flags(&rt), Flags::mutable());
    assert_eq!(rt.current_clone(a.node), 2);
    end_batch(&mut rt, &host);
}

#[test]
fn draw_makes_a_dependency_that_was_validated_pending_no_longer() {
    let mut rt = Rt::new();
    let host = Table::new();
    let runs = counter();
    let (_, b, _) = written_back(&mut rt, &host, &runs);

    assert!(!rt.draw(&host, b, false));

    assert_eq!(b.flags(&rt), Flags::mutable());
    assert_eq!(*runs.borrow(), 1);
}

#[test]
fn a_validation_leaves_a_node_without_a_value_as_it_is() {
    let mut rt = Rt::new();
    let host = Table::new();
    let runs = counter();
    let made = Rc::new(RefCell::new(None));
    let parent = Computed::new(&mut rt, &host, getter({
        let runs = runs.clone();
        let made = made.clone();
        move |rt, host, _| {
            let e = Effect::new(rt, host, thunk({
                let runs = runs.clone();
                move |_, _| *runs.borrow_mut() += 1
            }));
            *made.borrow_mut() = Some(e.node);
            7
        }
    }));
    assert_eq!(parent.get(&mut rt, &host), 7);
    let child = made.borrow().unwrap();
    assert_eq!(rt.dependencies(parent.node), vec![child]);
    child.add_flags(&mut rt, Flags::mutable() | Flags::dirty());
    let marks = child.flags(&rt);
    let counted = rt.evaluations();

    assert!(!rt.check_dirty(&host, 0, parent.node));

    assert_eq!(child.flags(&rt), marks);
    assert_eq!(*runs.borrow(), 1);
    assert_eq!(rt.evaluations(), counted);
}

#[test]
fn a_pending_computed_is_pending_no_longer_once_it_is_read_and_spared() {
    let mut rt = Rt::new();
    let host = Table::new();
    let runs = counter();
    let (a, b, c) = written_back(&mut rt, &host, &runs);

    assert_eq!(Computed::<Val> { node: c, marker: std::marker::PhantomData }.get(&mut rt, &host), 1);

    assert_eq!(*runs.borrow(), 1);
    assert_eq!(a.flags(&rt), Flags::mutable());
    assert_eq!(b.flags(&rt), Flags::mutable());
    assert_eq!(c.flags(&rt), Flags::mutable());
}

#[test]
fn a_queued_effect_that_is_pending_without_dependencies_is_passed_over() {
    let mut rt = Rt::new();
    let host = Table::new();
    let a = Signal::new(&mut rt, 1);
    let runs = counter();
    let e = Effect::new(&mut rt, &host, thunk({
        let runs = runs.clone();
        move |rt, host| {
            *runs.borrow_mut() += 1;
            let _ = a.get(rt, host);
        }
    }));
    assert_eq!(*runs.borrow(), 1);

    start_batch(&mut rt);
    a.set(&mut rt, &host, 2);
    assert_eq!(rt.queued(), 1);
    let node = e.node;
    e.dispose(&mut rt);
    assert_eq!(rt.dependencies(node), vec![]);
    node.add_flags(&mut rt, Flags::pending());
    end_batch(&mut rt, &host);

    assert_eq!(rt.queued(), 0);
    assert_eq!(*runs.borrow(), 1);
    assert_eq!(node.flags(&rt), Flags::pending());
}
