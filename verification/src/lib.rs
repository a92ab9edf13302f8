//! A push-pull reactive runtime: signals that are written to, computeds that
//! are derived from them lazily, and effects that run again when what they
//! read has changed.
//!
//! The state is a [`Runtime`]; the code of the computeds and effects is held
//! by a [`Host`]. A write to a signal marks what depends on it; a read of a
//! computed evaluates it only if one of its dependencies, followed to the
//! signals, has in fact a new value.

use vstd::prelude::*;
use std::marker::PhantomData;
use crate::graph::Graph;

pub mod flags;
pub mod graph;
pub mod edges;
pub mod release;
pub mod propagation;
pub mod consequences;
pub mod tracking;
pub mod runtime;
pub mod evaluation;
pub mod access;
pub mod laws;

pub use crate::flags::Flags;
pub use crate::runtime::{
    ComputedContext, EffectContext, Host, Node, NodeContext, NodeKind, Runtime, SignalContext,
};

verus! {

/// A value that can be written to.
pub struct Signal<V> {
    pub node: Node,
    pub marker: PhantomData<V>,
}

impl<V> Clone for Signal<V> {
    fn clone(&self) -> (r: Self)
        ensures
            r == *self,
    {
        Signal { node: self.node, marker: PhantomData }
    }
}

impl<V> Copy for Signal<V> {

}

impl<V: Clone + PartialEq> Signal<V> {
    /// A signal that holds `init`, with `==` for its equality.
    pub fn new(rt: &mut Runtime<V>, init: V) -> (s: Signal<V>)
        requires
            old(rt).inv(),
        ensures
            final(rt).inv(),
            old(rt).precedes(final(rt)),
            final(rt).is_signal(s.node),
            s.node.id == old(rt).contexts().len(),
            exists|current: V|
                #[trigger] cloned(init, current) && final(rt).contexts() == old(rt).contexts().push(
                    NodeContext::Signal(
                        SignalContext { current_value: current, pending_value: init, custom_eq: false },
                    ),
                ),
            final(rt).graph().adopted(
                &old(rt).graph(),
                Flags::spec_mutable(),
                old(rt).graph().sys.active_sub,
            ),
            final(rt).flags_of(s.node) == Flags::spec_mutable(),
            final(rt).graph().deps_of(s.node.id as int).len() == 0,
            final(rt).graph().subs_of(s.node.id as int).len() == 0,
    {
        proof {
            rt.lemma_inv();
        }
        let current_value = init.clone();
        let ghost current = current_value;
        let node = rt.add_node(
            Flags::mutable(),
            NodeContext::Signal(
                SignalContext { current_value, pending_value: init, custom_eq: false },
            ),
        );
        proof {
            rt.lemma_inv();
            assert(cloned(init, current));
        }
        Signal { node, marker: PhantomData }
    }

    /// A signal that holds `init`, with `eq_fn` for its equality.
    pub fn new_with_eq_fn<H: Host<V>>(rt: &mut Runtime<V>, host: &H, init: V, eq_fn: H::Equality) -> (s:
        Signal<V>)
        requires
            old(rt).inv(),
        ensures
            final(rt).inv(),
            old(rt).precedes(final(rt)),
            final(rt).is_signal(s.node),
            s.node.id == old(rt).contexts().len(),
            exists|current: V|
                #[trigger] cloned(init, current) && final(rt).contexts() == old(rt).contexts().push(
                    NodeContext::Signal(
                        SignalContext { current_value: current, pending_value: init, custom_eq: true },
                    ),
                ),
            final(rt).graph().adopted(
                &old(rt).graph(),
                Flags::spec_mutable(),
                old(rt).graph().sys.active_sub,
            ),
            final(rt).flags_of(s.node) == Flags::spec_mutable(),
            final(rt).graph().deps_of(s.node.id as int).len() == 0,
            final(rt).graph().subs_of(s.node.id as int).len() == 0,
    {
        proof {
            rt.lemma_inv();
        }
        let current_value = init.clone();
        let ghost current = current_value;
        let node = rt.add_node(
            Flags::mutable(),
            NodeContext::Signal(
                SignalContext { current_value, pending_value: init, custom_eq: true },
            ),
        );
        host.bind_equality(node, eq_fn);
        proof {
            rt.lemma_inv();
            assert(cloned(init, current));
        }
        Signal { node, marker: PhantomData }
    }

    /// Reads the signal, and records the read with the subscriber under
    /// evaluation. Returns a copy of the value written last.
    pub fn get<H: Host<V>>(&self, rt: &mut Runtime<V>, host: &H) -> (value: V)
        requires
            old(rt).inv(),
            old(rt).is_signal(self.node),
        ensures
            final(rt).active_sub() == old(rt).active_sub(),
            final(rt).inv(),
            old(rt).precedes(final(rt)),
            final(rt).cycle() == old(rt).cycle(),
            cloned(final(rt).signal_values(self.node).0, value),
            exists|mid: Graph, changed: bool| #[trigger]
                final(rt).read_as(host, old(rt), self.node, mid, changed),
    {
        let r = rt.read_signal(host, self.node);
        proof {
            assert(rt.read_as(host, old(rt), self.node, r.1@.0, r.1@.1));
        }
        r.0
    }

    /// Writes `value` to the signal. If it differs from the value written
    /// last, what depends on the signal is marked, and outside a batch the
    /// effects among it run.
    pub fn set<H: Host<V>>(&self, rt: &mut Runtime<V>, host: &H, value: V)
        requires
            old(rt).inv(),
            old(rt).is_signal(self.node),
        ensures
            final(rt).active_sub() == old(rt).active_sub(),
            final(rt).inv(),
            old(rt).precedes(final(rt)),
            exists|same: bool| #[trigger] final(rt).wrote(host, old(rt), self.node, value, same),
    {
        let same = rt.write_signal(host, self.node, value);
        proof {
            assert(rt.wrote(host, old(rt), self.node, value, same@));
        }
    }

    /// Writes to the signal what `f` makes of its current value.
    pub fn set_with<H: Host<V>, F: FnOnce(&V) -> V>(&self, rt: &mut Runtime<V>, host: &H, f: F)
        requires
            old(rt).inv(),
            old(rt).is_signal(self.node),
            call_requires(f, (&old(rt).signal_values(self.node).0,)),
        ensures
            final(rt).active_sub() == old(rt).active_sub(),
            final(rt).inv(),
            old(rt).precedes(final(rt)),
            exists|value: V, same: bool|
                call_ensures(f, (&old(rt).signal_values(self.node).0,), value)
                    && #[trigger] final(rt).wrote(host, old(rt), self.node, value, same),
    {
        let value = rt.map_current(self.node, f);
        let ghost written = value;
        let same = rt.write_signal(host, self.node, value);
        proof {
            assert(rt.wrote(host, old(rt), self.node, written, same@));
        }
    }

    /// Writes to the signal a copy of its current value that `f` has
    /// changed.
    pub fn update<H: Host<V>, F: FnOnce(&mut V)>(&self, rt: &mut Runtime<V>, host: &H, f: F)
        requires
            old(rt).inv(),
            old(rt).is_signal(self.node),
            forall|v: &mut V|
                cloned(old(rt).signal_values(self.node).0, *v) ==> call_requires(f, (v,)),
        ensures
            final(rt).active_sub() == old(rt).active_sub(),
            final(rt).inv(),
            old(rt).precedes(final(rt)),
            exists|v: &mut V, same: bool|
                cloned(old(rt).signal_values(self.node).0, *v) && call_ensures(f, (v,), ())
                    && #[trigger] final(rt).wrote(host, old(rt), self.node, *final(v), same),
    {
        let mut value = rt.current_clone(self.node);
        f(&mut value);
        let ghost written = value;
        let same = rt.write_signal(host, self.node, value);
        proof {
            assert(rt.wrote(host, old(rt), self.node, written, same@));
        }
    }
}

/// A value that is derived from others, evaluated when it is read and what
/// it was derived from has changed.
pub struct Computed<V> {
    pub node: Node,
    pub marker: PhantomData<V>,
}

impl<V> Clone for Computed<V> {
    fn clone(&self) -> (r: Self)
        ensures
            r == *self,
    {
        Computed { node: self.node, marker: PhantomData }
    }
}

impl<V> Copy for Computed<V> {

}

impl<V: Clone + PartialEq> Computed<V> {
    /// A computed with `getter` for its code and `==` for its equality. It
    /// is not evaluated before it is read.
    pub fn new<H: Host<V>>(rt: &mut Runtime<V>, host: &H, getter: H::Getter) -> (c: Computed<V>)
        requires
            old(rt).inv(),
        ensures
            final(rt).inv(),
            old(rt).precedes(final(rt)),
            final(rt).is_computed(c.node),
            c.node.id == old(rt).contexts().len(),
            final(rt).contexts() == old(rt).contexts().push(
                NodeContext::Computed(ComputedContext { value: None, custom_eq: false }),
            ),
            final(rt).graph().adopted(
                &old(rt).graph(),
                Flags::spec_none(),
                old(rt).graph().sys.active_sub,
            ),
            final(rt).flags_of(c.node) == Flags::spec_none(),
            final(rt).graph().deps_of(c.node.id as int).len() == 0,
            final(rt).graph().subs_of(c.node.id as int).len() == 0,
            final(rt).readable(c.node),
    {
        proof {
            rt.lemma_inv();
        }
        let node = rt.add_node(
            Flags::none(),
            NodeContext::Computed(ComputedContext { value: None, custom_eq: false }),
        );
        host.bind_getter(node, getter);
        proof {
            rt.lemma_inv();
        }
        Computed { node, marker: PhantomData }
    }

    /// A computed with `getter` for its code and `eq_fn` for its equality.
    pub fn new_with_eq<H: Host<V>>(
        rt: &mut Runtime<V>,
        host: &H,
        getter: H::Getter,
        eq_fn: H::Equality,
    ) -> (c: Computed<V>)
        requires
            old(rt).inv(),
        ensures
            final(rt).inv(),
            old(rt).precedes(final(rt)),
            final(rt).is_computed(c.node),
            c.node.id == old(rt).contexts().len(),
            final(rt).contexts() == old(rt).contexts().push(
                NodeContext::Computed(ComputedContext { value: None, custom_eq: true }),
            ),
            final(rt).graph().adopted(
                &old(rt).graph(),
                Flags::spec_none(),
                old(rt).graph().sys.active_sub,
            ),
            final(rt).flags_of(c.node) == Flags::spec_none(),
            final(rt).graph().deps_of(c.node.id as int).len() == 0,
            final(rt).graph().subs_of(c.node.id as int).len() == 0,
            final(rt).readable(c.node),
    {
        proof {
            rt.lemma_inv();
        }
        let node = rt.add_node(
            Flags::none(),
            NodeContext::Computed(ComputedContext { value: None, custom_eq: true }),
        );
        host.bind_getter(node, getter);
        host.bind_equality(node, eq_fn);
        proof {
            rt.lemma_inv();
        }
        Computed { node, marker: PhantomData }
    }

    /// Reads the computed, and records the read with the subscriber under
    /// evaluation. Returns a copy of its value, which is evaluated anew
    /// where that is due.
    pub fn get<H: Host<V>>(&self, rt: &mut Runtime<V>, host: &H) -> (value: V)
        requires
            old(rt).inv(),
            old(rt).is_computed(self.node),
            old(rt).readable(self.node),
            old(rt).checkable(self.node),
        ensures
            final(rt).active_sub() == old(rt).active_sub(),
            final(rt).inv(),
            old(rt).precedes(final(rt)),
            final(rt).cached(self.node).is_some(),
            cloned(final(rt).cached(self.node).unwrap(), value),
            exists|valued: Runtime<V>| #[trigger] final(rt).read_from(host, old(rt), &valued, self.node),
    {
        rt.read_computed(host, self.node)
    }
}

/// A subscriber that runs its thunk when it is made, and again whenever what
/// the thunk read has changed.
pub struct Effect {
    pub node: Node,
}

impl Effect {
    /// Makes an effect with `f` for its thunk, attaches it to the subscriber
    /// under evaluation if there is one, and runs the thunk once.
    pub fn new<V: Clone + PartialEq, H: Host<V>>(rt: &mut Runtime<V>, host: &H, f: H::Thunk) -> (e:
        Effect)
        requires
            old(rt).inv(),
        ensures
            final(rt).inv(),
            old(rt).precedes(final(rt)),
            final(rt).is_effect(e.node),
            e.node.id == old(rt).contexts().len(),
            final(rt).active_sub() == old(rt).active_sub(),
            !final(rt).flags_of(e.node).recursed_check,
            exists|begun: Runtime<V>, ran: Runtime<V>| #[trigger]
                final(rt).made_effect(host, old(rt), &begun, &ran),
    {
        proof {
            rt.lemma_inv();
            rt.unfold();
        }
        let node = rt.add_node(
            Flags::watching() | Flags::recursed_check(),
            NodeContext::Effect(EffectContext { runs: Ghost(1) }),
        );
        host.bind_thunk(node, f);
        proof {
            rt.unfold();
        }
        let prev_sub = rt.graph.set_active_sub(Some(node.id));
        let ghost added = rt.graph;
        match prev_sub {
            Some(prev) => {
                rt.graph.link(node.id, prev, 0);
            },
            None => {},
        }
        let ghost begun = *rt;
        proof {
            rt.unfold();
            old(rt).unfold();
            assert(old(rt).precedes(&begun));
            assert(added.adopted(
                &old(rt).graph,
                Flags::spec_running(),
                Some(old(rt).graph.nodes.len()),
            ));
        }
        host.run(rt, node);
        let ghost ran = *rt;
        proof {
            rt.unfold();
            old(rt).lemma_precedes_trans(&begun, &ran);
        }
        rt.graph.resume(node.id, prev_sub);
        proof {
            rt.unfold();
            assert(ran.precedes(rt));
            old(rt).lemma_precedes_trans(&ran, rt);
            assert(rt.made_effect(host, old(rt), &begun, &ran));
        }
        Effect { node }
    }

    /// Puts the effect to rest: it lets go of what it read, leaves the
    /// subscriber that it was attached to, and does not run again. On an
    /// effect that is at rest already this does nothing.
    pub fn dispose<V>(self, rt: &mut Runtime<V>)
        requires
            old(rt).inv(),
            old(rt).has(self.node),
        ensures
            final(rt).active_sub() == old(rt).active_sub(),
            final(rt).inv(),
            old(rt).precedes(final(rt)),
            final(rt).contexts() == old(rt).contexts(),
            final(rt).graph().disposed(&old(rt).graph(), self.node.id as int),
            final(rt).graph().shrunk(&old(rt).graph(), self.node.id as int),
            final(rt).graph().dep_lists@[self.node.id as int].len() == 0,
            final(rt).flags_of(self.node) == Flags::spec_none(),
            old(rt).graph().sub_lists@[self.node.id as int].len() <= 1 ==> final(rt).graph().at_rest(
                self.node.id as int,
            ),
            old(rt).graph().at_rest(self.node.id as int) ==> final(rt).graph().same(&old(rt).graph()),
    {
        rt.release(self.node);
    }
}

/// A subscriber without work of its own: the effects and scopes that are made
/// while its setup runs are attached to it, and are put to rest with it.
pub struct EffectScope {
    pub node: Node,
}

impl EffectScope {
    /// Makes a scope, attaches it to the subscriber under evaluation if there
    /// is one, and runs `f` with the scope as the subscriber under
    /// evaluation.
    pub fn new<V: Clone + PartialEq, H: Host<V>, F: FnOnce(&mut Runtime<V>, &H)>(
        rt: &mut Runtime<V>,
        host: &H,
        f: F,
    ) -> (scope: EffectScope)
        requires
            old(rt).inv(),
            forall|r: &mut Runtime<V>| r.inv() ==> call_requires(f, (r, host)),
            forall|r: &mut Runtime<V>, u: ()|
                call_ensures(f, (r, host), u) ==> final(r).inv() && r.precedes(final(r)),
        ensures
            final(rt).inv(),
            old(rt).precedes(final(rt)),
            final(rt).is_scope(scope.node),
            scope.node.id == old(rt).contexts().len(),
            final(rt).active_sub() == old(rt).active_sub(),
            exists|begun: Runtime<V>, ran: Runtime<V>, handed: &mut Runtime<V>|
                {
                    &&& *handed == begun
                    &&& *final(handed) == ran
                    &&& #[trigger] call_ensures(f, (handed, host), ())
                    &&& #[trigger] final(rt).made_scope(old(rt), &begun, &ran)
                },
    {
        proof {
            rt.lemma_inv();
            rt.unfold();
        }
        let node = rt.add_node(Flags::none(), NodeContext::Scope);
        proof {
            rt.unfold();
        }
        let prev_sub = rt.graph.set_active_sub(Some(node.id));
        let ghost added = rt.graph;
        match prev_sub {
            Some(prev) => {
                rt.graph.link(node.id, prev, 0);
            },
            None => {},
        }
        let ghost begun = *rt;
        proof {
            rt.unfold();
            old(rt).unfold();
            assert(old(rt).precedes(&begun));
            assert(added.adopted(
                &old(rt).graph,
                Flags::spec_none(),
                Some(old(rt).graph.nodes.len()),
            ));
        }
        f(rt, host);
        let ghost ran = *rt;
        proof {
            rt.unfold();
            old(rt).lemma_precedes_trans(&begun, &ran);
        }
        rt.graph.set_active_sub(prev_sub);
        proof {
            rt.unfold();
            assert(ran.precedes(rt));
            old(rt).lemma_precedes_trans(&ran, rt);
            assert(rt.made_scope(old(rt), &begun, &ran));
        }
        EffectScope { node }
    }

    /// Puts the scope to rest, and with it the effects and scopes that are
    /// attached to it and to nothing else. On a scope that is at rest
    /// already this does nothing.
    pub fn dispose<V>(self, rt: &mut Runtime<V>)
        requires
            old(rt).inv(),
            old(rt).has(self.node),
        ensures
            final(rt).active_sub() == old(rt).active_sub(),
            final(rt).inv(),
            old(rt).precedes(final(rt)),
            final(rt).contexts() == old(rt).contexts(),
            final(rt).graph().disposed(&old(rt).graph(), self.node.id as int),
            final(rt).graph().shrunk(&old(rt).graph(), self.node.id as int),
            final(rt).graph().dep_lists@[self.node.id as int].len() == 0,
            final(rt).flags_of(self.node) == Flags::spec_none(),
            old(rt).graph().sub_lists@[self.node.id as int].len() <= 1 ==> final(rt).graph().at_rest(
                self.node.id as int,
            ),
            old(rt).graph().at_rest(self.node.id as int) ==> final(rt).graph().same(&old(rt).graph()),
    {
        rt.release(self.node);
    }
}

/// Marks what depends on the signals and computeds that `f` reads, as if
/// each of them had a new value, and runs the effects among it unless a batch
/// is open.
pub fn trigger<V: Clone + PartialEq, H: Host<V>, F: FnOnce(&mut Runtime<V>, &H)>(
    rt: &mut Runtime<V>,
    host: &H,
    f: F,
)
    requires
        old(rt).inv(),
        forall|r: &mut Runtime<V>| r.inv() ==> call_requires(f, (r, host)),
        forall|r: &mut Runtime<V>, u: ()|
            call_ensures(f, (r, host), u) ==> final(r).inv() && r.precedes(final(r)),
    ensures
        final(rt).inv(),
        old(rt).precedes(final(rt)),
        final(rt).active_sub() == old(rt).active_sub(),
        exists|begun: Runtime<V>, ran: Runtime<V>, marked: Runtime<V>, handed: &mut Runtime<V>|
            {
                &&& *handed == begun
                &&& *final(handed) == ran
                &&& #[trigger] call_ensures(f, (handed, host), ())
                &&& #[trigger] final(rt).triggered(host, old(rt), &begun, &ran, &marked)
            },
{
    proof {
        rt.lemma_inv();
        rt.unfold();
    }
    let sub = rt.add_node(Flags::watching(), NodeContext::Scope);
    proof {
        rt.unfold();
    }
    let prev_sub = rt.graph.set_active_sub(Some(sub.id));
    let ghost begun = *rt;
    proof {
        rt.unfold();
        old(rt).unfold();
        assert(old(rt).precedes(&begun));
    }
    f(rt, host);
    let ghost ran = *rt;
    proof {
        rt.unfold();
        old(rt).unfold();
        old(rt).lemma_precedes_trans(&begun, &ran);
    }
    rt.graph.set_active_sub(prev_sub);
    let ghost reset = rt.graph;
    proof {
        rt.unfold();
        assert(rt.graph.collected(sub.id as int) =~= ran.graph.collected(sub.id as int));
    }
    rt.invalidate_collected(sub);
    let ghost marked = *rt;
    proof {
        rt.unfold();
        assert(ran.precedes(&marked));
        old(rt).lemma_precedes_trans(&ran, &marked);
    }
    if rt.get_batch_depth() == 0 {
        rt.flush(host);
        proof {
            old(rt).lemma_precedes_trans(&marked, rt);
        }
    }
    proof {
        assert(reset.same_records(&ran.graph()));
        assert(marked.graph().scattered(&reset, old(rt).contexts().len() as int));
        assert(rt.triggered(host, old(rt), &begun, &ran, &marked));
    }
}

/// Opens a batch: until it is closed, writes mark what depends on them but
/// run no effect.
pub fn start_batch<V>(rt: &mut Runtime<V>)
    requires
        old(rt).inv(),
        old(rt).batch_depth() < usize::MAX,
    ensures
        final(rt).inv(),
        old(rt).precedes(final(rt)),
        final(rt).batch_depth() == old(rt).batch_depth() + 1,
        final(rt).contexts() == old(rt).contexts(),
        final(rt).graph().same_records(&old(rt).graph()),
        final(rt).queue() == old(rt).queue(),
        final(rt).cycle() == old(rt).cycle(),
        final(rt).active_sub() == old(rt).active_sub(),
{
    proof {
        rt.unfold();
    }
    let depth = rt.graph.sys.batch_depth;
    rt.graph.set_batch_depth(depth + 1);
    proof {
        rt.unfold();
    }
}

/// Closes a batch, and runs the queued effects if it was the outermost.
pub fn end_batch<V: Clone + PartialEq, H: Host<V>>(rt: &mut Runtime<V>, host: &H)
    requires
        old(rt).inv(),
        old(rt).batch_depth() > 0,
    ensures
        final(rt).active_sub() == old(rt).active_sub(),
        final(rt).inv(),
        old(rt).precedes(final(rt)),
        old(rt).batch_depth() == 1 ==> exists|closed: Runtime<V>|
            {
                &&& closed.inv()
                &&& closed.contexts() == old(rt).contexts()
                &&& closed.graph().same_records(&old(rt).graph())
                &&& closed.queue() == old(rt).queue()
                &&& closed.cycle() == old(rt).cycle()
                &&& closed.active_sub() == old(rt).active_sub()
                &&& closed.batch_depth() == 0
                &&& #[trigger] final(rt).flushed(host, &closed)
            },
        old(rt).batch_depth() > 1 ==> {
            &&& final(rt).batch_depth() == old(rt).batch_depth() - 1
            &&& final(rt).contexts() == old(rt).contexts()
            &&& final(rt).graph().same_records(&old(rt).graph())
            &&& final(rt).queue() == old(rt).queue()
            &&& final(rt).cycle() == old(rt).cycle()
            &&& final(rt).active_sub() == old(rt).active_sub()
        },
{
    proof {
        rt.unfold();
    }
    let depth = rt.graph.sys.batch_depth - 1;
    rt.graph.set_batch_depth(depth);
    let ghost closed = *rt;
    proof {
        rt.unfold();
        assert(old(rt).precedes(&closed));
    }
    if depth == 0 {
        rt.flush(host);
        proof {
            old(rt).lemma_precedes_trans(&closed, rt);
            assert(rt.flushed(host, &closed));
        }
    }
}

/// How deep the batches are nested.
pub fn get_batch_depth<V>(rt: &Runtime<V>) -> (depth: usize)
    ensures
        depth == rt.batch_depth(),
{
    rt.get_batch_depth()
}

/// Makes `sub` the subscriber that reads are attributed to; none suspends
/// the recording of reads. Returns the one that was.
pub fn set_active_sub<V>(rt: &mut Runtime<V>, sub: Option<Node>) -> (prev: Option<Node>)
    requires
        old(rt).inv(),
        match sub {
            Some(n) => old(rt).has(n),
            None => true,
        },
    ensures
        final(rt).inv(),
        old(rt).precedes(final(rt)),
        prev == old(rt).active_sub(),
        final(rt).active_sub() == sub,
        final(rt).contexts() == old(rt).contexts(),
        final(rt).graph().same_records(&old(rt).graph()),
        final(rt).queue() == old(rt).queue(),
        final(rt).cycle() == old(rt).cycle(),
        final(rt).batch_depth() == old(rt).batch_depth(),
{
    proof {
        rt.unfold();
    }
    let inner = match sub {
        Some(n) => Some(n.id),
        None => None,
    };
    let prev = rt.graph.set_active_sub(inner);
    proof {
        rt.unfold();
    }
    match prev {
        Some(id) => Some(Node { id }),
        None => None,
    }
}

/// The subscriber that reads are attributed to.
pub fn get_active_sub<V>(rt: &Runtime<V>) -> (sub: Option<Node>)
    requires
        rt.inv(),
    ensures
        sub == rt.active_sub(),
        sub.is_some() ==> rt.has(sub.unwrap()),
{
    rt.get_active_sub()
}

impl Node {
    /// The marks of the node.
    pub fn flags<V>(&self, rt: &Runtime<V>) -> (flags: Flags)
        requires
            rt.inv(),
            rt.has(*self),
        ensures
            flags == rt.flags_of(*self),
    {
        proof {
            rt.unfold();
        }
        rt.graph.nodes[self.id].flags
    }

    /// Gives the node the marks `flags`.
    pub fn set_flags<V>(&self, rt: &mut Runtime<V>, flags: Flags)
        requires
            old(rt).inv(),
            old(rt).has(*self),
        ensures
            final(rt).inv(),
            old(rt).precedes(final(rt)),
            final(rt).contexts() == old(rt).contexts(),
            final(rt).graph().reflagged(&old(rt).graph(), self.id as int, flags),
    {
        proof {
            rt.unfold();
        }
        rt.graph.set_flags(self.id, flags);
        proof {
            rt.unfold();
        }
    }

    /// Gives the node the marks that `f` makes of its marks.
    pub fn update_flags<V, F: FnOnce(&mut Flags)>(&self, rt: &mut Runtime<V>, f: F)
        requires
            old(rt).inv(),
            old(rt).has(*self),
            forall|flags: &mut Flags|
                *flags == old(rt).flags_of(*self) ==> call_requires(f, (flags,)),
        ensures
            final(rt).inv(),
            old(rt).precedes(final(rt)),
            final(rt).contexts() == old(rt).contexts(),
            exists|flags: &mut Flags|
                *flags == old(rt).flags_of(*self) && call_ensures(f, (flags,), ())
                    && #[trigger] final(rt).graph().reflagged(
                    &old(rt).graph(),
                    self.id as int,
                    *final(flags),
                ),
    {
        let mut flags = self.flags(rt);
        f(&mut flags);
        self.set_flags(rt, flags);
    }

    /// Sets the marks of `flags_to_add` on the node.
    pub fn add_flags<V>(&self, rt: &mut Runtime<V>, flags_to_add: Flags)
        requires
            old(rt).inv(),
            old(rt).has(*self),
        ensures
            final(rt).inv(),
            old(rt).precedes(final(rt)),
            final(rt).contexts() == old(rt).contexts(),
            final(rt).graph().reflagged(
                &old(rt).graph(),
                self.id as int,
                old(rt).flags_of(*self).join(flags_to_add),
            ),
    {
        let flags = self.flags(rt);
        self.set_flags(rt, flags | flags_to_add);
    }

    /// Clears the marks of `flags_to_remove` on the node.
    pub fn remove_flags<V>(&self, rt: &mut Runtime<V>, flags_to_remove: Flags)
        requires
            old(rt).inv(),
            old(rt).has(*self),
        ensures
            final(rt).inv(),
            old(rt).precedes(final(rt)),
            final(rt).contexts() == old(rt).contexts(),
            final(rt).graph().reflagged(
                &old(rt).graph(),
                self.id as int,
                old(rt).flags_of(*self).without(flags_to_remove),
            ),
    {
        let flags = self.flags(rt);
        self.set_flags(rt, flags.difference(flags_to_remove));
    }
}

} // verus!
