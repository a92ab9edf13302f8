//! The runtime: the dependency graph together with the values of its nodes,
//! and the host that holds the code of the computeds and effects.

use vstd::prelude::*;
use vstd::std_specs::cmp::PartialEqSpec;
use crate::flags::Flags;
use crate::graph::{Graph, NodeFields};

verus! {

/// What a signal owns.
pub struct SignalContext<V> {
    /// The value that readers get.
    pub current_value: V,
    /// The value written last; it becomes current at the next read.
    pub pending_value: V,
    /// Whether the host holds an equality of its own for this signal.
    pub custom_eq: bool,
}

/// What a computed owns.
pub struct ComputedContext<V> {
    /// The value of the last evaluation, if there was one.
    pub value: Option<V>,
    /// Whether the host holds an equality of its own for this computed.
    pub custom_eq: bool,
}

/// What an effect owns. Its thunk is kept by the host.
pub struct EffectContext {
    /// How often the thunk was started.
    pub runs: Ghost<nat>,
}

/// The payload of a node, by kind.
pub enum NodeContext<V> {
    Signal(SignalContext<V>),
    Computed(ComputedContext<V>),
    Effect(EffectContext),
    /// A scope: a subscriber without work of its own.
    Scope,
}

/// The kind of a node.
#[derive(Clone, Copy, PartialEq, Eq, Structural, Debug)]
pub enum NodeKind {
    Signal,
    Computed,
    Effect,
    Scope,
}

impl<V> NodeContext<V> {
    /// The kind of node that this is the payload of.
    pub open spec fn spec_kind(&self) -> NodeKind {
        match self {
            NodeContext::Signal(_) => NodeKind::Signal,
            NodeContext::Computed(_) => NodeKind::Computed,
            NodeContext::Effect(_) => NodeKind::Effect,
            NodeContext::Scope => NodeKind::Scope,
        }
    }

    /// The kind of node that this is the payload of.
    #[verifier::when_used_as_spec(spec_kind)]
    pub fn kind(&self) -> (k: NodeKind)
        ensures
            k == self.spec_kind(),
    {
        match self {
            NodeContext::Signal(_) => NodeKind::Signal,
            NodeContext::Computed(_) => NodeKind::Computed,
            NodeContext::Effect(_) => NodeKind::Effect,
            NodeContext::Scope => NodeKind::Scope,
        }
    }
}

/// A handle to a node of a runtime.
#[derive(Clone, Copy, PartialEq, Eq, Structural, Debug)]
pub struct Node {
    pub id: usize,
}

/// The graph with the values of its nodes.
pub struct Runtime<V> {
    pub(crate) graph: Graph,
    pub(crate) contexts: Vec<NodeContext<V>>,
}

/// The code of the computeds and effects of a runtime, and the equalities
/// that signals and computeds were given.
///
/// A runtime holds no code. Where a node is made with code of its own, the
/// runtime hands the code to the host; where the code of a node has to run,
/// the runtime asks the host. The code gets the runtime and may read, write
/// and make nodes as it likes: all that is asked of it is that it hands back
/// the runtime that it was given, in a state that `precedes` allows.
pub trait Host<V>: Sized {
    /// The code of a computed: from the runtime and the value of the last
    /// evaluation to the new value.
    type Getter;

    /// The code of an effect.
    type Thunk;

    /// An equality on values.
    type Equality;

    /// Keeps `getter` as the code of the computed `node`.
    fn bind_getter(&self, node: Node, getter: Self::Getter);

    /// Keeps `thunk` as the code of the effect `node`.
    fn bind_thunk(&self, node: Node, thunk: Self::Thunk);

    /// Keeps `equality` as the equality of the signal or computed `node`.
    fn bind_equality(&self, node: Node, equality: Self::Equality);

    /// Whether the code of the computed `node`, handed the runtime `before`
    /// and the value `previous`, may hand back the runtime `after` and the
    /// value `value`. A host says here what its getters do; one that says
    /// nothing admits every outcome.
    open spec fn computes(
        &self,
        before: Runtime<V>,
        after: Runtime<V>,
        node: Node,
        previous: Option<V>,
        value: V,
    ) -> bool {
        true
    }

    /// Whether the code of the effect `node`, handed the runtime `before`,
    /// may hand back the runtime `after`.
    open spec fn performs(&self, before: Runtime<V>, after: Runtime<V>, node: Node) -> bool {
        true
    }

    /// Whether `a` and `b` are equal by the equality that `node` was given.
    spec fn equates(&self, node: Node, a: V, b: V) -> bool;

    /// Runs the code of the computed `node`.
    fn compute(&self, rt: &mut Runtime<V>, node: Node, previous: Option<&V>) -> (value: V)
        requires
            old(rt).inv(),
        ensures
            final(rt).inv(),
            old(rt).precedes(final(rt)),
            self.computes(*old(rt), *final(rt), node, handed(previous), value),
    ;

    /// Runs the code of the effect `node`.
    fn run(&self, rt: &mut Runtime<V>, node: Node)
        requires
            old(rt).inv(),
        ensures
            final(rt).inv(),
            old(rt).precedes(final(rt)),
            self.performs(*old(rt), *final(rt), node),
    ;

    /// Applies the equality that `node` was given to `a` and `b`.
    fn same(&self, node: Node, a: &V, b: &V) -> (same: bool)
        ensures
            same == self.equates(node, *a, *b),
    ;
}

/// The value behind `previous`, if there is one.
pub open spec fn handed<V>(previous: Option<&V>) -> Option<V> {
    match previous {
        Some(p) => Some(*p),
        None => None,
    }
}

/// Adds a node with its payload.
fn allot<V>(
    graph: &mut Graph,
    contexts: &mut Vec<NodeContext<V>>,
    flags: Flags,
    context: NodeContext<V>,
) -> (n: usize)
    requires
        old(graph).wf(),
        old(contexts)@.len() == old(graph).nodes@.len(),
    ensures
        final(graph).wf(),
        final(contexts)@ == old(contexts)@.push(context),
        final(contexts)@.len() == final(graph).nodes@.len(),
        n == old(graph).node_count(),
        final(graph).nodes@ == old(graph).nodes@.push(
            NodeFields { flags, deps: None, deps_tail: None, subs: None, subs_tail: None },
        ),
        final(graph).links@ == old(graph).links@,
        final(graph).sys == old(graph).sys,
        final(graph).dep_lists@ == old(graph).dep_lists@.push(Seq::empty()),
        final(graph).sub_lists@ == old(graph).sub_lists@.push(Seq::empty()),
        final(graph).dep_pos@ == old(graph).dep_pos@,
        final(graph).sub_pos@ == old(graph).sub_pos@,
        final(graph).live@ == old(graph).live@,
{
    contexts.push(context);
    graph.add_node(flags)
}

impl<V> Runtime<V> {
    /// What holds of every runtime: its graph is well-formed, and every node
    /// has its payload.
    pub closed spec fn inv(&self) -> bool {
        &&& self.graph.wf()
        &&& self.contexts@.len() == self.graph.nodes@.len()
    }

    /// The dependency graph.
    pub closed spec fn graph(&self) -> Graph {
        self.graph
    }

    /// The payloads of the nodes.
    pub closed spec fn contexts(&self) -> Seq<NodeContext<V>> {
        self.contexts@
    }

    /// What the views of a runtime stand for.
    pub(crate) proof fn unfold(&self)
        ensures
            self.inv() == (self.graph.wf() && self.contexts@.len() == self.graph.nodes@.len()),
            self.graph() == self.graph,
            self.contexts() == self.contexts@,
    {
    }

    /// The graph of a runtime is well-formed, and every node has its payload.
    pub proof fn lemma_inv(&self)
        requires
            self.inv(),
        ensures
            self.graph().wf(),
            self.contexts().len() == self.graph().nodes@.len(),
    {
    }

    /// Whether `node` is a node of this runtime.
    pub open spec fn has(&self, node: Node) -> bool {
        node.id < self.contexts().len()
    }

    /// The kind of `node`.
    pub open spec fn kind_of(&self, node: Node) -> NodeKind {
        self.contexts()[node.id as int].spec_kind()
    }

    /// Whether `node` is a signal of this runtime.
    pub open spec fn is_signal(&self, node: Node) -> bool {
        self.has(node) && self.kind_of(node) == NodeKind::Signal
    }

    /// Whether `node` is a computed of this runtime.
    pub open spec fn is_computed(&self, node: Node) -> bool {
        self.has(node) && self.kind_of(node) == NodeKind::Computed
    }

    /// Whether `node` is an effect of this runtime.
    pub open spec fn is_effect(&self, node: Node) -> bool {
        self.has(node) && self.kind_of(node) == NodeKind::Effect
    }

    /// Whether `node` is a scope of this runtime.
    pub open spec fn is_scope(&self, node: Node) -> bool {
        self.has(node) && self.kind_of(node) == NodeKind::Scope
    }

    /// The marks of `node`.
    pub open spec fn flags_of(&self, node: Node) -> Flags {
        self.graph().nodes@[node.id as int].flags
    }

    /// How many evaluations were counted.
    pub open spec fn cycle(&self) -> usize {
        self.graph().sys.cycle
    }

    /// How deep the batches are nested.
    pub open spec fn batch_depth(&self) -> usize {
        self.graph().sys.batch_depth
    }

    /// The subscriber that reads are attributed to.
    pub open spec fn active_sub(&self) -> Option<Node> {
        match self.graph().sys.active_sub {
            Some(id) => Some(Node { id }),
            None => None,
        }
    }

    /// The effects that wait to run, first to last.
    pub open spec fn queue(&self) -> Seq<usize> {
        self.graph().queue()
    }

    /// The value that the computed at `n` holds, if it was evaluated.
    pub open spec fn cached_at(&self, n: int) -> Option<V> {
        match self.contexts()[n] {
            NodeContext::Computed(c) => c.value,
            _ => None,
        }
    }

    /// The value that a computed holds, if it was evaluated.
    pub open spec fn cached(&self, node: Node) -> Option<V> {
        self.cached_at(node.id as int)
    }

    /// How often the thunk of the effect at `n` was started.
    pub open spec fn runs_at(&self, n: int) -> nat {
        match self.contexts()[n] {
            NodeContext::Effect(c) => c.runs@,
            _ => 0,
        }
    }

    /// What may have become of a runtime while code of the host ran: nodes
    /// and links may have come, none has gone; a node is of the kind that it
    /// was made as, and compares by the equality that it was given; a
    /// computed that had a value has one; neither the count
    /// of evaluations nor that of the starts of a thunk has gone back.
    pub open spec fn precedes(&self, later: &Runtime<V>) -> bool {
        &&& self.contexts().len() <= later.contexts().len()
        &&& self.graph().links@.len() <= later.graph().links@.len()
        &&& self.cycle() <= later.cycle()
        &&& forall|n: int|
            0 <= n < self.contexts().len() ==> {
                &&& (#[trigger] later.contexts()[n]).spec_kind() == self.contexts()[n].spec_kind()
                &&& later.custom_eq_at(n) == self.custom_eq_at(n)
                &&& self.cached_at(n).is_some() ==> later.cached_at(n).is_some()
                &&& self.runs_at(n) <= later.runs_at(n)
            }
    }

    /// An empty runtime.
    pub fn new() -> (rt: Runtime<V>)
        ensures
            rt.inv(),
            rt.contexts().len() == 0,
            rt.graph().node_count() == 0,
            rt.graph().link_count() == 0,
            rt.cycle() == 0,
            rt.batch_depth() == 0,
            rt.active_sub().is_none(),
            rt.queue().len() == 0,
    {
        Runtime { graph: Graph::new(), contexts: Vec::new() }
    }

    /// Adds a node of the kind of `context`.
    pub fn add_node(&mut self, flags: Flags, context: NodeContext<V>) -> (node: Node)
        requires
            old(self).inv(),
        ensures
            final(self).inv(),
            old(self).precedes(final(self)),
            node.id == old(self).contexts().len(),
            final(self).contexts() == old(self).contexts().push(context),
            final(self).graph().nodes@ == old(self).graph().nodes@.push(
                NodeFields { flags, deps: None, deps_tail: None, subs: None, subs_tail: None },
            ),
            final(self).graph().links@ == old(self).graph().links@,
            final(self).graph().sys == old(self).graph().sys,
            final(self).graph().dep_lists@ == old(self).graph().dep_lists@.push(Seq::empty()),
            final(self).graph().sub_lists@ == old(self).graph().sub_lists@.push(Seq::empty()),
            final(self).graph().dep_pos@ == old(self).graph().dep_pos@,
            final(self).graph().sub_pos@ == old(self).graph().sub_pos@,
            final(self).graph().live@ == old(self).graph().live@,
    {
        let id = allot(&mut self.graph, &mut self.contexts, flags, context);
        Node { id }
    }

    /// How deep the batches are nested.
    pub fn get_batch_depth(&self) -> (depth: usize)
        ensures
            depth == self.batch_depth(),
    {
        self.graph.sys.batch_depth
    }

    /// The subscriber to which reads are attributed.
    pub fn get_active_sub(&self) -> (sub: Option<Node>)
        requires
            self.inv(),
        ensures
            sub == self.active_sub(),
            sub.is_some() ==> self.has(sub.unwrap()),
    {
        match self.graph.sys.active_sub {
            Some(id) => Some(Node { id }),
            None => None,
        }
    }

    /// The values that a signal holds: the current one and the pending one.
    pub open spec fn signal_values(&self, node: Node) -> (V, V) {
        match self.contexts()[node.id as int] {
            NodeContext::Signal(c) => (c.current_value, c.pending_value),
            _ => arbitrary(),
        }
    }

    /// Whether the node at `d` is a signal that is compared by `==`.
    pub open spec fn plain_signal_at(&self, d: int) -> bool {
        &&& 0 <= d < self.contexts().len()
        &&& match self.contexts()[d] {
            NodeContext::Signal(c) => !c.custom_eq,
            _ => false,
        }
    }

    /// Whether the signal at `d` holds a pending value that differs from its
    /// current one.
    pub open spec fn renewed_at(&self, d: int) -> bool where V: PartialEq {
        match self.contexts()[d] {
            NodeContext::Signal(c) => !c.current_value.eq_spec(&c.pending_value),
            _ => false,
        }
    }

    /// Whether the host holds an equality of its own for the node at `n`.
    pub open spec fn custom_eq_at(&self, n: int) -> bool {
        match self.contexts()[n] {
            NodeContext::Signal(c) => c.custom_eq,
            NodeContext::Computed(c) => c.custom_eq,
            _ => false,
        }
    }

    /// Whether the host holds an equality of its own for `node`.
    pub open spec fn has_custom_eq(&self, node: Node) -> bool {
        self.custom_eq_at(node.id as int)
    }

    /// The payloads of `self` are those of `before`, but for that of `node`.
    pub open spec fn contexts_kept(&self, before: &Runtime<V>, node: Node) -> bool {
        &&& self.contexts().len() == before.contexts().len()
        &&& forall|n: int|
            0 <= n < self.contexts().len() && n != node.id ==> #[trigger] self.contexts()[n]
                == before.contexts()[n]
        &&& self.has(node) ==> self.kind_of(node) == before.kind_of(node) && self.has_custom_eq(node)
            == before.has_custom_eq(node)
    }

    /// Makes the pending value of the signal `s` its current value, unless
    /// `same` says that the two are equal. Says whether the value changed.
    pub fn settle_signal(&mut self, s: Node, same: bool) -> (changed: bool) where V: Clone
        requires
            old(self).inv(),
            old(self).is_signal(s),
        ensures
            final(self).inv(),
            changed == !same,
            final(self).graph().reflagged(
                &old(self).graph(),
                s.id as int,
                Flags { mutable: true, ..Flags::spec_none() },
            ),
            final(self).contexts_kept(old(self), s),
            final(self).signal_values(s).1 == old(self).signal_values(s).1,
            same ==> final(self).signal_values(s).0 == old(self).signal_values(s).0,
            !same ==> cloned(old(self).signal_values(s).1, final(self).signal_values(s).0),
    {
        self.graph.set_flags(s.id, Flags::mutable());
        if !same {
            match &mut self.contexts[s.id] {
                NodeContext::Signal(ctx) => {
                    ctx.current_value = ctx.pending_value.clone();
                },
                _ => {},
            }
        }
        !same
    }

    /// What may have become of a runtime in two steps may have become of it
    /// in one.
    pub proof fn lemma_precedes_trans(&self, mid: &Runtime<V>, later: &Runtime<V>)
        requires
            self.precedes(mid),
            mid.precedes(later),
        ensures
            self.precedes(later),
    {
        assert forall|n: int| 0 <= n < self.contexts().len() implies {
            &&& (#[trigger] later.contexts()[n]).spec_kind() == self.contexts()[n].spec_kind()
            &&& self.cached_at(n).is_some() ==> later.cached_at(n).is_some()
            &&& self.runs_at(n) <= later.runs_at(n)
        } by {
            assert(mid.contexts()[n].spec_kind() == self.contexts()[n].spec_kind());
        }
    }

    /// Nothing but marks and the queue has changed from `self` to `later`,
    /// unless an evaluation was counted in between.
    pub open spec fn calm(&self, later: &Runtime<V>) -> bool {
        later.cycle() == self.cycle() ==> {
            &&& later.graph().remarked(&self.graph())
            &&& later.graph().queue_grown(&self.graph())
        }
    }

    /// How often the thunk of the effect `node` was started.
    pub open spec fn runs(&self, node: Node) -> nat {
        self.runs_at(node.id as int)
    }

    /// Nothing has become of a runtime that is left alone.
    pub proof fn lemma_calm_refl(&self)
        ensures
            self.calm(self),
            self.precedes(self),
    {
        self.graph().lemma_remarked_refl();
    }

    /// Two calm steps are one.
    pub proof fn lemma_calm_trans(&self, mid: &Runtime<V>, later: &Runtime<V>)
        requires
            self.calm(mid),
            mid.calm(later),
            self.cycle() <= mid.cycle(),
            mid.cycle() <= later.cycle(),
        ensures
            self.calm(later),
    {
        if later.cycle() == self.cycle() {
            self.graph().lemma_remarked_trans(&mid.graph(), &later.graph());
            self.graph().lemma_queue_grown_trans(&mid.graph(), &later.graph());
        }
    }

    /// Puts the subscriber `node` to rest.
    pub fn release(&mut self, node: Node)
        requires
            old(self).inv(),
            old(self).has(node),
        ensures
            final(self).inv(),
            old(self).precedes(final(self)),
            final(self).contexts() == old(self).contexts(),
            final(self).graph().disposed(&old(self).graph(), node.id as int),
            final(self).graph().shrunk(&old(self).graph(), node.id as int),
            final(self).graph().dep_lists@[node.id as int].len() == 0,
            final(self).flags_of(node) == Flags::spec_none(),
            old(self).graph().sub_lists@[node.id as int].len() <= 1 ==> final(self).graph().at_rest(
                node.id as int,
            ),
            old(self).graph().at_rest(node.id as int) ==> final(self).graph().same(
                &old(self).graph(),
            ),
    {
        self.graph.dispose(node.id);
    }

    /// Lets go of the dependencies that `sub` has collected, and marks what
    /// depends on each of them as if it had a new value.
    pub fn invalidate_collected(&mut self, sub: Node)
        requires
            old(self).inv(),
            old(self).has(sub),
        ensures
            final(self).inv(),
            old(self).precedes(final(self)),
            final(self).contexts() == old(self).contexts(),
            final(self).cycle() == old(self).cycle(),
            final(self).batch_depth() == old(self).batch_depth(),
            final(self).active_sub() == old(self).active_sub(),
            final(self).graph().scattered(&old(self).graph(), sub.id as int),
            final(self).graph().dep_lists@[sub.id as int].len() == 0,
            old(self).graph().sub_lists@[sub.id as int].len() == 0 ==> final(self).graph().overruled(
                old(self).graph().collected(sub.id as int),
                sub.id as int,
            ),
    {
        self.graph.invalidate_collected(sub.id);
    }

    /// The nodes that `node` depends on, in the order of its list of
    /// dependencies.
    pub fn dependencies(&self, node: Node) -> (deps: Vec<Node>)
        requires
            self.inv(),
            self.has(node),
        ensures
            deps@.len() == self.graph().deps_of(node.id as int).len(),
            forall|i: int|
                0 <= i < deps@.len() ==> (#[trigger] deps@[i]).id == self.graph().links@[self.graph().deps_of(
                    node.id as int,
                )[i] as int].dep,
            forall|i: int| 0 <= i < deps@.len() ==> self.has(#[trigger] deps@[i]),
    {
        let ghost ds = self.graph.dep_lists@[node.id as int];
        let mut deps: Vec<Node> = Vec::new();
        let mut link = self.graph.nodes[node.id].deps;
        proof {
            assert(self.graph.node_ok(node.id as int));
        }
        loop
            invariant
                self.inv(),
                self.has(node),
                ds == self.graph.dep_lists@[node.id as int],
                deps@.len() <= ds.len(),
                link == crate::graph::at(ds, deps@.len() as int),
                forall|i: int|
                    0 <= i < deps@.len() ==> (#[trigger] deps@[i]).id == self.graph.links@[ds[i] as int].dep,
                forall|i: int| 0 <= i < deps@.len() ==> self.has(#[trigger] deps@[i]),
            ensures
                deps@.len() == ds.len(),
            decreases ds.len() - deps@.len(),
        {
            match link {
                Some(l) => {
                    proof {
                        assert(self.graph.dep_entry_ok(node.id as int, deps@.len() as int));
                        assert(self.graph.link_ok(l as int));
                    }
                    deps.push(Node { id: self.graph.links[l].dep });
                    link = self.graph.links[l].next_dep;
                },
                None => {
                    break ;
                },
            }
        }
        deps
    }

    /// The nodes that depend on `node`, in the order of its list of
    /// subscribers.
    pub fn subscribers(&self, node: Node) -> (subs: Vec<Node>)
        requires
            self.inv(),
            self.has(node),
        ensures
            subs@.len() == self.graph().subs_of(node.id as int).len(),
            forall|i: int|
                0 <= i < subs@.len() ==> (#[trigger] subs@[i]).id == self.graph().links@[self.graph().subs_of(
                    node.id as int,
                )[i] as int].sub,
            forall|i: int| 0 <= i < subs@.len() ==> self.has(#[trigger] subs@[i]),
    {
        let ghost ss = self.graph.sub_lists@[node.id as int];
        let mut subs: Vec<Node> = Vec::new();
        let mut link = self.graph.nodes[node.id].subs;
        proof {
            assert(self.graph.node_ok(node.id as int));
        }
        loop
            invariant
                self.inv(),
                self.has(node),
                ss == self.graph.sub_lists@[node.id as int],
                subs@.len() <= ss.len(),
                link == crate::graph::at(ss, subs@.len() as int),
                forall|i: int|
                    0 <= i < subs@.len() ==> (#[trigger] subs@[i]).id == self.graph.links@[ss[i] as int].sub,
                forall|i: int| 0 <= i < subs@.len() ==> self.has(#[trigger] subs@[i]),
            ensures
                subs@.len() == ss.len(),
            decreases ss.len() - subs@.len(),
        {
            match link {
                Some(l) => {
                    proof {
                        assert(self.graph.sub_entry_ok(node.id as int, subs@.len() as int));
                        assert(self.graph.link_ok(l as int));
                    }
                    subs.push(Node { id: self.graph.links[l].sub });
                    link = self.graph.links[l].next_sub;
                },
                None => {
                    break ;
                },
            }
        }
        subs
    }

    /// How many effects wait to run.
    pub fn queued(&self) -> (count: usize)
        requires
            self.inv(),
        ensures
            count == self.queue().len(),
    {
        self.graph.sys.queued.len() - self.graph.sys.queue_head
    }

    /// What the making of an effect makes of a runtime, given the runtime
    /// `begun` that its thunk was handed and the runtime `ran` that the thunk
    /// returned: the effect is there, attached to the subscriber that reads
    /// were attributed to, with one start of its thunk counted; while the
    /// thunk ran, reads were attributed to the effect; afterwards they are to
    /// the subscriber before again, and the effect is no longer marked as
    /// under evaluation.
    pub open spec fn made_effect<H: Host<V>>(
        &self,
        host: &H,
        before: &Runtime<V>,
        begun: &Runtime<V>,
        ran: &Runtime<V>,
    ) -> bool {
        &&& begun.inv()
        &&& begun.contexts() == before.contexts().push(
            NodeContext::Effect(EffectContext { runs: Ghost(1) }),
        )
        &&& begun.graph().attached_under(&before.graph(), Flags::spec_running())
        &&& host.performs(*begun, *ran, Node { id: before.contexts().len() as usize })
        &&& begun.precedes(ran)
        &&& ran.inv()
        &&& self.contexts() == ran.contexts()
        &&& self.graph().resumed(
            &ran.graph(),
            before.contexts().len() as int,
            before.graph().sys.active_sub,
        )
    }

    /// What the making of a scope makes of a runtime, given the runtime
    /// `begun` that its setup was handed and the runtime `ran` that the setup
    /// returned: the scope is there, attached to the subscriber that reads
    /// were attributed to; while the setup ran, reads were attributed to the
    /// scope; afterwards they are to the subscriber before again.
    pub open spec fn made_scope(
        &self,
        before: &Runtime<V>,
        begun: &Runtime<V>,
        ran: &Runtime<V>,
    ) -> bool {
        &&& begun.inv()
        &&& begun.contexts() == before.contexts().push(NodeContext::Scope)
        &&& begun.graph().attached_under(&before.graph(), Flags::spec_none())
        &&& begun.precedes(ran)
        &&& ran.inv()
        &&& self.contexts() == ran.contexts()
        &&& self.graph().same_records(&ran.graph())
        &&& self.graph().sys.active_sub == before.graph().sys.active_sub
        &&& self.graph().sys.cycle == ran.graph().sys.cycle
        &&& self.graph().sys.batch_depth == ran.graph().sys.batch_depth
        &&& self.graph().sys.queued@ == ran.graph().sys.queued@
        &&& self.graph().sys.queue_head == ran.graph().sys.queue_head
    }

    /// Whether `node` is a node of this runtime.
    pub fn contains(&self, node: Node) -> (found: bool)
        requires
            self.inv(),
        ensures
            found == self.has(node),
    {
        node.id < self.contexts.len()
    }

    /// The kind of `node`.
    pub fn kind(&self, node: Node) -> (kind: NodeKind)
        requires
            self.inv(),
            self.has(node),
        ensures
            kind == self.kind_of(node),
    {
        self.contexts[node.id].kind()
    }

    /// Whether the computed `node` holds a value.
    pub fn has_value(&self, node: Node) -> (found: bool)
        requires
            self.inv(),
            self.has(node),
        ensures
            found == self.cached(node).is_some(),
    {
        match &self.contexts[node.id] {
            NodeContext::Computed(c) => c.value.is_some(),
            _ => false,
        }
    }

    /// How many evaluations were counted.
    pub fn evaluations(&self) -> (count: usize)
        ensures
            count == self.cycle(),
    {
        self.graph.sys.cycle
    }
}

} // verus!
