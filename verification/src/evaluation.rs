//! Evaluation of nodes: bringing a signal or a computed up to date, and
//! running an effect.

use vstd::prelude::*;
use vstd::std_specs::cmp::PartialEqSpec;
use crate::flags::Flags;
use crate::graph::Graph;
use crate::runtime::{Host, Node, NodeContext, NodeKind, Runtime};

verus! {

/// The course of a validation: for each dependency that was visited, in
/// turn, the runtime before the visit and the link that led to it; and, for
/// a dependency that was validated itself first, the runtime that this led
/// to, what it found, and its own course.
pub struct Course<V> {
    pub trail: Seq<Runtime<V>>,
    pub at: Seq<usize>,
    pub checked: Seq<Runtime<V>>,
    pub inner: Seq<bool>,
    pub below: Seq<Course<V>>,
}

impl<V: Clone + PartialEq> Runtime<V> {
    /// Whether the signal `s` holds a pending value equal to its current one,
    /// by its own equality where the host holds one, else by `==`.
    pub fn signal_unchanged<H: Host<V>>(&self, host: &H, s: Node) -> (same: bool)
        requires
            self.inv(),
            self.is_signal(s),
        ensures
            !self.has_custom_eq(s) && V::obeys_eq_spec() ==> same == self.signal_values(s).0.eq_spec(
                &self.signal_values(s).1,
            ),
            self.has_custom_eq(s) ==> same == host.equates(
                s,
                self.signal_values(s).0,
                self.signal_values(s).1,
            ),
    {
        proof {
            self.unfold();
        }
        match &self.contexts[s.id] {
            NodeContext::Signal(ctx) => {
                if ctx.custom_eq {
                    host.same(s, &ctx.current_value, &ctx.pending_value)
                } else {
                    ctx.current_value == ctx.pending_value
                }
            },
            _ => true,
        }
    }

    /// What `update_signal` makes of a runtime: the signal `s` bears the one
    /// mark of a node that produces a value; its current value is a copy of
    /// its pending value if the two differed, by its own equality where the
    /// host holds one, else by `==`; `changed` says whether they did.
    pub open spec fn signal_updated<H: Host<V>>(
        &self,
        host: &H,
        before: &Runtime<V>,
        s: Node,
        changed: bool,
    ) -> bool {
        &&& self.graph().reflagged(&before.graph(), s.id as int, Flags::spec_mutable())
        &&& self.contexts_kept(before, s)
        &&& self.signal_values(s).1 == before.signal_values(s).1
        &&& !changed ==> self.signal_values(s).0 == before.signal_values(s).0
        &&& changed ==> cloned(before.signal_values(s).1, self.signal_values(s).0)
        &&& !before.has_custom_eq(s) && V::obeys_eq_spec() ==> {
            let values = before.signal_values(s);
            changed == !values.0.eq_spec(&values.1)
        }
        &&& before.has_custom_eq(s) ==> {
            let values = before.signal_values(s);
            changed == !host.equates(s, values.0, values.1)
        }
    }

    /// Brings the signal `s` up to date: its pending value becomes its
    /// current value unless the two are equal. Says whether the value
    /// changed.
    pub fn update_signal<H: Host<V>>(&mut self, host: &H, s: Node) -> (changed: bool)
        requires
            old(self).inv(),
            old(self).is_signal(s),
        ensures
            final(self).inv(),
            old(self).precedes(final(self)),
            final(self).signal_updated(host, old(self), s, changed),
    {
        let same = self.signal_unchanged(host, s);
        self.settle_signal(s, same)
    }

    /// A copy of the value that the computed `c` holds.
    pub fn cached_clone(&self, c: Node) -> (value: Option<V>)
        requires
            self.inv(),
            self.has(c),
        ensures
            value.is_some() == self.cached(c).is_some(),
            value.is_some() ==> cloned(self.cached(c).unwrap(), value.unwrap()),
    {
        proof {
            self.unfold();
        }
        match &self.contexts[c.id] {
            NodeContext::Computed(ctx) => match &ctx.value {
                Some(v) => Some(v.clone()),
                None => None,
            },
            _ => None,
        }
    }

    /// Whether the value that the computed `c` holds is equal to `value`, by
    /// its own equality where the host holds one, else by `==`; nothing
    /// where it holds no value.
    pub fn computed_unchanged<H: Host<V>>(&self, host: &H, c: Node, value: &V) -> (same: Option<
        bool,
    >)
        requires
            self.inv(),
            self.has(c),
        ensures
            same.is_some() == self.cached(c).is_some(),
            same.is_some() && !self.has_custom_eq(c) && V::obeys_eq_spec() ==> same == Some(
                self.cached(c).unwrap().eq_spec(value),
            ),
            same.is_some() && self.has_custom_eq(c) ==> same == Some(
                host.equates(c, self.cached(c).unwrap(), *value),
            ),
    {
        proof {
            self.unfold();
        }
        match &self.contexts[c.id] {
            NodeContext::Computed(ctx) => match &ctx.value {
                Some(v) => {
                    if ctx.custom_eq {
                        Some(host.same(c, v, value))
                    } else {
                        Some(*v == *value)
                    }
                },
                None => None,
            },
            _ => None,
        }
    }

    /// Keeps `value` as the value of the computed `c`. Says whether the value
    /// changed: it did unless `same` says that the one before was equal.
    pub fn store_computed(&mut self, c: Node, value: V, same: Option<bool>) -> (changed: bool)
        requires
            old(self).inv(),
            old(self).is_computed(c),
        ensures
            final(self).inv(),
            old(self).precedes(final(self)),
            final(self).graph() == old(self).graph(),
            final(self).contexts_kept(old(self), c),
            final(self).cached(c) == Some(value),
            changed == (same != Some(true)),
    {
        proof {
            self.unfold();
        }
        match &mut self.contexts[c.id] {
            NodeContext::Computed(ctx) => {
                ctx.value = Some(value);
            },
            _ => {},
        }
        proof {
            self.unfold();
        }
        match same {
            Some(s) => !s,
            None => true,
        }
    }

    /// `self` is `before` with an evaluation of `n` begun.
    pub open spec fn began(&self, before: &Runtime<V>, n: Node, flags: Flags) -> bool {
        &&& self.inv()
        &&& self.contexts() == before.contexts()
        &&& self.graph().tracking(&before.graph(), n.id as int, flags)
    }

    /// What the evaluation of the computed `c` makes of the runtime `ran`
    /// that its getter returned together with `value`: the value is kept, and
    /// has changed unless the one before was equal; reads are attributed to
    /// `prev` again, and the dependencies that the getter did not read are
    /// let go of.
    pub open spec fn kept<H: Host<V>>(
        &self,
        host: &H,
        ran: &Runtime<V>,
        c: Node,
        prev: Option<usize>,
        value: V,
        changed: bool,
    ) -> bool {
        &&& self.contexts_kept(ran, c)
        &&& self.cached(c) == Some(value)
        &&& ran.cached(c).is_none() ==> changed
        &&& ran.cached(c).is_some() && !ran.has_custom_eq(c) && V::obeys_eq_spec() ==> changed
            == !ran.cached(c).unwrap().eq_spec(&value)
        &&& ran.cached(c).is_some() && ran.has_custom_eq(c) ==> changed == !host.equates(
            c,
            ran.cached(c).unwrap(),
            value,
        )
        &&& self.graph().ended(&ran.graph(), c.id as int, prev)
    }

    /// Whether the getter of the computed `c` was called with the runtime
    /// `begun` and with a copy of the value that `c` held, and handed back
    /// the runtime `ran` and the value `value`.
    pub open spec fn got<H: Host<V>>(
        &self,
        host: &H,
        begun: &Runtime<V>,
        c: Node,
        value: V,
    ) -> bool {
        exists|previous: Option<V>|
            {
                &&& previous.is_some() == begun.cached(c).is_some()
                &&& previous.is_some() ==> cloned(begun.cached(c).unwrap(), previous.unwrap())
                &&& #[trigger] host.computes(*begun, *self, c, previous, value)
            }
    }

    /// What `update_computed` makes of a runtime, given the runtime `begun`
    /// that its getter was handed, and the runtime `ran` and the `value` that
    /// the getter returned.
    pub open spec fn evaluated<H: Host<V>>(
        &self,
        host: &H,
        before: &Runtime<V>,
        begun: &Runtime<V>,
        ran: &Runtime<V>,
        c: Node,
        value: V,
        changed: bool,
    ) -> bool {
        &&& begun.began(before, c, Flags::spec_computing())
        &&& ran.got(host, begun, c, value)
        &&& begun.precedes(ran)
        &&& ran.inv()
        &&& self.kept(host, ran, c, before.graph().sys.active_sub, value, changed)
    }

    /// Ends the evaluation of the computed `c` that returned `value`: keeps
    /// the value, attributes reads to `prev` again, and lets go of the
    /// dependencies that were not read. Says whether the value changed.
    pub fn keep<H: Host<V>>(&mut self, host: &H, c: Node, prev: Option<usize>, value: V) -> (changed:
        bool)
        requires
            old(self).inv(),
            old(self).is_computed(c),
            match prev {
                Some(n) => old(self).has(Node { id: n }),
                None => true,
            },
        ensures
            final(self).inv(),
            old(self).precedes(final(self)),
            final(self).cycle() == old(self).cycle(),
            final(self).kept(host, old(self), c, prev, value, changed),
    {
        let same = self.computed_unchanged(host, c, &value);
        let changed = self.store_computed(c, value, same);
        let ghost stored = *self;
        proof {
            self.unfold();
            old(self).unfold();
        }
        self.graph.end_tracking(c.id, prev);
        proof {
            self.unfold();
            assert(stored.precedes(self));
            old(self).lemma_precedes_trans(&stored, self);
        }
        changed
    }

    /// Evaluates the computed `c` anew, with its dependencies recorded.
    /// Says whether its value changed. Nothing happens, and `false` is
    /// returned, where the count of evaluations is exhausted.
    pub fn update_computed<H: Host<V>>(&mut self, host: &H, c: Node) -> (changed: bool)
        requires
            old(self).inv(),
            old(self).is_computed(c),
        ensures
            final(self).inv(),
            old(self).precedes(final(self)),
            old(self).cycle() == usize::MAX ==> !changed && final(self).graph() == old(self).graph()
                && final(self).contexts() == old(self).contexts(),
            old(self).cycle() < usize::MAX ==> {
                &&& final(self).cycle() > old(self).cycle()
                &&& final(self).cached(c).is_some()
                &&& final(self).active_sub() == old(self).active_sub()
                &&& !final(self).flags_of(c).recursed_check
                &&& exists|begun: Runtime<V>, ran: Runtime<V>, value: V| #[trigger]
                    final(self).evaluated(host, old(self), &begun, &ran, c, value, changed)
            },
    {
        proof {
            self.unfold();
        }
        if self.graph.sys.cycle == usize::MAX {
            return false;
        }
        let prev_sub = self.graph.start_tracking(
            c.id,
            Flags::mutable() | Flags::recursed_check(),
        );
        proof {
            self.unfold();
        }
        let previous = self.cached_clone(c);
        let ghost begun = *self;
        proof {
            assert(old(self).precedes(&begun));
        }
        let value = host.compute(self, c, previous.as_ref());
        let ghost ran = *self;
        let ghost returned = value;
        proof {
            self.unfold();
            old(self).unfold();
            old(self).lemma_precedes_trans(&begun, &ran);
            assert(host.computes(begun, ran, c, previous, returned));
            assert(ran.got(host, &begun, c, returned));
        }
        let changed = self.keep(host, c, prev_sub, value);
        proof {
            self.unfold();
            old(self).lemma_precedes_trans(&ran, self);
            assert(self.graph.node_ok(c.id as int));
            assert(self.evaluated(host, old(self), &begun, &ran, c, returned, changed));
        }
        changed
    }

    /// Whether `node` is a node that produces a value: a signal or a
    /// computed.
    pub open spec fn produces(&self, node: Node) -> bool {
        self.is_signal(node) || self.is_computed(node)
    }

    /// What `update` makes of a runtime: a signal is brought up to date, and
    /// a computed is evaluated anew unless the count of evaluations is
    /// exhausted.
    pub open spec fn updated<H: Host<V>>(
        &self,
        host: &H,
        before: &Runtime<V>,
        node: Node,
        changed: bool,
    ) -> bool {
        if before.is_signal(node) {
            self.signal_updated(host, before, node, changed)
        } else if before.cycle() < usize::MAX {
            exists|begun: Runtime<V>, ran: Runtime<V>, value: V| #[trigger]
                self.evaluated(host, before, &begun, &ran, node, value, changed)
        } else {
            &&& !changed
            &&& self.graph() == before.graph()
            &&& self.contexts() == before.contexts()
        }
    }

    /// Brings a signal or a computed up to date, and says whether its value
    /// changed.
    pub fn update<H: Host<V>>(&mut self, host: &H, node: Node) -> (changed: bool)
        requires
            old(self).inv(),
            old(self).has(node),
            old(self).produces(node),
        ensures
            final(self).inv(),
            old(self).precedes(final(self)),
            old(self).calm(final(self)),
            final(self).updated(host, old(self), node, changed),
            final(self).active_sub() == old(self).active_sub(),
            final(self).cycle() == old(self).cycle() ==> final(self).graph().sys.queued@
                == old(self).graph().sys.queued@,
            old(self).is_computed(node) && old(self).cycle() < usize::MAX ==> final(self).cycle()
                > old(self).cycle(),
            old(self).is_signal(node) && !old(self).has_custom_eq(node) && V::obeys_eq_spec()
                ==> changed == !old(self).signal_values(node).0.eq_spec(
                &old(self).signal_values(node).1,
            ),
            !old(self).is_computed(node) ==> final(self).cycle() == old(self).cycle(),
            old(self).is_signal(node) ==> final(self).contexts_kept(old(self), node) && (!changed
                ==> final(self).signal_values(node) == old(self).signal_values(node)),
            old(self).is_signal(node) ==> final(self).graph().reflagged(
                &old(self).graph(),
                node.id as int,
                Flags::spec_mutable(),
            ),
    {
        proof {
            self.unfold();
            let g = self.graph;
            assert(g.sys.queued@.subrange(0, g.sys.queued@.len() as int) =~= g.sys.queued@);
        }
        let changed = match self.contexts[node.id].kind() {
            NodeKind::Signal => self.update_signal(host, node),
            _ => self.update_computed(host, node),
        };
        proof {
            self.unfold();
        }
        changed
    }

    /// The node that the dependency at place `k` of `sub` is a link to.
    pub open spec fn dep_at(&self, sub: int, k: int) -> int {
        self.graph().links@[self.graph().dep_lists@[sub][k] as int].dep as int
    }

    /// Whether the dependencies of `sub` from place `from` on call for no
    /// evaluation of a computed: each of them that produces a value and is
    /// dirty or pending is a signal that was written to, compared by `==`.
    pub open spec fn signals_only(&self, sub: int, from: int) -> bool {
        forall|k: int|
            from <= k < self.graph().dep_lists@[sub].len() ==> {
                let d = #[trigger] self.dep_at(sub, k);
                let f = self.graph().nodes@[d].flags;
                f.mutable && (f.dirty || f.pending) ==> f.dirty && self.plain_signal_at(d)
            }
    }

    /// Whether one of the dependencies of `sub` from place `k` on is a
    /// signal that was written a value that differs from the one that it
    /// held.
    pub open spec fn verdict(&self, sub: int, k: int) -> bool
        decreases self.graph().dep_lists@[sub].len() - k,
    {
        if k < 0 || k >= self.graph().dep_lists@[sub].len() {
            false
        } else {
            let d = self.dep_at(sub, k);
            let f = self.graph().nodes@[d].flags;
            if f.mutable && f.dirty && self.renewed_at(d) {
                true
            } else {
                self.verdict(sub, k + 1)
            }
        }
    }

    /// Whether the validation of `sub` from `link` on is decided by the
    /// values of signals alone.
    pub open spec fn decided_by_signals(&self, link: int, sub: Node) -> bool {
        &&& V::obeys_eq_spec()
        &&& self.graph().is_live(link)
        &&& self.graph().links@[link].sub == sub.id
        &&& !self.flags_of(sub).dirty
        &&& self.signals_only(sub.id as int, self.graph().dep_pos@[link])
    }

    /// Whether `n` is pending on account of signals only, none of which
    /// holds a value that differs from the one that it held: the case in
    /// which `n` is spared a new evaluation.
    pub open spec fn spared(&self, n: Node) -> bool {
        let ds = self.graph().dep_lists@[n.id as int];
        &&& self.flags_of(n).pending
        &&& ds.len() > 0
        &&& self.decided_by_signals(ds[0] as int, n)
        &&& !self.verdict(n.id as int, 0)
    }

    /// Whether `n` is pending on account of signals only, one of which
    /// holds a value that differs from the one that it held: a case in which
    /// `n` is evaluated anew.
    pub open spec fn overdue(&self, n: Node) -> bool {
        let ds = self.graph().dep_lists@[n.id as int];
        &&& self.flags_of(n).pending
        &&& !self.flags_of(n).dirty
        &&& ds.len() > 0
        &&& self.decided_by_signals(ds[0] as int, n)
        &&& self.verdict(n.id as int, 0)
    }

    /// The signal at `n` was written to, is compared by `==`, and holds a
    /// value equal to the one that it held.
    pub open spec fn unchanged_signal_at(&self, n: int) -> bool {
        &&& self.graph().nodes@[n].flags.mutable
        &&& self.graph().nodes@[n].flags.dirty
        &&& self.plain_signal_at(n)
        &&& !self.renewed_at(n)
    }

    /// Whether `n` is among the dependencies of `sub` at the places
    /// `from..to`.
    pub open spec fn among(&self, sub: int, from: int, to: int, n: int) -> bool {
        exists|k: int| from <= k < to && #[trigger] self.dep_at(sub, k) == n
    }

    /// What a validation of `sub` that is decided by signals alone, and has
    /// found no new value at the places `from..to` of its dependencies, has
    /// made of the runtime `start`: the signals at these places that were
    /// written a value equal to theirs bear the one mark of a node that
    /// produces a value, and nothing else has changed.
    pub open spec fn passed_to(&self, start: &Runtime<V>, sub: int, from: int, to: int) -> bool {
        &&& self.cycle() == start.cycle()
        &&& self.contexts() == start.contexts()
        &&& forall|n: int|
            0 <= n < self.graph().nodes@.len() ==> (#[trigger] self.graph().nodes@[n]).flags == (
            if start.unchanged_signal_at(n) && start.among(sub, from, to, n) {
                Flags::spec_mutable()
            } else {
                start.graph().nodes@[n].flags
            })
    }

    /// A bound on what a validation that is decided by signals alone, and
    /// has found no new value so far, has made of the runtime `start`: no
    /// mark has changed but those of signals that were written a value equal
    /// to theirs, which bear the one mark of a node that produces a value.
    pub open spec fn passed(&self, start: &Runtime<V>) -> bool {
        &&& self.cycle() == start.cycle()
        &&& self.contexts() == start.contexts()
        &&& forall|n: int|
            0 <= n < self.graph().nodes@.len() ==> {
                ||| (#[trigger] self.graph().nodes@[n]).flags == start.graph().nodes@[n].flags
                ||| (start.unchanged_signal_at(n) && self.graph().nodes@[n].flags
                    == Flags::spec_mutable())
            }
    }

    /// Where a validation is decided by signals alone, a dependency that is
    /// found dirty is a signal compared by `==`, with the marks and values
    /// that it had at the start.
    pub proof fn lemma_due_signal(&self, top: &Runtime<V>, link: int, sub: Node, cur: int)
        requires
            self.inv(),
            top.inv(),
            self.decided_by_signals(link, sub),
            top.passed(self),
            top.graph().remarked(&self.graph()),
            top.graph().is_live(cur),
            top.graph().links@[cur].sub == sub.id,
            self.graph().dep_pos@[link] <= top.graph().dep_pos@[cur],
        ensures
            self.dep_at(sub.id as int, top.graph().dep_pos@[cur]) == top.graph().links@[cur].dep,
            top.graph().is_node(top.graph().links@[cur].dep as int),
            ({
                let d = top.graph().links@[cur].dep as int;
                let f = top.graph().nodes@[d].flags;
                &&& !(f.mutable && f.pending && !f.dirty)
                &&& f.mutable && f.dirty ==> {
                    &&& top.plain_signal_at(d)
                    &&& self.graph().nodes@[d].flags == f
                    &&& top.renewed_at(d) ==> self.verdict(sub.id as int, top.graph().dep_pos@[cur])
                    &&& !top.renewed_at(d) ==> self.unchanged_signal_at(d) && self.verdict(
                        sub.id as int,
                        top.graph().dep_pos@[cur],
                    ) == self.verdict(sub.id as int, top.graph().dep_pos@[cur] + 1)
                }
                &&& !(f.mutable && f.dirty) ==> self.verdict(
                    sub.id as int,
                    top.graph().dep_pos@[cur],
                ) == self.verdict(sub.id as int, top.graph().dep_pos@[cur] + 1)
            }),
    {
        self.lemma_inv();
        top.lemma_inv();
        let g = top.graph();
        let k = g.dep_pos@[cur];
        assert(g.link_ok(cur));
        assert(self.graph().link_ok(cur));
        let d = g.links@[cur].dep as int;
        assert(self.dep_at(sub.id as int, k) == d);
        assert(top.graph().nodes@[d].flags == self.graph().nodes@[d].flags || (
        self.unchanged_signal_at(d) && top.graph().nodes@[d].flags == Flags::spec_mutable()));
    }

    /// What the end of one step of a validation makes of the runtime
    /// `checked`, in which the dependency `dep` was validated with the result
    /// `inner`: where that found a change, `dep` is brought up to date, and
    /// a new value of it is announced to its other subscribers and reported
    /// as `found`; where it found none, `dep` is pending no longer.
    pub open spec fn drawn<H: Host<V>>(
        &self,
        host: &H,
        checked: &Runtime<V>,
        dep: Node,
        inner: bool,
        found: bool,
    ) -> bool {
        if inner {
            exists|fresh: Runtime<V>|
                {
                    &&& fresh.inv()
                    &&& #[trigger] fresh.updated(host, checked, dep, found)
                    &&& self.contexts() == fresh.contexts()
                    &&& self.graph().concluded(&fresh.graph(), dep.id as int, found)
                }
        } else {
            &&& !found
            &&& self.contexts() == checked.contexts()
            &&& self.graph().reflagged(
                &checked.graph(),
                dep.id as int,
                Flags { pending: false, ..checked.flags_of(dep) },
            )
        }
    }

    /// Ends one step of a validation: brings the dependency `dep` up to date
    /// if `inner` says that it has to be, and says whether its value changed;
    /// else marks it as pending no longer.
    pub fn draw<H: Host<V>>(&mut self, host: &H, dep: Node, inner: bool) -> (found: bool)
        requires
            old(self).inv(),
            old(self).has(dep),
            inner ==> old(self).produces(dep),
        ensures
            final(self).inv(),
            old(self).precedes(final(self)),
            old(self).calm(final(self)),
            final(self).active_sub() == old(self).active_sub(),
            final(self).drawn(host, old(self), dep, inner, found),
    {
        proof {
            self.unfold();
            self.lemma_calm_refl();
        }
        if inner {
            let changed = self.update(host, dep);
            let ghost fresh = *self;
            proof {
                self.unfold();
            }
            let found = self.graph.conclude(dep.id, changed);
            proof {
                self.unfold();
                assert(fresh.precedes(self));
                assert(fresh.calm(self));
                old(self).lemma_precedes_trans(&fresh, self);
                old(self).lemma_calm_trans(&fresh, self);
                assert(fresh.updated(host, old(self), dep, found));
            }
            found
        } else {
            let now = self.graph.nodes[dep.id].flags;
            self.graph.set_flags(dep.id, now.difference(Flags::pending()));
            proof {
                self.unfold();
                let g0 = old(self).graph;
                let g1 = self.graph;
                assert(g1.queue_grown(&g0)) by {
                    assert(g1.sys.queued@.subrange(0, g0.sys.queued@.len() as int)
                        =~= g0.sys.queued@);
                }
                assert(old(self).precedes(self));
                assert(old(self).calm(self));
            }
            false
        }
    }

    /// Whether nothing calls for validation from `link` on along the list
    /// that it is a member of: none of the dependencies is a node that
    /// produces a value and is dirty or pending.
    pub open spec fn nothing_due(&self, link: int) -> bool {
        let g = self.graph();
        let ds = g.dep_lists@[g.links@[link].sub as int];
        &&& g.is_live(link)
        &&& forall|k: int|
            g.dep_pos@[link] <= k < ds.len() ==> {
                let f = g.nodes@[g.links@[(#[trigger] ds[k]) as int].dep as int].flags;
                !(f.mutable && (f.dirty || f.pending))
            }
    }

    /// What the visit of the dependency at `cur` makes of the runtime `top`
    /// during a validation that may go `depth` levels deep. A signal or a
    /// computed that is dirty is brought up to date; a node of another kind
    /// that bears these marks is left as it is. A computed that is pending and has
    /// dependencies is validated in turn, one level less deep, which leads
    /// to the runtime `checked` with the result `inner` on the course
    /// `below`; it is brought up to date if that found a change, or without
    /// being asked where no level is left. Any other pending dependency is
    /// pending no longer. `found` says whether the value of the dependency
    /// changed.
    pub open spec fn visited<H: Host<V>>(
        &self,
        host: &H,
        top: &Runtime<V>,
        cur: int,
        depth: nat,
        found: bool,
        checked: &Runtime<V>,
        inner: bool,
        below: Course<V>,
    ) -> bool
        decreases depth, 0nat,
    {
        let dep = Node { id: top.graph().links@[cur].dep };
        let f = top.flags_of(dep);
        let first = top.graph().nodes@[dep.id as int].deps;
        if f.mutable && f.dirty {
            if top.produces(dep) {
                self.drawn(host, top, dep, true, found)
            } else {
                &&& !found
                &&& self.graph() == top.graph()
                &&& self.contexts() == top.contexts()
            }
        } else if f.mutable && f.pending {
            if first.is_some() && top.is_computed(dep) {
                if depth > 0 {
                    &&& checked.inv()
                    &&& checked.walked(
                        host,
                        top,
                        first.unwrap() as int,
                        dep,
                        (depth - 1) as nat,
                        inner,
                        below,
                    )
                    &&& self.drawn(host, checked, dep, inner, found)
                } else {
                    self.drawn(host, top, dep, true, found)
                }
            } else {
                self.drawn(host, top, dep, false, found)
            }
        } else {
            &&& !found
            &&& self.graph() == top.graph()
            &&& self.contexts() == top.contexts()
        }
    }

    /// Whether `course` is the course of a validation of `sub` from `link`
    /// on that leads from `before` to `self` and ends with `found`. The
    /// validation goes from one dependency to the next as long as `sub` is
    /// not dirty and no change is found, and ends where `sub` is dirty,
    /// where a change was found, or where no dependency is left.
    pub open spec fn walked<H: Host<V>>(
        &self,
        host: &H,
        before: &Runtime<V>,
        link: int,
        sub: Node,
        depth: nat,
        found: bool,
        course: Course<V>,
    ) -> bool
        decreases depth, 1nat,
    {
        let trail = course.trail;
        let at = course.at;
        &&& trail.len() > 0
        &&& at.len() == trail.len()
        &&& course.checked.len() == trail.len()
        &&& course.inner.len() == trail.len()
        &&& course.below.len() == trail.len()
        &&& trail[0] == *before
        &&& at[0] == link
        &&& forall|i: int, j: int|
            0 <= i && j == i + 1 && j < trail.len() ==> {
                &&& !(#[trigger] trail[i]).flags_of(sub).dirty
                &&& (#[trigger] trail[j]).visited(
                    host,
                    &trail[i],
                    at[i] as int,
                    depth,
                    false,
                    &course.checked[i],
                    course.inner[i],
                    course.below[i],
                )
                &&& trail[j].graph().links@[at[i] as int].next_dep == Some(at[j])
            }
        &&& if trail.last().flags_of(sub).dirty {
            &&& found
            &&& self.graph() == trail.last().graph()
            &&& self.contexts() == trail.last().contexts()
        } else {
            &&& self.visited(
                host,
                &trail.last(),
                at.last() as int,
                depth,
                found,
                &course.checked.last(),
                course.inner.last(),
                course.below.last(),
            )
            &&& !found ==> self.graph().links@[at.last() as int].next_dep.is_none()
        }
    }

    /// What `check_dirty` makes of a runtime: there is a course of the
    /// validation that leads from `before` to `self` and ends with `found`.
    pub open spec fn validated<H: Host<V>>(
        &self,
        host: &H,
        before: &Runtime<V>,
        link: int,
        sub: Node,
        depth: nat,
        found: bool,
    ) -> bool {
        exists|course: Course<V>| #[trigger]
            self.walked(host, before, link, sub, depth, found, course)
    }

    /// Finds out whether a dependency of `sub` has a new value, from `link`
    /// on along the list of its dependencies. A dependency that is dirty is
    /// brought up to date; a computed that is pending is validated in the
    /// same way first, and brought up to date if that finds a change. A
    /// pending dependency that has nothing to validate is pending no longer.
    /// The walk ends with `true` at the first dependency whose value
    /// changed, and, where `sub` is dirty itself, at once. The validation
    /// goes as many levels deep as there are nodes.
    pub fn check_dirty<H: Host<V>>(&mut self, host: &H, link: usize, sub: Node) -> (dirty: bool)
        requires
            old(self).inv(),
            old(self).graph().is_link(link as int),
            old(self).has(sub),
        ensures
            final(self).inv(),
            old(self).precedes(final(self)),
            old(self).calm(final(self)),
            final(self).active_sub() == old(self).active_sub(),
            final(self).validated(
                host,
                old(self),
                link as int,
                sub,
                old(self).graph().nodes@.len(),
                dirty,
            ),
            !dirty && final(self).cycle() == old(self).cycle() && old(self).cycle() < usize::MAX
                ==> final(self).graph().sys.queued@ == old(self).graph().sys.queued@,
            old(self).flags_of(sub).dirty ==> dirty && final(self).graph() == old(self).graph()
                && final(self).contexts() == old(self).contexts(),
            old(self).decided_by_signals(link as int, sub) ==> {
                &&& dirty == old(self).verdict(sub.id as int, old(self).graph().dep_pos@[link as int])
                &&& final(self).cycle() == old(self).cycle()
                &&& !dirty ==> final(self).passed_to(
                    old(self),
                    sub.id as int,
                    old(self).graph().dep_pos@[link as int],
                    old(self).graph().dep_lists@[sub.id as int].len() as int,
                )
            },
            !old(self).flags_of(sub).dirty && old(self).nothing_due(link as int) ==> !dirty
                && final(self).graph() == old(self).graph() && final(self).contexts() == old(self).contexts(),
    {
        proof {
            self.unfold();
        }
        let depth = self.graph.nodes.len();
        self.check_within(host, link, sub, depth)
    }

    /// Validates as `check_dirty` does, `depth` levels deep at most: where no
    /// level is left, a pending computed is brought up to date without
    /// being validated first.
    pub(crate) fn check_within<H: Host<V>>(&mut self, host: &H, link: usize, sub: Node, depth: usize) -> (dirty:
        bool)
        requires
            old(self).inv(),
            old(self).graph().is_link(link as int),
            old(self).has(sub),
        ensures
            final(self).inv(),
            old(self).precedes(final(self)),
            old(self).calm(final(self)),
            final(self).active_sub() == old(self).active_sub(),
            final(self).validated(host, old(self), link as int, sub, depth as nat, dirty),
            !dirty && final(self).cycle() == old(self).cycle() && old(self).cycle() < usize::MAX
                ==> final(self).graph().sys.queued@ == old(self).graph().sys.queued@,
            old(self).flags_of(sub).dirty ==> dirty && final(self).graph() == old(self).graph()
                && final(self).contexts() == old(self).contexts(),
            old(self).decided_by_signals(link as int, sub) ==> {
                &&& dirty == old(self).verdict(sub.id as int, old(self).graph().dep_pos@[link as int])
                &&& final(self).cycle() == old(self).cycle()
                &&& !dirty ==> final(self).passed_to(
                    old(self),
                    sub.id as int,
                    old(self).graph().dep_pos@[link as int],
                    old(self).graph().dep_lists@[sub.id as int].len() as int,
                )
            },
            !old(self).flags_of(sub).dirty && old(self).nothing_due(link as int) ==> !dirty
                && final(self).graph() == old(self).graph() && final(self).contexts() == old(self).contexts(),
        decreases depth,
    {
        let ghost start = *self;
        let ghost mut first = true;
        let ghost mut done = Course::<V> {
            trail: seq![*self],
            at: seq![link],
            checked: Seq::empty(),
            inner: Seq::empty(),
            below: Seq::empty(),
        };
        let mut cur = link;
        proof {
            self.unfold();
            start.lemma_calm_refl();
        }
        loop
            invariant
                self.inv(),
                start.inv(),
                start == *old(self),
                self.graph().is_link(cur as int),
                self.has(sub),
                start.has(sub),
                start.precedes(self),
                start.calm(self),
                self.active_sub() == start.active_sub(),
                done.trail.len() > 0,
                done.at.len() == done.trail.len(),
                done.checked.len() + 1 == done.trail.len(),
                done.inner.len() + 1 == done.trail.len(),
                done.below.len() + 1 == done.trail.len(),
                done.trail[0] == start,
                done.at[0] == link,
                done.trail.last() == *self,
                done.at.last() == cur,
                forall|i: int, j: int|
                    0 <= i && j == i + 1 && j < done.trail.len() ==> {
                        &&& !(#[trigger] done.trail[i]).flags_of(sub).dirty
                        &&& (#[trigger] done.trail[j]).visited(
                            host,
                            &done.trail[i],
                            done.at[i] as int,
                            depth as nat,
                            false,
                            &done.checked[i],
                            done.inner[i],
                            done.below[i],
                        )
                        &&& done.trail[j].graph().links@[done.at[i] as int].next_dep == Some(
                            done.at[j],
                        )
                    },
                self.cycle() == start.cycle() && start.cycle() < usize::MAX
                    ==> self.graph().sys.queued@ == start.graph().sys.queued@,
                first ==> self.graph() == start.graph() && self.contexts() == start.contexts()
                    && cur == link,
                start.decided_by_signals(link as int, sub) ==> {
                    &&& self.passed_to(
                        &start,
                        sub.id as int,
                        start.graph().dep_pos@[link as int],
                        self.graph().dep_pos@[cur as int],
                    )
                    &&& self.graph().is_live(cur as int)
                    &&& self.graph().links@[cur as int].sub == sub.id
                    &&& start.graph().dep_pos@[link as int] <= self.graph().dep_pos@[cur as int]
                    &&& start.verdict(sub.id as int, start.graph().dep_pos@[link as int])
                        == start.verdict(sub.id as int, self.graph().dep_pos@[cur as int])
                },
                !first ==> !start.flags_of(sub).dirty,
                start.nothing_due(link as int) && !start.flags_of(sub).dirty ==> {
                    &&& self.graph() == start.graph()
                    &&& self.contexts() == start.contexts()
                    &&& self.graph().is_live(cur as int)
                    &&& self.graph().links@[cur as int].sub == start.graph().links@[link as int].sub
                    &&& self.graph().dep_pos@[cur as int] >= start.graph().dep_pos@[link as int]
                },
            decreases usize::MAX - self.cycle(), self.graph().dep_rest(cur as int),
        {
            let ghost top = *self;
            let ghost mut checked = *self;
            let ghost mut inner_found = false;
            let ghost mut below = done;
            proof {
                self.unfold();
                start.unfold();
                self.graph.lemma_next_dep(cur as int);
                assert(self.graph.link_ok(cur as int));
                top.lemma_calm_refl();
                if start.decided_by_signals(link as int, sub) {
                    start.lemma_due_signal(&top, link as int, sub, cur as int);
                    self.graph.law_adjacency(cur as int);
                }
            }
            if (self.graph.nodes[sub.id].flags & Flags::dirty()).is_nonzero() {
                proof {
                    start.lemma_course(
                        host,
                        self,
                        &top,
                        link as int,
                        sub,
                        depth as nat,
                        true,
                        done,
                        cur,
                        &checked,
                        inner_found,
                        below,
                    );
                }
                return true;
            }
            let dep = self.graph.links[cur].dep;
            let flags = self.graph.nodes[dep].flags;
            let mut found = false;
            let valued = match self.contexts[dep].kind() {
                NodeKind::Signal => true,
                NodeKind::Computed => true,
                _ => false,
            };
            if (flags & (Flags::mutable() | Flags::dirty())) == (Flags::mutable() | Flags::dirty()) {
                if valued {
                    found = self.draw(host, Node { id: dep }, true);
                }
                proof {
                    self.unfold();
                    if start.decided_by_signals(link as int, sub) {
                        let fresh = choose|fresh: Runtime<V>|
                            {
                                &&& fresh.inv()
                                &&& #[trigger] fresh.updated(host, &top, Node { id: dep }, found)
                                &&& self.contexts() == fresh.contexts()
                                &&& self.graph().concluded(&fresh.graph(), dep as int, found)
                            };
                        fresh.unfold();
                        assert(found == top.renewed_at(dep as int));
                        if !found {
                            assert(self.contexts@ =~= top.contexts@);
                            assert(start.unchanged_signal_at(dep as int));
                            assert(self.graph.nodes@[dep as int].flags == Flags::spec_mutable());
                        }
                    }
                }
            } else if (flags & (Flags::mutable() | Flags::pending())) == (Flags::mutable()
                | Flags::pending()) {
                let computed = match self.contexts[dep].kind() {
                    NodeKind::Computed => true,
                    _ => false,
                };
                let inner = match self.graph.nodes[dep].deps {
                    Some(first_dep) => {
                        proof {
                            assert(self.graph.node_ok(dep as int));
                            assert(self.graph.dep_entry_ok(dep as int, 0));
                        }
                        if !computed {
                            false
                        } else if depth > 0 {
                            let inner = self.check_within(host, first_dep, Node { id: dep }, depth - 1);
                            proof {
                                below = choose|course: Course<V>| #[trigger]
                                    self.walked(
                                        host,
                                        &top,
                                        first_dep as int,
                                        Node { id: dep },
                                        (depth - 1) as nat,
                                        inner,
                                        course,
                                    );
                            }
                            inner
                        } else {
                            true
                        }
                    },
                    None => false,
                };
                proof {
                    checked = *self;
                    inner_found = inner;
                    self.unfold();
                    start.lemma_precedes_trans(&top, &checked);
                    start.lemma_calm_trans(&top, &checked);
                }
                found = self.draw(host, Node { id: dep }, inner);
                proof {
                    self.unfold();
                    top.lemma_precedes_trans(&checked, self);
                    top.lemma_calm_trans(&checked, self);
                }
            }
            proof {
                assert(self.visited(
                    host,
                    &top,
                    cur as int,
                    depth as nat,
                    found,
                    &checked,
                    inner_found,
                    below,
                ));
                self.unfold();
                start.lemma_precedes_trans(&top, self);
                start.lemma_calm_trans(&top, self);
            }
            if found {
                proof {
                    start.lemma_course(
                        host,
                        self,
                        &top,
                        link as int,
                        sub,
                        depth as nat,
                        true,
                        done,
                        cur,
                        &checked,
                        inner_found,
                        below,
                    );
                }
                return true;
            }
            proof {
                self.unfold();
                assert(top.precedes(self));
                assert(top.calm(self));
                if self.cycle() == top.cycle() {
                    self.graph.lemma_next_dep(cur as int);
                    assert(self.graph.dep_rest(cur as int) == top.graph.dep_rest(cur as int));
                }
                if start.decided_by_signals(link as int, sub) {
                    let k = top.graph.dep_pos@[cur as int];
                    let from = start.graph.dep_pos@[link as int];
                    assert(start.dep_at(sub.id as int, k) == dep);
                    assert forall|n: int| 0 <= n < self.graph().nodes@.len() implies (
                    #[trigger] self.graph().nodes@[n]).flags == (if start.unchanged_signal_at(n)
                        && start.among(sub.id as int, from, k + 1, n) {
                        Flags::spec_mutable()
                    } else {
                        start.graph().nodes@[n].flags
                    }) by {
                        assert(top.graph().nodes@[n].flags == (if start.unchanged_signal_at(n)
                            && start.among(sub.id as int, from, k, n) {
                            Flags::spec_mutable()
                        } else {
                            start.graph().nodes@[n].flags
                        }));
                        if n == dep {
                            assert(start.among(sub.id as int, from, k + 1, n));
                        } else {
                            assert(self.graph().nodes@[n].flags == top.graph().nodes@[n].flags);
                            if start.among(sub.id as int, from, k + 1, n) {
                                let w = choose|w: int|
                                    from <= w < k + 1 && #[trigger] start.dep_at(sub.id as int, w)
                                        == n;
                                assert(w != k);
                                assert(start.among(sub.id as int, from, k, n));
                            }
                            if start.among(sub.id as int, from, k, n) {
                                let w = choose|w: int|
                                    from <= w < k && #[trigger] start.dep_at(sub.id as int, w) == n;
                                assert(start.among(sub.id as int, from, k + 1, n));
                            }
                        }
                    }
                    assert(self.passed_to(&start, sub.id as int, from, k + 1));
                }
                first = false;
            }
            match self.graph.links[cur].next_dep {
                Some(next_dep) => {
                    proof {
                        assert(self.graph.link_ok(cur as int));
                        let ghost done0 = done;
                        done = Course::<V> {
                            trail: done0.trail.push(*self),
                            at: done0.at.push(next_dep),
                            checked: done0.checked.push(checked),
                            inner: done0.inner.push(inner_found),
                            below: done0.below.push(below),
                        };
                        assert forall|i: int, j: int|
                            0 <= i && j == i + 1 && j < done.trail.len() implies {
                            &&& !(#[trigger] done.trail[i]).flags_of(sub).dirty
                            &&& (#[trigger] done.trail[j]).visited(
                                host,
                                &done.trail[i],
                                done.at[i] as int,
                                depth as nat,
                                false,
                                &done.checked[i],
                                done.inner[i],
                                done.below[i],
                            )
                            &&& done.trail[j].graph().links@[done.at[i] as int].next_dep == Some(
                                done.at[j],
                            )
                        } by {
                            if j < done0.trail.len() {
                                assert(done.trail[i] == done0.trail[i]);
                                assert(done.trail[j] == done0.trail[j]);
                                assert(done.at[i] == done0.at[i]);
                                assert(done.at[j] == done0.at[j]);
                                assert(done.checked[i] == done0.checked[i]);
                                assert(done.inner[i] == done0.inner[i]);
                                assert(done.below[i] == done0.below[i]);
                            } else {
                                assert(done.trail[i] == top);
                                assert(done.trail[j] == *self);
                                assert(done.checked[i] == checked);
                                assert(done.inner[i] == inner_found);
                                assert(done.below[i] == below);
                            }
                        }
                    }
                    cur = next_dep;
                },
                None => {
                    proof {
                        start.lemma_course(
                            host,
                            self,
                            &top,
                            link as int,
                            sub,
                            depth as nat,
                            false,
                            done,
                            cur,
                            &checked,
                            inner_found,
                            below,
                        );
                    }
                    return false;
                },
            }
        }
    }

    /// A course that has led to `top`, followed by one more visit or by the
    /// finding that `sub` is dirty, is the course of a validation.
    pub proof fn lemma_course<H: Host<V>>(
        &self,
        host: &H,
        end: &Runtime<V>,
        top: &Runtime<V>,
        link: int,
        sub: Node,
        depth: nat,
        found: bool,
        done: Course<V>,
        cur: usize,
        checked: &Runtime<V>,
        inner: bool,
        below: Course<V>,
    )
        requires
            done.trail.len() > 0,
            done.at.len() == done.trail.len(),
            done.checked.len() + 1 == done.trail.len(),
            done.inner.len() + 1 == done.trail.len(),
            done.below.len() + 1 == done.trail.len(),
            done.trail[0] == *self,
            done.at[0] == link,
            done.trail.last() == *top,
            done.at.last() == cur,
            forall|i: int, j: int|
                0 <= i && j == i + 1 && j < done.trail.len() ==> {
                    &&& !(#[trigger] done.trail[i]).flags_of(sub).dirty
                    &&& (#[trigger] done.trail[j]).visited(
                        host,
                        &done.trail[i],
                        done.at[i] as int,
                        depth,
                        false,
                        &done.checked[i],
                        done.inner[i],
                        done.below[i],
                    )
                    &&& done.trail[j].graph().links@[done.at[i] as int].next_dep == Some(done.at[j])
                },
            if top.flags_of(sub).dirty {
                &&& found
                &&& end.graph() == top.graph()
                &&& end.contexts() == top.contexts()
            } else {
                &&& end.visited(host, top, cur as int, depth, found, checked, inner, below)
                &&& !found ==> end.graph().links@[cur as int].next_dep.is_none()
            },
        ensures
            end.validated(host, self, link, sub, depth, found),
    {
        let course = Course::<V> {
            trail: done.trail,
            at: done.at,
            checked: done.checked.push(*checked),
            inner: done.inner.push(inner),
            below: done.below.push(below),
        };
        assert forall|i: int, j: int|
            0 <= i && j == i + 1 && j < course.trail.len() implies {
            &&& !(#[trigger] course.trail[i]).flags_of(sub).dirty
            &&& (#[trigger] course.trail[j]).visited(
                host,
                &course.trail[i],
                course.at[i] as int,
                depth,
                false,
                &course.checked[i],
                course.inner[i],
                course.below[i],
            )
            &&& course.trail[j].graph().links@[course.at[i] as int].next_dep == Some(course.at[j])
        } by {
            assert(course.checked[i] == done.checked[i]);
            assert(course.inner[i] == done.inner[i]);
            assert(course.below[i] == done.below[i]);
        }
        assert(course.checked.last() == *checked);
        assert(course.inner.last() == inner);
        assert(course.below.last() == below);
        assert(end.walked(host, self, link, sub, depth, found, course));
    }

    /// What `rerun` makes of a runtime, given the runtime `begun` that the
    /// thunk was handed and the runtime `ran` that it returned: one more start
    /// of the thunk is counted and an evaluation of `e` is begun; afterwards
    /// reads are attributed to the subscriber before again, and the
    /// dependencies that the thunk did not read are let go of.
    pub open spec fn reran<H: Host<V>>(
        &self,
        host: &H,
        before: &Runtime<V>,
        begun: &Runtime<V>,
        ran: &Runtime<V>,
        e: Node,
    ) -> bool {
        &&& begun.inv()
        &&& begun.graph().tracking(&before.graph(), e.id as int, Flags::spec_running())
        &&& begun.contexts_kept(before, e)
        &&& begun.runs(e) == before.runs(e) + 1
        &&& host.performs(*begun, *ran, e)
        &&& begun.precedes(ran)
        &&& ran.inv()
        &&& self.contexts() == ran.contexts()
        &&& self.graph().ended(&ran.graph(), e.id as int, before.graph().sys.active_sub)
    }

    /// Starts the thunk of the effect `e`, with its dependencies recorded.
    pub fn rerun<H: Host<V>>(&mut self, host: &H, e: Node)
        requires
            old(self).inv(),
            old(self).is_effect(e),
            old(self).cycle() < usize::MAX,
        ensures
            final(self).inv(),
            old(self).precedes(final(self)),
            final(self).cycle() > old(self).cycle(),
            final(self).runs(e) > old(self).runs(e),
            exists|begun: Runtime<V>, ran: Runtime<V>| #[trigger]
                final(self).reran(host, old(self), &begun, &ran, e),
    {
        proof {
            self.unfold();
        }
        let prev_sub = self.graph.start_tracking(
            e.id,
            Flags::watching() | Flags::recursed_check(),
        );
        proof {
            self.unfold();
        }
        self.count_run(e);
        let ghost begun = *self;
        proof {
            self.unfold();
            old(self).unfold();
            assert(old(self).precedes(&begun));
        }
        host.run(self, e);
        let ghost ran = *self;
        proof {
            self.unfold();
            old(self).lemma_precedes_trans(&begun, &ran);
        }
        self.graph.end_tracking(e.id, prev_sub);
        proof {
            self.unfold();
            assert(ran.precedes(self));
            old(self).lemma_precedes_trans(&ran, self);
            assert(self.reran(host, old(self), &begun, &ran, e));
        }
    }

    /// Whether `n` has dependencies to validate if it is pending and not
    /// dirty.
    pub open spec fn checkable(&self, n: Node) -> bool {
        self.flags_of(n).pending && !self.flags_of(n).dirty ==> self.graph().dep_lists@[n.id as int].len()
            > 0
    }

    /// Whether `node` has dependencies to validate if it is pending and not
    /// dirty.
    pub fn can_validate(&self, node: Node) -> (ok: bool)
        requires
            self.inv(),
            self.has(node),
        ensures
            ok == self.checkable(node),
    {
        proof {
            self.unfold();
            assert(self.graph.node_ok(node.id as int));
        }
        let marks = self.graph.nodes[node.id].flags;
        !((marks & (Flags::pending() | Flags::dirty())) == Flags::pending()
            && self.graph.nodes[node.id].deps.is_none())
    }

    /// Whether `e` is an effect, and an evaluation can still be counted.
    pub open spec fn runnable(&self, e: Node) -> bool {
        self.is_effect(e) && self.cycle() < usize::MAX
    }

    /// What the question whether `e` has to be evaluated anew makes of a
    /// runtime, and the answer `stale` to it: yes where `e` is dirty; where
    /// it is pending and has dependencies, what their validation finds; else
    /// no.
    pub open spec fn examined<H: Host<V>>(
        &self,
        host: &H,
        before: &Runtime<V>,
        e: Node,
        stale: bool,
    ) -> bool {
        let f = before.flags_of(e);
        let first = before.graph().nodes@[e.id as int].deps;
        if !f.dirty && f.pending && first.is_some() {
            self.validated(
                host,
                before,
                first.unwrap() as int,
                e,
                before.graph().nodes@.len(),
                stale,
            )
        } else {
            &&& stale == f.dirty
            &&& self.graph() == before.graph()
            &&& self.contexts() == before.contexts()
        }
    }

    /// What `run` makes of a runtime: an effect that is found stale is
    /// started anew, unless the count of evaluations is exhausted by then;
    /// one that is not is armed again, and nothing else happens to it.
    /// Nothing happens where no evaluation can be counted.
    pub open spec fn attended<H: Host<V>>(&self, host: &H, before: &Runtime<V>, e: Node) -> bool {
        if before.cycle() < usize::MAX {
            exists|checked: Runtime<V>, stale: bool|
                {
                    &&& checked.inv()
                    &&& #[trigger] checked.examined(host, before, e, stale)
                    &&& if !stale {
                        &&& self.contexts() == checked.contexts()
                        &&& self.graph().reflagged(
                            &checked.graph(),
                            e.id as int,
                            Flags::spec_watching(),
                        )
                    } else if checked.cycle() < usize::MAX {
                        exists|begun: Runtime<V>, ran: Runtime<V>| #[trigger]
                            self.reran(host, &checked, &begun, &ran, e)
                    } else {
                        &&& self.graph() == checked.graph()
                        &&& self.contexts() == checked.contexts()
                    }
                }
        } else {
            &&& self.graph() == before.graph()
            &&& self.contexts() == before.contexts()
        }
    }

    /// Runs the effect `e` if it has to: if it is dirty, or is pending and a
    /// dependency of it turns out to have a new value. Else it is armed
    /// again without running. Nothing happens where the count of
    /// evaluations is exhausted.
    pub fn run<H: Host<V>>(&mut self, host: &H, e: Node)
        requires
            old(self).inv(),
            old(self).has(e),
            old(self).is_effect(e),
            old(self).checkable(e),
        ensures
            final(self).inv(),
            old(self).precedes(final(self)),
            final(self).active_sub() == old(self).active_sub(),
            final(self).attended(host, old(self), e),
            final(self).cycle() > old(self).cycle() || (final(self).cycle() == old(self).cycle()
                && final(self).graph().sys.queued@ == old(self).graph().sys.queued@
                && final(self).graph().sys.queue_head == old(self).graph().sys.queue_head),
            old(self).cycle() == usize::MAX ==> final(self).graph() == old(self).graph()
                && final(self).contexts() == old(self).contexts(),
            old(self).runnable(e) && old(self).flags_of(e).dirty ==> final(self).runs(e)
                > old(self).runs(e) && exists|begun: Runtime<V>, ran: Runtime<V>| #[trigger]
                final(self).reran(host, old(self), &begun, &ran, e),
            old(self).runnable(e) && !old(self).flags_of(e).dirty && (!old(self).flags_of(e).pending
                || old(self).graph().dep_lists@[e.id as int].len() == 0) ==> final(self).contexts()
                == old(self).contexts() && final(self).graph().reflagged(
                &old(self).graph(),
                e.id as int,
                Flags::spec_watching(),
            ),
            old(self).runnable(e) && !old(self).flags_of(e).dirty && old(self).spared(e) ==> {
                &&& final(self).runs(e) == old(self).runs(e)
                &&& final(self).flags_of(e) == Flags::spec_watching()
            },
            old(self).runnable(e) && old(self).overdue(e) ==> final(self).runs(e) > old(self).runs(e),
    {
        proof {
            self.unfold();
            assert(self.graph.node_ok(e.id as int));
        }
        if self.graph.sys.cycle == usize::MAX {
            return ;
        }
        let flags = self.graph.nodes[e.id].flags;
        let stale = if (flags & Flags::dirty()).is_nonzero() {
            true
        } else if (flags & Flags::pending()).is_nonzero() {
            match self.graph.nodes[e.id].deps {
                Some(first_dep) => {
                    proof {
                        assert(self.graph.dep_entry_ok(e.id as int, 0));
                    }
                    self.check_dirty(host, first_dep, e)
                },
                None => false,
            }
        } else {
            false
        };
        let ghost checked = *self;
        proof {
            self.unfold();
            assert(checked.examined(host, old(self), e, stale));
        }
        if stale {
            if self.graph.sys.cycle == usize::MAX {
                return ;
            }
            self.rerun(host, e);
            proof {
                old(self).lemma_precedes_trans(&checked, self);
            }
        } else {
            self.graph.set_flags(e.id, Flags::watching());
            proof {
                self.unfold();
                assert(checked.precedes(self));
                old(self).lemma_precedes_trans(&checked, self);
            }
        }
    }

    /// Counts one more start of the thunk of `e`.
    pub(crate) fn count_run(&mut self, e: Node)
        requires
            old(self).inv(),
            old(self).has(e),
        ensures
            final(self).inv(),
            old(self).precedes(final(self)),
            final(self).graph() == old(self).graph(),
            final(self).contexts_kept(old(self), e),
            final(self).runs(e) == if old(self).is_effect(e) {
                old(self).runs(e) + 1
            } else {
                old(self).runs(e)
            },
    {
        proof {
            self.unfold();
        }
        match &mut self.contexts[e.id] {
            NodeContext::Effect(ctx) => {
                proof {
                    ctx.runs@ = ctx.runs@ + 1;
                }
            },
            _ => {},
        }
        proof {
            self.unfold();
        }
    }

    /// Whether the effect at the head of the queue is dirty, and can be run.
    pub open spec fn head_due(&self) -> bool {
        &&& self.queue().len() > 0
        &&& self.cycle() < usize::MAX
        &&& self.is_effect(Node { id: self.queue()[0] })
        &&& self.flags_of(Node { id: self.queue()[0] }).dirty
    }

    /// `self` is `before` with the first effect taken off the queue.
    pub open spec fn took(&self, before: &Runtime<V>) -> bool {
        &&& self.inv()
        &&& self.contexts() == before.contexts()
        &&& self.graph().dequeued(&before.graph())
    }

    /// What one turn of `flush` makes of a runtime: the node that stood
    /// first in the queue is taken off it, and attended to by `run` if it is
    /// an effect that can be validated.
    pub open spec fn served<H: Host<V>>(&self, host: &H, before: &Runtime<V>) -> bool {
        &&& before.queue().len() > 0
        &&& exists|popped: Runtime<V>|
            {
                &&& #[trigger] popped.took(before)
                &&& if popped.is_effect(Node { id: before.queue()[0] }) && popped.checkable(
                    Node { id: before.queue()[0] },
                ) {
                    self.attended(host, &popped, Node { id: before.queue()[0] })
                } else {
                    &&& self.graph() == popped.graph()
                    &&& self.contexts() == popped.contexts()
                }
            }
    }

    /// Whether the turn of `flush` at place `i` of `trail` leads to the
    /// runtime that follows.
    pub open spec fn turn<H: Host<V>>(host: &H, trail: Seq<Runtime<V>>, i: int) -> bool {
        trail[i + 1].served(host, &trail[i])
    }

    /// Whether `trail` is the course of a `flush` that leads from `before` to
    /// `self`: the runtime before each turn, and the one in which the queue
    /// was found empty.
    pub open spec fn drained<H: Host<V>>(
        &self,
        host: &H,
        before: &Runtime<V>,
        trail: Seq<Runtime<V>>,
    ) -> bool {
        &&& trail.len() > 0
        &&& trail[0] == *before
        &&& forall|i: int| 0 <= i && i + 1 < trail.len() ==> #[trigger] Self::turn(host, trail, i)
        &&& trail.last().queue().len() == 0
        &&& self.graph().same(&trail.last().graph())
        &&& self.contexts() == trail.last().contexts()
    }

    /// What `flush` makes of a runtime: the queued effects were attended to
    /// in turn, each when it stood first in the queue, those that were
    /// queued meanwhile too, until no effect was queued any longer. Reads
    /// are attributed to the subscriber that they were attributed to. With
    /// none queued before, nothing has changed. An effect that stood first in
    /// the queue and was dirty has run.
    pub open spec fn flushed<H: Host<V>>(&self, host: &H, before: &Runtime<V>) -> bool {
        &&& self.inv()
        &&& before.precedes(self)
        &&& self.queue().len() == 0
        &&& self.active_sub() == before.active_sub()
        &&& exists|trail: Seq<Runtime<V>>| #[trigger] self.drained(host, before, trail)
        &&& before.queue().len() == 0 ==> self.graph().same(&before.graph()) && self.contexts()
            == before.contexts()
        &&& before.head_due() ==> {
            let head = Node { id: before.queue()[0] };
            self.runs(head) > before.runs(head)
        }
    }

    /// Runs the queued effects, first in first out, until none is left. An
    /// effect that was queued runs if it is found dirty when its turn comes,
    /// or pending with a dependency that has a new value. A queued node that
    /// is no effect, or is pending and has no dependency to validate, is
    /// taken off the queue and left as it is.
    pub fn flush<H: Host<V>>(&mut self, host: &H)
        requires
            old(self).inv(),
        ensures
            final(self).flushed(host, old(self)),
    {
        let ghost start = *self;
        let ghost mut first = true;
        let ghost mut trail: Seq<Runtime<V>> = seq![*self];
        proof {
            self.lemma_calm_refl();
        }
        loop
            invariant_except_break
                trail.last() == *self,
            invariant
                self.inv(),
                start.inv(),
                start == *old(self),
                start.precedes(self),
                self.active_sub() == start.active_sub(),
                trail.len() > 0,
                trail[0] == start,
                forall|i: int| 0 <= i && i + 1 < trail.len() ==> #[trigger] Self::turn(host, trail, i),
                first ==> self.graph().same(&start.graph()) && self.contexts() == start.contexts(),
                !first && start.head_due() ==> self.runs(Node { id: start.queue()[0] }) > start.runs(
                    Node { id: start.queue()[0] },
                ),
                !first ==> start.queue().len() > 0,
            ensures
                self.queue().len() == 0,
                self.active_sub() == start.active_sub(),
                self.drained(host, &start, trail),
                first ==> self.graph().same(&start.graph()) && self.contexts() == start.contexts(),
            decreases usize::MAX - self.cycle(), self.queue().len(),
        {
            let ghost top = *self;
            proof {
                self.unfold();
            }
            match self.graph.pop_queued() {
                Some(effect) => {
                    let ghost popped = *self;
                    proof {
                        self.unfold();
                        top.unfold();
                        assert(top.precedes(&popped));
                        assert(popped.took(&top));
                    }
                    let sound = self.can_validate(Node { id: effect });
                    match self.contexts[effect].kind() {
                        NodeKind::Effect => {
                            if sound {
                                self.run(host, Node { id: effect });
                            }
                        },
                        _ => {},
                    }
                    proof {
                        self.unfold();
                        top.lemma_precedes_trans(&popped, self);
                        start.lemma_precedes_trans(&top, self);
                        assert(self.served(host, &top));
                        let ghost trail0 = trail;
                        trail = trail.push(*self);
                        assert forall|i: int| 0 <= i && i + 1 < trail.len() implies #[trigger] Self::turn(
                            host,
                            trail,
                            i,
                        ) by {
                            if i + 1 < trail0.len() {
                                assert(Self::turn(host, trail0, i));
                                assert(trail[i] == trail0[i]);
                                assert(trail[i + 1] == trail0[i + 1]);
                            } else {
                                assert(trail[i] == top);
                                assert(trail[i + 1] == *self);
                            }
                        }
                        first = false;
                    }
                },
                None => {
                    proof {
                        self.unfold();
                        top.unfold();
                        assert(trail.last() == top);
                        assert(self.drained(host, &start, trail));
                    }
                    break ;
                },
            }
        }
    }

    /// Whether the validation of `sub` has a ground to report a change in the
    /// runtime `top`: `sub` is dirty there, or bringing `dep` up to date from
    /// there reports that its value has changed, by the equality that `dep`
    /// compares by.
    pub open spec fn change_at<H: Host<V>>(host: &H, top: Runtime<V>, sub: Node, dep: Node) -> bool {
        ||| top.flags_of(sub).dirty
        ||| exists|fresh: Runtime<V>| #[trigger] fresh.updated(host, &top, dep, true)
    }

    /// Whether a validation of `sub` has a ground to report a change
    /// anywhere.
    pub open spec fn change_somewhere<H: Host<V>>(host: &H, sub: Node) -> bool {
        exists|top: Runtime<V>, dep: Node| #[trigger] Self::change_at(host, top, sub, dep)
    }

    /// A validation reports a change only where it has a ground to: where it
    /// found the subscriber dirty, or where a dependency that it brought up
    /// to date had a new value. A dependency whose new value is equal to the
    /// one that it held gives no ground, whatever has changed behind it.
    pub proof fn law_change_needs_ground<H: Host<V>>(
        &self,
        host: &H,
        after: &Runtime<V>,
        link: int,
        sub: Node,
        depth: nat,
    )
        requires
            after.validated(host, self, link, sub, depth, true),
        ensures
            Self::change_somewhere(host, sub),
    {
        let course = choose|course: Course<V>| #[trigger]
            after.walked(host, self, link, sub, depth, true, course);
        let top = course.trail.last();
        let cur = course.at.last() as int;
        let dep = Node { id: top.graph().links@[cur].dep };
        if top.flags_of(sub).dirty {
            assert(Self::change_at(host, top, sub, dep));
        } else {
            let checked = course.checked.last();
            let inner = course.inner.last();
            assert(after.visited(host, &top, cur, depth, true, &checked, inner, course.below.last()));
            if after.drawn(host, &top, dep, true, true) {
                assert(Self::change_at(host, top, sub, dep));
            } else {
                assert(after.drawn(host, &checked, dep, inner, true));
                assert(Self::change_at(host, checked, sub, dep));
            }
        }
    }

    /// An effect that is not dirty is not started anew by `run` unless its
    /// validation has a ground to report a change: it is armed again, and
    /// nothing else happens to it after the validation.
    pub proof fn law_effect_spared<H: Host<V>>(&self, host: &H, after: &Runtime<V>, e: Node)
        requires
            after.attended(host, self, e),
            self.cycle() < usize::MAX,
            !self.flags_of(e).dirty,
            !Self::change_somewhere(host, e),
        ensures
            exists|checked: Runtime<V>|
                {
                    &&& #[trigger] checked.examined(host, self, e, false)
                    &&& after.contexts() == checked.contexts()
                    &&& after.graph().reflagged(&checked.graph(), e.id as int, Flags::spec_watching())
                },
    {
        let (checked, stale) = choose|checked: Runtime<V>, stale: bool|
            {
                &&& checked.inv()
                &&& #[trigger] checked.examined(host, self, e, stale)
                &&& if !stale {
                    &&& after.contexts() == checked.contexts()
                    &&& after.graph().reflagged(
                        &checked.graph(),
                        e.id as int,
                        Flags::spec_watching(),
                    )
                } else if checked.cycle() < usize::MAX {
                    exists|begun: Runtime<V>, ran: Runtime<V>| #[trigger]
                        after.reran(host, &checked, &begun, &ran, e)
                } else {
                    &&& after.graph() == checked.graph()
                    &&& after.contexts() == checked.contexts()
                }
            };
        if stale {
            let first = self.graph().nodes@[e.id as int].deps;
            self.law_change_needs_ground(
                host,
                &checked,
                first.unwrap() as int,
                e,
                self.graph().nodes@.len(),
            );
        }
    }

    /// A flush starts the thunk of an effect that stands first in the queue
    /// and is dirty.
    pub proof fn law_flush_starts_dirty_head<H: Host<V>>(&self, host: &H, after: &Runtime<V>)
        requires
            self.inv(),
            after.flushed(host, self),
            self.head_due(),
        ensures
            exists|begun: Runtime<V>, ran: Runtime<V>| #[trigger]
                host.performs(begun, ran, Node { id: self.queue()[0] }),
    {
        let head = Node { id: self.queue()[0] };
        let trail = choose|trail: Seq<Runtime<V>>| #[trigger] after.drained(host, self, trail);
        assert(trail.len() >= 2);
        assert(Self::turn(host, trail, 0));
        let next = trail[1];
        let popped = choose|popped: Runtime<V>|
            {
                &&& #[trigger] popped.took(self)
                &&& if popped.is_effect(head) {
                    next.attended(host, &popped, head)
                } else {
                    &&& next.graph() == popped.graph()
                    &&& next.contexts() == popped.contexts()
                }
            };
        assert(popped.is_effect(head));
        assert(popped.flags_of(head).dirty);
        assert(popped.checkable(head));
        assert(next.attended(host, &popped, head));
        let (checked, stale) = choose|checked: Runtime<V>, stale: bool|
            {
                &&& checked.inv()
                &&& #[trigger] checked.examined(host, &popped, head, stale)
                &&& if !stale {
                    &&& next.contexts() == checked.contexts()
                    &&& next.graph().reflagged(
                        &checked.graph(),
                        head.id as int,
                        Flags::spec_watching(),
                    )
                } else if checked.cycle() < usize::MAX {
                    exists|begun: Runtime<V>, ran: Runtime<V>| #[trigger]
                        next.reran(host, &checked, &begun, &ran, head)
                } else {
                    &&& next.graph() == checked.graph()
                    &&& next.contexts() == checked.contexts()
                }
            };
        assert(stale);
        let (begun, ran) = choose|begun: Runtime<V>, ran: Runtime<V>| #[trigger]
            next.reran(host, &checked, &begun, &ran, head);
        assert(host.performs(begun, ran, head));
    }

    /// What `trigger` makes of a runtime, given the runtime `begun` that the
    /// closure was handed, the runtime `ran` that it returned, and the runtime
    /// `marked` in which what the closure read was invalidated: while the
    /// closure ran, reads were attributed to a new watching node; afterwards
    /// that node has let go of what it collected, and every subscriber of a
    /// node that it had collected is dirty, or is under evaluation. Unless a
    /// batch was open when the closure returned, the queued effects have run
    /// since.
    pub open spec fn triggered<H: Host<V>>(
        &self,
        host: &H,
        before: &Runtime<V>,
        begun: &Runtime<V>,
        ran: &Runtime<V>,
        marked: &Runtime<V>,
    ) -> bool {
        &&& begun.inv()
        &&& begun.contexts() == before.contexts().push(NodeContext::Scope)
        &&& begun.graph().adopted(
            &before.graph(),
            Flags::spec_watching(),
            Some(before.graph().nodes.len()),
        )
        &&& begun.precedes(ran)
        &&& ran.inv()
        &&& marked.inv()
        &&& ran.precedes(marked)
        &&& marked.contexts() == ran.contexts()
        &&& marked.cycle() == ran.cycle()
        &&& marked.batch_depth() == ran.batch_depth()
        &&& marked.active_sub() == before.active_sub()
        &&& exists|reset: Graph|
            {
                &&& #[trigger] reset.same_records(&ran.graph())
                &&& reset.sys.active_sub == before.graph().sys.active_sub
                &&& reset.sys.cycle == ran.graph().sys.cycle
                &&& reset.sys.batch_depth == ran.graph().sys.batch_depth
                &&& reset.sys.queued@ == ran.graph().sys.queued@
                &&& reset.sys.queue_head == ran.graph().sys.queue_head
                &&& marked.graph().scattered(&reset, before.contexts().len() as int)
            }
        &&& marked.graph().dep_lists@[before.contexts().len() as int].len() == 0
        &&& ran.graph().sub_lists@[before.contexts().len() as int].len() == 0
            ==> marked.graph().overruled(
            ran.graph().collected(before.contexts().len() as int),
            before.contexts().len() as int,
        )
        &&& if ran.batch_depth() > 0 {
            *self == *marked
        } else {
            self.flushed(host, marked)
        }
    }
}

} // verus!
