//! Reading and writing the values of nodes.

use vstd::prelude::*;
use vstd::std_specs::cmp::PartialEqSpec;
use crate::flags::Flags;
use crate::graph::Graph;
use crate::runtime::{Host, Node, NodeContext, Runtime};

verus! {

impl Graph {
    /// The subscriber to which a read of a signal is attributed: the nearest
    /// node that produces a value or watches, from `start` upwards through
    /// the nodes that each is attached to, `fuel` steps at most.
    pub open spec fn tracker_from(&self, start: Option<usize>, fuel: nat) -> Option<usize>
        decreases fuel,
    {
        match start {
            None => None,
            Some(x) => if fuel == 0 {
                None
            } else if self.nodes@[x as int].flags.mutable || self.nodes@[x as int].flags.watching {
                Some(x)
            } else {
                self.tracker_from(self.parent(x as int), (fuel - 1) as nat)
            },
        }
    }

    /// The subscriber to which a read of a signal is attributed.
    pub open spec fn tracker(&self) -> Option<usize> {
        self.tracker_from(self.sys.active_sub, self.nodes@.len())
    }

    /// Finds the subscriber to which a read of a signal is attributed.
    pub fn find_tracker(&self) -> (found: Option<usize>)
        requires
            self.wf(),
        ensures
            found == self.tracker(),
            match found {
                Some(x) => self.is_node(x as int),
                None => true,
            },
    {
        let mut sub = self.sys.active_sub;
        let mut fuel = self.nodes.len();
        loop
            invariant
                self.wf(),
                match sub {
                    Some(x) => self.is_node(x as int),
                    None => true,
                },
                self.tracker_from(sub, fuel as nat) == self.tracker(),
            decreases fuel,
        {
            match sub {
                Some(x) => {
                    if fuel == 0 {
                        return None;
                    }
                    let flags = self.nodes[x].flags;
                    if (flags & (Flags::mutable() | Flags::watching())).is_nonzero() {
                        return Some(x);
                    }
                    proof {
                        assert(self.node_ok(x as int));
                        if self.sub_lists@[x as int].len() > 0 {
                            assert(self.sub_entry_ok(x as int, 0));
                            assert(self.link_ok(self.sub_lists@[x as int][0] as int));
                        }
                    }
                    sub = match self.nodes[x].subs {
                        Some(s) => Some(self.links[s].sub),
                        None => None,
                    };
                    fuel = fuel - 1;
                },
                None => {
                    return None;
                },
            }
        }
    }
}

impl<V: Clone + PartialEq> Runtime<V> {
    /// What `f` makes of the current value of the signal `s`.
    pub fn map_current<F: FnOnce(&V) -> V>(&self, s: Node, f: F) -> (value: V)
        requires
            self.inv(),
            self.is_signal(s),
            call_requires(f, (&self.signal_values(s).0,)),
        ensures
            call_ensures(f, (&self.signal_values(s).0,), value),
    {
        proof {
            self.unfold();
        }
        match &self.contexts[s.id] {
            NodeContext::Signal(ctx) => f(&ctx.current_value),
            _ => {
                proof {
                    assert(false);
                }
                vstd::pervasive::unreached()
            },
        }
    }

    /// A copy of the current value of the signal `s`.
    pub fn current_clone(&self, s: Node) -> (value: V)
        requires
            self.inv(),
            self.is_signal(s),
        ensures
            cloned(self.signal_values(s).0, value),
    {
        proof {
            self.unfold();
        }
        match &self.contexts[s.id] {
            NodeContext::Signal(ctx) => ctx.current_value.clone(),
            _ => {
                proof {
                    assert(false);
                }
                vstd::pervasive::unreached()
            },
        }
    }

    /// What a read of the signal `s` makes of a runtime, given the graph
    /// `mid` as it was before the read was recorded, and whether the value
    /// changed: a signal that was written to is brought up to date, and the
    /// read is recorded with the subscriber that reads are attributed to.
    pub open spec fn read_as<H: Host<V>>(
        &self,
        host: &H,
        before: &Runtime<V>,
        s: Node,
        mid: Graph,
        changed: bool,
    ) -> bool {
        &&& mid.wf()
        &&& self.contexts_kept(before, s)
        &&& self.signal_values(s).1 == before.signal_values(s).1
        &&& if before.flags_of(s).dirty {
            exists|updated: Runtime<V>|
                {
                    &&& updated.inv()
                    &&& #[trigger] updated.signal_updated(host, before, s, changed)
                    &&& self.contexts() == updated.contexts()
                    &&& mid.announced(&updated.graph(), s.id as int, changed)
                }
        } else {
            &&& mid == before.graph()
            &&& self.contexts() == before.contexts()
            &&& !changed
        }
        &&& match mid.tracker() {
            Some(x) => mid.is_node(x as int) && self.graph().linked(
                &mid,
                s.id as int,
                x as int,
                before.cycle(),
            ),
            None => self.graph() == mid,
        }
    }

    /// Reads the signal `s`: brings it up to date if it was written to,
    /// marks its pending subscribers as dirty if its value changed, records
    /// the read with the subscriber that reads are attributed to, and returns
    /// a copy of the current value. Returns also the graph as it was before
    /// the read was recorded, and whether the value changed.
    pub fn read_signal<H: Host<V>>(&mut self, host: &H, s: Node) -> (r: (V, Ghost<(Graph, bool)>))
        requires
            old(self).inv(),
            old(self).is_signal(s),
        ensures
            final(self).active_sub() == old(self).active_sub(),
            final(self).inv(),
            old(self).precedes(final(self)),
            final(self).cycle() == old(self).cycle(),
            cloned(final(self).signal_values(s).0, r.0),
            final(self).read_as(host, old(self), s, r.1@.0, r.1@.1),
    {
        proof {
            self.unfold();
            assert(self.graph.node_ok(s.id as int));
        }
        let ghost mut changed = false;
        if (self.graph.nodes[s.id].flags & Flags::dirty()).is_nonzero() {
            let value_changed = self.update_signal(host, s);
            let ghost updated = *self;
            proof {
                self.unfold();
                changed = value_changed;
            }
            self.graph.announce(s.id, value_changed);
            proof {
                self.unfold();
                assert(updated.signal_updated(host, old(self), s, changed));
            }
        }
        let ghost mid = self.graph;
        proof {
            self.unfold();
        }
        match self.graph.find_tracker() {
            Some(sub) => {
                let version = self.graph.sys.cycle;
                self.graph.link(s.id, sub, version);
            },
            None => {},
        }
        proof {
            self.unfold();
        }
        let value = self.current_clone(s);
        (value, Ghost((mid, changed)))
    }

    /// Whether the pending value of the signal `s` is equal to `value`, by
    /// its own equality where the host holds one, else by `==`.
    pub fn pending_unchanged<H: Host<V>>(&self, host: &H, s: Node, value: &V) -> (same: bool)
        requires
            self.inv(),
            self.is_signal(s),
        ensures
            !self.has_custom_eq(s) && V::obeys_eq_spec() ==> same == self.signal_values(s).1.eq_spec(
                value,
            ),
            self.has_custom_eq(s) ==> same == host.equates(s, self.signal_values(s).1, *value),
    {
        proof {
            self.unfold();
        }
        match &self.contexts[s.id] {
            NodeContext::Signal(ctx) => {
                if ctx.custom_eq {
                    host.same(s, &ctx.pending_value, value)
                } else {
                    ctx.pending_value == *value
                }
            },
            _ => true,
        }
    }

    /// Makes `value` the pending value of the signal `s`, and marks the
    /// signal as dirty unless `same` says that the pending value before was
    /// equal. Says whether it was marked.
    pub fn stage_signal(&mut self, s: Node, value: V, same: bool) -> (changed: bool)
        requires
            old(self).inv(),
            old(self).is_signal(s),
        ensures
            final(self).inv(),
            old(self).precedes(final(self)),
            changed == !same,
            final(self).contexts_kept(old(self), s),
            final(self).signal_values(s) == (old(self).signal_values(s).0, value),
            same ==> final(self).graph() == old(self).graph(),
            !same ==> final(self).graph().reflagged(
                &old(self).graph(),
                s.id as int,
                Flags { mutable: true, dirty: true, ..Flags::spec_none() },
            ),
    {
        proof {
            self.unfold();
        }
        match &mut self.contexts[s.id] {
            NodeContext::Signal(ctx) => {
                ctx.pending_value = value;
            },
            _ => {},
        }
        if !same {
            self.graph.set_flags(s.id, Flags::mutable() | Flags::dirty());
        }
        proof {
            self.unfold();
        }
        !same
    }

    /// What a write of `value` to the signal `s` makes of a runtime, given
    /// whether `value` was found equal to the pending value. An equal value
    /// is kept without more ado. Else the signal is marked as dirty, and what
    /// depends on it is seen to; outside a batch the queued effects have run.
    pub open spec fn wrote<H: Host<V>>(
        &self,
        host: &H,
        before: &Runtime<V>,
        s: Node,
        value: V,
        same: bool,
    ) -> bool {
        let unread = before.graph().sub_lists@[s.id as int].len() == 0;
        &&& !before.has_custom_eq(s) && V::obeys_eq_spec() ==> same == before.signal_values(
            s,
        ).1.eq_spec(&value)
        &&& before.has_custom_eq(s) ==> same == host.equates(s, before.signal_values(s).1, value)
        &&& if same || unread || before.batch_depth() > 0 {
            self.staged(before, s, value, same)
        } else {
            exists|marked: Runtime<V>|
                {
                    &&& marked.inv()
                    &&& #[trigger] marked.staged(before, s, value, same)
                    &&& self.flushed(host, &marked)
                }
        }
    }

    /// What a write of `value` to the signal `s` makes of a runtime before
    /// any effect runs: the value is pending; unless it was found equal to
    /// the one that was, the signal is dirty, and what depends on it is seen
    /// to.
    pub open spec fn staged(&self, before: &Runtime<V>, s: Node, value: V, same: bool) -> bool {
        &&& self.contexts_kept(before, s)
        &&& self.signal_values(s) == (before.signal_values(s).0, value)
        &&& self.cycle() == before.cycle()
        &&& self.batch_depth() == before.batch_depth()
        &&& if same {
            self.graph() == before.graph()
        } else {
            self.graph().written(&before.graph(), s.id as int)
        }
    }

    /// Writes `value` to the signal `s`. If it differs from the pending
    /// value, the signal is marked as dirty and what depends on it as
    /// pending; outside a batch the queued effects are then run. Returns
    /// whether `value` was found equal to the pending value.
    pub fn write_signal<H: Host<V>>(&mut self, host: &H, s: Node, value: V) -> (same: Ghost<bool>)
        requires
            old(self).inv(),
            old(self).is_signal(s),
        ensures
            final(self).active_sub() == old(self).active_sub(),
            final(self).inv(),
            old(self).precedes(final(self)),
            final(self).wrote(host, old(self), s, value, same@),
    {
        let same = self.pending_unchanged(host, s, &value);
        let changed = self.stage_signal(s, value, same);
        let ghost staged = *self;
        proof {
            self.unfold();
            old(self).unfold();
            assert(self.graph.node_ok(s.id as int));
            if changed {
                assert(staged.graph.restaged(&old(self).graph, s.id as int));
            }
        }
        if changed {
            match self.graph.nodes[s.id].subs {
                Some(subs) => {
                    proof {
                        assert(self.graph.sub_entry_ok(s.id as int, 0));
                        assert(self.graph.link_ok(subs as int));
                    }
                    self.graph.propagate(subs);
                    let ghost marked = *self;
                    proof {
                        self.unfold();
                        assert(staged.precedes(&marked));
                        old(self).lemma_precedes_trans(&staged, &marked);
                    }
                    proof {
                        assert(marked.staged(old(self), s, value, same));
                    }
                    if self.graph.sys.batch_depth == 0 {
                        self.flush(host);
                        proof {
                            old(self).lemma_precedes_trans(&marked, self);
                        }
                    }
                },
                None => {},
            }
        }
        Ghost(same)
    }

    /// Whether the computed `c` can be read: it holds a value, or was never
    /// evaluated, or is due for an evaluation that can still be counted.
    pub open spec fn readable(&self, c: Node) -> bool {
        ||| self.cached(c).is_some()
        ||| self.flags_of(c).empty()
        ||| (self.flags_of(c).dirty && self.cycle() < usize::MAX)
    }

    /// What `cold_compute` makes of a runtime, given the runtime `begun`
    /// that the getter was handed, and the runtime `ran` and the `value` that
    /// the getter returned: while the getter ran, `c` was marked as under
    /// evaluation and reads were attributed to it; afterwards the value is
    /// kept, reads are attributed to the subscriber before again, and `c` is
    /// no longer marked as under evaluation.
    pub open spec fn warmed<H: Host<V>>(
        &self,
        host: &H,
        before: &Runtime<V>,
        begun: &Runtime<V>,
        ran: &Runtime<V>,
        c: Node,
        value: V,
    ) -> bool {
        &&& begun.inv()
        &&& begun.contexts() == before.contexts()
        &&& begun.graph().entered(&before.graph(), c.id as int, Flags::spec_computing())
        &&& ran.got(host, begun, c, value)
        &&& begun.precedes(ran)
        &&& ran.inv()
        &&& self.contexts_kept(ran, c)
        &&& self.cached(c) == Some(value)
        &&& self.graph().resumed(&ran.graph(), c.id as int, before.graph().sys.active_sub)
    }

    /// Evaluates the computed `c` for the first time, without a record of
    /// what it reads being begun or ended.
    pub fn cold_compute<H: Host<V>>(&mut self, host: &H, c: Node)
        requires
            old(self).inv(),
            old(self).is_computed(c),
        ensures
            final(self).inv(),
            old(self).precedes(final(self)),
            final(self).cached(c).is_some(),
            final(self).active_sub() == old(self).active_sub(),
            !final(self).flags_of(c).recursed_check,
            exists|begun: Runtime<V>, ran: Runtime<V>, value: V| #[trigger]
                final(self).warmed(host, old(self), &begun, &ran, c, value),
    {
        proof {
            self.unfold();
        }
        self.graph.set_flags(c.id, Flags::mutable() | Flags::recursed_check());
        let prev_sub = self.graph.set_active_sub(Some(c.id));
        proof {
            self.unfold();
        }
        let previous = self.cached_clone(c);
        let ghost begun = *self;
        proof {
            old(self).unfold();
            assert(old(self).precedes(&begun));
        }
        let value = host.compute(self, c, previous.as_ref());
        let ghost ran = *self;
        let ghost returned = value;
        proof {
            self.unfold();
            old(self).lemma_precedes_trans(&begun, &ran);
            assert(host.computes(begun, ran, c, previous, returned));
            assert(ran.got(host, &begun, c, returned));
        }
        self.store_computed(c, value, None);
        let ghost stored = *self;
        proof {
            self.unfold();
            old(self).lemma_precedes_trans(&ran, &stored);
        }
        self.graph.resume(c.id, prev_sub);
        proof {
            self.unfold();
            assert(stored.precedes(self));
            old(self).lemma_precedes_trans(&stored, self);
            assert(self.warmed(host, old(self), &begun, &ran, c, returned));
        }
    }

    /// What the evaluation of the stale computed `c` makes of the runtime
    /// `checked`: `c` is evaluated anew, and the change of its value is
    /// announced to its subscribers; nothing happens where the count of
    /// evaluations is exhausted.
    pub open spec fn renewed<H: Host<V>>(&self, host: &H, checked: &Runtime<V>, c: Node) -> bool {
        if checked.cycle() < usize::MAX {
            exists|updated: Runtime<V>, begun: Runtime<V>, ran: Runtime<V>, value: V, changed: bool|
                {
                    &&& updated.inv()
                    &&& #[trigger] updated.evaluated(host, checked, &begun, &ran, c, value, changed)
                    &&& self.contexts() == updated.contexts()
                    &&& self.graph().announced(&updated.graph(), c.id as int, changed)
                }
        } else {
            self.graph() == checked.graph() && self.contexts() == checked.contexts()
        }
    }

    /// What bringing the computed `c` up to date makes of a runtime. A dirty
    /// computed is evaluated anew, and the change of its value is announced
    /// to its subscribers. So is a pending one whose dependencies are found
    /// to have a new value by their validation; where they are not, it is
    /// pending no longer, and nothing else happens to it. One that was never
    /// evaluated is evaluated without a record of what it reads being begun
    /// or ended. Any other is left as it is.
    pub open spec fn brought_up<H: Host<V>>(&self, host: &H, before: &Runtime<V>, c: Node) -> bool {
        let f = before.flags_of(c);
        if f.dirty {
            self.renewed(host, before, c)
        } else if f.pending {
            exists|checked: Runtime<V>, found: bool|
                {
                    &&& checked.inv()
                    &&& #[trigger] checked.examined(host, before, c, found)
                    &&& if found {
                        self.renewed(host, &checked, c)
                    } else {
                        &&& self.contexts() == checked.contexts()
                        &&& self.graph().reflagged(
                            &checked.graph(),
                            c.id as int,
                            Flags { pending: false, ..f },
                        )
                    }
                }
        } else if f.empty() {
            exists|begun: Runtime<V>, ran: Runtime<V>, value: V| #[trigger]
                self.warmed(host, before, &begun, &ran, c, value)
        } else {
            self.graph() == before.graph() && self.contexts() == before.contexts()
        }
    }

    /// A computed that is pending and not dirty is not evaluated anew when it
    /// is brought up to date unless its validation has a ground to report a
    /// change: it is pending no longer, keeps its value, and nothing else
    /// happens to it after the validation.
    pub proof fn law_computed_spared<H: Host<V>>(&self, host: &H, after: &Runtime<V>, c: Node)
        requires
            after.brought_up(host, self, c),
            self.flags_of(c).pending,
            !self.flags_of(c).dirty,
            !Self::change_somewhere(host, c),
        ensures
            exists|checked: Runtime<V>|
                {
                    &&& #[trigger] checked.examined(host, self, c, false)
                    &&& after.contexts() == checked.contexts()
                    &&& after.graph().reflagged(
                        &checked.graph(),
                        c.id as int,
                        Flags { pending: false, ..self.flags_of(c) },
                    )
                },
    {
        let f = self.flags_of(c);
        let (checked, found) = choose|checked: Runtime<V>, found: bool|
            {
                &&& checked.inv()
                &&& #[trigger] checked.examined(host, self, c, found)
                &&& if found {
                    after.renewed(host, &checked, c)
                } else {
                    &&& after.contexts() == checked.contexts()
                    &&& after.graph().reflagged(
                        &checked.graph(),
                        c.id as int,
                        Flags { pending: false, ..f },
                    )
                }
            };
        if found {
            let first = self.graph().nodes@[c.id as int].deps;
            self.law_change_needs_ground(
                host,
                &checked,
                first.unwrap() as int,
                c,
                self.graph().nodes@.len(),
            );
        }
    }

    /// Brings the computed `c` up to date: evaluates it if it is dirty, or
    /// is pending and a dependency of it turns out to have a new value, or
    /// was never evaluated; and marks its pending subscribers as dirty if its
    /// value changed.
    pub fn bring_up<H: Host<V>>(&mut self, host: &H, c: Node)
        requires
            old(self).inv(),
            old(self).is_computed(c),
            old(self).checkable(c),
        ensures
            final(self).inv(),
            old(self).precedes(final(self)),
            final(self).active_sub() == old(self).active_sub(),
            old(self).readable(c) ==> final(self).cached(c).is_some(),
            final(self).brought_up(host, old(self), c),
            !old(self).flags_of(c).dirty && old(self).flags_of(c).pending && (old(
                self,
            ).graph().dep_lists@[c.id as int].len() == 0 || old(self).spared(c))
                ==> final(self).cached(c) == old(self).cached(c),
    {
        proof {
            self.unfold();
            assert(self.graph.node_ok(c.id as int));
        }
        let flags = self.graph.nodes[c.id].flags;
        let ghost mut examined = *self;
        let stale = if (flags & Flags::dirty()).is_nonzero() {
            true
        } else if (flags & Flags::pending()).is_nonzero() {
            let found = match self.graph.nodes[c.id].deps {
                Some(first_dep) => {
                    proof {
                        assert(self.graph.dep_entry_ok(c.id as int, 0));
                    }
                    self.check_dirty(host, first_dep, c)
                },
                None => false,
            };
            proof {
                examined = *self;
                self.unfold();
                assert(examined.examined(host, old(self), c, found));
            }
            if !found {
                self.graph.set_flags(c.id, flags.difference(Flags::pending()));
            }
            found
        } else {
            false
        };
        let ghost checked = *self;
        proof {
            self.unfold();
            assert(old(self).precedes(&checked));
            assert(self.graph.node_ok(c.id as int));
        }
        if stale {
            let changed = self.update_computed(host, c);
            let ghost updated = *self;
            proof {
                self.unfold();
                old(self).lemma_precedes_trans(&checked, &updated);
            }
            self.graph.announce(c.id, changed);
            proof {
                self.unfold();
                assert(updated.precedes(self));
                old(self).lemma_precedes_trans(&updated, self);
            }
        } else if flags.is_zero() {
            self.cold_compute(host, c);
            proof {
                old(self).lemma_precedes_trans(&checked, self);
            }
        }
    }

    /// What a read of the computed `c` makes of a runtime, given the runtime
    /// `valued` in which `c` was up to date and the read not yet recorded.
    pub open spec fn read_from<H: Host<V>>(
        &self,
        host: &H,
        before: &Runtime<V>,
        valued: &Runtime<V>,
        c: Node,
    ) -> bool {
        &&& valued.inv()
        &&& valued.brought_up(host, before, c)
        &&& self.contexts() == valued.contexts()
        &&& match valued.graph().sys.active_sub {
            Some(sub) => self.graph().linked(
                &valued.graph(),
                c.id as int,
                sub as int,
                valued.graph().sys.cycle,
            ),
            None => self.graph() == valued.graph(),
        }
    }

    /// Reads the computed `c`: brings it up to date, records the read with
    /// the subscriber that reads are attributed to, and returns a copy of its
    /// value.
    pub fn read_computed<H: Host<V>>(&mut self, host: &H, c: Node) -> (value: V)
        requires
            old(self).inv(),
            old(self).is_computed(c),
            old(self).readable(c),
            old(self).checkable(c),
        ensures
            final(self).active_sub() == old(self).active_sub(),
            final(self).inv(),
            old(self).precedes(final(self)),
            final(self).cached(c).is_some(),
            cloned(final(self).cached(c).unwrap(), value),
            exists|valued: Runtime<V>| #[trigger] final(self).read_from(host, old(self), &valued, c),
    {
        self.bring_up(host, c);
        let ghost valued = *self;
        proof {
            self.unfold();
        }
        match self.graph.sys.active_sub {
            Some(sub) => {
                let version = self.graph.sys.cycle;
                self.graph.link(c.id, sub, version);
            },
            None => {},
        }
        proof {
            self.unfold();
            valued.unfold();
            assert(valued.precedes(self));
            old(self).lemma_precedes_trans(&valued, self);
            assert(self.read_from(host, old(self), &valued, c));
        }
        match self.cached_clone(c) {
            Some(value) => value,
            None => {
                proof {
                    assert(false);
                }
                vstd::pervasive::unreached()
            },
        }
    }
}

} // verus!
