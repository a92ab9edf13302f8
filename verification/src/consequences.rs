//! What follows for the subscribers of a node from a new value of it, from
//! a write to it, or from its being read where invalidation was asked for.

use vstd::prelude::*;
use crate::flags::Flags;
use crate::graph::Graph;

verus! {

impl Graph {
    /// Marks the pending subscribers of `dep` as dirty where `dep` has more
    /// than one subscriber: with one only, that one is the node whose
    /// validation brought `dep` up to date, and learns of the change from it.
    pub fn shallow_siblings(&mut self, dep: usize)
        requires
            old(self).wf(),
            old(self).is_node(dep as int),
        ensures
            final(self).wf(),
            final(self).remarked(old(self)),
            final(self).queue_grown(old(self)),
            old(self).sub_lists@[dep as int].len() < 2 ==> final(self).same(old(self)),
            old(self).sub_lists@[dep as int].len() >= 2 ==> final(self).confirmed(
                old(self),
                dep as int,
                0,
                old(self).sub_lists@[dep as int].len() as int,
            ),
    {
        proof {
            assert(self.node_ok(dep as int));
            assert(self.sys.queued@.subrange(0, self.sys.queued@.len() as int) =~= self.sys.queued@);
        }
        match self.nodes[dep].subs {
            Some(subs) => {
                proof {
                    assert(self.sub_entry_ok(dep as int, 0));
                    assert(self.link_ok(subs as int));
                }
                if self.links[subs].next_sub.is_some() {
                    self.shallow_propagate(subs);
                }
            },
            None => {},
        }
    }

    /// What a write to the signal `s` that is not followed by the run of
    /// effects makes of a graph: the signal is dirty, and what depends on it
    /// is seen to.
    pub open spec fn written(&self, before: &Graph, s: int) -> bool {
        exists|staged: Graph|
            {
                &&& #[trigger] staged.restaged(before, s)
                &&& if before.sub_lists@[s].len() == 0 {
                    self.same(&staged)
                } else {
                    self.propagated(&staged, s, 0)
                }
            }
    }

    /// `self` is `before` but that `s` is marked as a dirty node that
    /// produces a value.
    pub open spec fn restaged(&self, before: &Graph, s: int) -> bool {
        self.reflagged(before, s, Flags::spec_stale())
    }

    /// What the news of a new value of the node `c` makes of a graph: where
    /// the value has changed, those of the subscribers of `c` that were
    /// pending are dirty, and the effects among them that watch are queued.
    pub open spec fn announced(&self, before: &Graph, c: int, changed: bool) -> bool {
        if changed && before.sub_lists@[c].len() > 0 {
            &&& self.remarked(before)
            &&& self.queue_grown(before)
            &&& self.confirmed(before, c, 0, before.sub_lists@[c].len() as int)
        } else {
            *self == *before
        }
    }

    /// Marks the pending subscribers of `c` as dirty if the value of `c`
    /// has changed.
    pub fn announce(&mut self, c: usize, changed: bool)
        requires
            old(self).wf(),
            old(self).is_node(c as int),
        ensures
            final(self).wf(),
            final(self).remarked(old(self)),
            final(self).queue_grown(old(self)),
            final(self).announced(old(self), c as int, changed),
    {
        proof {
            assert(self.node_ok(c as int));
            self.lemma_remarked_refl();
        }
        if changed {
            match self.nodes[c].subs {
                Some(subs) => {
                    proof {
                        assert(self.sub_entry_ok(c as int, 0));
                        assert(self.link_ok(subs as int));
                    }
                    self.shallow_propagate(subs);
                },
                None => {},
            }
        }
    }

    /// What `invalidate` makes of a graph: where `dep` has subscribers, the
    /// marks of `sub` are cleared, what depends on `dep` is seen to, and those
    /// of its subscribers that are pending are dirty.
    pub open spec fn invalidated(&self, before: &Graph, dep: int, sub: int) -> bool {
        if before.sub_lists@[dep].len() == 0 {
            *self == *before
        } else {
            exists|reset: Graph, marked: Graph|
                {
                    &&& #[trigger] reset.reflagged(before, sub, Flags::spec_none())
                    &&& #[trigger] marked.propagated(&reset, dep, 0)
                    &&& self.remarked(&marked)
                    &&& self.queue_grown(&marked)
                    &&& self.confirmed(&marked, dep, 0, before.sub_lists@[dep].len() as int)
                }
        }
    }

    /// Marks what depends on `dep` as if `dep` had a new value, on behalf
    /// of the subscriber `sub` that collected `dep` and is not to be marked
    /// itself.
    pub fn invalidate(&mut self, dep: usize, sub: usize)
        requires
            old(self).wf(),
            old(self).is_node(dep as int),
            old(self).is_node(sub as int),
        ensures
            final(self).wf(),
            final(self).remarked(old(self)),
            final(self).invalidated(old(self), dep as int, sub as int),
    {
        proof {
            assert(self.node_ok(dep as int));
            self.lemma_remarked_refl();
        }
        match self.nodes[dep].subs {
            Some(subs) => {
                proof {
                    assert(self.sub_entry_ok(dep as int, 0));
                    assert(self.link_ok(subs as int));
                }
                self.set_flags(sub, Flags::none());
                let ghost reset = *self;
                self.propagate(subs);
                let ghost marked = *self;
                self.shallow_propagate(subs);
                proof {
                    assert(reset.remarked(old(self)));
                    old(self).lemma_remarked_trans(&reset, &marked);
                    old(self).lemma_remarked_trans(&marked, self);
                    assert(reset.reflagged(old(self), sub as int, Flags::spec_none()));
                    assert(marked.propagated(&reset, dep as int, 0));
                }
            },
            None => {},
        }
    }

    /// What `conclude` makes of a graph: where the value of `dep` changed
    /// and `dep` has more than one subscriber, those of them that were
    /// pending are dirty and are queued if they watched; else nothing has
    /// changed.
    pub open spec fn concluded(&self, before: &Graph, dep: int, changed: bool) -> bool {
        if changed && before.sub_lists@[dep].len() >= 2 {
            &&& self.remarked(before)
            &&& self.queue_grown(before)
            &&& self.confirmed(before, dep, 0, before.sub_lists@[dep].len() as int)
        } else {
            self.same(before)
        }
    }

    /// Draws the conclusion from a dependency `dep` that was brought up to
    /// date during a validation: a value that changed is announced to the
    /// other subscribers of `dep`, and ends the validation; one that did not
    /// change leaves everything as it is, and the validation goes on.
    pub fn conclude(&mut self, dep: usize, changed: bool) -> (found: bool)
        requires
            old(self).wf(),
            old(self).is_node(dep as int),
        ensures
            final(self).wf(),
            found == changed,
            final(self).remarked(old(self)),
            final(self).queue_grown(old(self)),
            final(self).summoned(old(self)),
            final(self).concluded(old(self), dep as int, changed),
            !changed || old(self).sub_lists@[dep as int].len() < 2 ==> final(self).same(old(self)),
            changed && old(self).sub_lists@[dep as int].len() >= 2 ==> final(self).confirmed(
                old(self),
                dep as int,
                0,
                old(self).sub_lists@[dep as int].len() as int,
            ),
    {
        proof {
            self.lemma_remarked_refl();
        }
        if changed {
            self.shallow_siblings(dep);
        }
        changed
    }

    /// The nodes that `sub` depends on.
    pub open spec fn collected(&self, sub: int) -> Set<int> {
        Set::new(
            |d: int|
                exists|l: int| #[trigger]
                    self.live@.contains(l) && self.links@[l].sub == sub && self.links@[l].dep == d,
        )
    }

    /// Every subscriber but `sub` of a node in `done` is dirty, or is under
    /// evaluation.
    pub open spec fn overruled(&self, done: Set<int>, sub: int) -> bool {
        forall|l: int|
            #[trigger] self.live@.contains(l) && done.contains(self.links@[l].dep as int)
                && self.links@[l].sub != sub ==> {
                let f = self.nodes@[self.links@[l].sub as int].flags;
                f.dirty || f.recursed_check
            }
    }

    /// Taking out a link of a node `sub` that has no subscribers takes out
    /// no other link of `sub`, and leaves the subscribers of the nodes in
    /// `done` dirty.
    pub proof fn lemma_unlink_keeps(&self, after: &Graph, link: int, sub: int, done: Set<int>)
        requires
            self.wf(),
            after.wf(),
            self.is_live(link),
            self.links@[link].sub == sub,
            self.sub_lists@[sub].len() == 0,
            self.overruled(done, sub),
            after.shrunk(self, -1),
            self.sub_lists@[self.links@[link].dep as int].len() > 1 ==> after.detached(self, link),
            self.sub_lists@[self.links@[link].dep as int].len() == 1 ==> exists|mid: Graph|
                {
                    &&& mid.wf()
                    &&& #[trigger] mid.detached(self, link)
                    &&& after.let_go(&mid, self.links@[link].dep as int)
                },
        ensures
            after.overruled(done, sub),
            after.sub_lists@[sub].len() == 0,
            forall|l: int|
                #[trigger] self.live@.contains(l) && l != link && self.links@[l].sub == sub
                    ==> after.live@.contains(l),
    {
        let d = self.links@[link].dep as int;
        assert(self.link_ok(link));
        assert(self.sub_entry_ok(d, self.sub_pos@[link]));
        assert(after.dep_lists@[sub].len() <= self.dep_lists@[sub].len());
        if self.sub_lists@[d].len() > 1 {
            assert forall|l: int|
                #[trigger] after.live@.contains(l) && done.contains(after.links@[l].dep as int)
                    && after.links@[l].sub != sub implies {
                let f = after.nodes@[after.links@[l].sub as int].flags;
                f.dirty || f.recursed_check
            } by {
                assert(self.live@.contains(l));
                assert(self.link_ok(l));
            }
        } else {
            let mid = choose|mid: Graph|
                {
                    &&& mid.wf()
                    &&& #[trigger] mid.detached(self, link)
                    &&& after.let_go(&mid, d)
                };
            assert forall|l: int|
                #[trigger] self.live@.contains(l) && l != link && self.links@[l].sub
                    == sub implies after.live@.contains(l) by {
                assert(mid.live@.contains(l));
                assert(mid.dep_lists@[sub].len() <= self.dep_lists@[sub].len());
            }
            assert forall|l: int|
                #[trigger] after.live@.contains(l) && done.contains(after.links@[l].dep as int)
                    && after.links@[l].sub != sub implies {
                let f = after.nodes@[after.links@[l].sub as int].flags;
                f.dirty || f.recursed_check
            } by {
                assert(self.live@.contains(l));
                assert(self.link_ok(l));
                assert(after.link_ok(l));
                let x = self.links@[l].sub as int;
                assert(mid.nodes@[x].flags == self.nodes@[x].flags);
                assert(after.dep_lists@[x].len() > 0);
                if x == d {
                    assert(after.sub_lists@[d].len() == 0);
                }
            }
        }
    }

    /// An invalidation leaves the subscribers of the node that it was given
    /// dirty, and those of the nodes in `done` as well.
    pub proof fn lemma_invalidated_overrules(&self, after: &Graph, dep: int, sub: int, done: Set<int>)
        requires
            self.wf(),
            after.wf(),
            self.is_node(dep),
            self.is_node(sub),
            after.remarked(self),
            after.invalidated(self, dep, sub),
            self.overruled(done, sub),
        ensures
            after.overruled(done.insert(dep), sub),
    {
        if self.sub_lists@[dep].len() == 0 {
            assert forall|l: int|
                #[trigger] after.live@.contains(l) && done.insert(dep).contains(
                    after.links@[l].dep as int,
                ) && after.links@[l].sub != sub implies {
                let f = after.nodes@[after.links@[l].sub as int].flags;
                f.dirty || f.recursed_check
            } by {
                assert(self.link_ok(l));
            }
        } else {
            let (reset, marked) = choose|reset: Graph, marked: Graph|
                {
                    &&& #[trigger] reset.reflagged(self, sub, Flags::spec_none())
                    &&& #[trigger] marked.propagated(&reset, dep, 0)
                    &&& after.remarked(&marked)
                    &&& after.queue_grown(&marked)
                    &&& after.confirmed(&marked, dep, 0, self.sub_lists@[dep].len() as int)
                };
            assert forall|l: int|
                #[trigger] after.live@.contains(l) && done.insert(dep).contains(
                    after.links@[l].dep as int,
                ) && after.links@[l].sub != sub implies {
                let f = after.nodes@[after.links@[l].sub as int].flags;
                f.dirty || f.recursed_check
            } by {
                assert(self.link_ok(l));
                let x = self.links@[l].sub as int;
                assert(reset.nodes@[x].flags == self.nodes@[x].flags);
                assert(marked.nodes@[x].flags.dirty == reset.nodes@[x].flags.dirty);
                assert(after.nodes@[x].flags.recursed_check == marked.nodes@[x].flags.recursed_check);
                if self.links@[l].dep == dep {
                    assert(marked.due(&reset, dep, 0, l));
                    assert(marked.seen_to(l));
                    assert(marked.sub_lists@[dep][self.sub_pos@[l]] == l);
                    assert(marked.subscribes(dep, 0, self.sub_lists@[dep].len() as int, x));
                }
            }
        }
    }

    /// What `invalidate_collected` makes of a graph at the first dependency
    /// of `sub`: the link to it is taken out, and what depends on it is
    /// marked as `invalidate` does.
    pub open spec fn shed(&self, before: &Graph, sub: int) -> bool {
        match before.nodes@[sub].deps {
            Some(link) => exists|cut: Graph|
                {
                    &&& cut.wf()
                    &&& #[trigger] cut.unlinked(before, link as int, sub)
                    &&& self.invalidated(&cut, before.links@[link as int].dep as int, sub)
                },
            None => false,
        }
    }

    /// Whether the graph at place `i + 1` of `trail` is what the graph at
    /// place `i` becomes at the first dependency of `sub`.
    pub open spec fn shedding(trail: Seq<Graph>, sub: int, i: int) -> bool {
        trail[i + 1].shed(&trail[i], sub)
    }

    /// Whether `trail` is the course of an `invalidate_collected` that leads
    /// from `before` to `self`: the graph before each dependency of `sub` is
    /// let go of, and the one in which none is left.
    pub open spec fn shed_all(&self, before: &Graph, sub: int, trail: Seq<Graph>) -> bool {
        &&& trail.len() > 0
        &&& trail[0] == *before
        &&& forall|i: int| 0 <= i < trail.len() - 1 ==> #[trigger] Graph::shedding(trail, sub, i)
        &&& trail.last().nodes@[sub].deps.is_none()
        &&& self.same(&trail.last())
    }

    /// What `invalidate_collected` makes of a graph: the dependencies of
    /// `sub` are let go of one after the other, the first one first, each
    /// followed by the marking of what depends on it.
    pub open spec fn scattered(&self, before: &Graph, sub: int) -> bool {
        exists|trail: Seq<Graph>| #[trigger] self.shed_all(before, sub, trail)
    }

    /// Lets go of the dependencies that `sub` has collected, and marks what
    /// depends on each of them as if it had a new value.
    pub fn invalidate_collected(&mut self, sub: usize)
        requires
            old(self).wf(),
            old(self).is_node(sub as int),
        ensures
            final(self).wf(),
            final(self).scattered(old(self), sub as int),
            final(self).nodes@.len() == old(self).nodes@.len(),
            final(self).links@.len() == old(self).links@.len(),
            final(self).sys.cycle == old(self).sys.cycle,
            final(self).sys.batch_depth == old(self).sys.batch_depth,
            final(self).sys.active_sub == old(self).sys.active_sub,
            final(self).dep_lists@[sub as int].len() == 0,
            old(self).sub_lists@[sub as int].len() == 0 ==> final(self).overruled(
                old(self).collected(sub as int),
                sub as int,
            ),
    {
        let ghost start = *self;
        let ghost mut done: Set<int> = Set::empty();
        let ghost mut trail: Seq<Graph> = seq![*self];
        loop
            invariant
                self.wf(),
                start.wf(),
                start == *old(self),
                trail.len() > 0,
                trail[0] == start,
                trail.last() == *self,
                forall|i: int|
                    0 <= i < trail.len() - 1 ==> #[trigger] Graph::shedding(trail, sub as int, i),
                self.is_node(sub as int),
                self.nodes@.len() == start.nodes@.len(),
                self.links@.len() == start.links@.len(),
                self.sys.cycle == start.sys.cycle,
                self.sys.batch_depth == start.sys.batch_depth,
                self.sys.active_sub == start.sys.active_sub,
                start.sub_lists@[sub as int].len() == 0 ==> {
                    &&& self.sub_lists@[sub as int].len() == 0
                    &&& self.overruled(done, sub as int)
                    &&& forall|d: int|
                        start.collected(sub as int).contains(d) ==> done.contains(d)
                            || #[trigger] self.collected(sub as int).contains(d)
                },
            ensures
                self.dep_lists@[sub as int].len() == 0,
                self.shed_all(&start, sub as int, trail),
                start.sub_lists@[sub as int].len() == 0 ==> self.overruled(
                    start.collected(sub as int),
                    sub as int,
                ),
            decreases self.live@.len(),
        {
            proof {
                assert(self.node_ok(sub as int));
            }
            match self.nodes[sub].deps {
                Some(link) => {
                    proof {
                        assert(self.dep_entry_ok(sub as int, 0));
                        assert(self.link_ok(link as int));
                    }
                    let dep = self.links[link].dep;
                    let ghost before = *self;
                    self.unlink(link, sub);
                    let ghost unlinked = *self;
                    self.invalidate(dep, sub);
                    proof {
                        assert(self.shed(&before, sub as int));
                        let ghost trail0 = trail;
                        trail = trail.push(*self);
                        assert forall|i: int| 0 <= i < trail.len() - 1 implies #[trigger] Graph::shedding(
                            trail,
                            sub as int,
                            i,
                        ) by {
                            if i < trail0.len() - 1 {
                                assert(Graph::shedding(trail0, sub as int, i));
                                assert(trail[i] == trail0[i]);
                                assert(trail[i + 1] == trail0[i + 1]);
                            } else {
                                assert(trail[i] == before);
                                assert(trail[i + 1] == *self);
                            }
                        }
                        if start.sub_lists@[sub as int].len() == 0 {
                            before.lemma_unlink_keeps(&unlinked, link as int, sub as int, done);
                            unlinked.lemma_invalidated_overrules(self, dep as int, sub as int, done);
                            assert forall|d: int|
                                start.collected(sub as int).contains(d) implies done.insert(
                                dep as int,
                            ).contains(d) || #[trigger] self.collected(sub as int).contains(d) by {
                                if !done.contains(d) && d != dep {
                                    assert(before.collected(sub as int).contains(d));
                                    let l = choose|l: int| #[trigger]
                                        before.live@.contains(l) && before.links@[l].sub == sub
                                            && before.links@[l].dep == d;
                                    assert(before.link_ok(l));
                                    assert(unlinked.live@.contains(l));
                                    assert(self.live@.contains(l));
                                }
                            }
                            done = done.insert(dep as int);
                        }
                    }
                },
                None => {
                    proof {
                        if start.sub_lists@[sub as int].len() == 0 {
                            assert forall|d: int|
                                start.collected(sub as int).contains(d) implies done.contains(d) by {
                                if self.collected(sub as int).contains(d) {
                                    let l = choose|l: int| #[trigger]
                                        self.live@.contains(l) && self.links@[l].sub == sub
                                            && self.links@[l].dep == d;
                                    assert(self.link_ok(l));
                                }
                            }
                        }
                    }
                    break ;
                },
            }
        }
    }
}

} // verus!
