//! Marking the subscribers of a node whose value changed, and queueing the
//! effects among them.

use vstd::prelude::*;
use crate::flags::Flags;
use crate::graph::Graph;

verus! {

/// Turns the part of `v` from `start` on back to front.
pub fn reverse_tail(v: &mut Vec<usize>, start: usize)
    requires
        start <= old(v)@.len(),
    ensures
        final(v)@ == old(v)@.subrange(0, start as int) + old(v)@.subrange(
            start as int,
            old(v)@.len() as int,
        ).reverse(),
{
    let n = v.len();
    if n - start < 2 {
        proof {
            let tail = v@.subrange(start as int, n as int);
            assert(tail.reverse() =~= tail);
            assert(v@ =~= v@.subrange(0, start as int) + tail);
        }
        return ;
    }
    let mut i = start;
    let mut j = n - 1;
    while i < j
        invariant
            start <= i <= j + 1 <= n,
            i - start == n - 1 - j,
            n == v@.len(),
            n == old(v)@.len(),
            forall|k: int| 0 <= k < start ==> v@[k] == old(v)@[k],
            forall|k: int| i <= k <= j ==> v@[k] == old(v)@[k],
            forall|k: int| start <= k < i ==> v@[k] == old(v)@[start + n - 1 - k],
            forall|k: int| j < k < n ==> v@[k] == old(v)@[start + n - 1 - k],
        decreases j + 1 - i,
    {
        let a = v[i];
        let b = v[j];
        v[i] = b;
        v[j] = a;
        i = i + 1;
        j = j - 1;
    }
    proof {
        let tail = old(v)@.subrange(start as int, n as int);
        assert(v@ =~= old(v)@.subrange(0, start as int) + tail.reverse());
    }
}

/// Whether `n` is a member of `c`.
pub open spec fn member(c: Seq<usize>, n: int) -> bool {
    exists|k: int| 0 <= k < c.len() && #[trigger] c[k] == n
}

/// Whether a node with these marks is passed over by `propagate`: it is
/// marked already, and either is not being evaluated or was reached during
/// its evaluation before.
pub open spec fn settled(f: Flags) -> bool {
    f.pending && (f.recursed_check || !f.recursed)
}

impl Graph {
    /// The subscriber that `n` is attached to: the `sub` of its first
    /// subscriber link.
    pub open spec fn parent(&self, n: int) -> Option<usize> {
        match self.nodes@[n].subs {
            Some(s) => Some(self.links@[s as int].sub),
            None => None,
        }
    }

    /// `self` differs from `before` in the marks of nodes and in the queue at
    /// most.
    pub open spec fn remarked(&self, before: &Graph) -> bool {
        &&& self.same_shape(before)
        &&& self.sys.active_sub == before.sys.active_sub
        &&& self.sys.cycle == before.sys.cycle
        &&& self.sys.batch_depth == before.sys.batch_depth
        &&& self.sys.queue_head == before.sys.queue_head
        &&& forall|l: int|
            0 <= l < self.links@.len() ==> (#[trigger] self.links@[l]).version
                == before.links@[l].version
        &&& forall|n: int|
            0 <= n < self.nodes@.len() ==> (#[trigger] self.nodes@[n]).deps_tail
                == before.nodes@[n].deps_tail
    }

    /// `c` is the chain of effects that `notify` queues for `e`: `e` itself,
    /// then the watching subscriber that it is attached to, and so on upwards
    /// as long as there is one that watches and is not in the chain yet.
    pub open spec fn is_chain(&self, e: usize, c: Seq<usize>) -> bool {
        &&& c.len() > 0
        &&& c[0] == e
        &&& forall|i: int| 0 <= i < c.len() ==> self.is_node(#[trigger] c[i] as int)
        &&& forall|i: int, j: int|
            0 <= i && j == i + 1 && j < c.len() ==> self.parent(#[trigger] c[i] as int) == Some(
                #[trigger] c[j],
            ) && self.nodes@[c[j] as int].flags.watching
        &&& forall|i: int, j: int| 0 <= i < j < c.len() ==> c[i] != c[j]
    }

    /// The chain `c` cannot be continued.
    pub open spec fn chain_ends(&self, c: Seq<usize>) -> bool {
        match self.parent(c.last() as int) {
            Some(p) => !self.nodes@[p as int].flags.watching || member(c, p as int),
            None => true,
        }
    }

    /// The marks of `self` are those of `before`, but that the members of
    /// `c` watch no longer.
    pub open spec fn unwatching(&self, before: &Graph, c: Seq<usize>) -> bool {
        forall|n: int|
            0 <= n < self.nodes@.len() ==> (#[trigger] self.nodes@[n]).flags == if member(c, n) {
                Flags { watching: false, ..before.nodes@[n].flags }
            } else {
                before.nodes@[n].flags
            }
    }

    /// What `notify` makes of a graph, given the chain that it queued: the
    /// members of the chain watch no longer, and stand at the end of the
    /// queue, the outermost first.
    pub open spec fn notified(&self, before: &Graph, e: usize, c: Seq<usize>) -> bool {
        &&& before.is_chain(e, c)
        &&& before.chain_ends(c)
        &&& self.remarked(before)
        &&& self.sys.queued@ == before.sys.queued@ + c.reverse()
        &&& self.unwatching(before, c)
    }

    /// One more member of the chain.
    pub proof fn lemma_chain_grows(
        &self,
        prev: &Graph,
        after: &Graph,
        effect: usize,
        c: Seq<usize>,
        e: usize,
    )
        requires
            self.nodes@.len() == prev.nodes@.len(),
            prev.nodes@.len() == after.nodes@.len(),
            prev.is_node(e as int),
            prev.unwatching(self, c),
            c.len() == 0 ==> e == effect,
            c.len() > 0 ==> self.is_chain(effect, c) && self.parent(c.last() as int) == Some(e)
                && self.nodes@[e as int].flags.watching && !member(c, e as int),
            forall|n: int|
                0 <= n < after.nodes@.len() ==> (#[trigger] after.nodes@[n]).flags == if n == e {
                    Flags { watching: false, ..prev.nodes@[n].flags }
                } else {
                    prev.nodes@[n].flags
                },
        ensures
            after.unwatching(self, c.push(e)),
            self.is_chain(effect, c.push(e)),
            member(c.push(e), e as int),
            forall|n: int| member(c.push(e), n) <==> (member(c, n) || n == e),
    {
        let c1 = c.push(e);
        assert(c1[c1.len() - 1] == e);
        assert forall|n: int| member(c1, n) <==> (member(c, n) || n == e) by {
            if member(c, n) {
                let k = choose|k: int| 0 <= k < c.len() && #[trigger] c[k] == n;
                assert(c1[k] == n);
            }
            if member(c1, n) {
                let k = choose|k: int| 0 <= k < c1.len() && #[trigger] c1[k] == n;
                if k < c.len() {
                    assert(c[k] == n);
                }
            }
        }
        assert forall|i: int, j: int| 0 <= i < j < c1.len() implies c1[i] != c1[j] by {
            if j == c1.len() - 1 {
                assert(c[i] == c1[i]);
            } else {
                assert(c[i] == c1[i]);
                assert(c[j] == c1[j]);
            }
        }
        assert forall|i: int, j: int| 0 <= i && j == i + 1 && j < c1.len() implies self.parent(
            #[trigger] c1[i] as int,
        ) == Some(#[trigger] c1[j]) && self.nodes@[c1[j] as int].flags.watching by {
            assert(c[i] == c1[i]);
            if j < c.len() {
                assert(c[j] == c1[j]);
            }
        }
        assert forall|i: int| 0 <= i < c1.len() implies self.is_node(#[trigger] c1[i] as int) by {
            if i < c.len() {
                assert(c[i] == c1[i]);
            }
        }
    }

    /// Queues the effect `effect` for execution, together with the watching
    /// subscribers above it, the outermost first.
    pub fn notify(&mut self, effect: usize) -> (chain: Ghost<Seq<usize>>)
        requires
            old(self).wf(),
            old(self).is_node(effect as int),
        ensures
            final(self).wf(),
            final(self).notified(old(self), effect, chain@),
    {
        let start = self.sys.queued.len();
        let ghost before = *self;
        let ghost mut c: Seq<usize> = Seq::empty();
        let mut e = effect;
        loop
            invariant_except_break
                c.len() == 0 ==> e == effect,
                c.len() > 0 ==> before.is_chain(effect, c) && before.parent(c.last() as int) == Some(
                    e,
                ) && before.nodes@[e as int].flags.watching && !member(c, e as int),
            invariant
                self.wf(),
                before.wf(),
                before == *old(self),
                self.is_node(e as int),
                self.remarked(&before),
                self.sys.queued@ == before.sys.queued@ + c,
                start == before.sys.queued@.len(),
                self.unwatching(&before, c),
            ensures
                self.wf(),
                self.remarked(&before),
                self.sys.queued@ == before.sys.queued@ + c,
                before.is_chain(effect, c),
                before.chain_ends(c),
                self.unwatching(&before, c),
            decreases
                    self.nodes_where(|f: Flags| f.watching).len() + (if c.len() == 0 {
                        1int
                    } else {
                        0int
                    }),
        {
            let ghost prev = *self;
            let ghost c0 = c;
            let f = self.nodes[e].flags;
            self.set_flags(e, f.difference(Flags::watching()));
            self.push_queued(e);
            proof {
                c = c0.push(e);
                prev.lemma_nodes_where_step(self, |f: Flags| f.watching);
                assert(self.sys.queued@ =~= before.sys.queued@ + c);
                before.lemma_chain_grows(&prev, self, effect, c0, e);
                assert(self.node_ok(e as int));
                assert(before.node_ok(e as int));
            }
            match self.nodes[e].subs {
                Some(s) => {
                    proof {
                        assert(self.sub_entry_ok(e as int, 0));
                        assert(self.link_ok(s as int));
                    }
                    let p = self.links[s].sub;
                    if self.nodes[p].flags.watching {
                        e = p;
                    } else {
                        break ;
                    }
                },
                None => {
                    break ;
                },
            }
        }
        let ghost pushed = *self;
        reverse_tail(&mut self.sys.queued, start);
        proof {
            assert(pushed.sys.queued@.subrange(0, start as int) =~= before.sys.queued@);
            assert(pushed.sys.queued@.subrange(start as int, pushed.sys.queued@.len() as int) =~= c);
            assert forall|k: int| 0 <= k < self.sys.queued@.len() implies self.is_node(
                #[trigger] self.sys.queued@[k] as int,
            ) by {
                if k >= start {
                    assert(self.sys.queued@[k] == c[c.len() - 1 - (k - start)]);
                } else {
                    assert(self.sys.queued@[k] == before.sys.queued@[k]);
                }
            }
            pushed.lemma_kept_cursors_wf(self);
        }
        Ghost(c)
    }

    /// Whether `n` is the `sub` of one of the subscriber links of `d` at the
    /// places `from..to`.
    pub open spec fn subscribes(&self, d: int, from: int, to: int, n: int) -> bool {
        exists|k: int|
            from <= k < to && self.links@[(#[trigger] self.sub_lists@[d][k]) as int].sub == n
    }

    /// What the queue of `self` holds beyond that of `before` are nodes that
    /// watched in `before` and do no longer.
    pub open spec fn queue_grown(&self, before: &Graph) -> bool {
        &&& before.sys.queued@.len() <= self.sys.queued@.len()
        &&& self.sys.queued@.subrange(0, before.sys.queued@.len() as int) == before.sys.queued@
        &&& forall|k: int|
            before.sys.queued@.len() <= k < self.sys.queued@.len() ==> {
                let x = (#[trigger] self.sys.queued@[k]) as int;
                &&& before.is_node(x)
                &&& before.nodes@[x].flags.watching
                &&& !self.nodes@[x].flags.watching
            }
        &&& forall|n: int|
            0 <= n < self.nodes@.len() && (#[trigger] self.nodes@[n]).flags.watching
                ==> before.nodes@[n].flags.watching
    }

    /// Whether `n` stands in the part of the queue that was added since
    /// `before`.
    pub open spec fn queued_since(&self, before: &Graph, n: int) -> bool {
        exists|k: int|
            before.sys.queued@.len() <= k < self.sys.queued@.len() && #[trigger] self.sys.queued@[k]
                == n
    }

    /// Every node that watched in `before` and does no longer stands in the
    /// part of the queue that was added since.
    pub open spec fn summoned(&self, before: &Graph) -> bool {
        forall|n: int|
            0 <= n < self.nodes@.len() && before.nodes@[n].flags.watching && !(
            #[trigger] self.nodes@[n]).flags.watching ==> self.queued_since(before, n)
    }

    /// What was summoned in two steps was summoned.
    pub proof fn lemma_summoned_trans(&self, mid: &Graph, after: &Graph)
        requires
            self.nodes@.len() == mid.nodes@.len(),
            mid.nodes@.len() == after.nodes@.len(),
            mid.queue_grown(self),
            after.queue_grown(mid),
            mid.summoned(self),
            after.summoned(mid),
        ensures
            after.summoned(self),
    {
        assert forall|n: int|
            0 <= n < after.nodes@.len() && self.nodes@[n].flags.watching && !(
            #[trigger] after.nodes@[n]).flags.watching implies after.queued_since(self, n) by {
            if !mid.nodes@[n].flags.watching {
                assert(mid.queued_since(self, n));
                let k = choose|k: int|
                    self.sys.queued@.len() <= k < mid.sys.queued@.len() && #[trigger] mid.sys.queued@[k]
                        == n;
                assert(after.sys.queued@.subrange(0, mid.sys.queued@.len() as int)[k]
                    == mid.sys.queued@[k]);
                assert(after.sys.queued@[k] == n);
            } else {
                assert(after.queued_since(mid, n));
                let k = choose|k: int|
                    mid.sys.queued@.len() <= k < after.sys.queued@.len()
                        && #[trigger] after.sys.queued@[k] == n;
                assert(after.sys.queued@[k] == n);
            }
        }
    }

    /// A notification summons the members of its chain.
    pub proof fn lemma_notified_summoned(&self, after: &Graph, e: usize, c: Seq<usize>)
        requires
            after.notified(self, e, c),
        ensures
            after.summoned(self),
            !after.nodes@[e as int].flags.watching,
    {
        assert(c[0] == e);
        assert(member(c, e as int));
        assert forall|n: int|
            0 <= n < after.nodes@.len() && self.nodes@[n].flags.watching && !(
            #[trigger] after.nodes@[n]).flags.watching implies after.queued_since(self, n) by {
            assert(member(c, n));
            let i = choose|i: int| 0 <= i < c.len() && #[trigger] c[i] == n;
            let k = self.sys.queued@.len() + (c.len() - 1 - i);
            assert(after.sys.queued@[k] == c.reverse()[c.len() - 1 - i]);
            assert(after.sys.queued@[k] == n);
        }
    }

    /// Whether `c` leads upwards from `m`: each member is attached to the
    /// one that follows it.
    pub open spec fn climbs(&self, m: int, c: Seq<usize>) -> bool {
        &&& c.len() > 0
        &&& c[0] == m
        &&& forall|i: int, j: int|
            0 <= i && j == i + 1 && j < c.len() ==> self.parent(#[trigger] c[i] as int) == Some(
                #[trigger] c[j],
            )
    }

    /// Whether `n` is `m`, or one of the subscribers that `m` is attached
    /// to, directly or through others.
    pub open spec fn above(&self, m: int, n: int) -> bool {
        exists|c: Seq<usize>| #[trigger] self.climbs(m, c) && member(c, n)
    }

    /// Whether `n` is, or stands above, a subscriber of `d` at the places
    /// `from..to` that was pending and not dirty, watched, and was not under
    /// evaluation: the nodes that `shallow_propagate` queues.
    pub open spec fn beckoned(&self, d: int, from: int, to: int, n: int) -> bool {
        exists|m: int|
            {
                let f = self.nodes@[m].flags;
                &&& 0 <= m < self.nodes@.len()
                &&& f.pending && !f.dirty && f.watching && !f.recursed_check
                &&& self.subscribes(d, from, to, m)
                &&& #[trigger] self.above(m, n)
            }
    }

    /// No node has ceased to watch but those that were beckoned.
    pub open spec fn hushed(&self, before: &Graph, d: int, from: int, to: int) -> bool {
        forall|n: int|
            0 <= n < self.nodes@.len() && before.nodes@[n].flags.watching && !(
            #[trigger] self.nodes@[n]).flags.watching ==> before.beckoned(d, from, to, n)
    }

    /// Whether `n` is, or stands above, a node that `propagate` has marked,
    /// that watched and was not under evaluation: the nodes that `propagate`
    /// queues.
    pub open spec fn stirred(&self, before: &Graph, n: int) -> bool {
        exists|m: int|
            {
                let f = before.nodes@[m].flags;
                &&& 0 <= m < self.nodes@.len()
                &&& Graph::swept(f, self.nodes@[m].flags)
                &&& f.watching && !f.recursed_check
                &&& #[trigger] before.above(m, n)
            }
    }

    /// The chain that a notification queued leads upwards from its first
    /// member, in any graph with the same lists.
    pub proof fn lemma_chain_climbs(&self, before: &Graph, e: usize, c: Seq<usize>)
        requires
            self.wf(),
            self.is_chain(e, c),
            self.remarked(before),
        ensures
            before.climbs(e as int, c),
    {
        assert forall|i: int, j: int| 0 <= i && j == i + 1 && j < c.len() implies before.parent(
            #[trigger] c[i] as int,
        ) == Some(#[trigger] c[j]) by {
            assert(self.parent(c[i] as int) == Some(c[j]));
            assert(self.is_node(c[i] as int));
            assert(self.node_ok(c[i] as int));
            assert(self.sub_entry_ok(c[i] as int, 0));
        }
    }

    /// Of the subscribers of `d` at the places `from..to`, those that were
    /// made dirty, watched and were not under evaluation watch no longer.
    pub open spec fn called(&self, before: &Graph, d: int, from: int, to: int) -> bool {
        forall|n: int|
            0 <= n < self.nodes@.len() ==> {
                let f0 = before.nodes@[n].flags;
                f0.pending && !f0.dirty && f0.watching && !f0.recursed_check && before.subscribes(
                    d,
                    from,
                    to,
                    n,
                ) ==> !(#[trigger] self.nodes@[n]).flags.watching
            }
    }

    /// What `shallow_propagate` makes of a graph: of the subscribers of `d`
    /// at the places `from..to`, those that were pending are dirty now, and
    /// those of them that watched and were not under evaluation are queued;
    /// no other mark but `watching` has changed.
    pub open spec fn confirmed(&self, before: &Graph, d: int, from: int, to: int) -> bool {
        &&& self.dirtied(before, d, from, to)
        &&& self.called(before, d, from, to)
        &&& self.summoned(before)
        &&& self.hushed(before, d, from, to)
        &&& exists|trail: Seq<Graph>| #[trigger] self.toured(before, d, from, to, trail)
    }

    /// What `shallow_propagate` makes of a graph at the subscriber `sub`: a
    /// node that is pending and not dirty becomes dirty, and if it watches
    /// and is not under evaluation it is queued with the watching
    /// subscribers above it; any other node is left as it is.
    pub open spec fn told(&self, before: &Graph, sub: usize) -> bool {
        let f = before.nodes@[sub as int].flags;
        if f.pending && !f.dirty {
            exists|marked: Graph|
                {
                    &&& #[trigger] marked.reflagged(before, sub as int, Flags { dirty: true, ..f })
                    &&& if f.watching && !f.recursed_check {
                        exists|c: Seq<usize>| #[trigger] self.notified(&marked, sub, c)
                    } else {
                        self.same(&marked)
                    }
                }
        } else {
            self.same(before)
        }
    }

    /// Whether the graph at place `i + 1` of `trail` is what the graph at
    /// place `i` becomes at the subscriber of `d` at place `from + i`.
    pub open spec fn telling(before: &Graph, d: int, from: int, trail: Seq<Graph>, i: int) -> bool {
        trail[i + 1].told(&trail[i], before.links@[before.sub_lists@[d][from + i] as int].sub)
    }

    /// Whether `trail` is the course of a `shallow_propagate` over the
    /// subscribers of `d` at the places `from..to`, one after the other, that
    /// leads from `before` to `self`.
    pub open spec fn toured(
        &self,
        before: &Graph,
        d: int,
        from: int,
        to: int,
        trail: Seq<Graph>,
    ) -> bool {
        &&& trail.len() == to - from + 1
        &&& trail[0] == *before
        &&& forall|i: int| 0 <= i < to - from ==> #[trigger] Graph::telling(before, d, from, trail, i)
        &&& self.same(&trail.last())
    }

    /// Of the subscribers of `d` at the places `from..to`, those that were
    /// pending are dirty now; no other mark but `watching` has changed.
    pub open spec fn dirtied(&self, before: &Graph, d: int, from: int, to: int) -> bool {
        forall|n: int|
            0 <= n < self.nodes@.len() ==> {
                let f0 = before.nodes@[n].flags;
                let f1 = (#[trigger] self.nodes@[n]).flags;
                &&& f1.mutable == f0.mutable
                &&& f1.recursed_check == f0.recursed_check
                &&& f1.recursed == f0.recursed
                &&& f1.pending == f0.pending
                &&& f1.dirty == (f0.dirty || (f0.pending && before.subscribes(d, from, to, n)))
            }
    }

    /// A queue that has grown twice has grown.
    pub proof fn lemma_queue_grown_trans(&self, mid: &Graph, after: &Graph)
        requires
            self.nodes@.len() == mid.nodes@.len(),
            mid.nodes@.len() == after.nodes@.len(),
            mid.queue_grown(self),
            after.queue_grown(mid),
        ensures
            after.queue_grown(self),
    {
        assert(after.sys.queued@.subrange(0, self.sys.queued@.len() as int) =~= self.sys.queued@) by {
            assert forall|k: int| 0 <= k < self.sys.queued@.len() implies after.sys.queued@[k]
                == self.sys.queued@[k] by {
                assert(after.sys.queued@.subrange(0, mid.sys.queued@.len() as int)[k]
                    == mid.sys.queued@[k]);
                assert(mid.sys.queued@.subrange(0, self.sys.queued@.len() as int)[k]
                    == self.sys.queued@[k]);
            }
        }
        assert forall|k: int| self.sys.queued@.len() <= k < after.sys.queued@.len() implies {
            let x = (#[trigger] after.sys.queued@[k]) as int;
            &&& self.is_node(x)
            &&& self.nodes@[x].flags.watching
            &&& !after.nodes@[x].flags.watching
        } by {
            if k < mid.sys.queued@.len() {
                assert(after.sys.queued@.subrange(0, mid.sys.queued@.len() as int)[k]
                    == mid.sys.queued@[k]);
                let x = mid.sys.queued@[k] as int;
                assert(!mid.nodes@[x].flags.watching);
            }
        }
    }

    /// A notification grows the queue.
    pub proof fn lemma_notified_grown(&self, after: &Graph, e: usize, c: Seq<usize>)
        requires
            after.notified(self, e, c),
            self.is_node(e as int),
            self.nodes@[e as int].flags.watching,
        ensures
            after.queue_grown(self),
    {
        let q0 = self.sys.queued@;
        assert(after.sys.queued@.subrange(0, q0.len() as int) =~= q0);
        assert forall|k: int| q0.len() <= k < after.sys.queued@.len() implies {
            let x = (#[trigger] after.sys.queued@[k]) as int;
            &&& self.is_node(x)
            &&& self.nodes@[x].flags.watching
            &&& !after.nodes@[x].flags.watching
        } by {
            let i = c.len() - 1 - (k - q0.len());
            assert(after.sys.queued@[k] == c[i]);
            assert(member(c, c[i] as int));
            if i > 0 {
                assert(self.parent(c[i - 1] as int) == Some(c[i]));
            }
        }
    }

    /// Marks the pending subscribers of a node as dirty, from `link` to the
    /// end of its list of subscribers, now that the value of the node is known
    /// to have changed. The effects among them that watch and are not running
    /// are queued.
    pub fn shallow_propagate(&mut self, link: usize)
        requires
            old(self).wf(),
            old(self).is_live(link as int),
        ensures
            final(self).wf(),
            final(self).remarked(old(self)),
            final(self).queue_grown(old(self)),
            final(self).confirmed(
                old(self),
                old(self).links@[link as int].dep as int,
                old(self).sub_pos@[link as int],
                old(self).sub_lists@[old(self).links@[link as int].dep as int].len() as int,
            ),
    {
        let ghost before = *self;
        let ghost d = self.links@[link as int].dep as int;
        let ghost from = self.sub_pos@[link as int];
        let ghost ss = self.sub_lists@[d];
        let ghost mut q = from;
        let ghost mut trail: Seq<Graph> = seq![*self];
        let mut link = link;
        proof {
            assert(self.link_ok(link as int));
            assert(self.sys.queued@.subrange(0, self.sys.queued@.len() as int) =~= self.sys.queued@);
        }
        loop
            invariant_except_break
                from <= q < ss.len(),
                link == ss[q],
                self.dirtied(&before, d, from, q),
                self.called(&before, d, from, q),
                self.hushed(&before, d, from, q),
                trail.len() == q - from + 1,
            invariant
                trail.len() > 0,
                trail[0] == before,
                trail.last() == *self,
                forall|i: int|
                    0 <= i < trail.len() - 1 ==> #[trigger] Graph::telling(&before, d, from, trail, i),
                self.wf(),
                before.wf(),
                before == *old(self),
                before.is_node(d),
                ss == before.sub_lists@[d],
                0 <= from,
                self.remarked(&before),
                self.queue_grown(&before),
                self.summoned(&before),
            ensures
                self.dirtied(&before, d, from, ss.len() as int),
                self.called(&before, d, from, ss.len() as int),
                self.hushed(&before, d, from, ss.len() as int),
                trail.len() == ss.len() - from + 1,
            decreases ss.len() - q,
        {
            proof {
                assert(self.sub_entry_ok(d, q));
                assert(before.sub_entry_ok(d, q));
                assert(self.link_ok(link as int));
            }
            let sub = self.links[link].sub;
            let flags = self.nodes[sub].flags;
            let ghost prev = *self;
            let ghost mut climbed: Seq<usize> = Seq::empty();
            if (flags & (Flags::pending() | Flags::dirty())) == Flags::pending() {
                self.set_flags(sub, flags | Flags::dirty());
                let ghost marked = *self;
                proof {
                    assert(marked.queue_grown(&prev)) by {
                        assert(marked.sys.queued@.subrange(0, prev.sys.queued@.len() as int)
                            =~= prev.sys.queued@);
                    }
                }
                if (flags & (Flags::watching() | Flags::recursed_check())) == Flags::watching() {
                    let chain = self.notify(sub);
                    proof {
                        climbed = chain@;
                        marked.lemma_notified_grown(self, sub, chain@);
                        marked.lemma_notified_summoned(self, sub, chain@);
                        prev.lemma_queue_grown_trans(&marked, self);
                        assert(marked.summoned(&prev));
                        prev.lemma_summoned_trans(&marked, self);
                        before.lemma_remarked_trans(&prev, &marked);
                        marked.lemma_chain_climbs(&before, sub, climbed);
                    }
                }
                proof {
                    before.lemma_queue_grown_trans(&prev, self);
                    assert(self.summoned(&prev));
                    before.lemma_summoned_trans(&prev, self);
                }
            }
            proof {
                assert(self.told(&prev, sub));
                let ghost trail0 = trail;
                trail = trail.push(*self);
                assert forall|i: int| 0 <= i < trail.len() - 1 implies #[trigger] Graph::telling(
                    &before,
                    d,
                    from,
                    trail,
                    i,
                ) by {
                    if i < trail0.len() - 1 {
                        assert(Graph::telling(&before, d, from, trail0, i));
                        assert(trail[i] == trail0[i]);
                        assert(trail[i + 1] == trail0[i + 1]);
                    } else {
                        assert(trail[i] == prev);
                        assert(trail[i + 1] == *self);
                        assert(before.links@[before.sub_lists@[d][from + i] as int].sub == sub);
                    }
                }
                assert forall|n: int|
                    0 <= n < self.nodes@.len() && before.nodes@[n].flags.watching && !(
                    #[trigger] self.nodes@[n]).flags.watching implies before.beckoned(
                    d,
                    from,
                    q + 1,
                    n,
                ) by {
                    if !prev.nodes@[n].flags.watching {
                        assert(before.beckoned(d, from, q, n));
                        let m = choose|m: int|
                            {
                                let f = before.nodes@[m].flags;
                                &&& 0 <= m < before.nodes@.len()
                                &&& f.pending && !f.dirty && f.watching && !f.recursed_check
                                &&& before.subscribes(d, from, q, m)
                                &&& #[trigger] before.above(m, n)
                            };
                        let k = choose|k: int|
                            from <= k < q && before.links@[(
                            #[trigger] before.sub_lists@[d][k]) as int].sub == m;
                        assert(before.subscribes(d, from, q + 1, m));
                        assert(before.above(m, n));
                    } else {
                        assert(member(climbed, n));
                        assert(before.climbs(sub as int, climbed));
                        assert(before.above(sub as int, n));
                        assert(before.links@[(before.sub_lists@[d][q]) as int].sub == sub);
                        assert(before.subscribes(d, from, q + 1, sub as int));
                    }
                }
                assert forall|n: int| 0 <= n < self.nodes@.len() implies {
                    let f0 = before.nodes@[n].flags;
                    f0.pending && !f0.dirty && f0.watching && !f0.recursed_check && before.subscribes(
                        d,
                        from,
                        q + 1,
                        n,
                    ) ==> !(#[trigger] self.nodes@[n]).flags.watching
                } by {
                    let f0 = before.nodes@[n].flags;
                    if f0.pending && !f0.dirty && f0.watching && !f0.recursed_check
                        && before.subscribes(d, from, q + 1, n) {
                        let k = choose|k: int|
                            from <= k < q + 1 && before.links@[(
                            #[trigger] before.sub_lists@[d][k]) as int].sub == n;
                        if k < q {
                            assert(before.subscribes(d, from, q, n));
                            assert(!prev.nodes@[n].flags.watching);
                        } else {
                            assert(n == sub);
                            let fp = prev.nodes@[n].flags;
                            assert(fp.dirty == (f0.dirty || (f0.pending && before.subscribes(
                                d,
                                from,
                                q,
                                n,
                            ))));
                        }
                    }
                }
                assert forall|n: int| 0 <= n < self.nodes@.len() implies {
                    let f0 = before.nodes@[n].flags;
                    let f1 = (#[trigger] self.nodes@[n]).flags;
                    &&& f1.mutable == f0.mutable
                    &&& f1.recursed_check == f0.recursed_check
                    &&& f1.recursed == f0.recursed
                    &&& f1.pending == f0.pending
                    &&& f1.dirty == (f0.dirty || (f0.pending && before.subscribes(d, from, q + 1, n)))
                } by {
                    let fp = prev.nodes@[n].flags;
                    assert(fp.dirty == (before.nodes@[n].flags.dirty || (
                    before.nodes@[n].flags.pending && before.subscribes(d, from, q, n))));
                    if before.subscribes(d, from, q, n) {
                        let k = choose|k: int|
                            from <= k < q && before.links@[(#[trigger] before.sub_lists@[d][k]) as int].sub
                                == n;
                        assert(from <= k < q + 1);
                    }
                    if n == sub {
                        assert(before.links@[before.sub_lists@[d][q] as int].sub == n);
                    }
                    if before.subscribes(d, from, q + 1, n) {
                        let k = choose|k: int|
                            from <= k < q + 1 && before.links@[(
                            #[trigger] before.sub_lists@[d][k]) as int].sub == n;
                        if k < q {
                            assert(before.subscribes(d, from, q, n));
                        } else {
                            assert(n == sub);
                        }
                    }
                }
            }
            match self.links[link].next_sub {
                Some(next_sub) => {
                    link = next_sub;
                    proof {
                        q = q + 1;
                    }
                },
                None => {
                    proof {
                        assert(q + 1 == ss.len());
                    }
                    break ;
                },
            }
        }
        proof {
            assert(self.toured(&before, d, from, ss.len() as int, trail));
        }
    }

    /// Whether `l` is a subscriber link of the same node as `head`, standing
    /// at the place of `head` or behind it.
    pub open spec fn in_rest(&self, head: Option<usize>, l: int) -> bool {
        match head {
            Some(h) => self.is_live(l) && self.links@[l].dep == self.links@[h as int].dep
                && self.sub_pos@[l] >= self.sub_pos@[h as int],
            None => false,
        }
    }

    /// How many links `in_rest` holds of.
    pub open spec fn rest_len(&self, head: Option<usize>) -> int {
        match head {
            Some(h) => self.sub_lists@[self.links@[h as int].dep as int].len() - self.sub_pos@[h as int],
            None => 0,
        }
    }

    /// A bound on the work that the continuations in `stack` stand for.
    pub open spec fn stack_weight(&self, stack: Seq<Option<usize>>) -> int
        decreases stack.len(),
    {
        if stack.len() == 0 {
            0
        } else {
            1 + self.rest_len(stack.last()) + self.stack_weight(stack.drop_last())
        }
    }

    /// Every continuation in `stack` is a live link, or none.
    pub open spec fn heads_ok(&self, stack: Seq<Option<usize>>) -> bool {
        forall|i: int|
            0 <= i < stack.len() ==> match #[trigger] stack[i] {
                Some(h) => self.is_live(h as int),
                None => true,
            }
    }

    /// The weight of a stack of continuations is not negative.
    pub proof fn lemma_stack_weight(&self, stack: Seq<Option<usize>>)
        requires
            self.wf(),
            self.heads_ok(stack),
        ensures
            self.stack_weight(stack) >= 0,
        decreases stack.len(),
    {
        if stack.len() > 0 {
            assert(self.heads_ok(stack.drop_last())) by {
                assert forall|i: int| 0 <= i < stack.drop_last().len() implies match (
                #[trigger] stack.drop_last()[i]) {
                    Some(h) => self.is_live(h as int),
                    None => true,
                } by {
                    assert(stack.drop_last()[i] == stack[i]);
                }
            }
            self.lemma_stack_weight(stack.drop_last());
            match stack.last() {
                Some(h) => {
                    assert(self.link_ok(h as int));
                },
                None => {},
            }
        }
    }

    /// Whether `l` is still to be visited: it is the link at hand, or is
    /// reached from `next`, or from one of the continuations in `stack`.
    pub open spec fn on_agenda(
        &self,
        link: int,
        next: Option<usize>,
        stack: Seq<Option<usize>>,
        l: int,
    ) -> bool {
        ||| l == link
        ||| self.in_rest(next, l)
        ||| exists|i: int| 0 <= i < stack.len() && self.in_rest(#[trigger] stack[i], l)
    }

    /// Whether `propagate` has changed these marks.
    pub open spec fn swept(f0: Flags, f1: Flags) -> bool {
        f1.pending != f0.pending || f1.recursed != f0.recursed
    }

    /// Whether `propagate` has to see to the `sub` of `l`: `l` is a
    /// subscriber link of `d` from place `from` on, or one of a node that
    /// produces a value and was marked by this call.
    pub open spec fn due(&self, before: &Graph, d: int, from: int, l: int) -> bool {
        let m = before.links@[l].dep as int;
        &&& before.is_live(l)
        &&& (m == d && before.sub_pos@[l] >= from) || (self.nodes@[m].flags.mutable
            && Graph::swept(before.nodes@[m].flags, self.nodes@[m].flags))
    }

    /// Whether the `sub` of `l` is seen to: it is pending or dirty, or it is
    /// under evaluation and has not read `l` again yet; and it is not noted
    /// as reached again during an evaluation unless it is under evaluation.
    pub open spec fn seen_to(&self, l: int) -> bool {
        let sub = self.links@[l].sub as int;
        let f = self.nodes@[sub].flags;
        &&& f.pending || f.dirty || (f.recursed_check && self.dep_pos@[l] > self.cursor(sub))
        &&& f.recursed ==> f.recursed_check
    }

    /// Whether `propagate` had a reason to mark `n`: `n` is the `sub` of a
    /// link that was due, one that it has read again already if it is under
    /// evaluation.
    pub open spec fn reached(&self, before: &Graph, d: int, from: int, n: int) -> bool {
        exists|l: int|
            0 <= l < self.links@.len() && #[trigger] self.due(before, d, from, l)
                && before.links@[l].sub == n && (before.nodes@[n].flags.recursed_check
                ==> before.dep_pos@[l] <= before.cursor(n))
    }

    /// Every node that `propagate` marked, that watched and was not under
    /// evaluation, watches no longer.
    pub open spec fn roused(&self, before: &Graph) -> bool {
        forall|n: int|
            0 <= n < self.nodes@.len() ==> {
                let f0 = before.nodes@[n].flags;
                let f1 = (#[trigger] self.nodes@[n]).flags;
                Graph::swept(f0, f1) && f0.watching && !f0.recursed_check ==> !f1.watching
            }
    }

    /// How `propagate` changes marks: a node is marked pending at most once,
    /// and that where it was neither pending nor dirty, or had been reached
    /// again during an evaluation that is over.
    pub open spec fn marked(&self, before: &Graph) -> bool {
        forall|n: int|
            0 <= n < self.nodes@.len() ==> {
                let f0 = before.nodes@[n].flags;
                let f1 = (#[trigger] self.nodes@[n]).flags;
                &&& f1.mutable == f0.mutable
                &&& f1.recursed_check == f0.recursed_check
                &&& f1.dirty == f0.dirty
                &&& Graph::swept(f0, f1) ==> {
                    &&& !settled(f0)
                    &&& f1.pending
                    &&& f1.recursed == f0.recursed_check
                    &&& (f0.recursed && !f0.recursed_check) || (!f0.dirty && !f0.pending)
                }
            }
    }

    /// What `propagate` makes of a graph: every subscriber that is due is seen
    /// to, no other node is marked, and the marked nodes that watched are
    /// queued.
    pub open spec fn propagated(&self, before: &Graph, d: int, from: int) -> bool {
        &&& self.remarked(before)
        &&& self.queue_grown(before)
        &&& self.summoned(before)
        &&& self.roused(before)
        &&& self.marked(before)
        &&& forall|l: int|
            0 <= l < self.links@.len() && #[trigger] self.due(before, d, from, l) ==> self.seen_to(
                l,
            )
        &&& forall|n: int|
            0 <= n < self.nodes@.len() && Graph::swept(
                before.nodes@[n].flags,
                (#[trigger] self.nodes@[n]).flags,
            ) ==> self.reached(before, d, from, n)
        &&& self.stilled(before)
        &&& self.coursed(before, d, from)
    }

    /// One more step of `propagate`, in which the members of `climbed` were
    /// queued on account of `sub`, keeps `stilled`.
    pub proof fn lemma_stilled_step(
        &self,
        s0: &Graph,
        s1: &Graph,
        after: &Graph,
        link: int,
        effective: Flags,
        climbed: Seq<usize>,
    )
        requires
            self.wf(),
            s0.wf(),
            s1.wf(),
            s0.is_live(link),
            s0.remarked(self),
            s0.queue_grown(self),
            s0.marked(self),
            s0.stilled(self),
            s1.stamped(s0, link, effective),
            if effective.watching {
                after.notified(s1, s0.links@[link].sub, climbed)
            } else {
                *after == *s1
            },
        ensures
            after.stilled(self),
    {
        reveal(Graph::stilled);
        let sub = s0.links@[link].sub;
        assert(s0.link_ok(link));
        if effective.watching {
            assert(s1.remarked(s0));
            self.lemma_remarked_trans(s0, s1);
            s1.lemma_chain_climbs(self, sub, climbed);
        }
        assert forall|m: int|
            0 <= m < after.nodes@.len() && Graph::swept(
                self.nodes@[m].flags,
                s0.nodes@[m].flags,
            ) implies Graph::swept(self.nodes@[m].flags, (#[trigger] after.nodes@[m]).flags) by {
            assert(s1.nodes@[m].flags.pending == after.nodes@[m].flags.pending);
            assert(s1.nodes@[m].flags.recursed == after.nodes@[m].flags.recursed);
        }
        assert forall|n: int|
            0 <= n < after.nodes@.len() && s0.nodes@[n].flags.watching && !(
            #[trigger] after.nodes@[n]).flags.watching implies member(climbed, n) by {
            assert(s1.nodes@[n].flags.watching);
        }
        assert forall|n: int|
            0 <= n < after.nodes@.len() && self.nodes@[n].flags.watching && !(
            #[trigger] after.nodes@[n]).flags.watching implies after.stirred(self, n) by {
            if !s0.nodes@[n].flags.watching {
                assert(s0.stirred(self, n));
                let m = choose|m: int|
                    {
                        let f = self.nodes@[m].flags;
                        &&& 0 <= m < s0.nodes@.len()
                        &&& Graph::swept(f, s0.nodes@[m].flags)
                        &&& f.watching && !f.recursed_check
                        &&& #[trigger] self.above(m, n)
                    };
                assert(Graph::swept(self.nodes@[m].flags, after.nodes@[m].flags));
                assert(self.above(m, n));
            } else {
                assert(member(climbed, n));
                assert(effective.watching);
                assert(self.climbs(sub as int, climbed));
                assert(self.above(sub as int, n));
                assert(Graph::swept(self.nodes@[sub as int].flags, after.nodes@[sub as int].flags));
                assert(self.nodes@[sub as int].flags.watching);
            }
        }
    }

    /// No node has ceased to watch but those that were stirred.
    #[verifier::opaque]
    pub open spec fn stilled(&self, before: &Graph) -> bool {
        forall|n: int|
            0 <= n < self.nodes@.len() && before.nodes@[n].flags.watching && !(
            #[trigger] self.nodes@[n]).flags.watching ==> self.stirred(before, n)
    }

    /// What `mark` makes of a graph, and the marks that it returns. A node
    /// that is neither marked nor under evaluation becomes pending; so does
    /// one that was reached again during an evaluation that is over. A node
    /// under evaluation becomes pending, and is noted as reached again, where
    /// it has read `link` again already and is neither pending nor dirty. Any
    /// other node is left as it is.
    pub open spec fn stamped(&self, before: &Graph, link: int, effective: Flags) -> bool {
        let sub = before.links@[link].sub as int;
        let f = before.nodes@[sub].flags;
        let valid = before.dep_pos@[link] <= before.cursor(sub);
        if !f.recursed_check && !f.recursed && !f.dirty && !f.pending {
            &&& self.reflagged(before, sub, Flags { pending: true, ..f })
            &&& effective == f
        } else if !f.recursed_check && !f.recursed {
            &&& self.same(before)
            &&& effective == Flags::spec_none()
        } else if !f.recursed_check {
            &&& self.reflagged(before, sub, Flags { pending: true, recursed: false, ..f })
            &&& effective == f
        } else if !f.dirty && !f.pending && valid {
            &&& self.reflagged(before, sub, Flags { pending: true, recursed: true, ..f })
            &&& effective == (Flags { mutable: f.mutable, ..Flags::spec_none() })
        } else {
            &&& self.same(before)
            &&& effective == Flags::spec_none()
        }
    }

    /// Marks the `sub` of `link` as `propagate` does, and returns the marks
    /// that decide how the walk goes on: `watching` where the node has to be
    /// queued, `mutable` where its own subscribers have to be visited.
    pub fn mark(&mut self, link: usize) -> (effective: Flags)
        requires
            old(self).wf(),
            old(self).is_live(link as int),
        ensures
            final(self).wf(),
            final(self).stamped(old(self), link as int, effective),
    {
        proof {
            assert(self.link_ok(link as int));
        }
        let sub = self.links[link].sub;
        let flags = self.nodes[sub].flags;
        if (flags & (Flags::recursed_check() | Flags::recursed() | Flags::dirty()
            | Flags::pending())).is_zero() {
            self.set_flags(sub, flags | Flags::pending());
            flags
        } else if (flags & (Flags::recursed_check() | Flags::recursed())).is_zero() {
            Flags::none()
        } else if (flags & Flags::recursed_check()).is_zero() {
            self.set_flags(sub, flags.difference(Flags::recursed()) | Flags::pending());
            flags
        } else if (flags & (Flags::dirty() | Flags::pending())).is_zero() && self.is_valid_link(
            link,
            sub,
        ) {
            self.set_flags(sub, flags | (Flags::recursed() | Flags::pending()));
            flags & Flags::mutable()
        } else {
            Flags::none()
        }
    }

    /// The link at place `k` of a list is the only member at that place.
    pub proof fn lemma_same_place(&self, l: int, m: int)
        requires
            self.wf(),
            self.is_live(l),
            self.is_live(m),
            self.links@[l].dep == self.links@[m].dep,
            self.sub_pos@[l] == self.sub_pos@[m],
        ensures
            l == m,
    {
        assert(self.link_ok(l));
        assert(self.link_ok(m));
    }

    /// What follows a live link among the subscribers is live, and stands one
    /// place further.
    pub proof fn lemma_next_sub(&self, h: int)
        requires
            self.wf(),
            self.is_live(h),
        ensures
            match self.links@[h].next_sub {
                Some(x) => self.is_live(x as int) && self.links@[x as int].dep == self.links@[h].dep
                    && self.sub_pos@[x as int] == self.sub_pos@[h] + 1,
                None => self.sub_pos@[h] + 1 == self.sub_lists@[self.links@[h].dep as int].len(),
            },
            self.rest_len(self.links@[h].next_sub) == self.rest_len(Some(h as usize)) - 1,
            self.rest_len(Some(h as usize)) >= 1,
            forall|l: int|
                self.in_rest(Some(h as usize), l) ==> l == h || self.in_rest(
                    self.links@[h].next_sub,
                    l,
                ),
    {
        assert(self.link_ok(h));
        let d = self.links@[h].dep as int;
        let k = self.sub_pos@[h];
        assert(self.sub_entry_ok(d, k));
        if k + 1 < self.sub_lists@[d].len() {
            assert(self.sub_entry_ok(d, k + 1));
            assert(self.link_ok(self.sub_lists@[d][k + 1] as int));
        }
        assert forall|l: int| self.in_rest(Some(h as usize), l) implies l == h || self.in_rest(
            self.links@[h].next_sub,
            l,
        ) by {
            assert(self.link_ok(l));
            if self.sub_pos@[l] == k {
                self.lemma_same_place(l, h);
            }
        }
    }

    /// The subscriber links of the node of `head`, from `head` on; none
    /// where there is no `head`.
    pub open spec fn rest(&self, head: Option<usize>) -> Seq<usize> {
        match head {
            Some(h) => {
                let ss = self.sub_lists@[self.links@[h as int].dep as int];
                ss.subrange(self.sub_pos@[h as int], ss.len() as int)
            },
            None => Seq::empty(),
        }
    }

    /// The links that the continuations in `stack` stand for, those of the
    /// last continuation first.
    pub open spec fn waiting(&self, stack: Seq<Option<usize>>) -> Seq<usize>
        decreases stack.len(),
    {
        if stack.len() == 0 {
            Seq::empty()
        } else {
            self.rest(stack.last()) + self.waiting(stack.drop_last())
        }
    }

    /// The links that are still to be visited, in the order of their visits:
    /// the link at hand, those that follow it, and those that wait.
    #[verifier::opaque]
    pub open spec fn agenda(
        &self,
        link: usize,
        next: Option<usize>,
        stack: Seq<Option<usize>>,
    ) -> Seq<usize> {
        seq![link] + self.rest(next) + self.waiting(stack)
    }

    /// The link at hand is the first to be visited.
    pub proof fn lemma_agenda_head(&self, link: usize, next: Option<usize>, stack: Seq<Option<usize>>)
        ensures
            self.agenda(link, next, stack).len() > 0,
            self.agenda(link, next, stack)[0] == link,
    {
        reveal(Graph::agenda);
    }

    /// A live link stands first among the links from it on, before those
    /// from its successor on.
    pub proof fn lemma_rest_step(&self, h: usize)
        requires
            self.wf(),
            self.is_live(h as int),
        ensures
            self.rest(Some(h)) =~= seq![h] + self.rest(self.links@[h as int].next_sub),
    {
        self.lemma_next_sub(h as int);
        assert(self.link_ok(h as int));
    }

    /// The subscriber links of a node are those from its first on.
    pub proof fn lemma_rest_all(&self, n: int)
        requires
            self.wf(),
            self.is_node(n),
        ensures
            self.sub_lists@[n] =~= self.rest(self.nodes@[n].subs),
    {
        assert(self.node_ok(n));
        if self.sub_lists@[n].len() > 0 {
            assert(self.sub_entry_ok(n, 0));
            assert(self.link_ok(self.sub_lists@[n][0] as int));
        }
    }

    /// One more continuation waits before the others.
    pub proof fn lemma_waiting_push(&self, stack: Seq<Option<usize>>, head: Option<usize>)
        ensures
            self.waiting(stack.push(head)) =~= self.rest(head) + self.waiting(stack),
    {
        assert(stack.push(head).drop_last() =~= stack);
    }

    /// What one visit of `propagate` makes of a graph: the `sub` of `link` is
    /// marked as `mark` does, with `effective` as the marks that it returns,
    /// and is queued with the watching subscribers above it if `effective`
    /// says that it watches.
    #[verifier::opaque]
    pub open spec fn strode(&self, before: &Graph, link: int, effective: Flags) -> bool {
        exists|stamped: Graph|
            {
                &&& #[trigger] stamped.stamped(before, link, effective)
                &&& if effective.watching {
                    exists|c: Seq<usize>| #[trigger] self.notified(&stamped, before.links@[link].sub, c)
                } else {
                    self.same(&stamped)
                }
            }
    }

    /// The links to visit after the first of `todo`: the subscriber links of
    /// its `sub` where `effective` says that this is a node that produces a
    /// value, then the others of `todo`.
    #[verifier::opaque]
    pub open spec fn onward(&self, todo: Seq<usize>, effective: Flags) -> Seq<usize> {
        if effective.mutable {
            self.sub_lists@[self.links@[todo[0] as int].sub as int] + todo.drop_first()
        } else {
            todo.drop_first()
        }
    }

    /// Whether the visit at place `i` of a course of `propagate` leads to
    /// the graph and to the links to visit that follow.
    pub open spec fn pacing(&self, trail: Seq<Graph>, todo: Seq<Seq<usize>>, i: int) -> bool {
        &&& todo[i].len() > 0
        &&& exists|effective: Flags|
            {
                &&& #[trigger] trail[i + 1].strode(&trail[i], todo[i][0] as int, effective)
                &&& todo[i + 1] == self.onward(todo[i], effective)
            }
    }

    /// Whether `trail` and `todo` are the beginning of a course of
    /// `propagate` from place `from` of the subscribers of `d`: the graph
    /// before each visit, and the links that are still to be visited then,
    /// the next one first.
    #[verifier::opaque]
    pub open spec fn paced(
        &self,
        d: int,
        from: int,
        trail: Seq<Graph>,
        todo: Seq<Seq<usize>>,
    ) -> bool {
        &&& trail.len() > 0
        &&& todo.len() == trail.len()
        &&& trail[0] == *self
        &&& todo[0] == self.sub_lists@[d].subrange(from, self.sub_lists@[d].len() as int)
        &&& forall|i: int| 0 <= i < trail.len() - 1 ==> #[trigger] self.pacing(trail, todo, i)
    }

    /// What `propagate` makes of a graph, by its course: the links are
    /// visited one after the other, those of a marked node that produces a
    /// value before the links that follow, until none is left.
    pub open spec fn coursed(&self, before: &Graph, d: int, from: int) -> bool {
        exists|trail: Seq<Graph>, todo: Seq<Seq<usize>>|
            {
                &&& #[trigger] before.paced(d, from, trail, todo)
                &&& todo.last().len() == 0
                &&& self.same(&trail.last())
            }
    }

    /// One more visit continues a course.
    pub proof fn lemma_paced_step(
        &self,
        d: int,
        from: int,
        trail: Seq<Graph>,
        todo: Seq<Seq<usize>>,
        after: &Graph,
        effective: Flags,
        then: Seq<usize>,
    )
        requires
            self.paced(d, from, trail, todo),
            todo.last().len() > 0,
            after.strode(&trail.last(), todo.last()[0] as int, effective),
            then =~= self.onward(todo.last(), effective),
        ensures
            self.paced(d, from, trail.push(*after), todo.push(then)),
    {
        reveal(Graph::paced);
        let trail1 = trail.push(*after);
        let todo1 = todo.push(then);
        assert forall|i: int| 0 <= i < trail1.len() - 1 implies #[trigger] self.pacing(
            trail1,
            todo1,
            i,
        ) by {
            if i < trail.len() - 1 {
                assert(self.pacing(trail, todo, i));
                assert(trail1[i] == trail[i]);
                assert(trail1[i + 1] == trail[i + 1]);
                assert(todo1[i] == todo[i]);
                assert(todo1[i + 1] == todo[i + 1]);
            } else {
                assert(trail1[i] == trail.last());
                assert(trail1[i + 1] == *after);
                assert(todo1[i] == todo.last());
                assert(todo1[i + 1] == then);
            }
        }
    }

    /// After the visit of a link whose `sub` has subscribers that are to be
    /// visited, the first of them is at hand, and the links that followed
    /// wait.
    pub proof fn lemma_course_down(
        &self,
        link: usize,
        next: Option<usize>,
        stack: Seq<Option<usize>>,
        effective: Flags,
        child: usize,
    )
        requires
            self.wf(),
            self.is_live(link as int),
            effective.mutable,
            self.nodes@[self.links@[link as int].sub as int].subs == Some(child),
        ensures
            self.onward(self.agenda(link, next, stack), effective) =~= (
            match self.links@[child as int].next_sub {
                Some(ns) => self.agenda(child, Some(ns), stack.push(next)),
                None => self.agenda(child, next, stack),
            }),
    {
        reveal(Graph::agenda);
        reveal(Graph::onward);
        let sub = self.links@[link as int].sub as int;
        assert(self.link_ok(link as int));
        assert(self.node_ok(sub));
        assert(self.sub_entry_ok(sub, 0));
        assert(self.link_ok(child as int));
        self.lemma_rest_all(sub);
        self.lemma_rest_step(child);
        self.lemma_waiting_push(stack, next);
        assert(self.agenda(link, next, stack).drop_first() =~= self.rest(next) + self.waiting(
            stack,
        ));
    }

    /// After the visit of a link whose `sub` has no subscribers that are to
    /// be visited, the link that follows is at hand.
    pub proof fn lemma_course_along(
        &self,
        link: usize,
        n: usize,
        stack: Seq<Option<usize>>,
        effective: Flags,
    )
        requires
            self.wf(),
            self.is_live(link as int),
            self.is_live(n as int),
            effective.mutable ==> self.nodes@[self.links@[link as int].sub as int].subs.is_none(),
        ensures
            self.onward(self.agenda(link, Some(n), stack), effective) =~= self.agenda(
                n,
                self.links@[n as int].next_sub,
                stack,
            ),
    {
        reveal(Graph::agenda);
        reveal(Graph::onward);
        let sub = self.links@[link as int].sub as int;
        assert(self.link_ok(link as int));
        self.lemma_rest_all(sub);
        self.lemma_rest_step(n);
        assert(self.agenda(link, Some(n), stack).drop_first() =~= self.rest(Some(n))
            + self.waiting(stack));
    }

    /// After the visit of a link that nothing follows, whose `sub` has no
    /// subscribers that are to be visited, the links that waited last are
    /// next.
    pub proof fn lemma_course_up(
        &self,
        link: usize,
        stack: Seq<Option<usize>>,
        effective: Flags,
        found: Option<usize>,
        left: Seq<Option<usize>>,
    )
        requires
            self.wf(),
            self.is_live(link as int),
            effective.mutable ==> self.nodes@[self.links@[link as int].sub as int].subs.is_none(),
            self.waiting(stack) =~= self.rest(found) + self.waiting(left),
            match found {
                Some(p) => self.is_live(p as int),
                None => left.len() == 0,
            },
        ensures
            self.onward(self.agenda(link, None, stack), effective) =~= (match found {
                Some(p) => self.agenda(p, self.links@[p as int].next_sub, left),
                None => Seq::empty(),
            }),
    {
        reveal(Graph::agenda);
        reveal(Graph::onward);
        let sub = self.links@[link as int].sub as int;
        assert(self.link_ok(link as int));
        self.lemma_rest_all(sub);
        assert(self.agenda(link, None, stack).drop_first() =~= self.waiting(stack));
        match found {
            Some(p) => {
                self.lemma_rest_step(p);
            },
            None => {},
        }
    }

    /// Marks what depends on a node whose value may have changed: the `sub`
    /// of `link` and of the links that follow it among the subscribers of its
    /// `dep`, and, through each marked node that produces a value, the
    /// subscribers of that node in turn. A node is marked pending where it was
    /// neither pending nor dirty. The effects that watch are queued as they
    /// are met.
    pub fn propagate(&mut self, link: usize)
        requires
            old(self).wf(),
            old(self).is_live(link as int),
        ensures
            final(self).wf(),
            final(self).propagated(
                old(self),
                old(self).links@[link as int].dep as int,
                old(self).sub_pos@[link as int],
            ),
    {
        let ghost before = *self;
        let ghost d = self.links@[link as int].dep as int;
        let ghost from = self.sub_pos@[link as int];
        let mut link = link;
        proof {
            assert(self.link_ok(link as int));
            before.lemma_next_sub(link as int);
            assert(self.sys.queued@.subrange(0, self.sys.queued@.len() as int) =~= self.sys.queued@);
            assert(self.stilled(&before)) by {
                reveal(Graph::stilled);
            }
        }
        let mut next = self.links[link].next_sub;
        let mut stack: Vec<Option<usize>> = Vec::new();
        let ghost mut trail: Seq<Graph> = seq![*self];
        let ghost mut todo: Seq<Seq<usize>> = seq![before.rest(Some(link))];
        proof {
            before.lemma_rest_step(link);
            assert(before.waiting(stack@) =~= Seq::empty());
            assert(todo.last() =~= before.agenda(link, next, stack@)) by {
                reveal(Graph::agenda);
            }
            assert(before.paced(d, from, trail, todo)) by {
                reveal(Graph::paced);
            }
            assert forall|l: int|
                0 <= l < self.links@.len() && #[trigger] self.due(&before, d, from, l) implies self.seen_to(
                l,
            ) || before.on_agenda(link as int, next, stack@, l) by {
                assert(before.in_rest(Some(link), l));
            }
        }
        loop
            invariant_except_break
                before.is_live(link as int),
                match next {
                    Some(x) => before.is_live(x as int),
                    None => true,
                },
                before.heads_ok(stack@),
                forall|l: int|
                    0 <= l < self.links@.len() && #[trigger] self.due(&before, d, from, l)
                        ==> self.seen_to(l) || before.on_agenda(link as int, next, stack@, l),
                self.due(&before, d, from, link as int),
                forall|l: int| #[trigger] before.in_rest(next, l) ==> self.due(&before, d, from, l),
                forall|i: int, l: int|
                    0 <= i < stack@.len() && #[trigger] before.in_rest(stack@[i], l) ==> self.due(
                        &before,
                        d,
                        from,
                        l,
                    ),
                todo.last() == before.agenda(link, next, stack@),
            invariant
                self.wf(),
                before.wf(),
                before == *old(self),
                before.paced(d, from, trail, todo),
                trail.len() > 0,
                todo.len() > 0,
                trail.last() == *self,
                self.remarked(&before),
                self.queue_grown(&before),
                self.summoned(&before),
                self.roused(&before),
                self.stilled(&before),
                self.marked(&before),
                forall|n: int|
                    0 <= n < self.nodes@.len() && Graph::swept(
                        before.nodes@[n].flags,
                        (#[trigger] self.nodes@[n]).flags,
                    ) ==> self.reached(&before, d, from, n),
            ensures
                forall|l: int|
                    0 <= l < self.links@.len() && #[trigger] self.due(&before, d, from, l)
                        ==> self.seen_to(l),
                todo.last().len() == 0,
            decreases
                    self.nodes_where(|f: Flags| !settled(f)).len(),
                    before.rest_len(next) + before.stack_weight(stack@),
        {
            let ghost s0 = *self;
            let ghost stack0 = stack@;
            let ghost link0 = link;
            let ghost next0 = next;
            proof {
                before.lemma_agenda_head(link, next, stack@);
            }
            proof {
                assert(self.link_ok(link as int));
                assert(before.link_ok(link as int));
                before.lemma_stack_weight(stack@);
            }
            let sub = self.links[link].sub;
            let flags = self.mark(link);
            let ghost s1 = *self;
            let ghost mut climbed: Seq<usize> = Seq::empty();
            proof {
                assert(s1.queue_grown(&s0)) by {
                    assert(s1.sys.queued@.subrange(0, s0.sys.queued@.len() as int) =~= s0.sys.queued@);
                }
            }
            if (flags & Flags::watching()).is_nonzero() {
                let chain = self.notify(sub);
                proof {
                    climbed = chain@;
                    s1.lemma_notified_grown(self, sub, chain@);
                    s1.lemma_notified_summoned(self, sub, chain@);
                    s0.lemma_queue_grown_trans(&s1, self);
                    assert(s1.summoned(&s0));
                    s0.lemma_summoned_trans(&s1, self);
                }
            }
            proof {
                before.lemma_queue_grown_trans(&s0, self);
                assert(self.summoned(&s0));
                before.lemma_summoned_trans(&s0, self);
                s0.lemma_nodes_where_step(self, |f: Flags| !settled(f));
                assert(self.seen_to(link as int));
                assert forall|l: int|
                    0 <= l < self.links@.len() && s0.seen_to(l) implies self.seen_to(l) by {
                    assert(s0.link_ok(l));
                }
                assert forall|l: int|
                    0 <= l < self.links@.len() && s0.due(&before, d, from, l) implies #[trigger] self.due(
                    &before,
                    d,
                    from,
                    l,
                ) by {
                    assert(before.link_ok(l));
                }
                before.lemma_stilled_step(&s0, &s1, self, link as int, flags, climbed);
                assert(self.strode(&s0, link as int, flags)) by {
                    reveal(Graph::strode);
                }
                assert forall|n: int|
                    0 <= n < self.nodes@.len() && Graph::swept(
                        before.nodes@[n].flags,
                        (#[trigger] self.nodes@[n]).flags,
                    ) implies self.reached(&before, d, from, n) by {
                    if Graph::swept(before.nodes@[n].flags, s0.nodes@[n].flags) {
                        assert(s0.reached(&before, d, from, n));
                        let l = choose|l: int|
                            0 <= l < s0.links@.len() && #[trigger] s0.due(&before, d, from, l)
                                && before.links@[l].sub == n && (
                            before.nodes@[n].flags.recursed_check ==> before.dep_pos@[l]
                                <= before.cursor(n));
                        assert(self.due(&before, d, from, l));
                    } else {
                        assert(n == sub);
                        assert(self.due(&before, d, from, link as int));
                    }
                }
            }
            if (flags & Flags::mutable()).is_nonzero() {
                proof {
                    assert(self.node_ok(sub as int));
                }
                match self.nodes[sub].subs {
                    Some(sub_subs) => {
                        proof {
                            assert(self.sub_entry_ok(sub as int, 0));
                            assert(before.sub_entry_ok(sub as int, 0));
                            assert(before.link_ok(sub_subs as int));
                            before.lemma_next_sub(sub_subs as int);
                        }
                        let ghost old_next = next;
                        link = sub_subs;
                        match self.links[sub_subs].next_sub {
                            Some(next_sub) => {
                                stack.push(next);
                                next = Some(next_sub);
                                proof {
                                    assert(stack@.drop_last() =~= stack0);
                                    assert(stack@[stack@.len() - 1] == old_next);
                                    assert forall|i: int| 0 <= i < stack0.len() implies stack@[i]
                                        == stack0[i] by {}
                                    assert forall|i: int, l: int|
                                        0 <= i < stack@.len() && #[trigger] before.in_rest(
                                            stack@[i],
                                            l,
                                        ) implies self.due(&before, d, from, l) by {
                                        if i < stack0.len() {
                                            assert(before.in_rest(stack0[i], l));
                                        } else {
                                            assert(before.in_rest(old_next, l));
                                        }
                                    }
                                }
                            },
                            None => {
                                proof {
                                    assert forall|l: int| #[trigger]
                                        before.in_rest(next, l) implies self.due(
                                        &before,
                                        d,
                                        from,
                                        l,
                                    ) by {
                                        assert(s0.due(&before, d, from, l));
                                    }
                                }
                            },
                        }
                        proof {
                            assert(Graph::swept(
                                before.nodes@[sub as int].flags,
                                self.nodes@[sub as int].flags,
                            ));
                            assert(self.due(&before, d, from, link as int));
                            assert forall|l: int|
                                0 <= l < self.links@.len() && #[trigger] self.due(
                                    &before,
                                    d,
                                    from,
                                    l,
                                ) implies self.seen_to(l) || before.on_agenda(
                                link as int,
                                next,
                                stack@,
                                l,
                            ) by {
                                assert(before.link_ok(l));
                                if s0.due(&before, d, from, l) {
                                    if !s0.seen_to(l) {
                                        if before.in_rest(old_next, l) {
                                            if stack@.len() > stack0.len() {
                                                assert(before.in_rest(
                                                    stack@[stack@.len() - 1],
                                                    l,
                                                ));
                                            }
                                        } else if exists|i: int|
                                            0 <= i < stack0.len() && before.in_rest(
                                                #[trigger] stack0[i],
                                                l,
                                            ) {
                                            let i = choose|i: int|
                                                0 <= i < stack0.len() && before.in_rest(
                                                    #[trigger] stack0[i],
                                                    l,
                                                );
                                            assert(before.in_rest(stack@[i], l));
                                        }
                                    }
                                } else {
                                    assert(before.links@[l].dep == sub);
                                    assert(before.in_rest(Some(sub_subs), l));
                                }
                            }
                            before.lemma_course_down(link0, next0, stack0, flags, sub_subs);
                            let then = before.agenda(link, next, stack@);
                            before.lemma_paced_step(d, from, trail, todo, self, flags, then);
                            trail = trail.push(*self);
                            todo = todo.push(then);
                        }
                        continue ;
                    },
                    None => {},
                }
            }
            proof {
                assert forall|l: int|
                    0 <= l < self.links@.len() && #[trigger] self.due(&before, d, from, l)
                        && !s0.due(&before, d, from, l) implies false by {
                    assert(before.link_ok(l));
                    assert(before.node_ok(sub as int));
                    assert(self.node_ok(sub as int));
                }
            }
            match next {
                Some(some_next) => {
                    proof {
                        before.lemma_next_sub(some_next as int);
                        assert(self.link_ok(some_next as int));
                    }
                    let ghost old_next = next;
                    link = some_next;
                    next = self.links[some_next].next_sub;
                    proof {
                        assert forall|l: int|
                            0 <= l < self.links@.len() && #[trigger] self.due(&before, d, from, l)
                                implies self.seen_to(l) || before.on_agenda(
                            link as int,
                            next,
                            stack@,
                            l,
                        ) by {
                            assert(s0.due(&before, d, from, l));
                        }
                        assert(before.in_rest(old_next, link as int));
                        assert forall|l: int| #[trigger] before.in_rest(next, l) implies self.due(
                            &before,
                            d,
                            from,
                            l,
                        ) by {
                            assert(before.in_rest(old_next, l));
                        }
                        assert forall|i: int, l: int|
                            0 <= i < stack@.len() && #[trigger] before.in_rest(
                                stack@[i],
                                l,
                            ) implies self.due(&before, d, from, l) by {
                            assert(before.in_rest(stack0[i], l));
                        }
                        before.lemma_course_along(link0, some_next, stack0, flags);
                        let then = before.agenda(link, next, stack@);
                        before.lemma_paced_step(d, from, trail, todo, self, flags, then);
                        trail = trail.push(*self);
                        todo = todo.push(then);
                    }
                    continue ;
                },
                None => {},
            }
            let mut found: Option<usize> = None;
            proof {
                assert(before.waiting(stack0) =~= before.rest(found) + before.waiting(stack@));
            }
            while found.is_none() && stack.len() > 0
                invariant
                    before.waiting(stack0) =~= before.rest(found) + before.waiting(stack@),
                    before.wf(),
                    before.heads_ok(stack@),
                    before.heads_ok(stack0),
                    stack@.len() <= stack0.len(),
                    stack@ == stack0.subrange(0, stack@.len() as int),
                    match found {
                        Some(x) => before.is_live(x as int),
                        None => true,
                    },
                    before.stack_weight(stack0) >= before.stack_weight(stack@) + (match found {
                        Some(x) => 1 + before.rest_len(found),
                        None => 0,
                    }),
                    forall|i: int|
                        stack@.len() <= i < stack0.len() ==> (#[trigger] stack0[i]).is_none()
                            || stack0[i] == found,
                    found.is_some() ==> exists|i: int|
                        0 <= i < stack0.len() && #[trigger] stack0[i] == found,
                decreases stack.len(),
            {
                let ghost st = stack@;
                let top = stack.pop();
                proof {
                    assert(stack@ =~= st.drop_last());
                    assert(st[st.len() - 1] == stack0[st.len() - 1]);
                    assert(before.waiting(st) =~= before.rest(st.last()) + before.waiting(stack@));
                }
                match top {
                    Some(t) => {
                        found = t;
                    },
                    None => {},
                }
            }
            match found {
                Some(popped) => {
                    proof {
                        before.lemma_next_sub(popped as int);
                        before.lemma_stack_weight(stack@);
                        assert(self.link_ok(popped as int));
                    }
                    link = popped;
                    next = self.links[popped].next_sub;
                    proof {
                        let at = choose|i: int|
                            0 <= i < stack0.len() && #[trigger] stack0[i] == found;
                        assert(before.in_rest(stack0[at], popped as int));
                        assert(s0.due(&before, d, from, popped as int));
                        assert forall|l: int| #[trigger] before.in_rest(next, l) implies self.due(
                            &before,
                            d,
                            from,
                            l,
                        ) by {
                            assert(before.in_rest(stack0[at], l));
                            assert(s0.due(&before, d, from, l));
                        }
                        assert forall|i: int, l: int|
                            0 <= i < stack@.len() && #[trigger] before.in_rest(
                                stack@[i],
                                l,
                            ) implies self.due(&before, d, from, l) by {
                            assert(stack@[i] == stack0[i]);
                            assert(before.in_rest(stack0[i], l));
                            assert(s0.due(&before, d, from, l));
                        }
                        assert forall|l: int|
                            0 <= l < self.links@.len() && #[trigger] self.due(&before, d, from, l)
                                implies self.seen_to(l) || before.on_agenda(
                            link as int,
                            next,
                            stack@,
                            l,
                        ) by {
                            assert(s0.due(&before, d, from, l));
                            if !s0.seen_to(l) {
                                if exists|i: int|
                                    0 <= i < stack0.len() && before.in_rest(#[trigger] stack0[i], l) {
                                    let i = choose|i: int|
                                        0 <= i < stack0.len() && before.in_rest(
                                            #[trigger] stack0[i],
                                            l,
                                        );
                                    if i < stack@.len() {
                                        assert(stack@[i] == stack0[i]);
                                    }
                                }
                            }
                        }
                        before.lemma_course_up(link0, stack0, flags, found, stack@);
                        let then = before.agenda(link, next, stack@);
                        before.lemma_paced_step(d, from, trail, todo, self, flags, then);
                        trail = trail.push(*self);
                        todo = todo.push(then);
                    }
                },
                None => {
                    proof {
                        before.lemma_course_up(link0, stack0, flags, found, stack@);
                        let then = Seq::<usize>::empty();
                        before.lemma_paced_step(d, from, trail, todo, self, flags, then);
                        trail = trail.push(*self);
                        todo = todo.push(then);
                        assert forall|l: int|
                            0 <= l < self.links@.len() && #[trigger] self.due(&before, d, from, l)
                                implies self.seen_to(l) by {
                            assert(s0.due(&before, d, from, l));
                            if !s0.seen_to(l) {
                                if exists|i: int|
                                    0 <= i < stack0.len() && before.in_rest(#[trigger] stack0[i], l) {
                                    let i = choose|i: int|
                                        0 <= i < stack0.len() && before.in_rest(
                                            #[trigger] stack0[i],
                                            l,
                                        );
                                    assert(before.in_rest(found, l));
                                }
                            }
                        }
                    }
                    break ;
                },
            }
        }
        proof {
            assert(self.coursed(&before, d, from));
        }
    }

    /// A graph differs from itself in nothing.
    pub proof fn lemma_remarked_refl(&self)
        ensures
            self.remarked(self),
            self.queue_grown(self),
    {
        assert(self.sys.queued@.subrange(0, self.sys.queued@.len() as int) =~= self.sys.queued@);
    }

    /// Two changes of marks are one.
    pub proof fn lemma_remarked_trans(&self, mid: &Graph, after: &Graph)
        requires
            mid.remarked(self),
            after.remarked(mid),
        ensures
            after.remarked(self),
    {
    }

    /// How many dependencies stand at the place of `l` or behind it in the
    /// list that `l` is a member of; none where it is a member of no list.
    pub open spec fn dep_rest(&self, l: int) -> int {
        if self.is_live(l) {
            self.dep_lists@[self.links@[l].sub as int].len() - self.dep_pos@[l]
        } else {
            0
        }
    }

    /// What follows a link among the dependencies is live, and has one
    /// dependency less behind it.
    pub proof fn lemma_next_dep(&self, l: int)
        requires
            self.wf(),
            self.is_link(l),
        ensures
            self.dep_rest(l) >= 0,
            match self.links@[l].next_dep {
                Some(n) => self.is_live(l) && self.is_live(n as int) && self.dep_rest(n as int)
                    == self.dep_rest(l) - 1 && self.links@[n as int].sub == self.links@[l].sub,
                None => true,
            },
    {
        assert(self.link_ok(l));
        if self.is_live(l) {
            let s = self.links@[l].sub as int;
            let k = self.dep_pos@[l];
            assert(self.dep_entry_ok(s, k));
            if k + 1 < self.dep_lists@[s].len() {
                assert(self.dep_entry_ok(s, k + 1));
                assert(self.link_ok(self.dep_lists@[s][k + 1] as int));
            }
        }
    }
}

} // verus!
