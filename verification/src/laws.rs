//! What holds of every well-formed graph, and of the two operations that
//! make and take links.

use vstd::prelude::*;
use crate::graph::{is, Graph};

verus! {

impl Graph {
    /// Every link that is a member of a list is a member of two: of the
    /// dependencies of its `sub` and of the subscribers of its `dep`. On both
    /// axes its neighbours point back to it, and where it has none the head or
    /// tail of the list is the link itself.
    pub proof fn law_adjacency(&self, l: int)
        requires
            self.wf(),
            self.is_live(l),
        ensures
            self.is_node(self.links@[l].sub as int),
            self.is_node(self.links@[l].dep as int),
            0 <= self.dep_pos@[l] < self.deps_of(self.links@[l].sub as int).len(),
            self.deps_of(self.links@[l].sub as int)[self.dep_pos@[l]] == l,
            0 <= self.sub_pos@[l] < self.subs_of(self.links@[l].dep as int).len(),
            self.subs_of(self.links@[l].dep as int)[self.sub_pos@[l]] == l,
            match self.links@[l].prev_dep {
                Some(p) => self.is_live(p as int) && self.links@[p as int].sub == self.links@[l].sub
                    && is(self.links@[p as int].next_dep, l),
                None => is(self.nodes@[self.links@[l].sub as int].deps, l),
            },
            match self.links@[l].next_dep {
                Some(n) => self.is_live(n as int) && self.links@[n as int].sub == self.links@[l].sub
                    && is(self.links@[n as int].prev_dep, l),
                None => self.dep_pos@[l] + 1 == self.deps_of(self.links@[l].sub as int).len(),
            },
            match self.links@[l].prev_sub {
                Some(p) => self.is_live(p as int) && self.links@[p as int].dep == self.links@[l].dep
                    && is(self.links@[p as int].next_sub, l),
                None => is(self.nodes@[self.links@[l].dep as int].subs, l),
            },
            match self.links@[l].next_sub {
                Some(n) => self.is_live(n as int) && self.links@[n as int].dep == self.links@[l].dep
                    && is(self.links@[n as int].prev_sub, l),
                None => is(self.nodes@[self.links@[l].dep as int].subs_tail, l),
            },
    {
        assert(self.link_ok(l));
        let s = self.links@[l].sub as int;
        let d = self.links@[l].dep as int;
        let i = self.dep_pos@[l];
        let j = self.sub_pos@[l];
        assert(self.node_ok(s));
        assert(self.node_ok(d));
        assert(self.dep_entry_ok(s, i));
        assert(self.sub_entry_ok(d, j));
        if i > 0 {
            assert(self.dep_entry_ok(s, i - 1));
            assert(self.link_ok(self.dep_lists@[s][i - 1] as int));
        }
        if i + 1 < self.dep_lists@[s].len() {
            assert(self.dep_entry_ok(s, i + 1));
            assert(self.link_ok(self.dep_lists@[s][i + 1] as int));
        }
        if j > 0 {
            assert(self.sub_entry_ok(d, j - 1));
            assert(self.link_ok(self.sub_lists@[d][j - 1] as int));
        }
        if j + 1 < self.sub_lists@[d].len() {
            assert(self.sub_entry_ok(d, j + 1));
            assert(self.link_ok(self.sub_lists@[d][j + 1] as int));
        }
    }

    /// The members of the lists of a node are links between that node and
    /// another, and no link is a member of a list twice.
    pub proof fn law_members(&self, n: int)
        requires
            self.wf(),
            self.is_node(n),
        ensures
            forall|i: int|
                0 <= i < self.deps_of(n).len() ==> self.is_live(#[trigger] self.deps_of(n)[i] as int)
                    && self.links@[self.deps_of(n)[i] as int].sub == n,
            forall|i: int|
                0 <= i < self.subs_of(n).len() ==> self.is_live(#[trigger] self.subs_of(n)[i] as int)
                    && self.links@[self.subs_of(n)[i] as int].dep == n,
            self.deps_of(n).no_duplicates(),
            self.subs_of(n).no_duplicates(),
    {
        assert forall|i: int| 0 <= i < self.deps_of(n).len() implies self.is_live(
            #[trigger] self.deps_of(n)[i] as int,
        ) && self.links@[self.deps_of(n)[i] as int].sub == n by {
            assert(self.dep_entry_ok(n, i));
        }
        assert forall|i: int| 0 <= i < self.subs_of(n).len() implies self.is_live(
            #[trigger] self.subs_of(n)[i] as int,
        ) && self.links@[self.subs_of(n)[i] as int].dep == n by {
            assert(self.sub_entry_ok(n, i));
            assert(self.link_ok(self.subs_of(n)[i] as int));
        }
        assert forall|i: int, j: int|
            0 <= i < self.deps_of(n).len() && 0 <= j < self.deps_of(n).len() && i != j implies self.deps_of(
            n,
        )[i] != self.deps_of(n)[j] by {
            assert(self.dep_entry_ok(n, i));
            assert(self.dep_entry_ok(n, j));
        }
        assert forall|i: int, j: int|
            0 <= i < self.subs_of(n).len() && 0 <= j < self.subs_of(n).len() && i != j implies self.subs_of(
            n,
        )[i] != self.subs_of(n)[j] by {
            assert(self.sub_entry_ok(n, i));
            assert(self.sub_entry_ok(n, j));
        }
    }

    /// Whether no two dependencies of `n` are links to one node.
    pub open spec fn distinct_deps(&self, n: int) -> bool {
        forall|i: int, j: int|
            0 <= i < j < self.deps_of(n).len() ==> self.links@[#[trigger] self.deps_of(n)[i] as int].dep
                != self.links@[#[trigger] self.deps_of(n)[j] as int].dep
    }

    /// Whether `sub` has a link to `dep` that `link` does not find: one that
    /// stands neither under the cursor nor behind it, while the newest link
    /// that `dep` got is not one from `sub` stamped `version`.
    pub open spec fn hidden_edge(&self, dep: int, sub: int, version: usize) -> bool {
        &&& !self.at_cursor(dep, sub)
        &&& !self.at_expected(dep, sub)
        &&& !self.seen(dep, sub, version)
        &&& exists|i: int|
            0 <= i < self.deps_of(sub).len() && self.links@[#[trigger] self.deps_of(sub)[i] as int].dep
                == dep
    }

    /// A read of `dep` leaves the dependencies of `sub` without a second
    /// link to one node, unless `sub` has a link to `dep` that `link` does
    /// not find.
    pub proof fn law_link_keeps_distinct(&self, after: &Graph, dep: int, sub: int, version: usize)
        requires
            self.wf(),
            self.is_node(dep),
            self.is_node(sub),
            after.linked(self, dep, sub, version),
            self.distinct_deps(sub),
            !self.hidden_edge(dep, sub, version),
        ensures
            after.distinct_deps(sub),
    {
        if self.at_cursor(dep, sub) {
        } else if self.at_expected(dep, sub) {
            assert(self.node_ok(sub));
            match self.nodes@[sub].deps_tail {
                Some(t) => {
                    assert(self.link_ok(t as int));
                },
                None => {},
            }
            assert(self.dep_entry_ok(sub, self.cursor(sub) + 1));
            assert forall|i: int, j: int| 0 <= i < j < after.deps_of(sub).len() implies after.links@[
            #[trigger] after.deps_of(sub)[i] as int].dep != after.links@[
            #[trigger] after.deps_of(sub)[j] as int].dep by {
                assert(self.dep_entry_ok(sub, i));
                assert(self.dep_entry_ok(sub, j));
                assert(self.links@[self.deps_of(sub)[i] as int].dep != self.links@[self.deps_of(
                    sub,
                )[j] as int].dep);
            }
        } else if self.seen(dep, sub, version) {
        } else {
            let new = self.links@.len() as int;
            let k = self.cursor(sub) + 1;
            let ds = self.deps_of(sub);
            assert(self.node_ok(sub));
            match self.nodes@[sub].deps_tail {
                Some(t) => {
                    assert(self.link_ok(t as int));
                },
                None => {},
            }
            ds.insert_ensures(k, self.links.len());
            assert forall|i: int, j: int| 0 <= i < j < after.deps_of(sub).len() implies after.links@[
            #[trigger] after.deps_of(sub)[i] as int].dep != after.links@[
            #[trigger] after.deps_of(sub)[j] as int].dep by {
                let a = if i < k {
                    i
                } else {
                    i - 1
                };
                let b = if j < k {
                    j
                } else {
                    j - 1
                };
                if i != k {
                    assert(self.dep_entry_ok(sub, a));
                    assert(after.deps_of(sub)[i] == ds[a]);
                }
                if j != k {
                    assert(self.dep_entry_ok(sub, b));
                    assert(after.deps_of(sub)[j] == ds[b]);
                }
                if i != k && j != k {
                    assert(self.links@[ds[a] as int].dep != self.links@[ds[b] as int].dep);
                }
            }
        }
    }

    /// A read that is made twice in a row is recorded once.
    pub proof fn law_link_idempotent(
        &self,
        once: &Graph,
        twice: &Graph,
        dep: int,
        sub: int,
        version: usize,
    )
        requires
            self.wf(),
            self.is_node(dep),
            self.is_node(sub),
            once.linked(self, dep, sub, version),
            twice.linked(once, dep, sub, version),
        ensures
            twice.same(once),
    {
        assert(self.node_ok(sub));
        if self.at_cursor(dep, sub) {
            assert(once.at_cursor(dep, sub));
        } else if self.at_expected(dep, sub) {
            match self.nodes@[sub].deps_tail {
                Some(t) => {
                    assert(self.link_ok(t as int));
                },
                None => {},
            }
            assert(self.dep_entry_ok(sub, self.cursor(sub) + 1));
            assert(once.at_cursor(dep, sub));
        } else if self.seen(dep, sub, version) {
            assert(!once.at_cursor(dep, sub));
            assert(!once.at_expected(dep, sub));
            assert(once.seen(dep, sub, version));
        } else {
            assert(once.at_cursor(dep, sub));
        }
    }

    /// Letting go of links leaves the dependencies of a node without a second
    /// link to one node, where there was none.
    pub proof fn law_shrunk_keeps_distinct(&self, after: &Graph, root: int, n: int)
        requires
            self.wf(),
            after.wf(),
            after.shrunk(self, root),
            self.is_node(n),
            self.distinct_deps(n),
        ensures
            after.distinct_deps(n),
    {
        assert forall|i: int, j: int| 0 <= i < j < after.deps_of(n).len() implies after.links@[
        #[trigger] after.deps_of(n)[i] as int].dep != after.links@[
        #[trigger] after.deps_of(n)[j] as int].dep by {
            let a = after.deps_of(n)[i] as int;
            let b = after.deps_of(n)[j] as int;
            assert(after.dep_entry_ok(n, i));
            assert(after.dep_entry_ok(n, j));
            assert(after.link_ok(a));
            assert(after.link_ok(b));
            assert(self.link_ok(a));
            assert(self.link_ok(b));
            assert((after.dep_pos@[a] < after.dep_pos@[b]) == (self.dep_pos@[a] < self.dep_pos@[b]));
            let pa = self.dep_pos@[a];
            let pb = self.dep_pos@[b];
            assert(self.deps_of(n)[pa] == a);
            assert(self.deps_of(n)[pb] == b);
        }
    }

    /// Two chains of effects that begin with one effect agree as far as both
    /// reach.
    pub proof fn lemma_chains_agree(&self, e: usize, c1: Seq<usize>, c2: Seq<usize>, i: int)
        requires
            self.is_chain(e, c1),
            self.is_chain(e, c2),
            0 <= i < c1.len(),
            i < c2.len(),
        ensures
            c1[i] == c2[i],
        decreases i,
    {
        if i > 0 {
            self.lemma_chains_agree(e, c1, c2, i - 1);
            assert(self.parent(c1[i - 1] as int) == Some(c1[i]));
            assert(self.parent(c2[i - 1] as int) == Some(c2[i]));
        }
    }

    /// There is one chain of effects at most that `notify` can queue for an
    /// effect.
    pub proof fn law_chain_unique(&self, e: usize, c1: Seq<usize>, c2: Seq<usize>)
        requires
            self.is_chain(e, c1),
            self.chain_ends(c1),
            self.is_chain(e, c2),
            self.chain_ends(c2),
        ensures
            c1 == c2,
    {
        self.lemma_chain_stops(e, c1, c2);
        self.lemma_chain_stops(e, c2, c1);
        assert forall|i: int| 0 <= i < c1.len() implies c1[i] == c2[i] by {
            self.lemma_chains_agree(e, c1, c2, i);
        }
        assert(c1 =~= c2);
    }

    /// A chain of effects that has come to its end is no shorter than any
    /// chain that begins with the same effect.
    pub proof fn lemma_chain_stops(&self, e: usize, short: Seq<usize>, long: Seq<usize>)
        requires
            self.is_chain(e, short),
            self.chain_ends(short),
            self.is_chain(e, long),
        ensures
            long.len() <= short.len(),
    {
        if short.len() < long.len() {
            let n = short.len() as int;
            self.lemma_chains_agree(e, short, long, n - 1);
            assert(self.parent(long[n - 1] as int) == Some(long[n]));
            let p = long[n];
            assert(self.nodes@[p as int].flags.watching);
            assert(crate::propagation::member(short, p as int));
            let k = choose|k: int| 0 <= k < short.len() && #[trigger] short[k] == p as int;
            self.lemma_chains_agree(e, short, long, k);
            assert(long[k] == long[n]);
        }
    }

    /// The end of an evaluation of `sub`, at which the dependencies that it
    /// did not read are let go of, leaves the dependencies of every node
    /// without a second link to one node, where there was none when the
    /// code of `sub` returned.
    pub proof fn law_end_keeps_distinct(&self, after: &Graph, sub: int, prev: Option<usize>, n: int)
        requires
            self.wf(),
            after.wf(),
            after.ended(self, sub, prev),
            self.is_node(n),
            self.distinct_deps(n),
        ensures
            after.distinct_deps(n),
    {
        let mid = choose|mid: Graph|
            {
                &&& mid.wf()
                &&& #[trigger] mid.resumed(self, sub, prev)
                &&& after.pruned(&mid, sub)
                &&& after.released_all(&mid, sub)
                &&& !after.emptied(&mid, sub) ==> after.kept_read(&mid, sub)
            };
        assert(mid.distinct_deps(n));
        mid.law_shrunk_keeps_distinct(after, -1, n);
    }

    /// The news of a new value reaches every subscriber that waits for it:
    /// a subscriber of `d` at one of the places `from..to` that was pending
    /// is dirty after `shallow_propagate`, so that it is evaluated anew
    /// before its value is handed out, and none of its readers sees a value
    /// that was derived from the value that `d` held before.
    pub proof fn law_news_reaches_pending(&self, after: &Graph, d: int, from: int, to: int, n: int)
        requires
            after.confirmed(self, d, from, to),
            0 <= n < after.nodes@.len(),
            self.subscribes(d, from, to, n),
            self.nodes@[n].flags.pending,
        ensures
            after.nodes@[n].flags.dirty,
    {
    }
}

} // verus!
