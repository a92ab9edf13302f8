//! Removal of links, with what follows from it: a node that loses its last
//! subscriber lets go of its own dependencies in turn.

use vstd::prelude::*;
use crate::flags::Flags;
use crate::graph::{Graph, NodeFields};

verus! {

/// The marks of a node that has lost its last subscriber: one that produces
/// a value has to be evaluated anew when it is next read, any other is at
/// rest.
pub open spec fn released(f: Flags) -> Flags {
    if f.mutable {
        Flags::spec_stale()
    } else {
        Flags::spec_none()
    }
}

impl Graph {
    /// `n` had subscribers in `before` and has none in `self`.
    pub open spec fn emptied(&self, before: &Graph, n: int) -> bool {
        before.sub_lists@[n].len() > 0 && self.sub_lists@[n].len() == 0
    }

    /// `self` came from `before` by taking links out: no link came in, the
    /// links that stayed kept their order in every list, and the marks of a
    /// node changed only where it lost its last subscriber. The marks of
    /// `root` are left open.
    pub open spec fn shrunk(&self, before: &Graph, root: int) -> bool {
        &&& self.nodes@.len() == before.nodes@.len()
        &&& self.links@.len() == before.links@.len()
        &&& self.sys == before.sys
        &&& forall|l: int|
            0 <= l < self.links@.len() ==> {
                &&& (#[trigger] self.links@[l]).dep == before.links@[l].dep
                &&& self.links@[l].sub == before.links@[l].sub
                &&& self.links@[l].version == before.links@[l].version
            }
        &&& self.live@.subset_of(before.live@)
        &&& self.live@.len() <= before.live@.len()
        &&& forall|l: int, m: int|
            self.live@.contains(l) && self.live@.contains(m) && self.links@[l].sub
                == self.links@[m].sub ==> ((#[trigger] self.dep_pos@[l] < #[trigger] self.dep_pos@[m])
                == (before.dep_pos@[l] < before.dep_pos@[m]))
        &&& forall|l: int, m: int|
            self.live@.contains(l) && self.live@.contains(m) && self.links@[l].dep
                == self.links@[m].dep ==> ((#[trigger] self.sub_pos@[l] < #[trigger] self.sub_pos@[m])
                == (before.sub_pos@[l] < before.sub_pos@[m]))
        &&& forall|n: int|
            0 <= n < self.nodes@.len() ==> {
                &&& (#[trigger] self.dep_lists@[n]).len() <= before.dep_lists@[n].len()
                &&& self.sub_lists@[n].len() <= before.sub_lists@[n].len()
            }
        &&& forall|n: int|
            0 <= n < self.nodes@.len() && n != root ==> {
                ||| (#[trigger] self.nodes@[n]).flags == before.nodes@[n].flags
                ||| (self.emptied(before, n) && self.nodes@[n].flags == released(
                    before.nodes@[n].flags,
                ))
            }
    }

    /// `self` came from `before` as in `shrunk`, and moreover by letting go
    /// of dependencies only. But for `root`, a cursor was cleared and
    /// dependencies have gone only where a node lost its last subscriber.
    /// What a cursor that stayed had recorded is still there. A node other
    /// than `exempt` that produces no value and has lost its marks has no
    /// dependency left.
    pub open spec fn pruned_from(&self, before: &Graph, root: int, exempt: int) -> bool {
        &&& self.shrunk(before, exempt)
        &&& forall|n: int|
            0 <= n < self.nodes@.len() ==> {
                ||| (#[trigger] self.nodes@[n]).deps_tail == before.nodes@[n].deps_tail
                ||| (self.nodes@[n].deps_tail.is_none() && (n == root || self.emptied(before, n)))
            }
        &&& forall|l: int|
            #[trigger] before.live@.contains(l) && !self.live@.contains(l) ==> {
                let n = before.links@[l].sub as int;
                &&& n == root || self.emptied(before, n)
                &&& self.nodes@[n].deps_tail.is_none() || before.dep_pos@[l] > before.cursor(n)
            }
        &&& forall|n: int|
            0 <= n < self.nodes@.len() && n != exempt && !before.nodes@[n].flags.mutable && (
            #[trigger] self.nodes@[n]).flags != before.nodes@[n].flags ==> self.dep_lists@[n].len()
                == 0
    }

    /// `self` came from `before` by letting go of dependencies of `root`,
    /// with what follows from that; no marks but those of nodes that lost
    /// their last subscriber have changed.
    pub open spec fn pruned(&self, before: &Graph, root: int) -> bool {
        self.pruned_from(before, root, -1)
    }

    /// Every node but `root` that lost its last subscriber is released:
    /// unless it produces a value and had no record of dependencies, it has
    /// let go of its dependencies and bears the marks of a released node.
    pub open spec fn released_all(&self, before: &Graph, root: int) -> bool {
        forall|n: int|
            0 <= n < self.nodes@.len() && n != root && before.sub_lists@[n].len() > 0 && (
            #[trigger] self.sub_lists@[n]).len() == 0 ==> {
                let f = before.nodes@[n].flags;
                !f.mutable || before.nodes@[n].deps_tail.is_some() ==> {
                    &&& self.dep_lists@[n].len() == 0
                    &&& self.nodes@[n].deps_tail.is_none()
                    &&& self.nodes@[n].flags == released(f)
                }
            }
    }

    /// Two shrinkings are one.
    pub proof fn lemma_shrunk_trans(&self, mid: &Graph, after: &Graph, root: int)
        requires
            self.wf(),
            mid.wf(),
            after.wf(),
            mid.shrunk(self, root),
            after.shrunk(mid, root),
        ensures
            after.shrunk(self, root),
    {
        assert forall|l: int, m: int|
            after.live@.contains(l) && after.live@.contains(m) && after.links@[l].sub
                == after.links@[m].sub implies ((#[trigger] after.dep_pos@[l]
            < #[trigger] after.dep_pos@[m]) == (self.dep_pos@[l] < self.dep_pos@[m])) by {
            assert((mid.dep_pos@[l] < mid.dep_pos@[m]) == (self.dep_pos@[l] < self.dep_pos@[m]));
        }
        assert forall|l: int, m: int|
            after.live@.contains(l) && after.live@.contains(m) && after.links@[l].dep
                == after.links@[m].dep implies ((#[trigger] after.sub_pos@[l]
            < #[trigger] after.sub_pos@[m]) == (self.sub_pos@[l] < self.sub_pos@[m])) by {
            assert((mid.sub_pos@[l] < mid.sub_pos@[m]) == (self.sub_pos@[l] < self.sub_pos@[m]));
        }
        assert forall|n: int| 0 <= n < after.nodes@.len() implies {
            &&& (#[trigger] after.dep_lists@[n]).len() <= self.dep_lists@[n].len()
            &&& after.sub_lists@[n].len() <= self.sub_lists@[n].len()
        } by {
            assert(mid.dep_lists@[n].len() <= self.dep_lists@[n].len());
        }
        assert forall|n: int| 0 <= n < after.nodes@.len() && n != root implies {
            ||| (#[trigger] after.nodes@[n]).flags == self.nodes@[n].flags
            ||| (after.emptied(self, n) && after.nodes@[n].flags == released(self.nodes@[n].flags))
        } by {
            let f0 = self.nodes@[n].flags;
            let f1 = mid.nodes@[n].flags;
            assert(f1 == f0 || (mid.emptied(self, n) && f1 == released(f0)));
            assert(mid.dep_lists@[n].len() <= self.dep_lists@[n].len());
            assert(after.dep_lists@[n].len() <= mid.dep_lists@[n].len());
        }
    }

    /// Two prunings are one.
    pub proof fn lemma_pruned_trans(&self, mid: &Graph, after: &Graph, root: int, exempt: int)
        requires
            self.wf(),
            mid.wf(),
            after.wf(),
            mid.pruned_from(self, root, exempt),
            after.pruned_from(mid, root, exempt),
        ensures
            after.pruned_from(self, root, exempt),
    {
        self.lemma_shrunk_trans(mid, after, exempt);
        assert forall|n: int| 0 <= n < after.nodes@.len() implies {
            ||| (#[trigger] after.nodes@[n]).deps_tail == self.nodes@[n].deps_tail
            ||| (after.nodes@[n].deps_tail.is_none() && (n == root || after.emptied(self, n)))
        } by {
            assert(mid.nodes@[n].deps_tail == self.nodes@[n].deps_tail || (
            mid.nodes@[n].deps_tail.is_none() && (n == root || mid.emptied(self, n))));
            assert(mid.dep_lists@[n].len() <= self.dep_lists@[n].len());
            assert(after.dep_lists@[n].len() <= mid.dep_lists@[n].len());
        }
        assert forall|l: int| #[trigger]
            self.live@.contains(l) && !after.live@.contains(l) implies {
            let n = self.links@[l].sub as int;
            &&& n == root || after.emptied(self, n)
            &&& after.nodes@[n].deps_tail.is_none() || self.dep_pos@[l] > self.cursor(n)
        } by {
            let n = self.links@[l].sub as int;
            assert(self.link_ok(l));
            assert(mid.dep_lists@[n].len() <= self.dep_lists@[n].len());
            assert(after.dep_lists@[n].len() <= mid.dep_lists@[n].len());
            assert(after.nodes@[n].deps_tail == mid.nodes@[n].deps_tail
                || after.nodes@[n].deps_tail.is_none());
            assert(mid.nodes@[n].deps_tail == self.nodes@[n].deps_tail
                || mid.nodes@[n].deps_tail.is_none());
            if mid.live@.contains(l) {
                assert(mid.link_ok(l));
                match after.nodes@[n].deps_tail {
                    Some(t) => {
                        assert(after.node_ok(n));
                        assert(after.link_ok(t as int));
                        assert(mid.link_ok(t as int));
                        assert(self.link_ok(t as int));
                        assert(mid.dep_pos@[l] > mid.dep_pos@[t as int]);
                        assert((mid.dep_pos@[t as int] < mid.dep_pos@[l]) == (self.dep_pos@[t as int]
                            < self.dep_pos@[l]));
                    },
                    None => {},
                }
            }
        }
        assert forall|n: int|
            0 <= n < after.nodes@.len() && n != exempt && !self.nodes@[n].flags.mutable && (
            #[trigger] after.nodes@[n]).flags != self.nodes@[n].flags implies after.dep_lists@[n].len()
            == 0 by {
            assert(after.dep_lists@[n].len() <= mid.dep_lists@[n].len());
            assert(mid.nodes@[n].flags == self.nodes@[n].flags || mid.dep_lists@[n].len() == 0);
        }
    }

    /// Two prunings that released what lost its last subscriber are one.
    pub proof fn lemma_released_trans(&self, mid: &Graph, after: &Graph, root: int)
        requires
            self.wf(),
            mid.wf(),
            after.wf(),
            mid.pruned_from(self, root, root),
            after.pruned_from(mid, root, root),
            mid.released_all(self, root),
            after.released_all(mid, root),
        ensures
            after.released_all(self, root),
    {
        assert forall|n: int|
            0 <= n < after.nodes@.len() && n != root && self.sub_lists@[n].len() > 0 && (
            #[trigger] after.sub_lists@[n]).len() == 0 implies {
            let f = self.nodes@[n].flags;
            !f.mutable || self.nodes@[n].deps_tail.is_some() ==> {
                &&& after.dep_lists@[n].len() == 0
                &&& after.nodes@[n].deps_tail.is_none()
                &&& after.nodes@[n].flags == released(f)
            }
        } by {
            let f = self.nodes@[n].flags;
            assert(mid.dep_lists@[n].len() <= self.dep_lists@[n].len());
            assert(after.dep_lists@[n].len() <= mid.dep_lists@[n].len());
            assert(mid.nodes@[n].flags == f || (mid.emptied(self, n) && mid.nodes@[n].flags
                == released(f)));
            assert(after.nodes@[n].flags == mid.nodes@[n].flags || (after.emptied(mid, n)
                && after.nodes@[n].flags == released(mid.nodes@[n].flags)));
            assert(mid.nodes@[n].deps_tail == self.nodes@[n].deps_tail || (
            mid.nodes@[n].deps_tail.is_none() && mid.emptied(self, n)));
            assert(after.nodes@[n].deps_tail == mid.nodes@[n].deps_tail || (
            after.nodes@[n].deps_tail.is_none() && after.emptied(mid, n)));
        }
    }

    /// Taking out one link is a shrinking.
    pub proof fn lemma_detach_shrunk(&self, after: &Graph, link: int)
        requires
            self.wf(),
            self.is_live(link),
            after.wf(),
            after.detached(self, link),
        ensures
            after.shrunk(self, -1),
            after.live@.len() < self.live@.len(),
            !after.is_live(link),
    {
        assert(self.link_ok(link));
        assert forall|l: int, m: int|
            after.live@.contains(l) && after.live@.contains(m) && after.links@[l].sub
                == after.links@[m].sub implies ((#[trigger] after.dep_pos@[l]
            < #[trigger] after.dep_pos@[m]) == (self.dep_pos@[l] < self.dep_pos@[m])) by {
            assert(self.link_ok(l));
            assert(self.link_ok(m));
        }
        assert forall|l: int, m: int|
            after.live@.contains(l) && after.live@.contains(m) && after.links@[l].dep
                == after.links@[m].dep implies ((#[trigger] after.sub_pos@[l]
            < #[trigger] after.sub_pos@[m]) == (self.sub_pos@[l] < self.sub_pos@[m])) by {
            assert(self.link_ok(l));
            assert(self.link_ok(m));
        }
    }

    /// Taking out the link that follows the cursor of its `sub` is a pruning.
    pub proof fn lemma_detach_pruned(&self, after: &Graph, link: int)
        requires
            self.wf(),
            self.is_live(link),
            after.wf(),
            after.detached(self, link),
            self.dep_pos@[link] == self.cursor(self.links@[link].sub as int) + 1,
        ensures
            after.pruned(self, self.links@[link].sub as int),
    {
        self.lemma_detach_shrunk(after, link);
        let lk = self.links@[link];
        let s = lk.sub as int;
        let i = self.dep_pos@[link];
        assert(self.link_ok(link));
        assert(self.node_ok(s));
        assert(self.dep_entry_ok(s, i));
        match self.nodes@[s].deps_tail {
            Some(t) => {
                assert(self.link_ok(t as int));
                assert(self.dep_entry_ok(s, i - 1));
            },
            None => {},
        }
        assert forall|n: int| 0 <= n < after.nodes@.len() implies {
            ||| (#[trigger] after.nodes@[n]).deps_tail == self.nodes@[n].deps_tail
            ||| (after.nodes@[n].deps_tail.is_none() && (n == s || after.emptied(self, n)))
        } by {}
        assert forall|l: int| #[trigger]
            self.live@.contains(l) && !after.live@.contains(l) implies {
            let n = self.links@[l].sub as int;
            &&& n == s || after.emptied(self, n)
            &&& after.nodes@[n].deps_tail.is_none() || self.dep_pos@[l] > self.cursor(n)
        } by {
            assert(l == link);
        }
    }

    /// The place in `after` of the dependency that `n` had at place `i` is
    /// no lower than `i`, where all dependencies of `n` stayed.
    proof fn lemma_place_ge(&self, after: &Graph, root: int, n: int, i: int)
        requires
            self.wf(),
            after.wf(),
            after.shrunk(self, root),
            self.is_node(n),
            0 <= i < self.dep_lists@[n].len(),
            forall|k: int|
                0 <= k < self.dep_lists@[n].len() ==> after.live@.contains(
                    #[trigger] self.dep_lists@[n][k] as int,
                ),
        ensures
            after.dep_pos@[self.dep_lists@[n][i] as int] >= i,
        decreases i,
    {
        let l = self.dep_lists@[n][i] as int;
        assert(self.dep_entry_ok(n, i));
        assert(after.link_ok(l));
        if i > 0 {
            self.lemma_place_ge(after, root, n, i - 1);
            let m = self.dep_lists@[n][i - 1] as int;
            assert(self.dep_entry_ok(n, i - 1));
            assert(after.link_ok(m));
            assert((after.dep_pos@[m] < after.dep_pos@[l]) == (self.dep_pos@[m] < self.dep_pos@[l]));
        }
    }

    /// The place in `after` of the dependency that `n` had at place `i` is
    /// no further from the end than it was, where all dependencies of `n`
    /// stayed.
    proof fn lemma_place_le(&self, after: &Graph, root: int, n: int, i: int)
        requires
            self.wf(),
            after.wf(),
            after.shrunk(self, root),
            self.is_node(n),
            0 <= i < self.dep_lists@[n].len(),
            forall|k: int|
                0 <= k < self.dep_lists@[n].len() ==> after.live@.contains(
                    #[trigger] self.dep_lists@[n][k] as int,
                ),
        ensures
            after.dep_lists@[n].len() - after.dep_pos@[self.dep_lists@[n][i] as int]
                >= self.dep_lists@[n].len() - i,
        decreases self.dep_lists@[n].len() - i,
    {
        let l = self.dep_lists@[n][i] as int;
        assert(self.dep_entry_ok(n, i));
        assert(after.link_ok(l));
        if i + 1 < self.dep_lists@[n].len() {
            self.lemma_place_le(after, root, n, i + 1);
            let m = self.dep_lists@[n][i + 1] as int;
            assert(self.dep_entry_ok(n, i + 1));
            assert(after.link_ok(m));
            assert((after.dep_pos@[l] < after.dep_pos@[m]) == (self.dep_pos@[l] < self.dep_pos@[m]));
        }
    }

    /// Where a shrinking took no dependency of `n`, the list of the
    /// dependencies of `n` is what it was.
    pub proof fn lemma_deps_kept(&self, after: &Graph, root: int, n: int)
        requires
            self.wf(),
            after.wf(),
            after.shrunk(self, root),
            self.is_node(n),
            forall|k: int|
                0 <= k < self.dep_lists@[n].len() ==> after.live@.contains(
                    #[trigger] self.dep_lists@[n][k] as int,
                ),
        ensures
            after.dep_lists@[n] == self.dep_lists@[n],
    {
        let b = self.dep_lists@[n];
        let a = after.dep_lists@[n];
        assert(a.len() <= b.len());
        assert forall|i: int| 0 <= i < b.len() implies after.dep_pos@[b[i] as int] == i && a.len()
            == b.len() by {
            self.lemma_place_ge(after, root, n, i);
            self.lemma_place_le(after, root, n, i);
        }
        if b.len() > 0 {
            self.lemma_place_le(after, root, n, 0);
            self.lemma_place_ge(after, root, n, 0);
        }
        assert(a.len() == b.len());
        assert forall|i: int| 0 <= i < a.len() implies a[i] == b[i] by {
            self.lemma_place_ge(after, root, n, i);
            self.lemma_place_le(after, root, n, i);
            assert(self.dep_entry_ok(n, i));
            assert(after.link_ok(b[i] as int));
        }
        assert(a =~= b);
    }

    /// Whether `n` has no dependency, no subscriber, no mark and no cursor.
    pub open spec fn at_rest(&self, n: int) -> bool {
        &&& self.dep_lists@[n].len() == 0
        &&& self.sub_lists@[n].len() == 0
        &&& self.nodes@[n].flags == Flags::spec_none()
        &&& self.nodes@[n].deps_tail.is_none()
    }

    /// What the release of `node` makes of a graph in which `node` has no
    /// subscriber: a node that produces no value is at rest; one that
    /// produces a value and had recorded dependencies has let go of them and
    /// is marked for a new evaluation; one without a record is left as it is.
    /// The dependencies that were let go of are released in turn where that
    /// left them without subscribers.
    pub open spec fn let_go(&self, before: &Graph, node: int) -> bool {
        let f = before.nodes@[node].flags;
        &&& self.pruned_from(before, node, node)
        &&& self.released_all(before, node)
        &&& self.sub_lists@[node].len() == 0
        &&& self.nodes@[node].deps_tail.is_none()
        &&& !f.mutable ==> self.at_rest(node)
        &&& f.mutable && before.nodes@[node].deps_tail.is_some() ==> {
            &&& self.dep_lists@[node].len() == 0
            &&& self.nodes@[node].flags == released(f)
        }
        &&& f.mutable && before.nodes@[node].deps_tail.is_none() ==> self.same(before)
    }

    /// What held of the release of the `dep` of `link` after `link` was
    /// taken out holds of the two steps together.
    pub proof fn lemma_unlink_join(&self, mid: &Graph, after: &Graph, link: int)
        requires
            self.wf(),
            self.is_live(link),
            mid.wf(),
            mid.detached(self, link),
            after.wf(),
            mid.sub_lists@[self.links@[link].dep as int].len() == 0,
            after.let_go(mid, self.links@[link].dep as int),
        ensures
            after.shrunk(self, -1),
            self.dep_pos@[link] == self.cursor(self.links@[link].sub as int) + 1 ==> after.pruned(
                self,
                self.links@[link].sub as int,
            ) && after.released_all(self, self.links@[link].sub as int),
            !after.emptied(self, self.links@[link].sub as int) ==> after.dep_lists@[self.links@[link].sub as int]
                == mid.dep_lists@[self.links@[link].sub as int] && (
            after.nodes@[self.links@[link].sub as int].deps_tail
                == mid.nodes@[self.links@[link].sub as int].deps_tail),
    {
        let s = self.links@[link].sub as int;
        let d = self.links@[link].dep as int;
        assert(self.link_ok(link));
        assert(self.sub_entry_ok(d, self.sub_pos@[link]));
        self.lemma_detach_shrunk(mid, link);
        if !after.emptied(self, s) {
            assert(s != d);
            assert(mid.sub_lists@[s] == self.sub_lists@[s]);
            assert(after.dep_lists@[s].len() <= mid.dep_lists@[s].len());
            assert forall|k: int| 0 <= k < mid.dep_lists@[s].len() implies after.live@.contains(
                #[trigger] mid.dep_lists@[s][k] as int,
            ) by {
                let l = mid.dep_lists@[s][k] as int;
                assert(mid.dep_entry_ok(s, k));
                assert(mid.link_ok(l));
            }
            mid.lemma_deps_kept(after, d, s);
        }
        assert(after.shrunk(self, -1)) by {
            assert forall|l: int, m: int|
                after.live@.contains(l) && after.live@.contains(m) && after.links@[l].sub
                    == after.links@[m].sub implies ((#[trigger] after.dep_pos@[l]
                < #[trigger] after.dep_pos@[m]) == (self.dep_pos@[l] < self.dep_pos@[m])) by {
                assert((mid.dep_pos@[l] < mid.dep_pos@[m]) == (self.dep_pos@[l] < self.dep_pos@[m]));
            }
            assert forall|l: int, m: int|
                after.live@.contains(l) && after.live@.contains(m) && after.links@[l].dep
                    == after.links@[m].dep implies ((#[trigger] after.sub_pos@[l]
                < #[trigger] after.sub_pos@[m]) == (self.sub_pos@[l] < self.sub_pos@[m])) by {
                assert((mid.sub_pos@[l] < mid.sub_pos@[m]) == (self.sub_pos@[l] < self.sub_pos@[m]));
            }
            assert forall|n: int| 0 <= n < after.nodes@.len() implies {
                &&& (#[trigger] after.dep_lists@[n]).len() <= self.dep_lists@[n].len()
                &&& after.sub_lists@[n].len() <= self.sub_lists@[n].len()
            } by {
                assert(mid.dep_lists@[n].len() <= self.dep_lists@[n].len());
            }
            assert forall|n: int| 0 <= n < after.nodes@.len() implies {
                ||| (#[trigger] after.nodes@[n]).flags == self.nodes@[n].flags
                ||| (after.emptied(self, n) && after.nodes@[n].flags == released(
                    self.nodes@[n].flags,
                ))
            } by {
                assert(mid.nodes@[n].flags == self.nodes@[n].flags);
                assert(mid.dep_lists@[n].len() <= self.dep_lists@[n].len());
                assert(after.dep_lists@[n].len() <= mid.dep_lists@[n].len());
            }
        }
        if self.dep_pos@[link] == self.cursor(s) + 1 {
            self.lemma_detach_pruned(mid, link);
            assert(after.pruned(self, s)) by {
                assert forall|n: int| 0 <= n < after.nodes@.len() implies {
                    ||| (#[trigger] after.nodes@[n]).deps_tail == self.nodes@[n].deps_tail
                    ||| (after.nodes@[n].deps_tail.is_none() && (n == s || after.emptied(self, n)))
                } by {
                    assert(mid.nodes@[n].deps_tail == self.nodes@[n].deps_tail || n == s);
                    assert(mid.dep_lists@[n].len() <= self.dep_lists@[n].len());
                    assert(after.dep_lists@[n].len() <= mid.dep_lists@[n].len());
                }
                assert forall|l: int| #[trigger]
                    self.live@.contains(l) && !after.live@.contains(l) implies {
                    let n = self.links@[l].sub as int;
                    &&& n == s || after.emptied(self, n)
                    &&& after.nodes@[n].deps_tail.is_none() || self.dep_pos@[l] > self.cursor(n)
                } by {
                    let n = self.links@[l].sub as int;
                    assert(self.link_ok(l));
                    assert(mid.dep_lists@[n].len() <= self.dep_lists@[n].len());
                    assert(after.dep_lists@[n].len() <= mid.dep_lists@[n].len());
                    if mid.live@.contains(l) {
                        assert(mid.link_ok(l));
                        if n != s {
                            assert(mid.dep_pos@[l] == self.dep_pos@[l]);
                            assert(mid.cursor(n) == self.cursor(n)) by {
                                assert(self.node_ok(n));
                                match self.nodes@[n].deps_tail {
                                    Some(t) => {
                                        assert(self.link_ok(t as int));
                                    },
                                    None => {},
                                }
                            }
                        } else {
                            match after.nodes@[n].deps_tail {
                                Some(t) => {
                                    assert(after.node_ok(n));
                                    assert(after.link_ok(t as int));
                                    assert(mid.link_ok(t as int));
                                    assert(self.link_ok(t as int));
                                    assert(mid.node_ok(n));
                                    assert((mid.dep_pos@[t as int] < mid.dep_pos@[l]) == (
                                    self.dep_pos@[t as int] < self.dep_pos@[l]));
                                },
                                None => {},
                            }
                        }
                    }
                }
                assert forall|n: int|
                    0 <= n < after.nodes@.len() && !self.nodes@[n].flags.mutable && (
                    #[trigger] after.nodes@[n]).flags != self.nodes@[n].flags implies after.dep_lists@[n].len()
                    == 0 by {
                    assert(mid.nodes@[n].flags == self.nodes@[n].flags);
                }
            }
            assert(after.released_all(self, s)) by {
                assert forall|n: int|
                    0 <= n < after.nodes@.len() && n != s && self.sub_lists@[n].len() > 0 && (
                    #[trigger] after.sub_lists@[n]).len() == 0 implies {
                    let f = self.nodes@[n].flags;
                    !f.mutable || self.nodes@[n].deps_tail.is_some() ==> {
                        &&& after.dep_lists@[n].len() == 0
                        &&& after.nodes@[n].deps_tail.is_none()
                        &&& after.nodes@[n].flags == released(f)
                    }
                } by {
                    assert(mid.nodes@[n].flags == self.nodes@[n].flags);
                    assert(mid.nodes@[n].deps_tail == self.nodes@[n].deps_tail);
                    if n != d {
                        assert(mid.sub_lists@[n] == self.sub_lists@[n]);
                    }
                }
            }
        }
    }

    /// What `unlink` makes of a graph: `link` is taken out of its two lists;
    /// where that leaves its `dep` without subscribers, the `dep` is let go
    /// of in turn.
    pub open spec fn unlinked(&self, before: &Graph, link: int, sub: int) -> bool {
        let dep = before.links@[link].dep as int;
        &&& !self.is_live(link)
        &&& self.shrunk(before, -1)
        &&& before.sub_lists@[dep].len() > 1 ==> self.detached(before, link)
        &&& before.sub_lists@[dep].len() == 1 ==> exists|mid: Graph|
            {
                &&& mid.wf()
                &&& #[trigger] mid.detached(before, link)
                &&& self.let_go(&mid, dep)
            }
        &&& before.expected(sub) == Some(link as usize) ==> self.pruned(before, sub)
            && self.released_all(before, sub)
    }

    /// Takes `link` out of the graph. If that leaves its `dep` without
    /// subscribers, the `dep` is released in turn. Returns the link that
    /// followed `link` among the dependencies of `sub`.
    pub fn unlink(&mut self, link: usize, sub: usize) -> (next: Option<usize>)
        requires
            old(self).wf(),
            old(self).is_live(link as int),
            old(self).links@[link as int].sub == sub,
        ensures
            final(self).wf(),
            final(self).unlinked(old(self), link as int, sub as int),
            next == old(self).links@[link as int].next_dep,
            !final(self).is_live(link as int),
            final(self).live@.len() < old(self).live@.len(),
            final(self).shrunk(old(self), -1),
            old(self).sub_lists@[old(self).links@[link as int].dep as int].len() > 1
                ==> final(self).detached(old(self), link as int),
            old(self).sub_lists@[old(self).links@[link as int].dep as int].len() == 1
                ==> exists|mid: Graph|
                {
                    &&& mid.wf()
                    &&& #[trigger] mid.detached(old(self), link as int)
                    &&& final(self).let_go(&mid, old(self).links@[link as int].dep as int)
                },
            old(self).expected(sub as int) == Some(link) ==> final(self).pruned(
                old(self),
                sub as int,
            ) && final(self).released_all(old(self), sub as int),
            old(self).expected(sub as int) == Some(link) && !final(self).emptied(
                old(self),
                sub as int,
            ) ==> final(self).nodes@[sub as int].deps_tail == old(self).nodes@[sub as int].deps_tail
                && final(self).dep_lists@[sub as int] == old(self).dep_lists@[sub as int].remove(
                old(self).cursor(sub as int) + 1,
            ),
        decreases old(self).live@.len(), 0int,
    {
        let dep = self.links[link].dep;
        proof {
            assert(self.link_ok(link as int));
            assert(self.node_ok(dep as int));
            assert(self.node_ok(sub as int));
        }
        let next = self.detach(link);
        let ghost mid = *self;
        proof {
            old(self).lemma_detach_shrunk(&mid, link as int);
            assert(mid.node_ok(dep as int));
            if old(self).expected(sub as int) == Some(link) {
                match old(self).nodes@[sub as int].deps_tail {
                    Some(t) => {
                        assert(old(self).link_ok(t as int));
                    },
                    None => {},
                }
                assert(old(self).dep_entry_ok(sub as int, old(self).cursor(sub as int) + 1));
                old(self).lemma_detach_pruned(&mid, link as int);
            }
        }
        if self.nodes[dep].subs.is_none() {
            self.unwatched(dep);
            proof {
                old(self).lemma_unlink_join(&mid, self, link as int);
                assert(self.link_ok(link as int));
            }
        } else {
            proof {
                assert(old(self).sub_entry_ok(dep as int, old(self).sub_pos@[link as int]));
                assert(self.released_all(old(self), sub as int));
            }
        }
        next
    }

    /// Releases a node that has lost its last subscriber.
    ///
    /// A node that produces no value is put to rest. One that produces a
    /// value and has recorded dependencies forgets them, and is marked for a
    /// new evaluation at its next read.
    pub fn unwatched(&mut self, node: usize)
        requires
            old(self).wf(),
            old(self).is_node(node as int),
            old(self).sub_lists@[node as int].len() == 0,
        ensures
            final(self).wf(),
            final(self).let_go(old(self), node as int),
        decreases old(self).live@.len(), 3int,
    {
        proof {
            assert(self.node_ok(node as int));
        }
        if !self.nodes[node].flags.mutable {
            self.dispose(node);
        } else if self.nodes[node].deps_tail.is_some() {
            self.clear_deps_tail(node);
            self.set_flags(node, Flags::mutable() | Flags::dirty());
            let ghost reset = *self;
            proof {
                assert(reset.pruned_from(old(self), node as int, node as int));
                assert(reset.released_all(old(self), node as int));
            }
            self.purge_deps(node);
            proof {
                old(self).lemma_pruned_trans(&reset, self, node as int, node as int);
                old(self).lemma_released_trans(&reset, self, node as int);
                assert(self.node_ok(node as int));
            }
        } else {
            proof {
                assert(self.pruned_from(old(self), node as int, node as int));
            }
        }
    }

    /// `self` is `before` but that `node` bears no mark and has no cursor.
    pub open spec fn rested(&self, before: &Graph, node: int) -> bool {
        &&& self.nodes@ == before.nodes@.update(
            node,
            NodeFields { flags: Flags::spec_none(), deps_tail: None, ..before.nodes@[node] },
        )
        &&& self.links@ == before.links@
        &&& self.sys == before.sys
        &&& self.dep_lists@ == before.dep_lists@
        &&& self.sub_lists@ == before.sub_lists@
        &&& self.dep_pos@ == before.dep_pos@
        &&& self.sub_pos@ == before.sub_pos@
        &&& self.live@ == before.live@
    }

    /// What it makes of a graph that `node` leaves the node that it was
    /// attached to: the first of its subscriber links is taken out; where
    /// that was the only one, `node` is released.
    pub open spec fn parted(&self, before: &Graph, node: int) -> bool {
        let ss = before.sub_lists@[node];
        if ss.len() == 0 {
            self.same(before)
        } else if ss.len() == 1 {
            exists|mid: Graph|
                {
                    &&& mid.wf()
                    &&& #[trigger] mid.detached(before, ss[0] as int)
                    &&& self.let_go(&mid, node)
                }
        } else {
            self.detached(before, ss[0] as int)
        }
    }

    /// What `dispose` makes of a graph: `node` loses its marks and its
    /// cursor, lets go of all its dependencies, with what follows from that,
    /// and leaves the node that it was attached to.
    pub open spec fn disposed(&self, before: &Graph, node: int) -> bool {
        exists|reset: Graph, purged: Graph|
            {
                &&& reset.wf()
                &&& purged.wf()
                &&& #[trigger] reset.rested(before, node)
                &&& #[trigger] purged.pruned(&reset, node)
                &&& purged.released_all(&reset, node)
                &&& purged.dep_lists@[node].len() == 0
                &&& self.parted(&purged, node)
            }
    }

    /// Puts a subscriber to rest: it forgets all its dependencies and leaves
    /// the node that it was attached to.
    pub fn dispose(&mut self, node: usize)
        requires
            old(self).wf(),
            old(self).is_node(node as int),
        ensures
            final(self).wf(),
            final(self).disposed(old(self), node as int),
            final(self).shrunk(old(self), node as int),
            final(self).dep_lists@[node as int].len() == 0,
            final(self).nodes@[node as int].deps_tail.is_none(),
            final(self).nodes@[node as int].flags == Flags::spec_none(),
            old(self).sub_lists@[node as int].len() <= 1 ==> final(self).sub_lists@[node as int].len()
                == 0,
            old(self).sub_lists@[node as int].len() == 0 ==> final(self).pruned_from(
                old(self),
                node as int,
                node as int,
            ) && final(self).released_all(old(self), node as int),
            old(self).at_rest(node as int) ==> final(self).same(old(self)),
        decreases old(self).live@.len(), 2int,
    {
        self.clear_deps_tail(node);
        self.set_flags(node, Flags::none());
        let ghost reset = *self;
        proof {
            assert(reset.shrunk(old(self), node as int));
            assert(reset.node_ok(node as int));
            if old(self).at_rest(node as int) {
                assert(old(self).node_ok(node as int));
                assert(reset.nodes@ =~= old(self).nodes@);
            }
            assert(reset.pruned_from(old(self), node as int, node as int));
            assert(reset.released_all(old(self), node as int));
        }
        self.purge_deps(node);
        let ghost purged = *self;
        proof {
            assert(purged.shrunk(&reset, node as int));
            old(self).lemma_shrunk_trans(&reset, &purged, node as int);
            assert(purged.node_ok(node as int));
            assert(reset.rested(old(self), node as int)) by {
                assert(reset.nodes@ =~= old(self).nodes@.update(
                    node as int,
                    NodeFields {
                        flags: Flags::spec_none(),
                        deps_tail: None,
                        ..old(self).nodes@[node as int]
                    },
                ));
            }
            assert(purged.dep_lists@[node as int].len() == 0);
            old(self).lemma_pruned_trans(&reset, &purged, node as int, node as int);
            old(self).lemma_released_trans(&reset, &purged, node as int);
        }
        match self.nodes[node].subs {
            Some(s) => {
                proof {
                    assert(self.sub_entry_ok(node as int, 0));
                    assert(self.link_ok(s as int));
                }
                let parent = self.links[s].sub;
                self.unlink(s, parent);
                proof {
                    assert(self.shrunk(&purged, node as int));
                    old(self).lemma_shrunk_trans(&purged, self, node as int);
                    assert(self.node_ok(node as int));
                    assert(self.link_ok(s as int));
                    match self.nodes@[node as int].deps_tail {
                        Some(t) => {
                            assert(self.link_ok(t as int));
                        },
                        None => {},
                    }
                    if old(self).sub_lists@[node as int].len() <= 1 {
                        if self.sub_lists@[node as int].len() > 0 {
                            assert(self.sub_entry_ok(node as int, 0));
                            let l = self.sub_lists@[node as int][0] as int;
                            assert(self.link_ok(l));
                            assert(purged.link_ok(l));
                            assert(purged.live@.contains(l));
                            assert(purged.sub_lists@[node as int].len() == 1);
                            assert(false);
                        }
                    }
                    if self.nodes@[node as int].flags != Flags::spec_none() {
                        assert(self.nodes@[node as int].flags == released(Flags::spec_none()));
                    }
                    assert(self.parted(&purged, node as int));
                }
            },
            None => {
                proof {
                    assert(self.parted(&purged, node as int));
                }
            },
        }
    }

    /// The cursor of `sub` stands where it stood, and the dependencies of
    /// `sub` are those that stood at the cursor or before it.
    pub open spec fn kept_read(&self, before: &Graph, sub: int) -> bool {
        &&& self.nodes@[sub].deps_tail == before.nodes@[sub].deps_tail
        &&& self.dep_lists@[sub] == before.dep_lists@[sub].subrange(0, before.cursor(sub) + 1)
    }

    /// Takes out the dependencies of `sub` that stand behind its cursor: those
    /// that its last evaluation did not read.
    pub fn purge_deps(&mut self, sub: usize)
        requires
            old(self).wf(),
            old(self).is_node(sub as int),
        ensures
            final(self).wf(),
            final(self).pruned(old(self), sub as int),
            final(self).released_all(old(self), sub as int),
            final(self).cursor(sub as int) == final(self).dep_lists@[sub as int].len() - 1,
            old(self).cursor(sub as int) == old(self).dep_lists@[sub as int].len() - 1
                ==> final(self).same(old(self)),
            !final(self).emptied(old(self), sub as int) ==> final(self).kept_read(
                old(self),
                sub as int,
            ),
        decreases old(self).live@.len(), 1int,
    {
        let ghost start = *self;
        proof {
            assert(self.node_ok(sub as int));
            match self.nodes@[sub as int].deps_tail {
                Some(t) => {
                    assert(self.link_ok(t as int));
                },
                None => {},
            }
        }
        loop
            invariant
                self.wf(),
                start.wf(),
                self.is_node(sub as int),
                self.pruned(&start, sub as int),
                self.released_all(&start, sub as int),
                start.cursor(sub as int) == start.dep_lists@[sub as int].len() - 1 ==> self.same(&start),
                start == *old(self),
                !self.emptied(&start, sub as int) ==> {
                    &&& self.nodes@[sub as int].deps_tail == start.nodes@[sub as int].deps_tail
                    &&& self.cursor(sub as int) == start.cursor(sub as int)
                    &&& self.dep_lists@[sub as int].len() > start.cursor(sub as int)
                    &&& self.dep_lists@[sub as int].subrange(0, start.cursor(sub as int) + 1)
                        == start.dep_lists@[sub as int].subrange(0, start.cursor(sub as int) + 1)
                },
            ensures
                self.cursor(sub as int) == self.dep_lists@[sub as int].len() - 1,
                !self.emptied(&start, sub as int) ==> {
                    &&& self.nodes@[sub as int].deps_tail == start.nodes@[sub as int].deps_tail
                    &&& self.cursor(sub as int) == start.cursor(sub as int)
                    &&& self.dep_lists@[sub as int].subrange(0, start.cursor(sub as int) + 1)
                        == start.dep_lists@[sub as int].subrange(0, start.cursor(sub as int) + 1)
                },
            decreases self.live@.len(),
        {
            proof {
                assert(self.node_ok(sub as int));
                match self.nodes@[sub as int].deps_tail {
                    Some(t) => {
                        assert(self.link_ok(t as int));
                        assert(self.dep_entry_ok(sub as int, self.dep_pos@[t as int]));
                    },
                    None => {},
                }
            }
            let next = match self.nodes[sub].deps_tail {
                Some(t) => self.links[t].next_dep,
                None => self.nodes[sub].deps,
            };
            match next {
                Some(l) => {
                    proof {
                        assert(self.dep_entry_ok(sub as int, self.cursor(sub as int) + 1));
                        assert(self.link_ok(l as int));
                    }
                    let ghost before = *self;
                    self.unlink(l, sub);
                    proof {
                        start.lemma_pruned_trans(&before, self, sub as int, -1);
                        start.lemma_released_trans(&before, self, sub as int);
                        if !self.emptied(&start, sub as int) {
                            assert(self.sub_lists@[sub as int].len() <= before.sub_lists@[sub as int].len());
                            assert(before.sub_lists@[sub as int].len() <= start.sub_lists@[sub as int].len());
                            assert(!self.emptied(&before, sub as int));
                            assert(!before.emptied(&start, sub as int));
                            let c = start.cursor(sub as int);
                            before.dep_lists@[sub as int].remove_ensures(c + 1);
                            assert(self.node_ok(sub as int));
                            match self.nodes@[sub as int].deps_tail {
                                Some(t) => {
                                    assert(before.link_ok(t as int));
                                    assert(before.dep_entry_ok(sub as int, c));
                                    assert(self.dep_lists@[sub as int][c] == t);
                                    assert(self.dep_entry_ok(sub as int, c));
                                },
                                None => {},
                            }
                            assert(self.dep_lists@[sub as int].subrange(0, c + 1)
                                =~= before.dep_lists@[sub as int].subrange(0, c + 1));
                        }
                    }
                },
                None => {
                    break ;
                },
            }
        }
        proof {
            if !self.emptied(&start, sub as int) {
                let c = start.cursor(sub as int);
                assert(self.dep_lists@[sub as int] =~= self.dep_lists@[sub as int].subrange(0, c + 1));
            }
        }
    }
}

} // verus!
