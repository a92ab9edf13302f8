//! The dependency graph: node and link records in two arenas, and the
//! well-formedness of their adjacency lists.
//!
//! A link says that its `sub` depends on its `dep`. It is a member of two
//! doubly-linked lists at once: the list of dependencies of `sub` and the list
//! of subscribers of `dep`. Records are referred to by their index; the arenas
//! only grow, so an index stays valid for ever.

use vstd::prelude::*;
use crate::flags::Flags;

verus! {

/// A vertex of the graph.
#[derive(Clone, Copy)]
pub struct NodeFields {
    pub flags: Flags,
    /// First link of the list of dependencies.
    pub deps: Option<usize>,
    /// The last dependency recorded by the evaluation in progress, or by the
    /// last one.
    pub deps_tail: Option<usize>,
    /// First link of the list of subscribers.
    pub subs: Option<usize>,
    /// Last link of the list of subscribers.
    pub subs_tail: Option<usize>,
}

/// An edge of the graph: `sub` depends on `dep`.
#[derive(Clone, Copy)]
pub struct LinkFields {
    pub version: usize,
    pub dep: usize,
    pub sub: usize,
    pub prev_sub: Option<usize>,
    pub next_sub: Option<usize>,
    pub prev_dep: Option<usize>,
    pub next_dep: Option<usize>,
}

/// The state that all nodes share.
pub struct System {
    /// The subscriber under evaluation, to which reads are attributed.
    pub active_sub: Option<usize>,
    /// Counts the evaluations begun so far.
    pub cycle: usize,
    pub batch_depth: usize,
    /// The effects waiting to run are `queued[queue_head..]`.
    pub queued: Vec<usize>,
    pub queue_head: usize,
}

/// The nodes and links of a runtime, with the state that they share. The
/// ghost fields tell which links each list holds, and where.
pub struct Graph {
    pub nodes: Vec<NodeFields>,
    pub links: Vec<LinkFields>,
    pub sys: System,
    /// For each node, the links of its dependencies, in list order.
    pub dep_lists: Ghost<Seq<Seq<usize>>>,
    /// For each node, the links of its subscribers, in list order.
    pub sub_lists: Ghost<Seq<Seq<usize>>>,
    /// For each link, its place in the dependency list of its `sub`, or -1.
    pub dep_pos: Ghost<Seq<int>>,
    /// For each link, its place in the subscriber list of its `dep`, or -1.
    pub sub_pos: Ghost<Seq<int>>,
    /// The links that are members of their two lists.
    pub live: Ghost<Set<int>>,
}

/// The element of `s` at `i`, if there is one.
pub open spec fn at(s: Seq<usize>, i: int) -> Option<usize> {
    if 0 <= i < s.len() {
        Some(s[i])
    } else {
        None
    }
}

/// Whether `p` points to `l`.
pub open spec fn is(p: Option<usize>, l: int) -> bool {
    match p {
        Some(x) => x == l,
        None => false,
    }
}

/// Whether `p` points below `n`, if it points anywhere.
pub open spec fn below(p: Option<usize>, n: int) -> bool {
    match p {
        Some(x) => x < n,
        None => true,
    }
}

impl Graph {
    /// How many nodes there are.
    pub open spec fn node_count(&self) -> int {
        self.nodes@.len() as int
    }

    /// How many links were made, those taken out again included.
    pub open spec fn link_count(&self) -> int {
        self.links@.len() as int
    }

    /// Whether `n` is the index of a node.
    pub open spec fn is_node(&self, n: int) -> bool {
        0 <= n < self.nodes@.len()
    }

    /// Whether `l` is the index of a link.
    pub open spec fn is_link(&self, l: int) -> bool {
        0 <= l < self.links@.len()
    }

    /// The link is a member of the lists of its two ends.
    pub open spec fn is_live(&self, l: int) -> bool {
        self.is_link(l) && self.dep_pos@[l] >= 0
    }

    /// The links of the dependencies of `n`, in list order.
    pub open spec fn deps_of(&self, n: int) -> Seq<usize> {
        self.dep_lists@[n]
    }

    /// The links of the subscribers of `n`, in list order.
    pub open spec fn subs_of(&self, n: int) -> Seq<usize> {
        self.sub_lists@[n]
    }

    /// The marks of `n`.
    pub open spec fn flags_of(&self, n: int) -> Flags {
        self.nodes@[n].flags
    }

    /// The place of the cursor of `n` in its list of dependencies; -1 when
    /// nothing is recorded.
    pub open spec fn cursor(&self, n: int) -> int {
        match self.nodes@[n].deps_tail {
            Some(t) => self.dep_pos@[t as int],
            None => -1,
        }
    }

    /// The effects that wait to run, first to last.
    pub open spec fn queue(&self) -> Seq<usize> {
        self.sys.queued@.subrange(self.sys.queue_head as int, self.sys.queued@.len() as int)
    }

    /// The head and tail pointers of `n` are those of its lists, and its cursor
    /// stands on a dependency of its own.
    pub open spec fn node_ok(&self, n: int) -> bool {
        let nd = self.nodes@[n];
        let ds = self.dep_lists@[n];
        let ss = self.sub_lists@[n];
        &&& nd.deps == at(ds, 0)
        &&& nd.subs == at(ss, 0)
        &&& nd.subs_tail == at(ss, ss.len() - 1)
        &&& match nd.deps_tail {
            Some(t) => self.is_live(t as int) && self.links@[t as int].sub == n,
            None => true,
        }
    }

    /// The member at place `i` of the dependencies of `n` is a link from `n`
    /// that knows its place and points to its neighbours.
    pub open spec fn dep_entry_ok(&self, n: int, i: int) -> bool {
        let ds = self.dep_lists@[n];
        let l = ds[i] as int;
        &&& self.is_link(l)
        &&& self.links@[l].sub == n
        &&& self.dep_pos@[l] == i
        &&& self.links@[l].prev_dep == at(ds, i - 1)
        &&& self.links@[l].next_dep == at(ds, i + 1)
    }

    /// The member at place `i` of the subscribers of `n` is a link to `n` that
    /// knows its place and points to its neighbours.
    pub open spec fn sub_entry_ok(&self, n: int, i: int) -> bool {
        let ss = self.sub_lists@[n];
        let l = ss[i] as int;
        &&& self.is_link(l)
        &&& self.links@[l].dep == n
        &&& self.sub_pos@[l] == i
        &&& self.links@[l].prev_sub == at(ss, i - 1)
        &&& self.links@[l].next_sub == at(ss, i + 1)
    }

    /// The ends of `l` are nodes and its pointers are links. It is a member of
    /// both its lists or of none, and in the latter case points nowhere.
    pub open spec fn link_ok(&self, l: int) -> bool {
        let lk = self.links@[l];
        &&& self.is_node(lk.dep as int)
        &&& self.is_node(lk.sub as int)
        &&& below(lk.prev_dep, self.link_count())
        &&& below(lk.next_dep, self.link_count())
        &&& below(lk.prev_sub, self.link_count())
        &&& below(lk.next_sub, self.link_count())
        &&& self.live@.contains(l) == (self.dep_pos@[l] >= 0)
        &&& self.live@.contains(l) == (self.sub_pos@[l] >= 0)
        &&& !self.live@.contains(l) ==> {
            &&& lk.prev_dep.is_none()
            &&& lk.next_dep.is_none()
            &&& lk.prev_sub.is_none()
            &&& lk.next_sub.is_none()
        }
        &&& self.dep_pos@[l] >= 0 ==> {
            &&& self.dep_pos@[l] < self.dep_lists@[lk.sub as int].len()
            &&& self.dep_lists@[lk.sub as int][self.dep_pos@[l]] == l
        }
        &&& self.sub_pos@[l] >= 0 ==> {
            &&& self.sub_pos@[l] < self.sub_lists@[lk.dep as int].len()
            &&& self.sub_lists@[lk.dep as int][self.sub_pos@[l]] == l
        }
    }

    /// The shared state refers to nodes only.
    pub open spec fn sys_ok(&self) -> bool {
        &&& below(self.sys.active_sub, self.node_count())
        &&& self.sys.queue_head <= self.sys.queued@.len()
        &&& forall|k: int|
            0 <= k < self.sys.queued@.len() ==> self.is_node(#[trigger] self.sys.queued@[k] as int)
    }

    /// The adjacency lists are consistent: every list is a proper
    /// doubly-linked list, and a link is a member of the dependency list of
    /// its `sub` exactly when it is a member of the subscriber list of its
    /// `dep`.
    pub open spec fn wf(&self) -> bool {
        &&& self.dep_lists@.len() == self.nodes@.len()
        &&& self.sub_lists@.len() == self.nodes@.len()
        &&& self.dep_pos@.len() == self.links@.len()
        &&& self.sub_pos@.len() == self.links@.len()
        &&& self.live@.finite()
        &&& forall|l: int| #[trigger] self.live@.contains(l) ==> self.is_link(l)
        &&& forall|n: int| self.is_node(n) ==> #[trigger] self.node_ok(n)
        &&& forall|n: int, i: int|
            self.is_node(n) && 0 <= i < self.dep_lists@[n].len() ==> #[trigger] self.dep_entry_ok(
                n,
                i,
            )
        &&& forall|n: int, i: int|
            self.is_node(n) && 0 <= i < self.sub_lists@[n].len() ==> #[trigger] self.sub_entry_ok(
                n,
                i,
            )
        &&& forall|l: int| self.is_link(l) ==> #[trigger] self.link_ok(l)
        &&& self.sys_ok()
    }

    /// Everything but the marks, the cursors and the stamps of the links is
    /// the same in `self` and `other`: the same lists with the same members.
    pub open spec fn same_shape(&self, other: &Graph) -> bool {
        &&& self.nodes@.len() == other.nodes@.len()
        &&& self.links@.len() == other.links@.len()
        &&& self.dep_lists@ == other.dep_lists@
        &&& self.sub_lists@ == other.sub_lists@
        &&& self.dep_pos@ == other.dep_pos@
        &&& self.sub_pos@ == other.sub_pos@
        &&& self.live@ == other.live@
        &&& forall|l: int|
            0 <= l < self.links@.len() ==> {
                &&& (#[trigger] self.links@[l]).dep == other.links@[l].dep
                &&& self.links@[l].sub == other.links@[l].sub
                &&& self.links@[l].prev_dep == other.links@[l].prev_dep
                &&& self.links@[l].next_dep == other.links@[l].next_dep
                &&& self.links@[l].prev_sub == other.links@[l].prev_sub
                &&& self.links@[l].next_sub == other.links@[l].next_sub
            }
        &&& forall|n: int|
            0 <= n < self.nodes@.len() ==> {
                &&& (#[trigger] self.nodes@[n]).deps == other.nodes@[n].deps
                &&& self.nodes@[n].subs == other.nodes@[n].subs
                &&& self.nodes@[n].subs_tail == other.nodes@[n].subs_tail
            }
    }

    /// `self` and `other` hold the same records, lists and shared state.
    pub open spec fn same(&self, other: &Graph) -> bool {
        &&& self.nodes@ == other.nodes@
        &&& self.links@ == other.links@
        &&& self.sys.active_sub == other.sys.active_sub
        &&& self.sys.cycle == other.sys.cycle
        &&& self.sys.batch_depth == other.sys.batch_depth
        &&& self.sys.queued@ == other.sys.queued@
        &&& self.sys.queue_head == other.sys.queue_head
        &&& self.dep_lists@ == other.dep_lists@
        &&& self.sub_lists@ == other.sub_lists@
        &&& self.dep_pos@ == other.dep_pos@
        &&& self.sub_pos@ == other.sub_pos@
        &&& self.live@ == other.live@
    }

    /// A graph without nodes.
    pub fn new() -> (g: Graph)
        ensures
            g.wf(),
            g.node_count() == 0,
            g.link_count() == 0,
            g.sys.active_sub.is_none(),
            g.sys.cycle == 0,
            g.sys.batch_depth == 0,
            g.queue() == Seq::<usize>::empty(),
    {
        Graph {
            nodes: Vec::new(),
            links: Vec::new(),
            sys: System {
                active_sub: None,
                cycle: 0,
                batch_depth: 0,
                queued: Vec::new(),
                queue_head: 0,
            },
            dep_lists: Ghost(Seq::empty()),
            sub_lists: Ghost(Seq::empty()),
            dep_pos: Ghost(Seq::empty()),
            sub_pos: Ghost(Seq::empty()),
            live: Ghost(Set::empty()),
        }
    }

    /// Adds a node without dependencies or subscribers.
    pub fn add_node(&mut self, flags: Flags) -> (n: usize)
        requires
            old(self).wf(),
        ensures
            final(self).wf(),
            n == old(self).node_count(),
            final(self).node_count() == old(self).node_count() + 1,
            final(self).nodes@ == old(self).nodes@.push(
                NodeFields { flags, deps: None, deps_tail: None, subs: None, subs_tail: None },
            ),
            final(self).links@ == old(self).links@,
            final(self).sys == old(self).sys,
            final(self).dep_lists@ == old(self).dep_lists@.push(Seq::empty()),
            final(self).sub_lists@ == old(self).sub_lists@.push(Seq::empty()),
            final(self).dep_pos@ == old(self).dep_pos@,
            final(self).sub_pos@ == old(self).sub_pos@,
            final(self).live@ == old(self).live@,
    {
        let n = self.nodes.len();
        self.nodes.push(
            NodeFields { flags, deps: None, deps_tail: None, subs: None, subs_tail: None },
        );
        proof {
            self.dep_lists@ = self.dep_lists@.push(Seq::empty());
            self.sub_lists@ = self.sub_lists@.push(Seq::empty());
            assert forall|m: int| self.is_node(m) implies #[trigger] self.node_ok(m) by {
                if m < n {
                    assert(old(self).node_ok(m));
                }
            }
            assert forall|m: int, i: int|
                self.is_node(m) && 0 <= i < self.dep_lists@[m].len() implies #[trigger] self.dep_entry_ok(
                m,
                i,
            ) by {
                assert(old(self).dep_entry_ok(m, i));
            }
            assert forall|m: int, i: int|
                self.is_node(m) && 0 <= i < self.sub_lists@[m].len() implies #[trigger] self.sub_entry_ok(
                m,
                i,
            ) by {
                assert(old(self).sub_entry_ok(m, i));
            }
            assert forall|l: int| self.is_link(l) implies #[trigger] self.link_ok(l) by {
                assert(old(self).link_ok(l));
            }
        }
        n
    }

    /// A graph with the lists and pointers of a well-formed one, and with
    /// cursors that stand on members of the right lists, is well-formed.
    pub proof fn lemma_same_shape_wf(&self, after: &Graph)
        requires
            self.wf(),
            after.same_shape(self),
            after.sys_ok(),
            forall|n: int|
                0 <= n < after.nodes@.len() ==> match (#[trigger] after.nodes@[n]).deps_tail {
                    Some(t) => self.is_live(t as int) && self.links@[t as int].sub == n,
                    None => true,
                },
        ensures
            after.wf(),
    {
        assert forall|n: int| after.is_node(n) implies #[trigger] after.node_ok(n) by {
            assert(self.node_ok(n));
        }
        assert forall|n: int, i: int|
            after.is_node(n) && 0 <= i < after.dep_lists@[n].len() implies #[trigger] after.dep_entry_ok(
            n,
            i,
        ) by {
            assert(self.dep_entry_ok(n, i));
        }
        assert forall|n: int, i: int|
            after.is_node(n) && 0 <= i < after.sub_lists@[n].len() implies #[trigger] after.sub_entry_ok(
            n,
            i,
        ) by {
            assert(self.sub_entry_ok(n, i));
        }
        assert forall|l: int| after.is_link(l) implies #[trigger] after.link_ok(l) by {
            assert(self.link_ok(l));
        }
    }

    /// A graph with the lists and pointers of a well-formed one, and with
    /// cursors that are those of that graph or are cleared, is well-formed.
    pub proof fn lemma_kept_cursors_wf(&self, after: &Graph)
        requires
            self.wf(),
            after.same_shape(self),
            after.sys_ok(),
            forall|n: int|
                0 <= n < after.nodes@.len() ==> (#[trigger] after.nodes@[n]).deps_tail
                    == self.nodes@[n].deps_tail || after.nodes@[n].deps_tail.is_none(),
        ensures
            after.wf(),
    {
        assert forall|m: int| 0 <= m < after.nodes@.len() implies match (
        #[trigger] after.nodes@[m]).deps_tail {
            Some(t) => self.is_live(t as int) && self.links@[t as int].sub == m,
            None => true,
        } by {
            assert(self.node_ok(m));
        }
        self.lemma_same_shape_wf(after);
    }

    /// `self` is `before` but for the marks of `n`.
    pub open spec fn reflagged(&self, before: &Graph, n: int, flags: Flags) -> bool {
        &&& self.nodes@ == before.nodes@.update(n, NodeFields { flags, ..before.nodes@[n] })
        &&& self.links@ == before.links@
        &&& self.sys == before.sys
        &&& self.dep_lists@ == before.dep_lists@
        &&& self.sub_lists@ == before.sub_lists@
        &&& self.dep_pos@ == before.dep_pos@
        &&& self.sub_pos@ == before.sub_pos@
        &&& self.live@ == before.live@
    }

    /// Gives `n` the marks `flags`.
    pub fn set_flags(&mut self, n: usize, flags: Flags)
        requires
            old(self).wf(),
            old(self).is_node(n as int),
        ensures
            final(self).wf(),
            final(self).reflagged(old(self), n as int, flags),
    {
        self.nodes[n].flags = flags;
        proof {
            assert(self.nodes@ =~= old(self).nodes@.update(
                n as int,
                NodeFields { flags, ..old(self).nodes@[n as int] },
            ));
            old(self).lemma_kept_cursors_wf(self);
        }
    }

    /// `self` is `before` but for the cursor of `n`.
    pub open spec fn recursored(&self, before: &Graph, n: int, tail: Option<usize>) -> bool {
        &&& self.nodes@ == before.nodes@.update(
            n,
            NodeFields { deps_tail: tail, ..before.nodes@[n] },
        )
        &&& self.links@ == before.links@
        &&& self.sys == before.sys
        &&& self.dep_lists@ == before.dep_lists@
        &&& self.sub_lists@ == before.sub_lists@
        &&& self.dep_pos@ == before.dep_pos@
        &&& self.sub_pos@ == before.sub_pos@
        &&& self.live@ == before.live@
    }

    /// Forgets what the last evaluation of `n` recorded.
    pub fn clear_deps_tail(&mut self, n: usize)
        requires
            old(self).wf(),
            old(self).is_node(n as int),
        ensures
            final(self).wf(),
            final(self).recursored(old(self), n as int, None),
    {
        self.nodes[n].deps_tail = None;
        proof {
            assert(self.nodes@ =~= old(self).nodes@.update(
                n as int,
                NodeFields { deps_tail: None, ..old(self).nodes@[n as int] },
            ));
            old(self).lemma_kept_cursors_wf(self);
        }
    }

    /// The nodes whose marks satisfy `p`.
    pub open spec fn nodes_where(&self, p: spec_fn(Flags) -> bool) -> Set<int> {
        Set::new(|n: int| 0 <= n < self.nodes@.len() && p(self.nodes@[n].flags))
    }

    /// Where no node comes to satisfy `p`, the nodes that satisfy it get no
    /// more, and fewer where one node ceases to.
    pub proof fn lemma_nodes_where_step(&self, after: &Graph, p: spec_fn(Flags) -> bool)
        requires
            after.nodes@.len() == self.nodes@.len(),
            forall|n: int|
                0 <= n < self.nodes@.len() && p(#[trigger] after.nodes@[n].flags) ==> p(
                    self.nodes@[n].flags,
                ),
        ensures
            self.nodes_where(p).finite(),
            after.nodes_where(p).finite(),
            after.nodes_where(p).len() <= self.nodes_where(p).len(),
            forall|n: int|
                0 <= n < self.nodes@.len() && p(#[trigger] self.nodes@[n].flags) && !p(
                    after.nodes@[n].flags,
                ) ==> after.nodes_where(p).len() < self.nodes_where(p).len(),
    {
        let all = vstd::set_lib::set_int_range(0, self.nodes@.len() as int);
        vstd::set_lib::lemma_int_range(0, self.nodes@.len() as int);
        let a = self.nodes_where(p);
        let b = after.nodes_where(p);
        assert(a.subset_of(all));
        vstd::set_lib::lemma_len_subset(a, all);
        assert(b.subset_of(a)) by {
            assert forall|n: int| b.contains(n) implies a.contains(n) by {
                assert(p(after.nodes@[n].flags));
            }
        }
        vstd::set_lib::lemma_len_subset(b, a);
        assert forall|n: int|
            0 <= n < self.nodes@.len() && p(#[trigger] self.nodes@[n].flags) && !p(
                after.nodes@[n].flags,
            ) implies b.len() < a.len() by {
            assert(a.contains(n));
            assert(b.subset_of(a.remove(n))) by {
                assert forall|m: int| b.contains(m) implies a.remove(n).contains(m) by {
                    assert(p(after.nodes@[m].flags));
                }
            }
            vstd::set_lib::lemma_len_subset(b, a.remove(n));
        }
    }

    /// `self` is `before` with `e` added at the end of the queue.
    pub open spec fn enqueued(&self, before: &Graph, e: usize) -> bool {
        &&& self.nodes@ == before.nodes@
        &&& self.links@ == before.links@
        &&& self.sys.active_sub == before.sys.active_sub
        &&& self.sys.cycle == before.sys.cycle
        &&& self.sys.batch_depth == before.sys.batch_depth
        &&& self.sys.queued@ == before.sys.queued@.push(e)
        &&& self.sys.queue_head == before.sys.queue_head
        &&& self.dep_lists@ == before.dep_lists@
        &&& self.sub_lists@ == before.sub_lists@
        &&& self.dep_pos@ == before.dep_pos@
        &&& self.sub_pos@ == before.sub_pos@
        &&& self.live@ == before.live@
    }

    /// Adds `e` at the end of the queue.
    pub fn push_queued(&mut self, e: usize)
        requires
            old(self).wf(),
            old(self).is_node(e as int),
        ensures
            final(self).wf(),
            final(self).enqueued(old(self), e),
    {
        self.sys.queued.push(e);
        proof {
            old(self).lemma_kept_cursors_wf(self);
        }
    }

    /// `self` is `before` with the first effect taken off the queue.
    pub open spec fn dequeued(&self, before: &Graph) -> bool {
        &&& self.nodes@ == before.nodes@
        &&& self.links@ == before.links@
        &&& self.sys.active_sub == before.sys.active_sub
        &&& self.sys.cycle == before.sys.cycle
        &&& self.sys.batch_depth == before.sys.batch_depth
        &&& self.dep_lists@ == before.dep_lists@
        &&& self.sub_lists@ == before.sub_lists@
        &&& self.dep_pos@ == before.dep_pos@
        &&& self.sub_pos@ == before.sub_pos@
        &&& self.live@ == before.live@
        &&& before.queue().len() > 0
        &&& self.queue() == before.queue().drop_first()
    }

    /// Takes the first effect off the queue, if there is one.
    pub fn pop_queued(&mut self) -> (e: Option<usize>)
        requires
            old(self).wf(),
        ensures
            final(self).wf(),
            e.is_some() ==> final(self).dequeued(old(self)),
            final(self).nodes@ == old(self).nodes@,
            final(self).links@ == old(self).links@,
            final(self).sys.active_sub == old(self).sys.active_sub,
            final(self).sys.cycle == old(self).sys.cycle,
            final(self).sys.batch_depth == old(self).sys.batch_depth,
            final(self).dep_lists@ == old(self).dep_lists@,
            final(self).sub_lists@ == old(self).sub_lists@,
            final(self).dep_pos@ == old(self).dep_pos@,
            final(self).sub_pos@ == old(self).sub_pos@,
            final(self).live@ == old(self).live@,
            match e {
                Some(x) => {
                    &&& old(self).queue().len() > 0
                    &&& x == old(self).queue()[0]
                    &&& final(self).queue() == old(self).queue().drop_first()
                    &&& final(self).is_node(x as int)
                },
                None => old(self).queue().len() == 0 && final(self).same(old(self)),
            },
    {
        let head = self.sys.queue_head;
        if head < self.sys.queued.len() {
            let e = self.sys.queued[head];
            if head + 1 == self.sys.queued.len() {
                self.sys.queued.clear();
                self.sys.queue_head = 0;
            } else {
                self.sys.queue_head = head + 1;
            }
            proof {
                assert(self.queue() =~= old(self).queue().drop_first());
                old(self).lemma_kept_cursors_wf(self);
            }
            Some(e)
        } else {
            None
        }
    }
}

} // verus!
