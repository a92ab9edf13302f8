//! Insertion and removal of a single link.

use vstd::prelude::*;
use crate::graph::{at, is, Graph, LinkFields, NodeFields};

verus! {

impl Graph {
    /// The places of the links after the member at place `i` left the
    /// dependency list of `s`.
    pub open spec fn dep_pos_without(&self, link: int) -> Seq<int> {
        let s = self.links@[link].sub;
        let i = self.dep_pos@[link];
        Seq::new(
            self.links@.len(),
            |l: int|
                if l == link {
                    -1
                } else if self.links@[l].sub == s && self.dep_pos@[l] > i {
                    self.dep_pos@[l] - 1
                } else {
                    self.dep_pos@[l]
                },
        )
    }

    /// The places of the links after `link` left the subscriber list of its
    /// `dep`.
    pub open spec fn sub_pos_without(&self, link: int) -> Seq<int> {
        let d = self.links@[link].dep;
        let j = self.sub_pos@[link];
        Seq::new(
            self.links@.len(),
            |l: int|
                if l == link {
                    -1
                } else if self.links@[l].dep == d && self.sub_pos@[l] > j {
                    self.sub_pos@[l] - 1
                } else {
                    self.sub_pos@[l]
                },
        )
    }

    /// What `detach` makes of a graph: `link` has left both its lists, and
    /// nothing else has changed but the cursor of its `sub`, which steps back
    /// where it stood on `link` or where `link` was the last dependency.
    pub open spec fn detached(&self, before: &Graph, link: int) -> bool {
        let lk = before.links@[link];
        let s = lk.sub as int;
        let d = lk.dep as int;
        &&& self.nodes@.len() == before.nodes@.len()
        &&& self.links@.len() == before.links@.len()
        &&& self.sys == before.sys
        &&& self.dep_lists@ == before.dep_lists@.update(
            s,
            before.dep_lists@[s].remove(before.dep_pos@[link]),
        )
        &&& self.sub_lists@ == before.sub_lists@.update(
            d,
            before.sub_lists@[d].remove(before.sub_pos@[link]),
        )
        &&& self.dep_pos@ == before.dep_pos_without(link)
        &&& self.sub_pos@ == before.sub_pos_without(link)
        &&& self.live@ == before.live@.remove(link)
        &&& forall|n: int|
            0 <= n < self.nodes@.len() ==> {
                &&& (#[trigger] self.nodes@[n]).flags == before.nodes@[n].flags
                &&& self.nodes@[n].deps_tail == if n == s && (lk.next_dep.is_none()
                    || is(before.nodes@[n].deps_tail, link)) {
                    lk.prev_dep
                } else {
                    before.nodes@[n].deps_tail
                }
            }
        &&& forall|l: int|
            0 <= l < self.links@.len() ==> {
                &&& (#[trigger] self.links@[l]).dep == before.links@[l].dep
                &&& self.links@[l].sub == before.links@[l].sub
                &&& self.links@[l].version == before.links@[l].version
            }
    }

    /// Clears the pointers of `link` to its neighbours.
    fn isolate(&mut self, link: usize)
        requires
            link < old(self).links@.len(),
        ensures
            final(self).links@ == old(self).links@.update(
                link as int,
                LinkFields {
                    prev_sub: None,
                    next_sub: None,
                    prev_dep: None,
                    next_dep: None,
                    ..old(self).links@[link as int]
                },
            ),
            final(self).nodes@ == old(self).nodes@,
            final(self).sys == old(self).sys,
            final(self).dep_lists == old(self).dep_lists,
            final(self).sub_lists == old(self).sub_lists,
            final(self).dep_pos == old(self).dep_pos,
            final(self).sub_pos == old(self).sub_pos,
            final(self).live == old(self).live,
    {
        let lk = self.links[link];
        self.links[link] = LinkFields {
            version: lk.version,
            dep: lk.dep,
            sub: lk.sub,
            prev_sub: None,
            next_sub: None,
            prev_dep: None,
            next_dep: None,
        };
    }

    /// Takes `link` out of the dependency list of its `sub` and out of the
    /// subscriber list of its `dep`, and clears its own pointers. Returns the
    /// link that followed it among the dependencies.
    pub fn detach(&mut self, link: usize) -> (next: Option<usize>)
        requires
            old(self).wf(),
            old(self).is_live(link as int),
        ensures
            final(self).wf(),
            final(self).detached(old(self), link as int),
            next == old(self).links@[link as int].next_dep,
    {
        let lk = self.links[link];
        let sub = lk.sub;
        let dep = lk.dep;
        let ghost i = self.dep_pos@[link as int];
        let ghost j = self.sub_pos@[link as int];
        let ghost ds = self.dep_lists@[sub as int];
        let ghost ss = self.sub_lists@[dep as int];
        proof {
            assert(self.link_ok(link as int));
            assert(self.dep_entry_ok(sub as int, i));
            assert(self.sub_entry_ok(dep as int, j));
            assert(self.node_ok(sub as int));
            assert(self.node_ok(dep as int));
            if i > 0 {
                assert(self.dep_entry_ok(sub as int, i - 1));
            }
            if i + 1 < ds.len() {
                assert(self.dep_entry_ok(sub as int, i + 1));
            }
            if j > 0 {
                assert(self.sub_entry_ok(dep as int, j - 1));
            }
            if j + 1 < ss.len() {
                assert(self.sub_entry_ok(dep as int, j + 1));
            }
        }

        let on_cursor = match self.nodes[sub].deps_tail {
            Some(t) => t == link,
            None => false,
        };
        match lk.next_dep {
            Some(nd) => {
                self.links[nd].prev_dep = lk.prev_dep;
                if on_cursor {
                    self.nodes[sub].deps_tail = lk.prev_dep;
                }
            },
            None => {
                self.nodes[sub].deps_tail = lk.prev_dep;
            },
        }
        match lk.prev_dep {
            Some(pd) => {
                self.links[pd].next_dep = lk.next_dep;
            },
            None => {
                self.nodes[sub].deps = lk.next_dep;
            },
        }
        match lk.next_sub {
            Some(ns) => {
                self.links[ns].prev_sub = lk.prev_sub;
            },
            None => {
                self.nodes[dep].subs_tail = lk.prev_sub;
            },
        }
        match lk.prev_sub {
            Some(ps) => {
                self.links[ps].next_sub = lk.next_sub;
            },
            None => {
                self.nodes[dep].subs = lk.next_sub;
            },
        }
        self.isolate(link);
        proof {
            self.dep_pos@ = old(self).dep_pos_without(link as int);
            self.sub_pos@ = old(self).sub_pos_without(link as int);
            self.dep_lists@ = self.dep_lists@.update(sub as int, ds.remove(i));
            self.sub_lists@ = self.sub_lists@.update(dep as int, ss.remove(j));
            self.live@ = self.live@.remove(link as int);
            old(self).lemma_detach_wf(self, link as int);
        }
        lk.next_dep
    }

    /// A graph that differs from a well-formed one as `detach` says, with the
    /// neighbours of `link` joined to each other, is well-formed.
    pub proof fn lemma_detach_wf(&self, after: &Graph, link: int)
        requires
            self.wf(),
            self.is_live(link),
            after.detached(self, link),
            after.spliced(self, link),
        ensures
            after.wf(),
    {
        let lk = self.links@[link];
        let s = lk.sub as int;
        let d = lk.dep as int;
        let i = self.dep_pos@[link];
        let j = self.sub_pos@[link];
        let ds = self.dep_lists@[s];
        let ss = self.sub_lists@[d];
        assert(self.link_ok(link));
        assert(self.dep_entry_ok(s, i));
        assert(self.sub_entry_ok(d, j));
        ds.remove_ensures(i);
        ss.remove_ensures(j);
        if i > 0 {
            assert(self.dep_entry_ok(s, i - 1));
        }
        if i + 1 < ds.len() {
            assert(self.dep_entry_ok(s, i + 1));
        }
        if j > 0 {
            assert(self.sub_entry_ok(d, j - 1));
        }
        if j + 1 < ss.len() {
            assert(self.sub_entry_ok(d, j + 1));
        }
        assert forall|n: int, k: int|
            after.is_node(n) && 0 <= k < after.dep_lists@[n].len() implies #[trigger] after.dep_entry_ok(
            n,
            k,
        ) by {
            if n == s {
                if k < i {
                    assert(self.dep_entry_ok(s, k));
                    assert(self.link_ok(ds[k] as int));
                } else {
                    assert(self.dep_entry_ok(s, k + 1));
                    assert(self.link_ok(ds[k + 1] as int));
                }
            } else {
                assert(self.dep_entry_ok(n, k));
                assert(self.link_ok(self.dep_lists@[n][k] as int));
            }
        }
        assert forall|n: int, k: int|
            after.is_node(n) && 0 <= k < after.sub_lists@[n].len() implies #[trigger] after.sub_entry_ok(
            n,
            k,
        ) by {
            if n == d {
                if k < j {
                    assert(self.sub_entry_ok(d, k));
                    assert(self.link_ok(ss[k] as int));
                } else {
                    assert(self.sub_entry_ok(d, k + 1));
                    assert(self.link_ok(ss[k + 1] as int));
                }
            } else {
                assert(self.sub_entry_ok(n, k));
                assert(self.link_ok(self.sub_lists@[n][k] as int));
            }
        }
        assert forall|l: int| after.is_link(l) implies #[trigger] after.link_ok(l) by {
            assert(self.link_ok(l));
            let m = self.links@[l];
            if l != link {
                if self.dep_pos@[l] >= 0 {
                    assert(self.dep_entry_ok(m.sub as int, self.dep_pos@[l]));
                }
                if self.sub_pos@[l] >= 0 {
                    assert(self.sub_entry_ok(m.dep as int, self.sub_pos@[l]));
                }
            }
        }
        assert forall|n: int| after.is_node(n) implies #[trigger] after.node_ok(n) by {
            assert(self.node_ok(n));
            if self.dep_lists@[n].len() > 0 {
                assert(self.dep_entry_ok(n, 0));
            }
            if self.dep_lists@[n].len() > 1 {
                assert(self.dep_entry_ok(n, 1));
            }
            let sl = self.sub_lists@[n];
            if sl.len() > 0 {
                assert(self.sub_entry_ok(n, 0));
                assert(self.sub_entry_ok(n, sl.len() - 1));
            }
            if sl.len() > 1 {
                assert(self.sub_entry_ok(n, 1));
                assert(self.sub_entry_ok(n, sl.len() - 2));
            }
            match self.nodes@[n].deps_tail {
                Some(t) => {
                    assert(self.link_ok(t as int));
                },
                None => {},
            }
            if i > 0 {
                assert(self.dep_entry_ok(s, i - 1));
                assert(self.link_ok(ds[i - 1] as int));
            }
        }
    }

    /// The pointers of `self` are those of `before` with the neighbours of
    /// `link` joined to each other on both axes.
    pub open spec fn spliced(&self, before: &Graph, link: int) -> bool {
        let lk = before.links@[link];
        let s = lk.sub as int;
        let d = lk.dep as int;
        &&& forall|l: int|
            0 <= l < self.links@.len() ==> {
                &&& (#[trigger] self.links@[l]).prev_dep == if l == link {
                    None
                } else if is(lk.next_dep, l) {
                    lk.prev_dep
                } else {
                    before.links@[l].prev_dep
                }
                &&& self.links@[l].next_dep == if l == link {
                    None
                } else if is(lk.prev_dep, l) {
                    lk.next_dep
                } else {
                    before.links@[l].next_dep
                }
                &&& self.links@[l].prev_sub == if l == link {
                    None
                } else if is(lk.next_sub, l) {
                    lk.prev_sub
                } else {
                    before.links@[l].prev_sub
                }
                &&& self.links@[l].next_sub == if l == link {
                    None
                } else if is(lk.prev_sub, l) {
                    lk.next_sub
                } else {
                    before.links@[l].next_sub
                }
            }
        &&& forall|n: int|
            0 <= n < self.nodes@.len() ==> {
                &&& (#[trigger] self.nodes@[n]).deps == if n == s && lk.prev_dep.is_none() {
                    lk.next_dep
                } else {
                    before.nodes@[n].deps
                }
                &&& self.nodes@[n].subs == if n == d && lk.prev_sub.is_none() {
                    lk.next_sub
                } else {
                    before.nodes@[n].subs
                }
                &&& self.nodes@[n].subs_tail == if n == d && lk.next_sub.is_none() {
                    lk.prev_sub
                } else {
                    before.nodes@[n].subs_tail
                }
            }
    }

    /// The places of the links after a new link took place `k` in the
    /// dependency list of `s`.
    pub open spec fn dep_pos_with(&self, s: int, k: int) -> Seq<int> {
        Seq::new(
            self.links@.len() + 1,
            |l: int|
                if l == self.links@.len() {
                    k
                } else if self.links@[l].sub == s && self.dep_pos@[l] >= k {
                    self.dep_pos@[l] + 1
                } else {
                    self.dep_pos@[l]
                },
        )
    }

    /// What `attach` makes of a graph: a new link from `sub` to `dep` stands
    /// right behind the cursor of `sub`, which moves on to it, and at the end
    /// of the subscribers of `dep`.
    pub open spec fn attached(&self, before: &Graph, dep: int, sub: int, version: usize) -> bool {
        let new = before.links@.len() as int;
        let k = before.cursor(sub) + 1;
        &&& self.nodes@.len() == before.nodes@.len()
        &&& self.links@.len() == before.links@.len() + 1
        &&& self.sys == before.sys
        &&& self.dep_lists@ == before.dep_lists@.update(
            sub,
            before.dep_lists@[sub].insert(k, before.links.len()),
        )
        &&& self.sub_lists@ == before.sub_lists@.update(
            dep,
            before.sub_lists@[dep].push(before.links.len()),
        )
        &&& self.dep_pos@ == before.dep_pos_with(sub, k)
        &&& self.sub_pos@ == before.sub_pos@.push(before.sub_lists@[dep].len() as int)
        &&& self.live@ == before.live@.insert(new)
        &&& self.links@[new].dep == dep
        &&& self.links@[new].sub == sub
        &&& self.links@[new].version == version
        &&& forall|n: int|
            0 <= n < self.nodes@.len() ==> {
                &&& (#[trigger] self.nodes@[n]).flags == before.nodes@[n].flags
                &&& self.nodes@[n].deps_tail == if n == sub {
                    Some(before.links.len())
                } else {
                    before.nodes@[n].deps_tail
                }
            }
        &&& forall|l: int|
            0 <= l < before.links@.len() ==> {
                &&& (#[trigger] self.links@[l]).dep == before.links@[l].dep
                &&& self.links@[l].sub == before.links@[l].sub
                &&& self.links@[l].version == before.links@[l].version
            }
    }

    /// The pointers of `self` are those of `before` with the new link hooked
    /// in between its neighbours.
    pub open spec fn hooked(&self, before: &Graph, dep: int, sub: int) -> bool {
        let new = before.links@.len() as int;
        let prev_dep = before.nodes@[sub].deps_tail;
        let next_dep = match prev_dep {
            Some(t) => before.links@[t as int].next_dep,
            None => before.nodes@[sub].deps,
        };
        let prev_sub = before.nodes@[dep].subs_tail;
        &&& self.links@[new].prev_dep == prev_dep
        &&& self.links@[new].next_dep == next_dep
        &&& self.links@[new].prev_sub == prev_sub
        &&& self.links@[new].next_sub.is_none()
        &&& forall|l: int|
            0 <= l < before.links@.len() ==> {
                &&& (#[trigger] self.links@[l]).prev_dep == if is(next_dep, l) {
                    Some(before.links.len())
                } else {
                    before.links@[l].prev_dep
                }
                &&& self.links@[l].next_dep == if is(prev_dep, l) {
                    Some(before.links.len())
                } else {
                    before.links@[l].next_dep
                }
                &&& self.links@[l].prev_sub == before.links@[l].prev_sub
                &&& self.links@[l].next_sub == if is(prev_sub, l) {
                    Some(before.links.len())
                } else {
                    before.links@[l].next_sub
                }
            }
        &&& forall|n: int|
            0 <= n < self.nodes@.len() ==> {
                &&& (#[trigger] self.nodes@[n]).deps == if n == sub && prev_dep.is_none() {
                    Some(before.links.len())
                } else {
                    before.nodes@[n].deps
                }
                &&& self.nodes@[n].subs == if n == dep && prev_sub.is_none() {
                    Some(before.links.len())
                } else {
                    before.nodes@[n].subs
                }
                &&& self.nodes@[n].subs_tail == if n == dep {
                    Some(before.links.len())
                } else {
                    before.nodes@[n].subs_tail
                }
            }
    }

    /// Makes a new link from `sub` to `dep`, right behind the cursor of `sub`
    /// and last among the subscribers of `dep`.
    pub fn attach(&mut self, dep: usize, sub: usize, version: usize) -> (new: usize)
        requires
            old(self).wf(),
            old(self).is_node(dep as int),
            old(self).is_node(sub as int),
        ensures
            final(self).wf(),
            final(self).attached(old(self), dep as int, sub as int, version),
            new == old(self).link_count(),
    {
        let prev_dep = self.nodes[sub].deps_tail;
        proof {
            assert(self.node_ok(sub as int));
            assert(self.node_ok(dep as int));
            match prev_dep {
                Some(t) => {
                    assert(self.link_ok(t as int));
                },
                None => {},
            }
            let ss = self.sub_lists@[dep as int];
            if ss.len() > 0 {
                assert(self.sub_entry_ok(dep as int, ss.len() - 1));
            }
            if self.dep_lists@[sub as int].len() > 0 {
                assert(self.dep_entry_ok(sub as int, 0));
            }
        }
        let next_dep = match prev_dep {
            Some(t) => self.links[t].next_dep,
            None => self.nodes[sub].deps,
        };
        let prev_sub = self.nodes[dep].subs_tail;
        let new_link = self.links.len();
        self.links.push(
            LinkFields { version, dep, sub, prev_sub, next_sub: None, prev_dep, next_dep },
        );
        self.nodes[dep].subs_tail = Some(new_link);
        self.nodes[sub].deps_tail = Some(new_link);
        match next_dep {
            Some(nd) => {
                self.links[nd].prev_dep = Some(new_link);
            },
            None => {},
        }
        match prev_dep {
            Some(pd) => {
                self.links[pd].next_dep = Some(new_link);
            },
            None => {
                self.nodes[sub].deps = Some(new_link);
            },
        }
        match prev_sub {
            Some(ps) => {
                self.links[ps].next_sub = Some(new_link);
            },
            None => {
                self.nodes[dep].subs = Some(new_link);
            },
        }
        proof {
            let k = old(self).cursor(sub as int) + 1;
            self.dep_pos@ = old(self).dep_pos_with(sub as int, k);
            self.sub_pos@ = self.sub_pos@.push(old(self).sub_lists@[dep as int].len() as int);
            self.dep_lists@ = self.dep_lists@.update(
                sub as int,
                self.dep_lists@[sub as int].insert(k, new_link),
            );
            self.sub_lists@ = self.sub_lists@.update(
                dep as int,
                self.sub_lists@[dep as int].push(new_link),
            );
            self.live@ = self.live@.insert(new_link as int);
            old(self).lemma_attach_wf(self, dep as int, sub as int, version);
        }
        new_link
    }

    /// A graph that differs from a well-formed one as `attach` says, with the
    /// new link hooked in between its neighbours, is well-formed.
    pub proof fn lemma_attach_wf(&self, after: &Graph, dep: int, sub: int, version: usize)
        requires
            self.wf(),
            self.is_node(dep),
            self.is_node(sub),
            after.attached(self, dep, sub, version),
            after.hooked(self, dep, sub),
        ensures
            after.wf(),
    {
        let new = self.links@.len() as int;
        let k = self.cursor(sub) + 1;
        let ds = self.dep_lists@[sub];
        let ss = self.sub_lists@[dep];
        let prev_dep = self.nodes@[sub].deps_tail;
        assert(self.node_ok(sub));
        assert(self.node_ok(dep));
        match prev_dep {
            Some(t) => {
                assert(self.link_ok(t as int));
                assert(self.dep_entry_ok(sub, k - 1));
            },
            None => {},
        }
        assert(0 <= k <= ds.len());
        ds.insert_ensures(k, self.links.len());
        if k < ds.len() {
            assert(self.dep_entry_ok(sub, k));
        }
        if ss.len() > 0 {
            assert(self.sub_entry_ok(dep, ss.len() - 1));
        }
        assert forall|n: int, i: int|
            after.is_node(n) && 0 <= i < after.dep_lists@[n].len() implies #[trigger] after.dep_entry_ok(
            n,
            i,
        ) by {
            if n == sub {
                if i < k {
                    assert(self.dep_entry_ok(sub, i));
                    assert(self.link_ok(ds[i] as int));
                } else if i > k {
                    assert(self.dep_entry_ok(sub, i - 1));
                    assert(self.link_ok(ds[i - 1] as int));
                }
            } else {
                assert(self.dep_entry_ok(n, i));
                assert(self.link_ok(self.dep_lists@[n][i] as int));
            }
        }
        assert forall|n: int, i: int|
            after.is_node(n) && 0 <= i < after.sub_lists@[n].len() implies #[trigger] after.sub_entry_ok(
            n,
            i,
        ) by {
            if n == dep {
                if i < ss.len() {
                    assert(self.sub_entry_ok(dep, i));
                    assert(self.link_ok(ss[i] as int));
                }
            } else {
                assert(self.sub_entry_ok(n, i));
                assert(self.link_ok(self.sub_lists@[n][i] as int));
            }
        }
        assert forall|l: int| after.is_link(l) implies #[trigger] after.link_ok(l) by {
            if l != new {
                assert(self.link_ok(l));
                let m = self.links@[l];
                if self.dep_pos@[l] >= 0 {
                    assert(self.dep_entry_ok(m.sub as int, self.dep_pos@[l]));
                }
                if self.sub_pos@[l] >= 0 {
                    assert(self.sub_entry_ok(m.dep as int, self.sub_pos@[l]));
                }
            }
        }
        assert forall|n: int| after.is_node(n) implies #[trigger] after.node_ok(n) by {
            assert(self.node_ok(n));
            if self.dep_lists@[n].len() > 0 {
                assert(self.dep_entry_ok(n, 0));
            }
            let sl = self.sub_lists@[n];
            if sl.len() > 0 {
                assert(self.sub_entry_ok(n, 0));
                assert(self.sub_entry_ok(n, sl.len() - 1));
            }
            match self.nodes@[n].deps_tail {
                Some(t) => {
                    assert(self.link_ok(t as int));
                },
                None => {},
            }
        }
    }

    /// The link that follows the cursor of `sub`: the dependency that the
    /// evaluation in progress is expected to read next.
    pub open spec fn expected(&self, sub: int) -> Option<usize> {
        at(self.dep_lists@[sub], self.cursor(sub) + 1)
    }

    /// The cursor of `sub` stands on a link to `dep`.
    pub open spec fn at_cursor(&self, dep: int, sub: int) -> bool {
        match self.nodes@[sub].deps_tail {
            Some(t) => self.links@[t as int].dep == dep,
            None => false,
        }
    }

    /// The link that follows the cursor of `sub` is a link to `dep`.
    pub open spec fn at_expected(&self, dep: int, sub: int) -> bool {
        match self.expected(sub) {
            Some(e) => self.links@[e as int].dep == dep,
            None => false,
        }
    }

    /// The newest subscriber link of `dep` is one from `sub`, stamped
    /// `version`.
    pub open spec fn seen(&self, dep: int, sub: int, version: usize) -> bool {
        let ss = self.sub_lists@[dep];
        ss.len() > 0 && self.links@[ss.last() as int].version == version && self.links@[ss.last() as int].sub
            == sub
    }

    /// `self` is `before` but that the cursor of `sub` went on to `link`,
    /// which was stamped anew.
    pub open spec fn restamped(&self, before: &Graph, sub: int, link: int, version: usize) -> bool {
        &&& self.nodes@ == before.nodes@.update(
            sub,
            NodeFields { deps_tail: Some(link as usize), ..before.nodes@[sub] },
        )
        &&& self.links@ == before.links@.update(
            link,
            LinkFields { version, ..before.links@[link] },
        )
        &&& self.sys == before.sys
        &&& self.dep_lists@ == before.dep_lists@
        &&& self.sub_lists@ == before.sub_lists@
        &&& self.dep_pos@ == before.dep_pos@
        &&& self.sub_pos@ == before.sub_pos@
        &&& self.live@ == before.live@
    }

    /// What `link` makes of a graph, case by case.
    pub open spec fn linked(&self, before: &Graph, dep: int, sub: int, version: usize) -> bool {
        if before.at_cursor(dep, sub) {
            self.same(before)
        } else if before.at_expected(dep, sub) {
            self.restamped(before, sub, before.expected(sub).unwrap() as int, version)
        } else if before.seen(dep, sub, version) {
            self.same(before)
        } else {
            self.attached(before, dep, sub, version)
        }
    }

    /// Records that `sub` depends on `dep` in the evaluation that `version`
    /// stamps.
    ///
    /// Nothing happens where the cursor of `sub` already stands on a link to
    /// `dep`. Where the link behind the cursor is one to `dep`, it is stamped
    /// and the cursor moves on to it. Where `dep` got a link from `sub` with
    /// this stamp last, nothing happens. Otherwise a new link is made.
    pub fn link(&mut self, dep: usize, sub: usize, version: usize)
        requires
            old(self).wf(),
            old(self).is_node(dep as int),
            old(self).is_node(sub as int),
        ensures
            final(self).wf(),
            final(self).linked(old(self), dep as int, sub as int, version),
    {
        proof {
            assert(self.node_ok(sub as int));
            assert(self.node_ok(dep as int));
        }
        let prev_dep = self.nodes[sub].deps_tail;
        match prev_dep {
            Some(t) => {
                proof {
                    assert(self.link_ok(t as int));
                    assert(self.dep_entry_ok(sub as int, self.dep_pos@[t as int]));
                }
                if self.links[t].dep == dep {
                    return ;
                }
            },
            None => {},
        }
        let next_dep = match prev_dep {
            Some(t) => self.links[t].next_dep,
            None => self.nodes[sub].deps,
        };
        assert(next_dep == self.expected(sub as int));
        match next_dep {
            Some(nd) => {
                proof {
                    assert(self.dep_entry_ok(sub as int, self.cursor(sub as int) + 1));
                }
                if self.links[nd].dep == dep {
                    self.links[nd].version = version;
                    self.nodes[sub].deps_tail = Some(nd);
                    proof {
                        assert(self.nodes@ =~= old(self).nodes@.update(
                            sub as int,
                            NodeFields { deps_tail: Some(nd), ..old(self).nodes@[sub as int] },
                        ));
                        assert(self.links@ =~= old(self).links@.update(
                            nd as int,
                            LinkFields { version, ..old(self).links@[nd as int] },
                        ));
                        assert forall|m: int| 0 <= m < self.nodes@.len() implies match (
                        #[trigger] self.nodes@[m]).deps_tail {
                            Some(t) => old(self).is_live(t as int) && old(self).links@[t as int].sub
                                == m,
                            None => true,
                        } by {
                            assert(old(self).node_ok(m));
                        }
                        old(self).lemma_same_shape_wf(self);
                    }
                    return ;
                }
            },
            None => {},
        }
        let prev_sub = self.nodes[dep].subs_tail;
        match prev_sub {
            Some(ps) => {
                proof {
                    let ss = self.sub_lists@[dep as int];
                    assert(self.sub_entry_ok(dep as int, ss.len() - 1));
                }
                if self.links[ps].version == version && self.links[ps].sub == sub {
                    return ;
                }
            },
            None => {},
        }
        self.attach(dep, sub, version);
    }

    /// Whether `check_link` is one of the dependencies that the evaluation of
    /// `sub` in progress has recorded: a member of its list that stands at the
    /// cursor or before it.
    pub fn is_valid_link(&self, check_link: usize, sub: usize) -> (valid: bool)
        requires
            self.wf(),
            self.is_link(check_link as int),
            self.is_node(sub as int),
        ensures
            valid == (self.is_live(check_link as int) && self.links@[check_link as int].sub == sub
                && self.dep_pos@[check_link as int] <= self.cursor(sub as int)),
    {
        proof {
            assert(self.node_ok(sub as int));
            assert(self.link_ok(check_link as int));
        }
        let mut link = self.nodes[sub].deps_tail;
        let ghost ds = self.dep_lists@[sub as int];
        let ghost mut q = self.cursor(sub as int);
        proof {
            match link {
                Some(t) => {
                    assert(self.link_ok(t as int));
                },
                None => {},
            }
        }
        loop
            invariant
                self.wf(),
                self.is_link(check_link as int),
                self.is_node(sub as int),
                ds == self.dep_lists@[sub as int],
                -1 <= q <= self.cursor(sub as int),
                q < ds.len(),
                link == at(ds, q),
                forall|k: int| q < k <= self.cursor(sub as int) ==> ds[k] != check_link,
            ensures
                link.is_none(),
                q == -1,
                forall|k: int| 0 <= k <= self.cursor(sub as int) ==> ds[k] != check_link,
            decreases q + 1,
        {
            match link {
                Some(some_link) => {
                    proof {
                        assert(self.dep_entry_ok(sub as int, q));
                        assert(self.link_ok(some_link as int));
                    }
                    if some_link == check_link {
                        return true;
                    }
                    link = self.links[some_link].prev_dep;
                    proof {
                        q = q - 1;
                    }
                },
                None => {
                    break ;
                },
            }
        }
        false
    }
}

} // verus!
