//! The bookkeeping round an evaluation: the count of evaluations, the
//! subscriber that reads are attributed to, and the depth of batches.

use vstd::prelude::*;
use crate::flags::Flags;
use crate::graph::{Graph, NodeFields};

verus! {

impl Graph {
    /// `self` is `before` but for the shared state.
    pub open spec fn same_records(&self, before: &Graph) -> bool {
        &&& self.nodes@ == before.nodes@
        &&& self.links@ == before.links@
        &&& self.dep_lists@ == before.dep_lists@
        &&& self.sub_lists@ == before.sub_lists@
        &&& self.dep_pos@ == before.dep_pos@
        &&& self.sub_pos@ == before.sub_pos@
        &&& self.live@ == before.live@
    }

    /// A graph with the records of a well-formed one, and with shared state
    /// that refers to nodes only, is well-formed.
    pub proof fn lemma_same_records_wf(&self, after: &Graph)
        requires
            self.wf(),
            after.same_records(self),
            after.sys_ok(),
        ensures
            after.wf(),
    {
        self.lemma_kept_cursors_wf(after);
    }

    /// Makes `sub` the subscriber that reads are attributed to, or none.
    /// Returns the one that was.
    pub fn set_active_sub(&mut self, sub: Option<usize>) -> (prev: Option<usize>)
        requires
            old(self).wf(),
            match sub {
                Some(n) => old(self).is_node(n as int),
                None => true,
            },
        ensures
            final(self).wf(),
            prev == old(self).sys.active_sub,
            final(self).same_records(old(self)),
            final(self).sys.active_sub == sub,
            final(self).sys.cycle == old(self).sys.cycle,
            final(self).sys.batch_depth == old(self).sys.batch_depth,
            final(self).sys.queued@ == old(self).sys.queued@,
            final(self).sys.queue_head == old(self).sys.queue_head,
    {
        let prev = self.sys.active_sub;
        self.sys.active_sub = sub;
        proof {
            old(self).lemma_same_records_wf(self);
        }
        prev
    }

    /// Counts one more evaluation.
    pub fn increment_cycle(&mut self)
        requires
            old(self).wf(),
            old(self).sys.cycle < usize::MAX,
        ensures
            final(self).wf(),
            final(self).same_records(old(self)),
            final(self).sys.active_sub == old(self).sys.active_sub,
            final(self).sys.cycle == old(self).sys.cycle + 1,
            final(self).sys.batch_depth == old(self).sys.batch_depth,
            final(self).sys.queued@ == old(self).sys.queued@,
            final(self).sys.queue_head == old(self).sys.queue_head,
    {
        self.sys.cycle = self.sys.cycle + 1;
        proof {
            old(self).lemma_same_records_wf(self);
        }
    }

    /// Sets the depth of batches.
    pub fn set_batch_depth(&mut self, depth: usize)
        requires
            old(self).wf(),
        ensures
            final(self).wf(),
            final(self).same_records(old(self)),
            final(self).sys.active_sub == old(self).sys.active_sub,
            final(self).sys.cycle == old(self).sys.cycle,
            final(self).sys.batch_depth == depth,
            final(self).sys.queued@ == old(self).sys.queued@,
            final(self).sys.queue_head == old(self).sys.queue_head,
    {
        self.sys.batch_depth = depth;
        proof {
            old(self).lemma_same_records_wf(self);
        }
    }

    /// What `start_tracking` makes of a graph: one more evaluation is
    /// counted, `sub` has the marks `flags` and an empty record of what it
    /// read, and reads are attributed to it.
    pub open spec fn tracking(&self, before: &Graph, sub: int, flags: Flags) -> bool {
        &&& self.nodes@ == before.nodes@.update(
            sub,
            NodeFields { flags, deps_tail: None, ..before.nodes@[sub] },
        )
        &&& self.links@ == before.links@
        &&& self.dep_lists@ == before.dep_lists@
        &&& self.sub_lists@ == before.sub_lists@
        &&& self.dep_pos@ == before.dep_pos@
        &&& self.sub_pos@ == before.sub_pos@
        &&& self.live@ == before.live@
        &&& self.sys.active_sub == Some(sub as usize)
        &&& self.sys.cycle == before.sys.cycle + 1
        &&& self.sys.batch_depth == before.sys.batch_depth
        &&& self.sys.queued@ == before.sys.queued@
        &&& self.sys.queue_head == before.sys.queue_head
    }

    /// Begins an evaluation of `sub`. Returns the subscriber that reads were
    /// attributed to.
    pub fn start_tracking(&mut self, sub: usize, flags: Flags) -> (prev: Option<usize>)
        requires
            old(self).wf(),
            old(self).is_node(sub as int),
            old(self).sys.cycle < usize::MAX,
        ensures
            final(self).wf(),
            prev == old(self).sys.active_sub,
            final(self).tracking(old(self), sub as int, flags),
    {
        self.increment_cycle();
        self.clear_deps_tail(sub);
        self.set_flags(sub, flags);
        let prev = self.set_active_sub(Some(sub));
        proof {
            assert(self.nodes@ =~= old(self).nodes@.update(
                sub as int,
                NodeFields { flags, deps_tail: None, ..old(self).nodes@[sub as int] },
            ));
        }
        prev
    }

    /// What the graph is when the evaluation of `sub` has returned and
    /// before what it did not read is let go of: reads are attributed to
    /// `prev` again, and `sub` is no longer marked as under evaluation.
    pub open spec fn resumed(&self, before: &Graph, sub: int, prev: Option<usize>) -> bool {
        &&& self.nodes@ == before.nodes@.update(
            sub,
            NodeFields {
                flags: Flags { recursed_check: false, ..before.nodes@[sub].flags },
                ..before.nodes@[sub]
            },
        )
        &&& self.links@ == before.links@
        &&& self.dep_lists@ == before.dep_lists@
        &&& self.sub_lists@ == before.sub_lists@
        &&& self.dep_pos@ == before.dep_pos@
        &&& self.sub_pos@ == before.sub_pos@
        &&& self.live@ == before.live@
        &&& self.sys.active_sub == prev
        &&& self.sys.cycle == before.sys.cycle
        &&& self.sys.batch_depth == before.sys.batch_depth
        &&& self.sys.queued@ == before.sys.queued@
        &&& self.sys.queue_head == before.sys.queue_head
    }

    /// Ends the evaluation of `sub` without letting go of anything.
    pub fn resume(&mut self, sub: usize, prev: Option<usize>)
        requires
            old(self).wf(),
            old(self).is_node(sub as int),
            match prev {
                Some(n) => old(self).is_node(n as int),
                None => true,
            },
        ensures
            final(self).wf(),
            final(self).resumed(old(self), sub as int, prev),
    {
        self.set_active_sub(prev);
        let flags = self.nodes[sub].flags;
        self.set_flags(sub, flags.difference(Flags::recursed_check()));
    }

    /// What `end_tracking` makes of a graph: the evaluation of `sub` is
    /// ended, and the dependencies that stood behind its cursor are let go
    /// of, with what follows from that. Unless that cost `sub` its last
    /// subscriber, what it read is kept, in the order of the first reads.
    pub open spec fn ended(&self, before: &Graph, sub: int, prev: Option<usize>) -> bool {
        &&& self.cursor(sub) == self.dep_lists@[sub].len() - 1
        &&& exists|mid: Graph|
            {
                &&& mid.wf()
                &&& #[trigger] mid.resumed(before, sub, prev)
                &&& self.pruned(&mid, sub)
                &&& self.released_all(&mid, sub)
                &&& !self.emptied(&mid, sub) ==> self.kept_read(&mid, sub)
            }
    }

    /// Ends the evaluation of `sub`: reads are attributed to `prev` again,
    /// `sub` is no longer marked as under evaluation, and the dependencies
    /// that the evaluation did not read are let go of. Returns the graph as it
    /// was before they were.
    pub fn end_tracking(&mut self, sub: usize, prev: Option<usize>) -> (mid: Ghost<Graph>)
        requires
            old(self).wf(),
            old(self).is_node(sub as int),
            match prev {
                Some(n) => old(self).is_node(n as int),
                None => true,
            },
        ensures
            final(self).wf(),
            mid@.wf(),
            mid@.resumed(old(self), sub as int, prev),
            final(self).pruned(&mid@, sub as int),
            final(self).released_all(&mid@, sub as int),
            final(self).cursor(sub as int) == final(self).dep_lists@[sub as int].len() - 1,
            final(self).ended(old(self), sub as int, prev),
    {
        self.resume(sub, prev);
        let ghost mid = *self;
        self.purge_deps(sub);
        Ghost(mid)
    }

    /// `self` is `before` with one more node, which bears the marks `flags`
    /// and has neither dependencies nor subscribers, and with reads
    /// attributed to `active`.
    pub open spec fn adopted(&self, before: &Graph, flags: Flags, active: Option<usize>) -> bool {
        &&& self.nodes@ == before.nodes@.push(
            NodeFields { flags, deps: None, deps_tail: None, subs: None, subs_tail: None },
        )
        &&& self.links@ == before.links@
        &&& self.dep_lists@ == before.dep_lists@.push(Seq::empty())
        &&& self.sub_lists@ == before.sub_lists@.push(Seq::empty())
        &&& self.dep_pos@ == before.dep_pos@
        &&& self.sub_pos@ == before.sub_pos@
        &&& self.live@ == before.live@
        &&& self.sys.active_sub == active
        &&& self.sys.cycle == before.sys.cycle
        &&& self.sys.batch_depth == before.sys.batch_depth
        &&& self.sys.queued@ == before.sys.queued@
        &&& self.sys.queue_head == before.sys.queue_head
    }

    /// What the making of a subscriber makes of a graph before the code of
    /// the subscriber runs: the node is there, reads are attributed to it,
    /// and it is attached to the subscriber that reads were attributed to.
    pub open spec fn attached_under(&self, before: &Graph, flags: Flags) -> bool {
        let new = before.nodes@.len() as int;
        exists|added: Graph|
            {
                &&& added.wf()
                &&& #[trigger] added.adopted(before, flags, Some(before.nodes.len()))
                &&& match before.sys.active_sub {
                    Some(parent) => self.linked(&added, new, parent as int, 0),
                    None => self.same(&added),
                }
            }
    }

    /// `self` is `before` but that `sub` bears the marks `flags` and that
    /// reads are attributed to it.
    pub open spec fn entered(&self, before: &Graph, sub: int, flags: Flags) -> bool {
        &&& self.nodes@ == before.nodes@.update(sub, NodeFields { flags, ..before.nodes@[sub] })
        &&& self.links@ == before.links@
        &&& self.dep_lists@ == before.dep_lists@
        &&& self.sub_lists@ == before.sub_lists@
        &&& self.dep_pos@ == before.dep_pos@
        &&& self.sub_pos@ == before.sub_pos@
        &&& self.live@ == before.live@
        &&& self.sys.active_sub == Some(sub as usize)
        &&& self.sys.cycle == before.sys.cycle
        &&& self.sys.batch_depth == before.sys.batch_depth
        &&& self.sys.queued@ == before.sys.queued@
        &&& self.sys.queue_head == before.sys.queue_head
    }
}

} // verus!
