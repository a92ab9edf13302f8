//! The status word of a node: six independent marks.

use vstd::prelude::*;

verus! {

/// The status of a node in the dependency graph.
///
/// Each of the six marks is independent of the others. The set operations
/// `&`, `|` and `!` act mark by mark.
#[derive(Clone, Copy, PartialEq, Eq, Structural, Debug)]
pub struct Flags {
    /// The node produces a value: it is a signal or a computed.
    pub mutable: bool,
    /// The node, once notified, has to be queued for execution.
    pub watching: bool,
    /// The node is being evaluated right now.
    pub recursed_check: bool,
    /// The node was marked again while it was being evaluated.
    pub recursed: bool,
    /// The node has to be evaluated again.
    pub dirty: bool,
    /// The node may have to be evaluated again; validation decides.
    pub pending: bool,
}

impl Flags {
    /// No mark at all.
    pub open spec fn spec_none() -> Flags {
        Flags {
            mutable: false,
            watching: false,
            recursed_check: false,
            recursed: false,
            dirty: false,
            pending: false,
        }
    }

    /// Mark by mark conjunction.
    pub open spec fn meet(self, rhs: Flags) -> Flags {
        Flags {
            mutable: self.mutable && rhs.mutable,
            watching: self.watching && rhs.watching,
            recursed_check: self.recursed_check && rhs.recursed_check,
            recursed: self.recursed && rhs.recursed,
            dirty: self.dirty && rhs.dirty,
            pending: self.pending && rhs.pending,
        }
    }

    /// Mark by mark disjunction.
    pub open spec fn join(self, rhs: Flags) -> Flags {
        Flags {
            mutable: self.mutable || rhs.mutable,
            watching: self.watching || rhs.watching,
            recursed_check: self.recursed_check || rhs.recursed_check,
            recursed: self.recursed || rhs.recursed,
            dirty: self.dirty || rhs.dirty,
            pending: self.pending || rhs.pending,
        }
    }

    /// Mark by mark negation.
    pub open spec fn complement(self) -> Flags {
        Flags {
            mutable: !self.mutable,
            watching: !self.watching,
            recursed_check: !self.recursed_check,
            recursed: !self.recursed,
            dirty: !self.dirty,
            pending: !self.pending,
        }
    }

    /// The marks of `self` that `rhs` does not hold.
    pub open spec fn without(self, rhs: Flags) -> Flags {
        self.meet(rhs.complement())
    }

    /// Whether no mark is set.
    pub open spec fn empty(self) -> bool {
        self == Flags::spec_none()
    }

    /// No mark at all.
    #[verifier::when_used_as_spec(spec_none)]
    pub fn none() -> (r: Flags)
        ensures
            r == Flags::spec_none(),
    {
        Flags {
            mutable: false,
            watching: false,
            recursed_check: false,
            recursed: false,
            dirty: false,
            pending: false,
        }
    }

    /// The one mark of a node that produces a value.
    pub open spec fn spec_mutable() -> Flags {
        Flags { mutable: true, ..Flags::spec_none() }
    }

    /// The two marks of a node that produces a value and has to be
    /// evaluated again.
    pub open spec fn spec_stale() -> Flags {
        Flags { mutable: true, dirty: true, ..Flags::spec_none() }
    }

    /// The two marks of an effect whose thunk is running.
    pub open spec fn spec_running() -> Flags {
        Flags { watching: true, recursed_check: true, ..Flags::spec_none() }
    }

    /// The two marks of a computed whose getter is running.
    pub open spec fn spec_computing() -> Flags {
        Flags { mutable: true, recursed_check: true, ..Flags::spec_none() }
    }

    /// The one mark of a node that is queued when it is notified.
    pub open spec fn spec_watching() -> Flags {
        Flags { watching: true, ..Flags::spec_none() }
    }

    /// The mark of a node that produces a value.
    #[verifier::when_used_as_spec(spec_mutable)]
    pub fn mutable() -> (r: Flags)
        ensures
            r == (Flags { mutable: true, ..Flags::spec_none() }),
    {
        Flags { mutable: true, ..Flags::none() }
    }

    /// The mark of a node that is queued when it is notified.
    #[verifier::when_used_as_spec(spec_watching)]
    pub fn watching() -> (r: Flags)
        ensures
            r == (Flags { watching: true, ..Flags::spec_none() }),
    {
        Flags { watching: true, ..Flags::none() }
    }

    /// The mark of a node under evaluation.
    pub fn recursed_check() -> (r: Flags)
        ensures
            r == (Flags { recursed_check: true, ..Flags::spec_none() }),
    {
        Flags { recursed_check: true, ..Flags::none() }
    }

    /// The mark of a node that was reached again during its evaluation.
    pub fn recursed() -> (r: Flags)
        ensures
            r == (Flags { recursed: true, ..Flags::spec_none() }),
    {
        Flags { recursed: true, ..Flags::none() }
    }

    /// The mark of a node that must be evaluated again.
    pub fn dirty() -> (r: Flags)
        ensures
            r == (Flags { dirty: true, ..Flags::spec_none() }),
    {
        Flags { dirty: true, ..Flags::none() }
    }

    /// The mark of a node that may have to be evaluated again.
    pub fn pending() -> (r: Flags)
        ensures
            r == (Flags { pending: true, ..Flags::spec_none() }),
    {
        Flags { pending: true, ..Flags::none() }
    }

    /// The marks of `self` that `rhs` does not hold.
    pub fn difference(self, rhs: Flags) -> (r: Flags)
        ensures
            r == self.without(rhs),
    {
        Flags {
            mutable: self.mutable && !rhs.mutable,
            watching: self.watching && !rhs.watching,
            recursed_check: self.recursed_check && !rhs.recursed_check,
            recursed: self.recursed && !rhs.recursed,
            dirty: self.dirty && !rhs.dirty,
            pending: self.pending && !rhs.pending,
        }
    }

    /// Whether no mark is set.
    pub fn is_zero(self) -> (r: bool)
        ensures
            r == self.empty(),
    {
        !self.mutable && !self.watching && !self.recursed_check && !self.recursed && !self.dirty
            && !self.pending
    }

    /// Whether a mark is set.
    pub fn is_nonzero(self) -> (r: bool)
        ensures
            r == !self.empty(),
    {
        !self.is_zero()
    }
}

impl std::ops::Not for Flags {
    type Output = Flags;

    fn not(self) -> (r: Flags) {
        Flags {
            mutable: !self.mutable,
            watching: !self.watching,
            recursed_check: !self.recursed_check,
            recursed: !self.recursed,
            dirty: !self.dirty,
            pending: !self.pending,
        }
    }
}

impl std::ops::BitAnd for Flags {
    type Output = Flags;

    fn bitand(self, rhs: Flags) -> (r: Flags) {
        Flags {
            mutable: self.mutable && rhs.mutable,
            watching: self.watching && rhs.watching,
            recursed_check: self.recursed_check && rhs.recursed_check,
            recursed: self.recursed && rhs.recursed,
            dirty: self.dirty && rhs.dirty,
            pending: self.pending && rhs.pending,
        }
    }
}

impl std::ops::BitOr for Flags {
    type Output = Flags;

    fn bitor(self, rhs: Flags) -> (r: Flags) {
        Flags {
            mutable: self.mutable || rhs.mutable,
            watching: self.watching || rhs.watching,
            recursed_check: self.recursed_check || rhs.recursed_check,
            recursed: self.recursed || rhs.recursed,
            dirty: self.dirty || rhs.dirty,
            pending: self.pending || rhs.pending,
        }
    }
}

impl vstd::std_specs::ops::NotSpecImpl for Flags {
    open spec fn obeys_not_spec() -> bool {
        true
    }

    open spec fn not_req(self) -> bool {
        true
    }

    open spec fn not_spec(self) -> Flags {
        self.complement()
    }
}

impl vstd::std_specs::ops::BitAndSpecImpl for Flags {
    open spec fn obeys_bitand_spec() -> bool {
        true
    }

    open spec fn bitand_req(self, rhs: Flags) -> bool {
        true
    }

    open spec fn bitand_spec(self, rhs: Flags) -> Flags {
        self.meet(rhs)
    }
}

impl vstd::std_specs::ops::BitOrSpecImpl for Flags {
    open spec fn obeys_bitor_spec() -> bool {
        true
    }

    open spec fn bitor_req(self, rhs: Flags) -> bool {
        true
    }

    open spec fn bitor_spec(self, rhs: Flags) -> Flags {
        self.join(rhs)
    }
}

} // verus!
