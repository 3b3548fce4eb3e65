//! Logical priority sets: the decoded {priority, tries-remaining,
//! successful} triple of one redundant partition set, the eligibility
//! and active-selection rules, and the state transitions the five
//! mutating operations apply.

use vstd::prelude::*;
use crate::guid::Slot;
use crate::prio::MAX_PRIORITY;
use crate::prio::MAX_TRIES;

verus! {

/// The decoded state of one redundant partition set.
#[derive(Clone, Copy, Debug, PartialEq, Eq, Structural)]
pub struct PrioritySet {
    pub slot: Slot,
    pub priority: u8,
    pub tries: u8,
    pub successful: bool,
}

impl PrioritySet {
    /// Field bounds: both counters fit their 4-bit on-disk fields.
    pub open spec fn wf(self) -> bool {
        self.priority <= MAX_PRIORITY && self.tries <= MAX_TRIES
    }

    /// A set is eligible to boot when it has proven itself (successful)
    /// or still has tries remaining.
    pub open spec fn eligible(self) -> bool {
        self.successful || self.tries > 0
    }
}

/// Active-set selection between slot A and slot B: the eligible set
/// with the numerically highest priority wins; a tie keeps the fixed
/// slot order (A).  When neither set is eligible the raw priorities
/// decide alone — boot firmware will attempt the highest one anyway.
pub open spec fn spec_active_is_b(a: PrioritySet, b: PrioritySet) -> bool {
    if a.eligible() == b.eligible() {
        b.priority > a.priority
    } else {
        b.eligible()
    }
}

/// After `mark_successful_boot` on a set: proven, no retry budget kept.
pub open spec fn spec_marked(s: PrioritySet) -> PrioritySet {
    PrioritySet { tries: 0, successful: true, ..s }
}

/// After `clear_inactive` on a set: unbootable until re-staged.
pub open spec fn spec_cleared(s: PrioritySet) -> PrioritySet {
    PrioritySet { priority: 0, tries: 0, successful: false, ..s }
}

/// One more than the active priority, saturated at the field maximum.
pub open spec fn spec_bumped(active_priority: u8) -> u8 {
    if active_priority >= MAX_PRIORITY {
        MAX_PRIORITY
    } else {
        (active_priority + 1) as u8
    }
}

/// After `upgrade_to_inactive` on a freshly imaged set: preferred next
/// boot, full retry budget, not yet proven.
pub open spec fn spec_upgraded(s: PrioritySet, active_priority: u8) -> PrioritySet {
    PrioritySet {
        priority: spec_bumped(active_priority),
        tries: MAX_TRIES,
        successful: false,
        ..s
    }
}

/// After `rollback_to_inactive` on a proven set: re-preferred, retry
/// budget and successful flag untouched.
pub open spec fn spec_rolled_back(s: PrioritySet, active_priority: u8) -> PrioritySet {
    PrioritySet { priority: spec_bumped(active_priority), ..s }
}

/// Both sets after `mark_successful_boot`: the active one is marked,
/// the inactive one untouched.
pub open spec fn spec_mark_op(a: PrioritySet, b: PrioritySet) -> (PrioritySet, PrioritySet) {
    if spec_active_is_b(a, b) {
        (a, spec_marked(b))
    } else {
        (spec_marked(a), b)
    }
}

/// Decides the active set.
pub fn active_is_b(a: &PrioritySet, b: &PrioritySet) -> (r: bool)
    ensures
        r == spec_active_is_b(*a, *b),
{
    let ea: bool = a.successful || a.tries > 0;
    let eb: bool = b.successful || b.tries > 0;
    if ea == eb {
        b.priority > a.priority
    } else {
        eb
    }
}

/// Marking the active set successfully booted is idempotent: a second
/// application changes neither set, and in particular the marked set's
/// triple stays `(priority, 0, true)`.
pub proof fn lemma_mark_idempotent(a: PrioritySet, b: PrioritySet)
    ensures
        spec_mark_op(spec_mark_op(a, b).0, spec_mark_op(a, b).1) == spec_mark_op(a, b),
{
}

/// Eligibility overrides raw priority: whenever exactly one set is
/// eligible, that set is active, whatever the two priorities are.
pub proof fn lemma_eligibility_overrides(a: PrioritySet, b: PrioritySet)
    ensures
        a.eligible() && !b.eligible() ==> !spec_active_is_b(a, b),
        !a.eligible() && b.eligible() ==> spec_active_is_b(a, b),
{
}

} // verus!
