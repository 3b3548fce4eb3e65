//! Orchestration: derives the two priority sets from a loaded table,
//! exposes the five mutating operations and the read-only status view,
//! and re-encodes the sets into the table for writing.

use vstd::prelude::*;
use crate::error::Error;
use crate::guid::Slot;
use crate::prio::spec_encode;
use crate::prio::spec_priority;
use crate::prio::spec_successful;
use crate::prio::spec_tries;
use crate::prio::decode;
use crate::prio::encode;
use crate::set::active_is_b;
use crate::set::spec_active_is_b;
use crate::set::spec_bumped;
use crate::set::spec_cleared;
use crate::set::spec_marked;
use crate::set::spec_rolled_back;
use crate::set::spec_upgraded;
use crate::set::PrioritySet;
use crate::table::disk_matches_primary;
use crate::table::valid_primary;
use crate::table::PartitionEntry;
use crate::table::Region;
use crate::table::Table;

verus! {

/// True when `e` carries the decoded triple of `p`.
pub open spec fn entry_matches(e: PartitionEntry, p: PrioritySet) -> bool {
    &&& spec_priority(e.attributes) == p.priority
    &&& spec_tries(e.attributes) == p.tries
    &&& spec_successful(e.attributes) == p.successful
}

/// At least one entry of the array belongs to slot `s`.
pub open spec fn has_member(entries: Seq<PartitionEntry>, s: Slot) -> bool {
    exists|i: int|
        0 <= i < entries.len() && (#[trigger] entries[i]).type_id.spec_slot() == Some(s)
}

/// All entries of slot `s` decode to one identical triple.
pub open spec fn slot_consistent(entries: Seq<PartitionEntry>, s: Slot) -> bool {
    forall|i: int, j: int|
        0 <= i < entries.len() && 0 <= j < entries.len() && (#[trigger] entries[i]).type_id.spec_slot()
            == Some(s) && (#[trigger] entries[j]).type_id.spec_slot() == Some(s)
            ==> entries[i].attributes & 0x01ff_0000_0000_0000
            == entries[j].attributes & 0x01ff_0000_0000_0000
}

/// The per-slot status row reported by `status`.
#[derive(Clone, Copy, Debug, PartialEq, Eq, Structural)]
pub struct SetStatus {
    pub slot: Slot,
    pub priority: u8,
    pub tries: u8,
    pub successful: bool,
    pub active: bool,
}

/// The in-memory state of one invocation: the loaded table and the two
/// priority sets derived from it.
pub struct State {
    pub table: Table,
    pub set_a: PrioritySet,
    pub set_b: PrioritySet,
}

impl State {
    /// Structural invariant: a well-formed table and two well-formed
    /// sets in fixed slot order.
    pub open spec fn wf(self) -> bool {
        &&& self.table.wf()
        &&& self.set_a.wf()
        &&& self.set_b.wf()
        &&& self.set_a.slot == Slot::A
        &&& self.set_b.slot == Slot::B
    }

    /// Every classified entry of the table carries its set's triple.
    /// Holds after `load` and is re-established by `write_plan`; the
    /// in-memory sets may drift from it between a mutation and the
    /// write that persists it.
    pub open spec fn sets_match(self) -> bool {
        forall|i: int|
            0 <= i < self.table.entries@.len() ==> {
                let e = #[trigger] self.table.entries@[i];
                &&& (e.type_id.spec_slot() == Some(Slot::A) ==> entry_matches(e, self.set_a))
                &&& (e.type_id.spec_slot() == Some(Slot::B) ==> entry_matches(e, self.set_b))
            }
    }

    /// Which set the selection rule reports active.
    pub open spec fn spec_active_slot(self) -> Slot {
        if spec_active_is_b(self.set_a, self.set_b) {
            Slot::B
        } else {
            Slot::A
        }
    }

    /// Groups a validated table's entries into the two priority sets.
    ///
    /// Fails with `NoPartitionSets` exactly when either slot has no
    /// member entry, and otherwise with `InconsistentSet` exactly when
    /// two entries of one slot decode to different triples; disagreement
    /// is never silently resolved.
    pub fn from_table(table: Table) -> (r: Result<State, Error>)
        requires
            table.wf(),
        ensures
            r is Ok <==> has_member(table.entries@, Slot::A) && has_member(table.entries@, Slot::B)
                && slot_consistent(table.entries@, Slot::A) && slot_consistent(
                table.entries@,
                Slot::B,
            ),
            r matches Ok(s) ==> s.table == table && s.wf() && s.sets_match(),
            r matches Err(e) ==> (e == Error::NoPartitionSets <==> !(has_member(
                table.entries@,
                Slot::A,
            ) && has_member(table.entries@, Slot::B))),
            r matches Err(e) ==> e == Error::NoPartitionSets || e == Error::InconsistentSet,
    {
        let n: usize = table.entries.len();
        let mut tri_a: Option<(u8, u8, bool)> = None;
        let mut tri_b: Option<(u8, u8, bool)> = None;
        let mut bad_a: bool = false;
        let mut bad_b: bool = false;
        let mut i: usize = 0;
        while i < n
            invariant
                i <= n,
                n == table.entries@.len(),
                tri_a matches Some(t) ==> exists|k: int|
                    0 <= k < i && (#[trigger] table.entries@[k]).type_id.spec_slot() == Some(
                        Slot::A,
                    ) && spec_priority(table.entries@[k].attributes) == t.0 && spec_tries(
                        table.entries@[k].attributes,
                    ) == t.1 && spec_successful(table.entries@[k].attributes) == t.2,
                tri_a is None ==> forall|k: int|
                    0 <= k < i ==> (#[trigger] table.entries@[k]).type_id.spec_slot() != Some(
                        Slot::A,
                    ),
                tri_a matches Some(t) ==> (!bad_a ==> forall|k: int|
                    0 <= k < i && (#[trigger] table.entries@[k]).type_id.spec_slot() == Some(
                        Slot::A,
                    ) ==> spec_priority(table.entries@[k].attributes) == t.0 && spec_tries(
                        table.entries@[k].attributes,
                    ) == t.1 && spec_successful(table.entries@[k].attributes) == t.2),
                bad_a ==> !slot_consistent(table.entries@, Slot::A),
                tri_b matches Some(t) ==> exists|k: int|
                    0 <= k < i && (#[trigger] table.entries@[k]).type_id.spec_slot() == Some(
                        Slot::B,
                    ) && spec_priority(table.entries@[k].attributes) == t.0 && spec_tries(
                        table.entries@[k].attributes,
                    ) == t.1 && spec_successful(table.entries@[k].attributes) == t.2,
                tri_b is None ==> forall|k: int|
                    0 <= k < i ==> (#[trigger] table.entries@[k]).type_id.spec_slot() != Some(
                        Slot::B,
                    ),
                tri_b matches Some(t) ==> (!bad_b ==> forall|k: int|
                    0 <= k < i && (#[trigger] table.entries@[k]).type_id.spec_slot() == Some(
                        Slot::B,
                    ) ==> spec_priority(table.entries@[k].attributes) == t.0 && spec_tries(
                        table.entries@[k].attributes,
                    ) == t.1 && spec_successful(table.entries@[k].attributes) == t.2),
                bad_b ==> !slot_consistent(table.entries@, Slot::B),
            decreases n - i,
        {
            let slot = table.entries[i].type_id.slot();
            match slot {
                Some(Slot::A) => {
                    let t = decode(table.entries[i].attributes);
                    match tri_a {
                        None => {
                            tri_a = Some(t);
                        },
                        Some(first) => {
                            if t.0 != first.0 || t.1 != first.1 || t.2 != first.2 {
                                proof {
                                    let k = choose|k: int|
                                        0 <= k < i && (#[trigger] table.entries@[k]).type_id.spec_slot()
                                            == Some(Slot::A) && spec_priority(
                                            table.entries@[k].attributes,
                                        ) == first.0 && spec_tries(table.entries@[k].attributes)
                                            == first.1 && spec_successful(
                                            table.entries@[k].attributes,
                                        ) == first.2;
                                    lemma_managed_bits_decide(
                                        table.entries@[k].attributes,
                                        table.entries@[i as int].attributes,
                                    );
                                }
                                bad_a = true;
                            }
                        },
                    }
                },
                Some(Slot::B) => {
                    let t = decode(table.entries[i].attributes);
                    match tri_b {
                        None => {
                            tri_b = Some(t);
                        },
                        Some(first) => {
                            if t.0 != first.0 || t.1 != first.1 || t.2 != first.2 {
                                proof {
                                    let k = choose|k: int|
                                        0 <= k < i && (#[trigger] table.entries@[k]).type_id.spec_slot()
                                            == Some(Slot::B) && spec_priority(
                                            table.entries@[k].attributes,
                                        ) == first.0 && spec_tries(table.entries@[k].attributes)
                                            == first.1 && spec_successful(
                                            table.entries@[k].attributes,
                                        ) == first.2;
                                    lemma_managed_bits_decide(
                                        table.entries@[k].attributes,
                                        table.entries@[i as int].attributes,
                                    );
                                }
                                bad_b = true;
                            }
                        },
                    }
                },
                None => {
                },
            }
            i = i + 1;
        }
        match (tri_a, tri_b) {
            (Some(ta), Some(tb)) => {
                if bad_a || bad_b {
                    return Err(Error::InconsistentSet);
                }
                proof {
                    lemma_consistency_from_anchor(table.entries@, Slot::A, ta.0, ta.1, ta.2);
                    lemma_consistency_from_anchor(table.entries@, Slot::B, tb.0, tb.1, tb.2);
                    let ka = choose|k: int|
                        0 <= k < n && (#[trigger] table.entries@[k]).type_id.spec_slot() == Some(
                            Slot::A,
                        ) && spec_priority(table.entries@[k].attributes) == ta.0 && spec_tries(
                            table.entries@[k].attributes,
                        ) == ta.1 && spec_successful(table.entries@[k].attributes) == ta.2;
                    lemma_field_bounds(table.entries@[ka].attributes);
                    let kb = choose|k: int|
                        0 <= k < n && (#[trigger] table.entries@[k]).type_id.spec_slot() == Some(
                            Slot::B,
                        ) && spec_priority(table.entries@[k].attributes) == tb.0 && spec_tries(
                            table.entries@[k].attributes,
                        ) == tb.1 && spec_successful(table.entries@[k].attributes) == tb.2;
                    lemma_field_bounds(table.entries@[kb].attributes);
                }
                let s = State {
                    table,
                    set_a: PrioritySet {
                        slot: Slot::A,
                        priority: ta.0,
                        tries: ta.1,
                        successful: ta.2,
                    },
                    set_b: PrioritySet {
                        slot: Slot::B,
                        priority: tb.0,
                        tries: tb.1,
                        successful: tb.2,
                    },
                };
                Ok(s)
            },
            _ => Err(Error::NoPartitionSets),
        }
    }
    /// Loads the table from a raw disk image and derives the two sets.
    ///
    /// `CorruptTable` exactly when the image's primary copy is invalid;
    /// otherwise the grouping failures of `from_table`, otherwise a
    /// fully derived state.
    pub fn load(disk: &Vec<u8>, sector_size: usize) -> (r: Result<State, Error>)
        requires
            512 <= sector_size,
        ensures
            r matches Ok(s) ==> valid_primary(disk@, sector_size as int) && s.wf()
                && s.table.sector_size == sector_size && disk_matches_primary(disk@, s.table)
                && s.sets_match() && has_member(s.table.entries@, Slot::A) && has_member(
                s.table.entries@,
                Slot::B,
            ),
            r matches Err(e) ==> (e == Error::CorruptTable <==> !valid_primary(
                disk@,
                sector_size as int,
            )),
            r matches Err(e) ==> e == Error::CorruptTable || e == Error::NoPartitionSets
                || e == Error::InconsistentSet,
            r matches Err(e) ==> e != Error::CorruptTable ==> exists|t: Table|
                t.wf() && disk_matches_primary(disk@, t) && !(has_member(t.entries@, Slot::A)
                    && has_member(t.entries@, Slot::B) && slot_consistent(t.entries@, Slot::A)
                    && slot_consistent(t.entries@, Slot::B)),
    {
        let table = match Table::load(disk, sector_size) {
            Ok(t) => t,
            Err(e) => {
                return Err(e);
            },
        };
        let ghost gt = table;
        match State::from_table(table) {
            Ok(s) => Ok(s),
            Err(e) => {
                proof {
                    assert(gt.wf() && disk_matches_primary(disk@, gt) && !(has_member(
                        gt.entries@,
                        Slot::A,
                    ) && has_member(gt.entries@, Slot::B) && slot_consistent(gt.entries@, Slot::A)
                        && slot_consistent(gt.entries@, Slot::B)));
                }
                Err(e)
            },
        }
    }

    /// The slot currently reported active.
    pub fn active_slot(&self) -> (r: Slot)
        ensures
            r == self.spec_active_slot(),
    {
        if active_is_b(&self.set_a, &self.set_b) {
            Slot::B
        } else {
            Slot::A
        }
    }

    /// The read-only status view: one row per slot, in slot order, with
    /// the decoded triple and the active mark.  No mutation.
    pub fn status(&self) -> (r: Vec<SetStatus>)
        ensures
            r@.len() == 2,
            r@[0] == (SetStatus {
                slot: Slot::A,
                priority: self.set_a.priority,
                tries: self.set_a.tries,
                successful: self.set_a.successful,
                active: self.spec_active_slot() == Slot::A,
            }),
            r@[1] == (SetStatus {
                slot: Slot::B,
                priority: self.set_b.priority,
                tries: self.set_b.tries,
                successful: self.set_b.successful,
                active: self.spec_active_slot() == Slot::B,
            }),
    {
        let b_active: bool = active_is_b(&self.set_a, &self.set_b);
        let mut r: Vec<SetStatus> = Vec::new();
        r.push(
            SetStatus {
                slot: Slot::A,
                priority: self.set_a.priority,
                tries: self.set_a.tries,
                successful: self.set_a.successful,
                active: !b_active,
            },
        );
        r.push(
            SetStatus {
                slot: Slot::B,
                priority: self.set_b.priority,
                tries: self.set_b.tries,
                successful: self.set_b.successful,
                active: b_active,
            },
        );
        r
    }

    /// Marks the currently active set successfully booted: its
    /// `successful` flag is set and its retry budget dropped to zero (a
    /// proven set needs none).  The inactive set and the table are
    /// untouched.  Idempotent.
    pub fn mark_successful_boot(&mut self)
        requires
            old(self).wf(),
        ensures
            final(self).wf(),
            final(self).table == old(self).table,
            final(self).set_a == crate::set::spec_mark_op(old(self).set_a, old(self).set_b).0,
            final(self).set_b == crate::set::spec_mark_op(old(self).set_a, old(self).set_b).1,
    {
        if active_is_b(&self.set_a, &self.set_b) {
            self.set_b.successful = true;
            self.set_b.tries = 0;
        } else {
            self.set_a.successful = true;
            self.set_a.tries = 0;
        }
    }

    /// Clears the currently inactive set to {priority 0, no tries, not
    /// successful}, so a half-written image staged over it is never
    /// selected as bootable.  The active set and the table are
    /// untouched.
    pub fn clear_inactive(&mut self)
        requires
            old(self).wf(),
        ensures
            final(self).wf(),
            final(self).table == old(self).table,
            spec_active_is_b(old(self).set_a, old(self).set_b) ==> final(self).set_a
                == spec_cleared(old(self).set_a) && final(self).set_b == old(self).set_b,
            !spec_active_is_b(old(self).set_a, old(self).set_b) ==> final(self).set_b
                == spec_cleared(old(self).set_b) && final(self).set_a == old(self).set_a,
    {
        if active_is_b(&self.set_a, &self.set_b) {
            self.set_a.priority = 0;
            self.set_a.tries = 0;
            self.set_a.successful = false;
        } else {
            self.set_b.priority = 0;
            self.set_b.tries = 0;
            self.set_b.successful = false;
        }
    }

    /// Promotes the freshly imaged inactive set to the preferred
    /// next-boot candidate: full retry budget, not yet successful, and
    /// priority one above the active set's (saturated at the field
    /// maximum).  The active set stays as a fallback; the table is
    /// untouched.
    pub fn upgrade_to_inactive(&mut self)
        requires
            old(self).wf(),
        ensures
            final(self).wf(),
            final(self).table == old(self).table,
            spec_active_is_b(old(self).set_a, old(self).set_b) ==> final(self).set_a
                == spec_upgraded(old(self).set_a, old(self).set_b.priority) && final(self).set_b
                == old(self).set_b,
            !spec_active_is_b(old(self).set_a, old(self).set_b) ==> final(self).set_b
                == spec_upgraded(old(self).set_b, old(self).set_a.priority) && final(self).set_a
                == old(self).set_a,
    {
        if active_is_b(&self.set_a, &self.set_b) {
            self.set_a.priority = bump(self.set_b.priority);
            self.set_a.tries = crate::prio::MAX_TRIES;
            self.set_a.successful = false;
        } else {
            self.set_b.priority = bump(self.set_a.priority);
            self.set_b.tries = crate::prio::MAX_TRIES;
            self.set_b.successful = false;
        }
    }

    /// Re-prefers the inactive set, but only when it has booted
    /// successfully before: promoting an unvalidated image would be
    /// indistinguishable from blind luck.  On refusal nothing changes.
    /// On success only the inactive set's priority moves (one above the
    /// active set's, saturated); its tries and successful flag are
    /// already proven and stay untouched.
    pub fn rollback_to_inactive(&mut self) -> (r: Result<(), Error>)
        requires
            old(self).wf(),
        ensures
            final(self).wf(),
            final(self).table == old(self).table,
            r is Ok <==> (if spec_active_is_b(old(self).set_a, old(self).set_b) {
                old(self).set_a.successful
            } else {
                old(self).set_b.successful
            }),
            r matches Err(e) ==> e == Error::NeverSuccessful && *final(self) == *old(self),
            r is Ok ==> (if spec_active_is_b(old(self).set_a, old(self).set_b) {
                final(self).set_a == spec_rolled_back(old(self).set_a, old(self).set_b.priority)
                    && final(self).set_b == old(self).set_b
            } else {
                final(self).set_b == spec_rolled_back(old(self).set_b, old(self).set_a.priority)
                    && final(self).set_a == old(self).set_a
            }),
    {
        if active_is_b(&self.set_a, &self.set_b) {
            if !self.set_a.successful {
                return Err(Error::NeverSuccessful);
            }
            self.set_a.priority = bump(self.set_b.priority);
        } else {
            if !self.set_b.successful {
                return Err(Error::NeverSuccessful);
            }
            self.set_b.priority = bump(self.set_a.priority);
        }
        Ok(())
    }

    /// Re-encodes both sets' triples into the attribute words of their
    /// member entries — every unmanaged bit and every other entry field
    /// byte-identical — and produces the table's write plan: backup
    /// copy first, then primary.
    pub fn write_plan(&mut self) -> (plan: Vec<Region>)
        requires
            old(self).wf(),
        ensures
            final(self).wf(),
            final(self).set_a == old(self).set_a,
            final(self).set_b == old(self).set_b,
            final(self).sets_match(),
            entries_reencoded(old(self).table, final(self).table, old(self).set_a, old(self).set_b),
            table_fields_kept(old(self).table, final(self).table),
            plan@.len() == 4,
            plan@[0].offset == final(self).table.backup_entries_off(),
            plan@[0].bytes@ == final(self).table.spec_entries_region(),
            plan@[1].offset == final(self).table.backup_header_off(),
            plan@[1].bytes@ == final(self).table.spec_backup_header_sector(),
            plan@[2].offset == final(self).table.primary_entries_off(),
            plan@[2].bytes@ == final(self).table.spec_entries_region(),
            plan@[3].offset == final(self).table.primary_header_off(),
            plan@[3].bytes@ == final(self).table.spec_primary_header_sector(),
            forall|i: int|
                0 <= i < 4 ==> (#[trigger] plan@[i]).offset >= final(self).table.sector_size
                    && plan@[i].offset + plan@[i].bytes@.len() <= final(self).table.disk_len(),
    {
        let n: usize = self.table.entries.len();
        let ghost orig = self.table;
        let mut i: usize = 0;
        while i < n
            invariant
                i <= n,
                self.table.sector_size == orig.sector_size,
                self.table.total_lba == orig.total_lba,
                self.table.revision == orig.revision,
                self.table.disk_guid == orig.disk_guid,
                self.table.first_usable == orig.first_usable,
                self.table.last_usable == orig.last_usable,
                self.table.entries@.len() == n,
                n == orig.entries@.len(),
                orig.wf(),
                self.set_a == old(self).set_a,
                self.set_b == old(self).set_b,
                self.set_a.wf(),
                self.set_b.wf(),
                self.set_a.slot == Slot::A,
                self.set_b.slot == Slot::B,
                forall|j: int| i <= j < n ==> self.table.entries@[j] == orig.entries@[j],
                forall|j: int|
                    0 <= j < i ==> reencoded_entry(
                        orig.entries@[j],
                        #[trigger] self.table.entries@[j],
                        self.set_a,
                        self.set_b,
                    ),
            decreases n - i,
        {
            let slot = self.table.entries[i].type_id.slot();
            match slot {
                Some(Slot::A) => {
                    let w = self.table.entries[i].attributes;
                    self.table.entries[i].attributes = encode(
                        w,
                        self.set_a.priority,
                        self.set_a.tries,
                        self.set_a.successful,
                    );
                },
                Some(Slot::B) => {
                    let w = self.table.entries[i].attributes;
                    self.table.entries[i].attributes = encode(
                        w,
                        self.set_b.priority,
                        self.set_b.tries,
                        self.set_b.successful,
                    );
                },
                None => {
                },
            }
            i = i + 1;
        }
        proof {
            assert(self.table.wf());
            assert forall|j: int| 0 <= j < n implies {
                let e = #[trigger] self.table.entries@[j];
                &&& (e.type_id.spec_slot() == Some(Slot::A) ==> entry_matches(e, self.set_a))
                &&& (e.type_id.spec_slot() == Some(Slot::B) ==> entry_matches(e, self.set_b))
            } by {
                let e0 = orig.entries@[j];
                if e0.type_id.spec_slot() == Some(Slot::A) {
                    crate::prio::lemma_round_trip(
                        e0.attributes,
                        self.set_a.priority as u64,
                        self.set_a.tries as u64,
                        self.set_a.successful,
                    );
                }
                if e0.type_id.spec_slot() == Some(Slot::B) {
                    crate::prio::lemma_round_trip(
                        e0.attributes,
                        self.set_b.priority as u64,
                        self.set_b.tries as u64,
                        self.set_b.successful,
                    );
                }
            }
        }
        let plan = self.table.write_plan();
        plan
    }
}

/// How one entry relates to its pre-write form: classified entries get
/// their set's triple re-encoded into the attribute word, everything
/// else — and every other field — is byte-identical.
pub open spec fn reencoded_entry(
    e0: PartitionEntry,
    e1: PartitionEntry,
    a: PrioritySet,
    b: PrioritySet,
) -> bool {
    &&& e1.type_id == e0.type_id
    &&& e1.unique_id == e0.unique_id
    &&& e1.first_lba == e0.first_lba
    &&& e1.last_lba == e0.last_lba
    &&& e1.name@ == e0.name@
    &&& (e0.type_id.spec_slot() == Some(Slot::A) ==> e1.attributes == spec_encode(
        e0.attributes,
        a.priority as u64,
        a.tries as u64,
        a.successful,
    ))
    &&& (e0.type_id.spec_slot() == Some(Slot::B) ==> e1.attributes == spec_encode(
        e0.attributes,
        b.priority as u64,
        b.tries as u64,
        b.successful,
    ))
    &&& (e0.type_id.spec_slot() is None ==> e1.attributes == e0.attributes)
}

/// Every entry of `t1` is the re-encoded form of its counterpart in
/// `t0`.
pub open spec fn entries_reencoded(t0: Table, t1: Table, a: PrioritySet, b: PrioritySet) -> bool {
    &&& t1.entries@.len() == t0.entries@.len()
    &&& forall|j: int|
        0 <= j < t0.entries@.len() ==> reencoded_entry(
            t0.entries@[j],
            #[trigger] t1.entries@[j],
            a,
            b,
        )
}

/// The non-entry fields of the table are unchanged.
pub open spec fn table_fields_kept(t0: Table, t1: Table) -> bool {
    &&& t1.sector_size == t0.sector_size
    &&& t1.total_lba == t0.total_lba
    &&& t1.revision == t0.revision
    &&& t1.disk_guid == t0.disk_guid
    &&& t1.first_usable == t0.first_usable
    &&& t1.last_usable == t0.last_usable
}

/// Serialisation depends only on each entry's bytes.
proof fn lemma_entries_bytes_congruence(s0: Seq<PartitionEntry>, s1: Seq<PartitionEntry>)
    requires
        s0.len() == s1.len(),
        forall|j: int| 0 <= j < s0.len() ==> (#[trigger] s1[j]).spec_bytes() == s0[j].spec_bytes(),
    ensures
        crate::table::spec_entries_bytes(s1) == crate::table::spec_entries_bytes(s0),
    decreases s0.len(),
{
    if s0.len() > 0 {
        lemma_entries_bytes_congruence(s0.drop_last(), s1.drop_last());
    }
}

/// Rewriting without an intervening mutation reproduces the table
/// byte-identically: re-encoding sets that already match the table's
/// entries leaves every serialised region — entry array, primary and
/// backup header — exactly as it was.
pub proof fn lemma_reencode_of_matching_is_identity(
    t0: Table,
    t1: Table,
    a: PrioritySet,
    b: PrioritySet,
)
    requires
        entries_reencoded(t0, t1, a, b),
        table_fields_kept(t0, t1),
        (State { table: t0, set_a: a, set_b: b }).sets_match(),
    ensures
        t1.spec_entries_region() == t0.spec_entries_region(),
        t1.spec_primary_header_sector() == t0.spec_primary_header_sector(),
        t1.spec_backup_header_sector() == t0.spec_backup_header_sector(),
{
    assert forall|j: int| 0 <= j < t0.entries@.len() implies (#[trigger] t1.entries@[j]).spec_bytes()
        == t0.entries@[j].spec_bytes() by {
        let e0 = t0.entries@[j];
        if e0.type_id.spec_slot() == Some(Slot::A) {
            crate::prio::lemma_encode_of_decode(e0.attributes);
        }
        if e0.type_id.spec_slot() == Some(Slot::B) {
            crate::prio::lemma_encode_of_decode(e0.attributes);
        }
    }
    lemma_entries_bytes_congruence(t0.entries@, t1.entries@);
    assert(t1.spec_entries_region() == t0.spec_entries_region());
    assert(t1.spec_header_core(1, t1.total_lba - 1, 2, 0, t1.spec_array_crc()) == t0.spec_header_core(
        1,
        t0.total_lba - 1,
        2,
        0,
        t0.spec_array_crc(),
    ));
    assert(t1.spec_primary_header_sector() =~= t0.spec_primary_header_sector());
    assert(t1.spec_header_core(
        t1.total_lba - 1,
        1,
        t1.backup_entries_lba(),
        0,
        t1.spec_array_crc(),
    ) == t0.spec_header_core(t0.total_lba - 1, 1, t0.backup_entries_lba(), 0, t0.spec_array_crc()));
    assert(t1.spec_backup_header_sector() =~= t0.spec_backup_header_sector());
}

/// Saturating increment within the priority field's range.
fn bump(p: u8) -> (r: u8)
    requires
        p <= crate::prio::MAX_PRIORITY,
    ensures
        r == spec_bumped(p),
{
    if p >= crate::prio::MAX_PRIORITY {
        crate::prio::MAX_PRIORITY
    } else {
        p + 1
    }
}

/// The two 4-bit managed counters never exceed their field maxima.
proof fn lemma_field_bounds(x: u64)
    ensures
        spec_priority(x) <= 15,
        spec_tries(x) <= 15,
{
    assert((x >> 48) & 0xf <= 15 && (x >> 52) & 0xf <= 15) by (bit_vector);
}

/// Two attribute words agree on the three managed fields exactly when
/// they agree on the managed bit mask.
proof fn lemma_managed_bits_decide(x: u64, y: u64)
    ensures
        (spec_priority(x) == spec_priority(y) && spec_tries(x) == spec_tries(y) && spec_successful(
            x,
        ) == spec_successful(y)) <==> x & 0x01ff_0000_0000_0000 == y & 0x01ff_0000_0000_0000,
{
    assert((((x >> 48) & 0xf == (y >> 48) & 0xf) && ((x >> 52) & 0xf == (y >> 52) & 0xf) && (((x
        >> 56) & 1 == 1) <==> ((y >> 56) & 1 == 1))) <==> x & 0x01ff_0000_0000_0000 == y
        & 0x01ff_0000_0000_0000) by (bit_vector);
}

/// When every slot member decodes to one anchor triple, any two
/// members agree on the managed bits.
proof fn lemma_consistency_from_anchor(
    entries: Seq<PartitionEntry>,
    s: Slot,
    p: u8,
    t: u8,
    ok: bool,
)
    requires
        forall|k: int|
            0 <= k < entries.len() && (#[trigger] entries[k]).type_id.spec_slot() == Some(s)
                ==> spec_priority(entries[k].attributes) == p && spec_tries(entries[k].attributes)
                == t && spec_successful(entries[k].attributes) == ok,
    ensures
        slot_consistent(entries, s),
{
    assert forall|i: int, j: int|
        0 <= i < entries.len() && 0 <= j < entries.len() && (#[trigger] entries[i]).type_id.spec_slot()
            == Some(s) && (#[trigger] entries[j]).type_id.spec_slot() == Some(s) implies entries[i].attributes
        & 0x01ff_0000_0000_0000 == entries[j].attributes & 0x01ff_0000_0000_0000 by {
        lemma_managed_bits_decide(entries[i].attributes, entries[j].attributes);
    }
}

} // verus!
