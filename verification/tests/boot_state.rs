use signpost::error::Error;
use signpost::guid::Identifier;
use signpost::guid::Slot;
use signpost::guid::KERNEL_A_HI;
use signpost::guid::KERNEL_A_LO;
use signpost::guid::KERNEL_B_HI;
use signpost::guid::KERNEL_B_LO;
use signpost::guid::ROOT_A_HI;
use signpost::guid::ROOT_A_LO;
use signpost::guid::ROOT_B_HI;
use signpost::guid::ROOT_B_LO;
use signpost::prio::encode;
use signpost::prio::MAX_TRIES;
use signpost::state::State;
use signpost::table::apply_plan;
use signpost::table::PartitionEntry;
use signpost::table::Table;

const SECTOR: usize = 512;
const TOTAL_LBA: u64 = 8;

fn entry(type_lo: u64, type_hi: u64, idx: u64, attributes: u64) -> PartitionEntry {
    PartitionEntry {
        type_id: Identifier { lo: type_lo, hi: type_hi },
        unique_id: Identifier { lo: 0x1111 * (idx + 1), hi: 0x2222 * (idx + 1) },
        first_lba: 3 + idx,
        last_lba: 3 + idx,
        attributes,
        name: vec![0u8; 72],
    }
}

fn disk_with_entries(entries: Vec<PartitionEntry>) -> Vec<u8> {
    let t = Table {
        sector_size: SECTOR,
        total_lba: TOTAL_LBA,
        revision: 0x0001_0000,
        disk_guid: Identifier { lo: 0xaaaa, hi: 0xbbbb },
        first_usable: 3,
        last_usable: 5,
        entries,
    };
    let mut disk = vec![0u8; TOTAL_LBA as usize * SECTOR];
    disk[510] = 0x55;
    disk[511] = 0xaa;
    let plan = t.write_plan();
    apply_plan(&mut disk, &plan);
    disk
}

/// A disk whose four entries decode to the two given triples.
fn disk_with(a: (u8, u8, bool), b: (u8, u8, bool)) -> Vec<u8> {
    disk_with_entries(vec![
        entry(KERNEL_A_LO, KERNEL_A_HI, 0, encode(0, a.0, a.1, a.2)),
        entry(ROOT_A_LO, ROOT_A_HI, 1, encode(0, a.0, a.1, a.2)),
        entry(KERNEL_B_LO, KERNEL_B_HI, 2, encode(0, b.0, b.1, b.2)),
        entry(ROOT_B_LO, ROOT_B_HI, 3, encode(0, b.0, b.1, b.2)),
    ])
}

fn triples(s: &State) -> ((u8, u8, bool), (u8, u8, bool)) {
    (
        (s.set_a.priority, s.set_a.tries, s.set_a.successful),
        (s.set_b.priority, s.set_b.tries, s.set_b.successful),
    )
}

#[test]
fn load_derives_both_sets() {
    let disk = disk_with((3, 0, true), (1, 2, false));
    let s = State::load(&disk, SECTOR).expect("grouping must succeed");
    assert_eq!(triples(&s), ((3, 0, true), (1, 2, false)));
    assert_eq!(s.set_a.slot, Slot::A);
    assert_eq!(s.set_b.slot, Slot::B);
}

#[test]
fn missing_set_is_rejected() {
    let disk = disk_with_entries(vec![
        entry(KERNEL_A_LO, KERNEL_A_HI, 0, encode(0, 1, 0, true)),
        entry(ROOT_A_LO, ROOT_A_HI, 1, encode(0, 1, 0, true)),
    ]);
    assert!(matches!(State::load(&disk, SECTOR), Err(Error::NoPartitionSets)));
}

#[test]
fn unknown_roles_only_is_rejected() {
    let disk = disk_with_entries(vec![entry(0x77, 0x88, 0, encode(0, 1, 0, true))]);
    assert!(matches!(State::load(&disk, SECTOR), Err(Error::NoPartitionSets)));
}

#[test]
fn disagreeing_members_are_rejected() {
    let disk = disk_with_entries(vec![
        entry(KERNEL_A_LO, KERNEL_A_HI, 0, encode(0, 3, 0, true)),
        entry(ROOT_A_LO, ROOT_A_HI, 1, encode(0, 2, 0, true)),  // differs
        entry(KERNEL_B_LO, KERNEL_B_HI, 2, encode(0, 1, 0, false)),
    ]);
    assert!(matches!(State::load(&disk, SECTOR), Err(Error::InconsistentSet)));
}

#[test]
fn corrupt_table_never_builds_a_state() {
    let mut disk = disk_with((3, 0, true), (1, 0, false));
    disk[SECTOR + 16] ^= 0xff;  // stored header checksum
    assert!(matches!(State::load(&disk, SECTOR), Err(Error::CorruptTable)));
}

#[test]
fn eligibility_overrides_raw_priority() {
    // (3, 0, true) vs (5, 0, false): the second has the higher raw
    // priority but is ineligible, so the first is reported active.
    let disk = disk_with((3, 0, true), (5, 0, false));
    let s = State::load(&disk, SECTOR).expect("grouping must succeed");
    assert_eq!(s.active_slot(), Slot::A);
    let rows = s.status();
    assert_eq!(rows.len(), 2);
    assert!(rows[0].active);
    assert!(!rows[1].active);
    assert_eq!(rows[0].slot, Slot::A);
    assert_eq!(rows[0].priority, 3);
    assert_eq!(rows[1].priority, 5);
}

#[test]
fn higher_priority_wins_when_both_eligible() {
    let disk = disk_with((3, 0, true), (5, 1, false));
    let s = State::load(&disk, SECTOR).expect("grouping must succeed");
    assert_eq!(s.active_slot(), Slot::B);
}

#[test]
fn ties_keep_slot_order() {
    let disk = disk_with((3, 1, false), (3, 1, false));
    let s = State::load(&disk, SECTOR).expect("grouping must succeed");
    assert_eq!(s.active_slot(), Slot::A);
}

#[test]
fn mark_successful_boot_is_idempotent() {
    let disk = disk_with((3, 2, false), (1, 0, false));
    let mut s = State::load(&disk, SECTOR).expect("grouping must succeed");
    assert_eq!(s.active_slot(), Slot::A);
    s.mark_successful_boot();
    assert_eq!(triples(&s), ((3, 0, true), (1, 0, false)));
    s.mark_successful_boot();
    assert_eq!(triples(&s), ((3, 0, true), (1, 0, false)));
}

#[test]
fn upgrade_sequence() {
    // active = (3, 0, true), inactive = (1, 0, false)
    let disk = disk_with((3, 0, true), (1, 0, false));
    let mut s = State::load(&disk, SECTOR).expect("grouping must succeed");
    assert_eq!(s.active_slot(), Slot::A);
    s.clear_inactive();
    assert_eq!(triples(&s), ((3, 0, true), (0, 0, false)));
    s.upgrade_to_inactive();
    assert_eq!(triples(&s), ((3, 0, true), (4, MAX_TRIES, false)));
}

#[test]
fn upgrade_saturates_at_max_priority() {
    let disk = disk_with((15, 0, true), (1, 0, false));
    let mut s = State::load(&disk, SECTOR).expect("grouping must succeed");
    s.upgrade_to_inactive();
    assert_eq!(triples(&s), ((15, 0, true), (15, MAX_TRIES, false)));
}

#[test]
fn rollback_refused_without_successful_boot() {
    let disk = disk_with((3, 0, true), (1, 1, false));
    let mut s = State::load(&disk, SECTOR).expect("grouping must succeed");
    assert!(matches!(s.rollback_to_inactive(), Err(Error::NeverSuccessful)));
    // no mutation
    assert_eq!(triples(&s), ((3, 0, true), (1, 1, false)));
}

#[test]
fn rollback_promotes_a_proven_set() {
    // inactive = (2, 1, true), active priority 5
    let disk = disk_with((5, 0, true), (2, 1, true));
    let mut s = State::load(&disk, SECTOR).expect("grouping must succeed");
    assert_eq!(s.active_slot(), Slot::A);
    s.rollback_to_inactive().expect("proven set must roll back");
    assert_eq!(triples(&s), ((5, 0, true), (6, 1, true)));
}

#[test]
fn write_plan_persists_mutations() {
    let disk = disk_with((3, 0, true), (1, 0, false));
    let mut s = State::load(&disk, SECTOR).expect("grouping must succeed");
    s.clear_inactive();
    s.upgrade_to_inactive();
    let plan = s.write_plan();
    let mut out = disk.clone();
    apply_plan(&mut out, &plan);
    let again = State::load(&out, SECTOR).expect("written image must load");
    assert_eq!(triples(&again), ((3, 0, true), (4, MAX_TRIES, false)));
}

#[test]
fn write_preserves_unmanaged_attribute_bits() {
    let firmware_bits: u64 = 0x8000_0000_0000_0005;
    let disk = disk_with_entries(vec![
        entry(KERNEL_A_LO, KERNEL_A_HI, 0, encode(firmware_bits, 3, 0, true)),
        entry(KERNEL_B_LO, KERNEL_B_HI, 1, encode(0, 1, 0, false)),
    ]);
    let mut s = State::load(&disk, SECTOR).expect("grouping must succeed");
    s.mark_successful_boot();
    let plan = s.write_plan();
    let mut out = disk.clone();
    apply_plan(&mut out, &plan);
    let t = Table::load(&out, SECTOR).expect("written image must load");
    let managed: u64 = 0x01ff_0000_0000_0000;
    assert_eq!(t.entries[0].attributes & !managed, firmware_bits & !managed);
}

#[test]
fn rewrite_without_mutation_is_byte_identical() {
    let disk = disk_with((3, 0, true), (1, 2, false));
    let mut s = State::load(&disk, SECTOR).expect("grouping must succeed");
    let plan = s.write_plan();
    let mut out = disk.clone();
    apply_plan(&mut out, &plan);
    assert_eq!(out, disk);
}
