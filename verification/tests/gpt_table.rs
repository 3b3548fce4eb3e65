use signpost::error::Error;
use signpost::guid::Identifier;
use signpost::guid::KERNEL_A_HI;
use signpost::guid::KERNEL_A_LO;
use signpost::guid::KERNEL_B_HI;
use signpost::guid::KERNEL_B_LO;
use signpost::prio::encode;
use signpost::table::apply_plan;
use signpost::table::PartitionEntry;
use signpost::table::Table;

const SECTOR: usize = 512;
const TOTAL_LBA: u64 = 8;

fn entry(type_lo: u64, type_hi: u64, idx: u64, attributes: u64) -> PartitionEntry {
    PartitionEntry {
        type_id: Identifier { lo: type_lo, hi: type_hi },
        unique_id: Identifier { lo: 0x1111 * (idx + 1), hi: 0x2222 * (idx + 1) },
        first_lba: 3 + idx,
        last_lba: 3 + idx,
        attributes,
        name: vec![0u8; 72],
    }
}

fn table(attrs_a: u64, attrs_b: u64) -> Table {
    Table {
        sector_size: SECTOR,
        total_lba: TOTAL_LBA,
        revision: 0x0001_0000,
        disk_guid: Identifier { lo: 0xaaaa, hi: 0xbbbb },
        first_usable: 3,
        last_usable: 5,
        entries: vec![
            entry(KERNEL_A_LO, KERNEL_A_HI, 0, attrs_a),
            entry(KERNEL_B_LO, KERNEL_B_HI, 1, attrs_b),
        ],
    }
}

fn disk_of(t: &Table) -> Vec<u8> {
    let mut disk = vec![0u8; TOTAL_LBA as usize * SECTOR];
    disk[510] = 0x55;
    disk[511] = 0xaa;
    let plan = t.write_plan();
    apply_plan(&mut disk, &plan);
    disk
}

#[test]
fn load_round_trips_fields() {
    let t = table(encode(0, 3, 0, true), encode(0, 1, 2, false));
    let disk = disk_of(&t);
    let loaded = Table::load(&disk, SECTOR).expect("valid image must load");
    assert_eq!(loaded.sector_size, SECTOR);
    assert_eq!(loaded.total_lba, TOTAL_LBA);
    assert_eq!(loaded.revision, 0x0001_0000);
    assert_eq!(loaded.disk_guid, Identifier { lo: 0xaaaa, hi: 0xbbbb });
    assert_eq!(loaded.first_usable, 3);
    assert_eq!(loaded.last_usable, 5);
    assert_eq!(loaded.entries.len(), 2);
    assert_eq!(loaded.entries[0].type_id, Identifier { lo: KERNEL_A_LO, hi: KERNEL_A_HI });
    assert_eq!(loaded.entries[0].attributes, encode(0, 3, 0, true));
    assert_eq!(loaded.entries[1].attributes, encode(0, 1, 2, false));
    assert_eq!(loaded.entries[1].name, vec![0u8; 72]);
}

#[test]
fn rewrite_is_byte_identical() {
    let t = table(encode(0, 2, 1, true), encode(0, 1, 0, false));
    let disk = disk_of(&t);
    let loaded = Table::load(&disk, SECTOR).expect("valid image must load");
    let plan = loaded.write_plan();
    let mut rewritten = disk.clone();
    apply_plan(&mut rewritten, &plan);
    assert_eq!(rewritten, disk);
    // and both copies stay independently loadable / checksum-valid
    Table::load(&rewritten, SECTOR).expect("rewritten image must load");
}

#[test]
fn corrupt_header_checksum_is_rejected() {
    let t = table(encode(0, 1, 0, true), encode(0, 1, 0, true));
    let mut disk = disk_of(&t);
    disk[SECTOR + 16] ^= 0xff;  // stored header checksum
    assert!(matches!(Table::load(&disk, SECTOR), Err(Error::CorruptTable)));
}

#[test]
fn corrupt_entry_array_is_rejected() {
    let t = table(encode(0, 1, 0, true), encode(0, 1, 0, true));
    let mut disk = disk_of(&t);
    disk[2 * SECTOR + 5] ^= 0x01;  // one byte of the entry array
    assert!(matches!(Table::load(&disk, SECTOR), Err(Error::CorruptTable)));
}

#[test]
fn bad_signature_is_rejected() {
    let t = table(encode(0, 1, 0, true), encode(0, 1, 0, true));
    let mut disk = disk_of(&t);
    disk[SECTOR] ^= 0x01;
    assert!(matches!(Table::load(&disk, SECTOR), Err(Error::CorruptTable)));
}

#[test]
fn missing_protective_record_is_rejected() {
    let t = table(encode(0, 1, 0, true), encode(0, 1, 0, true));
    let mut disk = disk_of(&t);
    disk[510] = 0;
    assert!(matches!(Table::load(&disk, SECTOR), Err(Error::CorruptTable)));
}

#[test]
fn truncated_image_is_rejected() {
    let disk = vec![0u8; 3 * SECTOR];
    assert!(matches!(Table::load(&disk, SECTOR), Err(Error::CorruptTable)));
}

#[test]
fn backup_copy_written_before_primary() {
    let t = table(encode(0, 1, 0, true), encode(0, 1, 0, true));
    let plan = t.write_plan();
    assert_eq!(plan.len(), 4);
    // backup entry array, backup header, primary entry array, primary header
    assert_eq!(plan[0].offset, 6 * SECTOR);
    assert_eq!(plan[1].offset, 7 * SECTOR);
    assert_eq!(plan[2].offset, 2 * SECTOR);
    assert_eq!(plan[3].offset, SECTOR);
    assert_eq!(plan[0].bytes, plan[2].bytes);
    assert_eq!(plan[1].bytes.len(), SECTOR);
    assert_eq!(plan[0].bytes.len(), SECTOR);
}

#[test]
fn nonzero_header_padding_is_rejected() {
    // Padding after the 92 header bytes is outside the checksummed
    // range, but a copy that does not round-trip byte-identically is
    // still refused.
    let t = table(encode(0, 1, 0, true), encode(0, 1, 0, true));
    let mut disk = disk_of(&t);
    disk[SECTOR + 92 + 5] = 1;
    assert!(matches!(Table::load(&disk, SECTOR), Err(Error::CorruptTable)));
}

#[test]
fn four_kilobyte_sectors_round_trip() {
    let big: usize = 4096;
    let t = Table {
        sector_size: big,
        total_lba: 6,
        revision: 0x0001_0000,
        disk_guid: Identifier { lo: 1, hi: 2 },
        first_usable: 3,
        last_usable: 3,
        entries: vec![
            entry(KERNEL_A_LO, KERNEL_A_HI, 0, encode(0, 2, 0, true)),
            entry(KERNEL_B_LO, KERNEL_B_HI, 1, encode(0, 1, 1, false)),
        ],
    };
    let mut disk = vec![0u8; 6 * big];
    disk[510] = 0x55;
    disk[511] = 0xaa;
    let plan = t.write_plan();
    apply_plan(&mut disk, &plan);
    let loaded = Table::load(&disk, big).expect("valid image must load");
    assert_eq!(loaded.sector_size, big);
    assert_eq!(loaded.entries.len(), 2);
    assert_eq!(loaded.entries[1].attributes, encode(0, 1, 1, false));
    let mut rewritten = disk.clone();
    apply_plan(&mut rewritten, &loaded.write_plan());
    assert_eq!(rewritten, disk);
}

#[test]
fn multi_sector_entry_array_round_trips() {
    // Eight 128-byte entries need two 512-byte sectors per copy.
    let mut entries = Vec::new();
    for i in 0..8u64 {
        entries.push(entry(0x100 + i, 0x200 + i, i, i));
    }
    entries[0] = entry(KERNEL_A_LO, KERNEL_A_HI, 0, encode(0, 1, 0, true));
    entries[1] = entry(KERNEL_B_LO, KERNEL_B_HI, 1, encode(0, 2, 0, true));
    let t = Table {
        sector_size: SECTOR,
        total_lba: 10,
        revision: 0x0001_0000,
        disk_guid: Identifier { lo: 1, hi: 2 },
        first_usable: 4,
        last_usable: 5,
        entries,
    };
    let mut disk = vec![0u8; 10 * SECTOR];
    disk[510] = 0x55;
    disk[511] = 0xaa;
    let plan = t.write_plan();
    assert_eq!(plan[0].offset, 7 * SECTOR);  // backup entries, two sectors
    assert_eq!(plan[0].bytes.len(), 2 * SECTOR);
    assert_eq!(plan[1].offset, 9 * SECTOR);
    apply_plan(&mut disk, &plan);
    let loaded = Table::load(&disk, SECTOR).expect("valid image must load");
    assert_eq!(loaded.entries.len(), 8);
    assert_eq!(loaded.entries[7].attributes, 7);
    let mut rewritten = disk.clone();
    apply_plan(&mut rewritten, &loaded.write_plan());
    assert_eq!(rewritten, disk);
}

#[test]
fn attribute_mutation_survives_rewrite() {
    let t = table(encode(0, 3, 0, true), encode(0, 1, 0, false));
    let disk = disk_of(&t);
    let mut loaded = Table::load(&disk, SECTOR).expect("valid image must load");
    let w = loaded.entries[1].attributes;
    loaded.entries[1].attributes = encode(w, 4, 15, false);
    let plan = loaded.write_plan();
    let mut out = disk.clone();
    apply_plan(&mut out, &plan);
    let again = Table::load(&out, SECTOR).expect("mutated image must load");
    assert_eq!(again.entries[1].attributes, encode(0, 4, 15, false));
    assert_eq!(again.entries[0].attributes, encode(0, 3, 0, true));
}
