//! Binary codec for the on-disk GPT structures: the protective boot
//! record (validated for presence only), the header and the
//! partition-entry array, in their primary and backup copies.
//!
//! The codec works on in-memory bytes.  `load` validates a raw disk
//! image and never returns a partially validated table; `write_plan`
//! produces the exact byte regions to persist, backup copy first, so
//! an interruption between the two copies leaves the primary copy
//! untouched and self-consistent.

use vstd::prelude::*;
use vstd::bytes::*;
use vstd::slice::slice_subrange;
use vstd::slice::slice_to_vec;
use crate::crc32::crc32_range;
use crate::crc32::spec_crc32;
use crate::error::Error;
use crate::guid::Identifier;

verus! {

/// The format signature, little-endian.
pub const GPT_SIGNATURE: u64 = 0x5452_4150_2049_4645;

/// Largest entry count the codec accepts.
pub const MAX_ENTRIES: usize = 128;

/// One fixed-size slot of the partition-entry array.  Only the managed
/// sub-fields of `attributes` are ever mutated; identifiers, block
/// range and name are round-tripped byte-identical.
pub struct PartitionEntry {
    pub type_id: Identifier,
    pub unique_id: Identifier,
    pub first_lba: u64,
    pub last_lba: u64,
    pub attributes: u64,
    /// The display name, kept as its raw 72 on-disk bytes.
    pub name: Vec<u8>,
}

impl PartitionEntry {
    /// Structural invariant: the raw name field is exactly 72 bytes.
    pub open spec fn wf(self) -> bool {
        self.name@.len() == 72
    }

    /// The 128 on-disk bytes of this entry.
    pub open spec fn spec_bytes(self) -> Seq<u8> {
        self.type_id.spec_bytes() + self.unique_id.spec_bytes() + spec_u64_to_le_bytes(
            self.first_lba,
        ) + spec_u64_to_le_bytes(self.last_lba) + spec_u64_to_le_bytes(self.attributes)
            + self.name@
    }
}

/// A sequence of `n` zero bytes.
pub open spec fn zeros(n: nat) -> Seq<u8> {
    Seq::new(n, |i: int| 0u8)
}

/// The concatenated on-disk bytes of an entry sequence.
pub open spec fn spec_entries_bytes(s: Seq<PartitionEntry>) -> Seq<u8>
    decreases s.len(),
{
    if s.len() == 0 {
        Seq::<u8>::empty()
    } else {
        spec_entries_bytes(s.drop_last()) + s.last().spec_bytes()
    }
}

/// Each well-formed entry serialises to exactly 128 bytes.
pub proof fn lemma_entry_bytes_len(e: PartitionEntry)
    requires
        e.wf(),
    ensures
        e.spec_bytes().len() == 128,
{
    lemma_auto_spec_u64_to_from_le_bytes();
}

/// A well-formed entry sequence serialises to 128 bytes per entry.
pub proof fn lemma_entries_bytes_len(s: Seq<PartitionEntry>)
    requires
        forall|i: int| 0 <= i < s.len() ==> s[i].wf(),
    ensures
        spec_entries_bytes(s).len() == 128 * s.len(),
    decreases s.len(),
{
    if s.len() > 0 {
        lemma_entries_bytes_len(s.drop_last());
        lemma_entry_bytes_len(s.last());
    }
}

/// The validated in-memory form of the on-disk table.
pub struct Table {
    /// Sector size the hosting environment reports for the device.
    pub sector_size: usize,
    /// Number of sectors of the device.
    pub total_lba: u64,
    /// Revision field of the header, round-tripped unmodified.
    pub revision: u32,
    /// Disk identifier, round-tripped unmodified.
    pub disk_guid: Identifier,
    /// First usable block, round-tripped unmodified.
    pub first_usable: u64,
    /// Last usable block, round-tripped unmodified.
    pub last_usable: u64,
    /// The partition-entry array, in on-disk order.
    pub entries: Vec<PartitionEntry>,
}

impl Table {
    /// Sectors occupied by one copy of the entry array (rounded up).
    pub open spec fn esec(self) -> int {
        (self.entries@.len() * 128 + self.sector_size - 1) / (self.sector_size as int)
    }

    /// Total bytes of the device.
    pub open spec fn disk_len(self) -> int {
        self.total_lba * self.sector_size
    }

    /// Byte offset of the primary header (block 1).
    pub open spec fn primary_header_off(self) -> int {
        self.sector_size as int
    }

    /// Byte offset of the primary entry array (block 2).
    pub open spec fn primary_entries_off(self) -> int {
        2 * self.sector_size
    }

    /// First block of the backup entry array.
    pub open spec fn backup_entries_lba(self) -> int {
        self.total_lba - 1 - self.esec()
    }

    /// Byte offset of the backup entry array.
    pub open spec fn backup_entries_off(self) -> int {
        self.backup_entries_lba() * self.sector_size
    }

    /// Byte offset of the backup header (last block).
    pub open spec fn backup_header_off(self) -> int {
        (self.total_lba - 1) * self.sector_size
    }

    /// Structural invariant established by `load` and preserved by
    /// every mutation the library performs.
    pub open spec fn wf(self) -> bool {
        &&& 512 <= self.sector_size
        &&& 1 <= self.entries@.len() <= MAX_ENTRIES
        &&& (forall|i: int| 0 <= i < self.entries@.len() ==> self.entries@[i].wf())
        &&& self.total_lba >= 3 + 2 * self.esec()
        &&& self.disk_len() <= usize::MAX
    }

    /// The entry-array region of one copy: the serialised entries,
    /// zero-padded to whole sectors.
    pub open spec fn spec_entries_region(self) -> Seq<u8> {
        spec_entries_bytes(self.entries@) + zeros(
            (self.esec() * self.sector_size - self.entries@.len() * 128) as nat,
        )
    }

    /// Checksum of the serialised entry array.
    pub open spec fn spec_array_crc(self) -> u32 {
        spec_crc32(spec_entries_bytes(self.entries@))
    }

    /// The 92 header bytes with the given block pointers and checksum
    /// field values.
    pub open spec fn spec_header_core(self, cur: int, alt: int, elba: int, hcrc: u32, acrc: u32) -> Seq<u8> {
        spec_u64_to_le_bytes(GPT_SIGNATURE) + spec_u32_to_le_bytes(self.revision)
            + spec_u32_to_le_bytes(92) + spec_u32_to_le_bytes(hcrc) + spec_u32_to_le_bytes(0)
            + spec_u64_to_le_bytes(cur as u64) + spec_u64_to_le_bytes(alt as u64)
            + spec_u64_to_le_bytes(self.first_usable) + spec_u64_to_le_bytes(self.last_usable)
            + self.disk_guid.spec_bytes() + spec_u64_to_le_bytes(elba as u64)
            + spec_u32_to_le_bytes(self.entries@.len() as u32) + spec_u32_to_le_bytes(128)
            + spec_u32_to_le_bytes(acrc)
    }

    /// The header checksum: computed over the header bytes with the
    /// checksum field itself zeroed.
    pub open spec fn spec_header_crc(self, cur: int, alt: int, elba: int) -> u32 {
        spec_crc32(self.spec_header_core(cur, alt, elba, 0, self.spec_array_crc()))
    }

    /// One header sector: the 92 header bytes with both checksums
    /// filled in, zero-padded to a whole sector.
    pub open spec fn spec_header_sector(self, cur: int, alt: int, elba: int) -> Seq<u8> {
        self.spec_header_core(
            cur,
            alt,
            elba,
            self.spec_header_crc(cur, alt, elba),
            self.spec_array_crc(),
        ) + zeros((self.sector_size - 92) as nat)
    }

    /// The primary header sector (at block 1, pointing at block 2).
    pub open spec fn spec_primary_header_sector(self) -> Seq<u8> {
        self.spec_header_sector(1, self.total_lba - 1, 2)
    }

    /// The backup header sector (at the last block, mirrored pointers).
    pub open spec fn spec_backup_header_sector(self) -> Seq<u8> {
        self.spec_header_sector(self.total_lba - 1, 1, self.backup_entries_lba())
    }
}

/// The disk image carries this table's primary copy: protective boot
/// record present, header sector and entry-array region byte-exact.
pub open spec fn disk_matches_primary(disk: Seq<u8>, t: Table) -> bool {
    &&& disk.len() == t.disk_len()
    &&& disk[510] == 0x55
    &&& disk[511] == 0xaa
    &&& disk.subrange(t.primary_header_off(), t.primary_header_off() + t.sector_size)
        == t.spec_primary_header_sector()
    &&& disk.subrange(
        t.primary_entries_off(),
        t.primary_entries_off() + t.esec() * t.sector_size,
    ) == t.spec_entries_region()
}

/// The disk image carries this table's backup copy, mirrored at the
/// end of the device.
pub open spec fn disk_matches_backup(disk: Seq<u8>, t: Table) -> bool {
    &&& disk.len() == t.disk_len()
    &&& disk.subrange(t.backup_entries_off(), t.backup_entries_off() + t.esec() * t.sector_size)
        == t.spec_entries_region()
    &&& disk.subrange(t.backup_header_off(), t.backup_header_off() + t.sector_size)
        == t.spec_backup_header_sector()
}

/// The primary header bytes of a disk image with the header-checksum
/// field zeroed, as checksummed.
pub open spec fn spec_zeroed_header(disk: Seq<u8>, ssz: int) -> Seq<u8> {
    disk.subrange(ssz, ssz + 16) + spec_u32_to_le_bytes(0) + disk.subrange(ssz + 20, ssz + 92)
}

/// Validity of the primary copy of a raw disk image, stated directly
/// over the bytes: presence of the protective record, signature,
/// in-bounds sizes and counts, zeroed reserved space, and both
/// checksum equations.  `load` succeeds exactly on images satisfying
/// this predicate.
pub open spec fn valid_primary(disk: Seq<u8>, ssz: int) -> bool {
    let n_lba = disk.len() as int / ssz;
    let nume = spec_u32_from_le_bytes(disk.subrange(ssz + 80, ssz + 84)) as int;
    let esec = (nume * 128 + ssz - 1) / ssz;
    &&& disk.len() as int % ssz == 0
    &&& n_lba >= 5
    &&& disk[510] == 0x55
    &&& disk[511] == 0xaa
    &&& spec_u64_from_le_bytes(disk.subrange(ssz, ssz + 8)) == GPT_SIGNATURE
    &&& spec_u32_from_le_bytes(disk.subrange(ssz + 12, ssz + 16)) == 92
    &&& spec_u32_from_le_bytes(disk.subrange(ssz + 20, ssz + 24)) == 0
    &&& spec_u64_from_le_bytes(disk.subrange(ssz + 24, ssz + 32)) == 1
    &&& spec_u64_from_le_bytes(disk.subrange(ssz + 32, ssz + 40)) == n_lba - 1
    &&& spec_u64_from_le_bytes(disk.subrange(ssz + 72, ssz + 80)) == 2
    &&& 1 <= nume <= MAX_ENTRIES
    &&& spec_u32_from_le_bytes(disk.subrange(ssz + 84, ssz + 88)) == 128
    &&& n_lba >= 3 + 2 * esec
    &&& (forall|i: int| ssz + 92 <= i < 2 * ssz ==> disk[i] == 0)
    &&& (forall|i: int| 2 * ssz + nume * 128 <= i < 2 * ssz + esec * ssz ==> disk[i] == 0)
    &&& spec_u32_from_le_bytes(disk.subrange(ssz + 88, ssz + 92)) == spec_crc32(
        disk.subrange(2 * ssz, 2 * ssz + nume * 128),
    )
    &&& spec_u32_from_le_bytes(disk.subrange(ssz + 16, ssz + 20)) == spec_crc32(
        spec_zeroed_header(disk, ssz),
    )
}

/// Reads the little-endian 64-bit word at `off`.
fn read_u64_at(disk: &Vec<u8>, off: usize) -> (x: u64)
    requires
        off + 8 <= disk@.len(),
    ensures
        x == spec_u64_from_le_bytes(disk@.subrange(off as int, off + 8)),
        disk@.subrange(off as int, off + 8) == spec_u64_to_le_bytes(x),
{
    let _len: usize = disk.len();
    let s = slice_subrange(disk.as_slice(), off, off + 8);
    let x = u64_from_le_bytes(s);
    proof {
        lemma_auto_spec_u64_to_from_le_bytes();
    }
    x
}

/// Reads the little-endian 32-bit word at `off`.
fn read_u32_at(disk: &Vec<u8>, off: usize) -> (x: u32)
    requires
        off + 4 <= disk@.len(),
    ensures
        x == spec_u32_from_le_bytes(disk@.subrange(off as int, off + 4)),
        disk@.subrange(off as int, off + 4) == spec_u32_to_le_bytes(x),
{
    let _len: usize = disk.len();
    let s = slice_subrange(disk.as_slice(), off, off + 4);
    let x = u32_from_le_bytes(s);
    proof {
        lemma_auto_spec_u32_to_from_le_bytes();
    }
    x
}

/// Parses one 128-byte partition entry at `base`.
fn parse_entry(disk: &Vec<u8>, base: usize) -> (e: PartitionEntry)
    requires
        base + 128 <= disk@.len(),
    ensures
        e.wf(),
        e.spec_bytes() == disk@.subrange(base as int, base + 128),
{
    let _len: usize = disk.len();
    let type_id = Identifier::from_bytes(slice_subrange(disk.as_slice(), base, base + 16));
    let unique_id = Identifier::from_bytes(slice_subrange(disk.as_slice(), base + 16, base + 32));
    let first_lba = read_u64_at(disk, base + 32);
    let last_lba = read_u64_at(disk, base + 40);
    let attributes = read_u64_at(disk, base + 48);
    let name = slice_to_vec(slice_subrange(disk.as_slice(), base + 56, base + 128));
    let e = PartitionEntry { type_id, unique_id, first_lba, last_lba, attributes, name };
    proof {
        lemma_auto_spec_u64_to_from_le_bytes();
        assert(e.spec_bytes() =~= disk@.subrange(base as int, base + 128));
    }
    e
}

/// Byte-for-byte form of the primary header region, assembled from the
/// per-field facts a successful parse collects.
proof fn lemma_header_region(disk: Seq<u8>, t: Table, hcrc: u32, acrc: u32)
    requires
        512 <= t.sector_size,
        t.sector_size + 92 <= disk.len(),
        t.entries@.len() <= MAX_ENTRIES,
        t.total_lba >= 5,
        disk.subrange(t.sector_size as int, t.sector_size + 8) == spec_u64_to_le_bytes(
            GPT_SIGNATURE,
        ),
        disk.subrange(t.sector_size + 8, t.sector_size + 12) == spec_u32_to_le_bytes(t.revision),
        disk.subrange(t.sector_size + 12, t.sector_size + 16) == spec_u32_to_le_bytes(92),
        disk.subrange(t.sector_size + 16, t.sector_size + 20) == spec_u32_to_le_bytes(hcrc),
        disk.subrange(t.sector_size + 20, t.sector_size + 24) == spec_u32_to_le_bytes(0),
        disk.subrange(t.sector_size + 24, t.sector_size + 32) == spec_u64_to_le_bytes(1),
        disk.subrange(t.sector_size + 32, t.sector_size + 40) == spec_u64_to_le_bytes(
            (t.total_lba - 1) as u64,
        ),
        disk.subrange(t.sector_size + 40, t.sector_size + 48) == spec_u64_to_le_bytes(
            t.first_usable,
        ),
        disk.subrange(t.sector_size + 48, t.sector_size + 56) == spec_u64_to_le_bytes(
            t.last_usable,
        ),
        disk.subrange(t.sector_size + 56, t.sector_size + 72) == t.disk_guid.spec_bytes(),
        disk.subrange(t.sector_size + 72, t.sector_size + 80) == spec_u64_to_le_bytes(2),
        disk.subrange(t.sector_size + 80, t.sector_size + 84) == spec_u32_to_le_bytes(
            t.entries@.len() as u32,
        ),
        disk.subrange(t.sector_size + 84, t.sector_size + 88) == spec_u32_to_le_bytes(128),
        disk.subrange(t.sector_size + 88, t.sector_size + 92) == spec_u32_to_le_bytes(acrc),
    ensures
        disk.subrange(t.sector_size as int, t.sector_size + 92) == t.spec_header_core(
            1,
            t.total_lba - 1,
            2,
            hcrc,
            acrc,
        ),
        spec_zeroed_header(disk, t.sector_size as int) == t.spec_header_core(
            1,
            t.total_lba - 1,
            2,
            0,
            acrc,
        ),
{
    lemma_auto_spec_u64_to_from_le_bytes();
    lemma_auto_spec_u32_to_from_le_bytes();
    let ssz = t.sector_size as int;
    assert(t.disk_guid.spec_bytes().len() == 16);
    assert(disk.subrange(ssz, ssz + 92) =~= t.spec_header_core(
        1,
        t.total_lba - 1,
        2,
        hcrc,
        acrc,
    )) by {
        assert forall|i: int| 0 <= i < 92 implies #[trigger] disk.subrange(ssz, ssz + 92)[i]
            == t.spec_header_core(1, t.total_lba - 1, 2, hcrc, acrc)[i] by {
            assert(disk.subrange(ssz, ssz + 92)[i] == disk[ssz + i]);
            if i < 8 {
                assert(disk[ssz + i] == disk.subrange(ssz, ssz + 8)[i]);
            } else if i < 12 {
                assert(disk[ssz + i] == disk.subrange(ssz + 8, ssz + 12)[i - 8]);
            } else if i < 16 {
                assert(disk[ssz + i] == disk.subrange(ssz + 12, ssz + 16)[i - 12]);
            } else if i < 20 {
                assert(disk[ssz + i] == disk.subrange(ssz + 16, ssz + 20)[i - 16]);
            } else if i < 24 {
                assert(disk[ssz + i] == disk.subrange(ssz + 20, ssz + 24)[i - 20]);
            } else if i < 32 {
                assert(disk[ssz + i] == disk.subrange(ssz + 24, ssz + 32)[i - 24]);
            } else if i < 40 {
                assert(disk[ssz + i] == disk.subrange(ssz + 32, ssz + 40)[i - 32]);
            } else if i < 48 {
                assert(disk[ssz + i] == disk.subrange(ssz + 40, ssz + 48)[i - 40]);
            } else if i < 56 {
                assert(disk[ssz + i] == disk.subrange(ssz + 48, ssz + 56)[i - 48]);
            } else if i < 72 {
                assert(disk[ssz + i] == disk.subrange(ssz + 56, ssz + 72)[i - 56]);
            } else if i < 80 {
                assert(disk[ssz + i] == disk.subrange(ssz + 72, ssz + 80)[i - 72]);
            } else if i < 84 {
                assert(disk[ssz + i] == disk.subrange(ssz + 80, ssz + 84)[i - 80]);
            } else if i < 88 {
                assert(disk[ssz + i] == disk.subrange(ssz + 84, ssz + 88)[i - 84]);
            } else {
                assert(disk[ssz + i] == disk.subrange(ssz + 88, ssz + 92)[i - 88]);
            }
        }
    }
    assert(spec_zeroed_header(disk, ssz) =~= t.spec_header_core(1, t.total_lba - 1, 2, 0, acrc))
        by {
        assert forall|i: int| 0 <= i < 92 implies #[trigger] spec_zeroed_header(disk, ssz)[i]
            == t.spec_header_core(1, t.total_lba - 1, 2, 0, acrc)[i] by {
            let full = disk.subrange(ssz, ssz + 92);
            assert(full == t.spec_header_core(1, t.total_lba - 1, 2, hcrc, acrc));
            if i < 16 {
                assert(spec_zeroed_header(disk, ssz)[i] == disk.subrange(ssz, ssz + 16)[i]);
                assert(disk.subrange(ssz, ssz + 16)[i] == disk[ssz + i]);
                assert(full[i] == disk[ssz + i]);
            } else if i < 20 {
                assert(spec_zeroed_header(disk, ssz)[i] == spec_u32_to_le_bytes(0)[i - 16]);
            } else {
                assert(spec_zeroed_header(disk, ssz)[i] == disk.subrange(ssz + 20, ssz + 92)[i
                    - 20]);
                assert(disk.subrange(ssz + 20, ssz + 92)[i - 20] == disk[ssz + i]);
                assert(full[i] == disk[ssz + i]);
            }
        }
    }
}

/// True when every byte of `disk[start..end]` is zero.
fn all_zero(disk: &Vec<u8>, start: usize, end: usize) -> (r: bool)
    requires
        start <= end <= disk@.len(),
    ensures
        r == (forall|i: int| start <= i < end ==> disk@[i] == 0),
{
    let mut i: usize = start;
    while i < end
        invariant
            start <= i <= end <= disk@.len(),
            forall|j: int| start <= j < i ==> disk@[j] == 0,
        decreases end - i,
    {
        if disk[i] != 0 {
            return false;
        }
        i = i + 1;
    }
    true
}

impl Table {
    /// Validates a raw disk image and builds the in-memory table.
    ///
    /// Succeeds exactly on images whose primary copy is valid
    /// (`valid_primary`): protective record present, signature and both
    /// checksums correct, sizes and counts in bounds.  On success the
    /// returned table reproduces the primary copy byte-for-byte; on any
    /// mismatch the result is `CorruptTable` and no partially validated
    /// table escapes.
    pub fn load(disk: &Vec<u8>, sector_size: usize) -> (r: Result<Table, Error>)
        requires
            512 <= sector_size,
        ensures
            r is Ok <==> valid_primary(disk@, sector_size as int),
            r matches Ok(t) ==> t.wf() && t.sector_size == sector_size && t.disk_len()
                == disk@.len() && disk_matches_primary(disk@, t),
            r matches Err(e) ==> e == Error::CorruptTable,
    {
        let ssz: usize = sector_size;
        let dlen: usize = disk.len();
        if dlen % ssz != 0 {
            return Err(Error::CorruptTable);
        }
        let n_lba: usize = dlen / ssz;
        proof {
            vstd::arithmetic::div_mod::lemma_fundamental_div_mod(dlen as int, ssz as int);
        }
        if n_lba < 5 {
            return Err(Error::CorruptTable);
        }
        proof {
            assert(5 * ssz <= dlen && 2 * ssz + 92 <= dlen) by (nonlinear_arith)
                requires
                    dlen == ssz * n_lba + 0,
                    n_lba >= 5,
                    ssz >= 512,
            ;
        }
        if disk[510] != 0x55 || disk[511] != 0xaa {
            return Err(Error::CorruptTable);
        }
        let hoff: usize = ssz;
        let sig: u64 = read_u64_at(disk, hoff);
        if sig != GPT_SIGNATURE {
            return Err(Error::CorruptTable);
        }
        let revision: u32 = read_u32_at(disk, hoff + 8);
        let hsize: u32 = read_u32_at(disk, hoff + 12);
        if hsize != 92 {
            return Err(Error::CorruptTable);
        }
        let stored_hcrc: u32 = read_u32_at(disk, hoff + 16);
        let reserved: u32 = read_u32_at(disk, hoff + 20);
        if reserved != 0 {
            return Err(Error::CorruptTable);
        }
        let cur: u64 = read_u64_at(disk, hoff + 24);
        if cur != 1 {
            return Err(Error::CorruptTable);
        }
        let alt: u64 = read_u64_at(disk, hoff + 32);
        if alt != (n_lba - 1) as u64 {
            return Err(Error::CorruptTable);
        }
        let first_usable: u64 = read_u64_at(disk, hoff + 40);
        let last_usable: u64 = read_u64_at(disk, hoff + 48);
        let disk_guid = Identifier::from_bytes(
            slice_subrange(disk.as_slice(), hoff + 56, hoff + 72),
        );
        let elba: u64 = read_u64_at(disk, hoff + 72);
        if elba != 2 {
            return Err(Error::CorruptTable);
        }
        let nume_field: u32 = read_u32_at(disk, hoff + 80);
        if nume_field < 1 || nume_field > 128 {
            return Err(Error::CorruptTable);
        }
        let nume: usize = nume_field as usize;
        let esize: u32 = read_u32_at(disk, hoff + 84);
        if esize != 128 {
            return Err(Error::CorruptTable);
        }
        let stored_acrc: u32 = read_u32_at(disk, hoff + 88);
        proof {
            assert(nume * 128 + ssz <= usize::MAX) by (nonlinear_arith)
                requires
                    nume <= 128,
                    5 * ssz <= usize::MAX,
                    usize::MAX >= 0xffff_ffff,
            ;
        }
        let esec: usize = (nume * 128 + ssz - 1) / ssz;
        proof {
            vstd::arithmetic::div_mod::lemma_fundamental_div_mod(
                (nume * 128 + ssz - 1) as int,
                ssz as int,
            );
            assert(esec <= 32 && esec >= 1 && esec * ssz >= nume * 128 && esec * ssz <= nume * 128
                + ssz) by (nonlinear_arith)
                requires
                    nume * 128 + ssz - 1 == ssz * esec + (nume * 128 + ssz - 1) % (ssz as int),
                    0 <= (nume * 128 + ssz - 1) % (ssz as int) < ssz,
                    1 <= nume <= 128,
                    ssz >= 512,
            ;
        }
        if n_lba < 3 + 2 * esec {
            return Err(Error::CorruptTable);
        }
        let eoff: usize = 2 * ssz;
        proof {
            assert(eoff + esec * ssz + esec * ssz + ssz <= dlen) by (nonlinear_arith)
                requires
                    dlen == ssz * n_lba + 0,
                    n_lba >= 3 + 2 * esec,
                    ssz >= 512,
                    esec >= 1,
                    eoff == 2 * ssz,
            ;
        }
        // Parse the entry array.
        let mut entries: Vec<PartitionEntry> = Vec::new();
        let mut i: usize = 0;
        proof {
            assert(spec_entries_bytes(entries@) =~= disk@.subrange(eoff as int, eoff as int));
        }
        while i < nume
            invariant
                i <= nume,
                nume <= 128,
                entries@.len() == i,
                eoff + nume * 128 <= dlen,
                dlen == disk@.len(),
                forall|j: int| 0 <= j < i ==> entries@[j].wf(),
                spec_entries_bytes(entries@) == disk@.subrange(eoff as int, eoff + i * 128),
            decreases nume - i,
        {
            let base: usize = eoff + i * 128;
            let e = parse_entry(disk, base);
            let ghost pre = entries@;
            entries.push(e);
            proof {
                assert(entries@.drop_last() =~= pre);
                assert(entries@.last() == e);
                assert(spec_entries_bytes(entries@) == spec_entries_bytes(pre) + e.spec_bytes());
                assert(disk@.subrange(eoff as int, eoff + (i + 1) * 128) =~= disk@.subrange(
                    eoff as int,
                    eoff + i * 128,
                ) + disk@.subrange(base as int, base + 128));
            }
            i = i + 1;
        }
        // Reserved space must be zero for the copy to round-trip.
        if !all_zero(disk, hoff + 92, eoff) {
            return Err(Error::CorruptTable);
        }
        if !all_zero(disk, eoff + nume * 128, eoff + esec * ssz) {
            return Err(Error::CorruptTable);
        }
        // Entry-array checksum.
        let acrc: u32 = crc32_range(disk, eoff, eoff + nume * 128);
        if acrc != stored_acrc {
            return Err(Error::CorruptTable);
        }
        // Header checksum, with the stored checksum field zeroed.
        let mut zeroed: Vec<u8> = slice_to_vec(slice_subrange(disk.as_slice(), hoff, hoff + 16));
        let mut crc_zero: Vec<u8> = u32_to_le_bytes(0);
        let mut tail: Vec<u8> = slice_to_vec(slice_subrange(disk.as_slice(), hoff + 20, hoff + 92));
        zeroed.append(&mut crc_zero);
        zeroed.append(&mut tail);
        proof {
            assert(zeroed@ == spec_zeroed_header(disk@, ssz as int));
            assert(zeroed@.len() == 92) by {
                lemma_auto_spec_u32_to_from_le_bytes();
            }
            assert(zeroed@.subrange(0, 92) =~= zeroed@);
        }
        let hcrc: u32 = crc32_range(&zeroed, 0, 92);
        if hcrc != stored_hcrc {
            return Err(Error::CorruptTable);
        }
        let t = Table {
            sector_size: ssz,
            total_lba: n_lba as u64,
            revision,
            disk_guid,
            first_usable,
            last_usable,
            entries,
        };
        proof {
            vstd::arithmetic::mul::lemma_mul_is_commutative(n_lba as int, ssz as int);
            assert(t.wf());
            assert(t.esec() == esec);
            lemma_header_region(disk@, t, stored_hcrc, stored_acrc);
            assert(t.spec_array_crc() == stored_acrc);
            assert(t.spec_header_crc(1, t.total_lba - 1, 2) == stored_hcrc);
            // Header sector, including its zero padding.
            assert(disk@.subrange(hoff as int, hoff + ssz) =~= t.spec_primary_header_sector()) by {
                let core = t.spec_header_core(1, t.total_lba - 1, 2, stored_hcrc, stored_acrc);
                assert(disk@.subrange(hoff as int, hoff + 92) == core);
                assert forall|k: int| 0 <= k < ssz implies #[trigger] disk@.subrange(
                    hoff as int,
                    hoff + ssz,
                )[k] == t.spec_primary_header_sector()[k] by {
                    if k < 92 {
                        assert(disk@.subrange(hoff as int, hoff + ssz)[k] == disk@[hoff + k]);
                        assert(disk@.subrange(hoff as int, hoff + 92)[k] == disk@[hoff + k]);
                    } else {
                        assert(disk@[hoff + k] == 0);
                    }
                }
            }
            // Entry region, including its zero padding.
            assert(disk@.subrange(eoff as int, eoff + t.esec() * ssz) =~= t.spec_entries_region())
                by {
                lemma_entries_bytes_len(t.entries@);
                assert forall|k: int| 0 <= k < esec * ssz implies #[trigger] disk@.subrange(
                    eoff as int,
                    eoff + esec * ssz,
                )[k] == t.spec_entries_region()[k] by {
                    if k < nume * 128 {
                        assert(disk@.subrange(eoff as int, eoff + nume * 128)[k] == disk@[eoff
                            + k]);
                        assert(disk@.subrange(eoff as int, eoff + esec * ssz)[k] == disk@[eoff
                            + k]);
                        assert(t.spec_entries_region()[k] == spec_entries_bytes(t.entries@)[k]);
                    } else {
                        assert(disk@[eoff + k] == 0);
                    }
                }
            }
            assert(disk_matches_primary(disk@, t));
            assert(valid_primary(disk@, ssz as int));
        }
        Ok(t)
    }
}

/// Serialises one partition entry to its 128 on-disk bytes.
fn serialize_entry(e: &PartitionEntry) -> (v: Vec<u8>)
    requires
        e.wf(),
    ensures
        v@ == e.spec_bytes(),
{
    let mut v = e.type_id.to_bytes();
    let mut u = e.unique_id.to_bytes();
    v.append(&mut u);
    let mut b1 = u64_to_le_bytes(e.first_lba);
    v.append(&mut b1);
    let mut b2 = u64_to_le_bytes(e.last_lba);
    v.append(&mut b2);
    let mut b3 = u64_to_le_bytes(e.attributes);
    v.append(&mut b3);
    let mut nm = slice_to_vec(e.name.as_slice());
    v.append(&mut nm);
    proof {
        assert(v@ =~= e.spec_bytes());
    }
    v
}

/// Extends `v` with zero bytes up to `target` bytes in all.
fn pad_to(v: &mut Vec<u8>, target: usize)
    requires
        old(v)@.len() <= target,
    ensures
        final(v)@ == old(v)@ + zeros((target - old(v)@.len()) as nat),
{
    let base: usize = v.len();
    while v.len() < target
        invariant
            base <= v@.len() <= target,
            v@ == old(v)@ + zeros((v@.len() - base) as nat),
        decreases target - v@.len(),
    {
        v.push(0);
        proof {
            assert(v@ =~= old(v)@ + zeros((v@.len() - base) as nat));
        }
    }
}

impl Table {
    /// The number of sectors one copy of the entry array occupies.
    fn esec_val(&self) -> (r: usize)
        requires
            self.wf(),
        ensures
            r == self.esec(),
            1 <= r <= 32,
    {
        proof {
            lemma_region_layout(*self);
            assert(5 * self.sector_size <= self.disk_len()) by (nonlinear_arith)
                requires
                    self.total_lba >= 5,
                    self.disk_len() == self.total_lba * self.sector_size,
                    self.sector_size >= 512,
            ;
            assert(self.entries@.len() * 128 + self.sector_size <= usize::MAX) by (nonlinear_arith)
                requires
                    self.entries@.len() <= 128,
                    5 * self.sector_size <= usize::MAX,
                    usize::MAX >= 0xffff_ffff,
            ;
        }
        (self.entries.len() * 128 + self.sector_size - 1) / self.sector_size
    }

    /// Serialises one copy of the entry array, zero-padded to whole
    /// sectors.
    fn entries_region(&self) -> (v: Vec<u8>)
        requires
            self.wf(),
        ensures
            v@ == self.spec_entries_region(),
            v@.len() == self.esec() * self.sector_size,
    {
        proof {
            lemma_region_layout(*self);
        }
        let mut v: Vec<u8> = Vec::new();
        let n: usize = self.entries.len();
        let mut i: usize = 0;
        proof {
            assert(self.entries@.take(0) =~= Seq::<PartitionEntry>::empty());
            assert(v@ =~= spec_entries_bytes(self.entries@.take(0)));
        }
        while i < n
            invariant
                i <= n,
                n == self.entries@.len(),
                forall|j: int| 0 <= j < n ==> (#[trigger] self.entries@[j]).wf(),
                v@ == spec_entries_bytes(self.entries@.take(i as int)),
                v@.len() == 128 * i,
            decreases n - i,
        {
            proof {
                lemma_entries_bytes_len(self.entries@.take(i as int));
            }
            let mut eb = serialize_entry(&self.entries[i]);
            v.append(&mut eb);
            proof {
                lemma_entry_bytes_len(self.entries@[i as int]);
                assert(self.entries@.take(i + 1).drop_last() =~= self.entries@.take(i as int));
                assert(self.entries@.take(i + 1).last() == self.entries@[i as int]);
                lemma_entries_bytes_len(self.entries@.take(i + 1));
            }
            i = i + 1;
        }
        proof {
            assert(self.entries@.take(n as int) =~= self.entries@);
        }
        let esec: usize = self.esec_val();
        proof {
            assert(esec * self.sector_size <= self.disk_len()) by (nonlinear_arith)
                requires
                    self.total_lba >= 3 + 2 * esec,
                    esec >= 1,
                    self.disk_len() == self.total_lba * self.sector_size,
                    self.sector_size >= 512,
            ;
        }
        let target: usize = esec * self.sector_size;
        pad_to(&mut v, target);
        proof {
            assert(v@ =~= self.spec_entries_region());
        }
        v
    }

    /// Serialises the 92 header bytes with the given block pointers and
    /// checksum field values.
    fn header_core_ser(&self, cur: u64, alt: u64, elba: u64, hcrc: u32, acrc: u32) -> (v: Vec<u8>)
        requires
            self.entries@.len() <= MAX_ENTRIES,
        ensures
            v@ == self.spec_header_core(cur as int, alt as int, elba as int, hcrc, acrc),
            v@.len() == 92,
    {
        let mut v = u64_to_le_bytes(GPT_SIGNATURE);
        let mut p2 = u32_to_le_bytes(self.revision);
        v.append(&mut p2);
        let mut p3 = u32_to_le_bytes(92);
        v.append(&mut p3);
        let mut p4 = u32_to_le_bytes(hcrc);
        v.append(&mut p4);
        let mut p5 = u32_to_le_bytes(0);
        v.append(&mut p5);
        let mut p6 = u64_to_le_bytes(cur);
        v.append(&mut p6);
        let mut p7 = u64_to_le_bytes(alt);
        v.append(&mut p7);
        let mut p8 = u64_to_le_bytes(self.first_usable);
        v.append(&mut p8);
        let mut p9 = u64_to_le_bytes(self.last_usable);
        v.append(&mut p9);
        let mut p10 = self.disk_guid.to_bytes();
        v.append(&mut p10);
        let mut p11 = u64_to_le_bytes(elba);
        v.append(&mut p11);
        let mut p12 = u32_to_le_bytes(self.entries.len() as u32);
        v.append(&mut p12);
        let mut p13 = u32_to_le_bytes(128);
        v.append(&mut p13);
        let mut p14 = u32_to_le_bytes(acrc);
        v.append(&mut p14);
        proof {
            lemma_auto_spec_u64_to_from_le_bytes();
            lemma_auto_spec_u32_to_from_le_bytes();
            assert(v@ =~= self.spec_header_core(cur as int, alt as int, elba as int, hcrc, acrc));
        }
        v
    }

    /// Produces the byte regions that persist this table, in the order
    /// they must be written: the backup copy's entry array and header
    /// first, then the primary copy's.  Both checksums of each copy are
    /// recomputed here; nothing is handed out before the entire pair is
    /// assembled.  Every region lies beyond the protective record and
    /// inside the device.
    pub fn write_plan(&self) -> (plan: Vec<Region>)
        requires
            self.wf(),
        ensures
            plan@.len() == 4,
            plan@[0].offset == self.backup_entries_off(),
            plan@[0].bytes@ == self.spec_entries_region(),
            plan@[1].offset == self.backup_header_off(),
            plan@[1].bytes@ == self.spec_backup_header_sector(),
            plan@[2].offset == self.primary_entries_off(),
            plan@[2].bytes@ == self.spec_entries_region(),
            plan@[3].offset == self.primary_header_off(),
            plan@[3].bytes@ == self.spec_primary_header_sector(),
            forall|i: int|
                0 <= i < 4 ==> (#[trigger] plan@[i]).offset >= self.sector_size && plan@[i].offset
                    + plan@[i].bytes@.len() <= self.disk_len(),
    {
        proof {
            lemma_region_layout(*self);
            assert(self.total_lba <= usize::MAX && self.total_lba * self.sector_size
                == self.disk_len()) by (nonlinear_arith)
                requires
                    self.disk_len() == self.total_lba * self.sector_size,
                    self.disk_len() <= usize::MAX,
                    self.sector_size >= 512,
                    self.total_lba >= 5,
            ;
        }
        let ssz: usize = self.sector_size;
        let nume: usize = self.entries.len();
        let esec: usize = self.esec_val();
        let total: usize = self.total_lba as usize;
        proof {
            assert((total - 1 - esec) * ssz + esec * ssz == (total - 1) * ssz && (total - 1) * ssz
                + ssz == total * ssz && 2 * ssz + esec * ssz <= (total - 1 - esec) * ssz)
                by (nonlinear_arith)
                requires
                    total >= 3 + 2 * esec,
                    esec >= 1,
                    ssz >= 512,
            ;
        }
        let beo: usize = (total - 1 - esec) * ssz;
        let bho: usize = (total - 1) * ssz;
        let eoff: usize = 2 * ssz;
        let hoff: usize = ssz;
        let er_b = self.entries_region();
        proof {
            lemma_entries_bytes_len(self.entries@);
            assert(er_b@.subrange(0, nume * 128) =~= spec_entries_bytes(self.entries@));
        }
        let acrc: u32 = crc32_range(&er_b, 0, nume * 128);
        let balt: u64 = (total - 1) as u64;
        let belba: u64 = (total - 1 - esec) as u64;
        let core_b0 = self.header_core_ser(balt, 1, belba, 0, acrc);
        proof {
            assert(core_b0@.subrange(0, 92) =~= core_b0@);
        }
        let hcrc_b: u32 = crc32_range(&core_b0, 0, 92);
        let mut hdr_b = self.header_core_ser(balt, 1, belba, hcrc_b, acrc);
        pad_to(&mut hdr_b, ssz);
        let core_p0 = self.header_core_ser(1, balt, 2, 0, acrc);
        proof {
            assert(core_p0@.subrange(0, 92) =~= core_p0@);
        }
        let hcrc_p: u32 = crc32_range(&core_p0, 0, 92);
        let mut hdr_p = self.header_core_ser(1, balt, 2, hcrc_p, acrc);
        pad_to(&mut hdr_p, ssz);
        let er_p = self.entries_region();
        proof {
            assert(hdr_b@ == self.spec_backup_header_sector());
            assert(hdr_p@ == self.spec_primary_header_sector());
        }
        let mut plan: Vec<Region> = Vec::new();
        plan.push(Region { offset: beo, bytes: er_b });
        plan.push(Region { offset: bho, bytes: hdr_b });
        plan.push(Region { offset: eoff, bytes: er_p });
        plan.push(Region { offset: hoff, bytes: hdr_p });
        plan
    }
}

/// One contiguous byte region to persist at a fixed device offset.
pub struct Region {
    pub offset: usize,
    pub bytes: Vec<u8>,
}

/// `s` with `b` written at offset `off`.
pub open spec fn overwrite(s: Seq<u8>, off: int, b: Seq<u8>) -> Seq<u8> {
    Seq::new(
        s.len(),
        |i: int|
            if off <= i < off + b.len() {
                b[i - off]
            } else {
                s[i]
            },
    )
}

/// The disk image after the regions of `plan` are written in order.
pub open spec fn spec_apply(s: Seq<u8>, plan: Seq<Region>) -> Seq<u8>
    decreases plan.len(),
{
    if plan.len() == 0 {
        s
    } else {
        overwrite(
            spec_apply(s, plan.drop_last()),
            plan.last().offset as int,
            plan.last().bytes@,
        )
    }
}

/// Writing bytes that are already there changes nothing.
pub proof fn lemma_overwrite_unchanged(s: Seq<u8>, off: int, b: Seq<u8>)
    requires
        0 <= off,
        off + b.len() <= s.len(),
        s.subrange(off, off + b.len()) == b,
    ensures
        overwrite(s, off, b) == s,
{
    assert(overwrite(s, off, b) =~= s) by {
        assert forall|i: int| 0 <= i < s.len() implies #[trigger] overwrite(s, off, b)[i] == s[i]
            by {
            if off <= i < off + b.len() {
                assert(b[i - off] == s.subrange(off, off + b.len())[i - off]);
            }
        }
    }
}

/// Lengths and layout of the serialised regions of a well-formed table:
/// the entry-array region fills whole sectors, each header fills one
/// sector, and the four regions fit inside the device without touching
/// the protective record.
pub proof fn lemma_region_layout(t: Table)
    requires
        t.wf(),
    ensures
        t.spec_entries_region().len() == t.esec() * t.sector_size,
        t.spec_primary_header_sector().len() == t.sector_size,
        t.spec_backup_header_sector().len() == t.sector_size,
        spec_entries_bytes(t.entries@).len() == 128 * t.entries@.len(),
        1 <= t.esec() <= 32,
        t.esec() * t.sector_size >= t.entries@.len() * 128,
        t.sector_size <= t.primary_entries_off(),
        t.primary_entries_off() + t.esec() * t.sector_size <= t.backup_entries_off(),
        t.backup_entries_off() + t.esec() * t.sector_size == t.backup_header_off(),
        t.backup_header_off() + t.sector_size == t.disk_len(),
        t.total_lba >= 5,
{
    lemma_entries_bytes_len(t.entries@);
    lemma_auto_spec_u64_to_from_le_bytes();
    lemma_auto_spec_u32_to_from_le_bytes();
    let ssz = t.sector_size as int;
    let n = t.entries@.len() as int;
    let esec = t.esec();
    vstd::arithmetic::div_mod::lemma_fundamental_div_mod(n * 128 + ssz - 1, ssz);
    assert(1 <= esec <= 32 && esec * ssz >= n * 128 && esec * ssz <= n * 128 + ssz)
        by (nonlinear_arith)
        requires
            n * 128 + ssz - 1 == ssz * esec + (n * 128 + ssz - 1) % ssz,
            0 <= (n * 128 + ssz - 1) % ssz < ssz,
            1 <= n <= 128,
            ssz >= 512,
    ;
    assert(t.spec_header_core(
        1,
        t.total_lba - 1,
        2,
        t.spec_header_crc(1, t.total_lba - 1, 2),
        t.spec_array_crc(),
    ).len() == 92);
    assert(t.spec_header_core(
        t.total_lba - 1,
        1,
        t.backup_entries_lba(),
        t.spec_header_crc(t.total_lba - 1, 1, t.backup_entries_lba()),
        t.spec_array_crc(),
    ).len() == 92);
    assert(2 * ssz + esec * ssz <= (t.total_lba - 1 - esec) * ssz && (t.total_lba - 1 - esec) * ssz
        + esec * ssz == (t.total_lba - 1) * ssz && (t.total_lba - 1) * ssz + ssz == t.total_lba
        * ssz) by (nonlinear_arith)
        requires
            t.total_lba >= 3 + 2 * esec,
            ssz >= 512,
            esec >= 1,
    ;
}

/// Rewriting a table that a disk image already carries, in both
/// copies, reproduces the image byte-identically.
pub proof fn lemma_rewrite_identity(disk: Seq<u8>, t: Table, plan: Seq<Region>)
    requires
        t.wf(),
        disk_matches_primary(disk, t),
        disk_matches_backup(disk, t),
        plan.len() == 4,
        plan[0].offset == t.backup_entries_off(),
        plan[0].bytes@ == t.spec_entries_region(),
        plan[1].offset == t.backup_header_off(),
        plan[1].bytes@ == t.spec_backup_header_sector(),
        plan[2].offset == t.primary_entries_off(),
        plan[2].bytes@ == t.spec_entries_region(),
        plan[3].offset == t.primary_header_off(),
        plan[3].bytes@ == t.spec_primary_header_sector(),
    ensures
        spec_apply(disk, plan) == disk,
{
    lemma_region_layout(t);
    let p1 = plan.drop_last();
    let p2 = p1.drop_last();
    let p3 = p2.drop_last();
    let p4 = p3.drop_last();
    assert(p4.len() == 0);
    assert(spec_apply(disk, p4) == disk);
    lemma_overwrite_unchanged(disk, t.backup_entries_off(), t.spec_entries_region());
    assert(spec_apply(disk, p3) == disk);
    lemma_overwrite_unchanged(disk, t.backup_header_off(), t.spec_backup_header_sector());
    assert(spec_apply(disk, p2) == disk);
    lemma_overwrite_unchanged(disk, t.primary_entries_off(), t.spec_entries_region());
    assert(spec_apply(disk, p1) == disk);
    lemma_overwrite_unchanged(disk, t.primary_header_off(), t.spec_primary_header_sector());
    assert(spec_apply(disk, plan) == disk);
}

/// A subrange of an already matched region.
proof fn lemma_sub_extract(disk: Seq<u8>, off: int, region: Seq<u8>, a: int, b: int)
    requires
        0 <= off,
        off + region.len() <= disk.len(),
        disk.subrange(off, off + region.len()) == region,
        0 <= a <= b <= region.len(),
    ensures
        disk.subrange(off + a, off + b) == region.subrange(a, b),
{
    assert(disk.subrange(off + a, off + b) =~= region.subrange(a, b)) by {
        assert forall|i: int| 0 <= i < b - a implies #[trigger] disk.subrange(off + a, off + b)[i]
            == region.subrange(a, b)[i] by {
            assert(disk.subrange(off, off + region.len())[a + i] == disk[off + a + i]);
        }
    }
}

/// An image that carries a well-formed table's primary copy is a valid
/// image: `load` accepts exactly what `write_plan` produces.
pub proof fn lemma_carried_primary_is_valid(disk: Seq<u8>, t: Table)
    requires
        t.wf(),
        disk_matches_primary(disk, t),
    ensures
        valid_primary(disk, t.sector_size as int),
{
    lemma_region_layout(t);
    lemma_auto_spec_u64_to_from_le_bytes();
    lemma_auto_spec_u32_to_from_le_bytes();
    let ssz = t.sector_size as int;
    let total = t.total_lba as int;
    let n = t.entries@.len() as int;
    let acrc = t.spec_array_crc();
    let hcrc = t.spec_header_crc(1, total - 1, 2);
    let hs = t.spec_primary_header_sector();
    let core = t.spec_header_core(1, total - 1, 2, hcrc, acrc);
    vstd::arithmetic::div_mod::lemma_fundamental_div_mod_converse(
        disk.len() as int,
        ssz,
        total,
        0,
    );
    // Each header field's bytes, cut out of the matched sector.
    assert(hs.len() == ssz && core.len() == 92);
    lemma_sub_extract(disk, ssz, hs, 0, 8);
    lemma_sub_extract(disk, ssz, hs, 8, 12);
    lemma_sub_extract(disk, ssz, hs, 12, 16);
    lemma_sub_extract(disk, ssz, hs, 16, 20);
    lemma_sub_extract(disk, ssz, hs, 20, 24);
    lemma_sub_extract(disk, ssz, hs, 24, 32);
    lemma_sub_extract(disk, ssz, hs, 32, 40);
    lemma_sub_extract(disk, ssz, hs, 40, 48);
    lemma_sub_extract(disk, ssz, hs, 48, 56);
    lemma_sub_extract(disk, ssz, hs, 56, 72);
    lemma_sub_extract(disk, ssz, hs, 72, 80);
    lemma_sub_extract(disk, ssz, hs, 80, 84);
    lemma_sub_extract(disk, ssz, hs, 84, 88);
    lemma_sub_extract(disk, ssz, hs, 88, 92);
    assert(hs.subrange(0, 8) =~= core.subrange(0, 8));
    assert(hs.subrange(8, 12) =~= core.subrange(8, 12));
    assert(hs.subrange(12, 16) =~= core.subrange(12, 16));
    assert(hs.subrange(16, 20) =~= core.subrange(16, 20));
    assert(hs.subrange(20, 24) =~= core.subrange(20, 24));
    assert(hs.subrange(24, 32) =~= core.subrange(24, 32));
    assert(hs.subrange(32, 40) =~= core.subrange(32, 40));
    assert(hs.subrange(40, 48) =~= core.subrange(40, 48));
    assert(hs.subrange(48, 56) =~= core.subrange(48, 56));
    assert(hs.subrange(56, 72) =~= core.subrange(56, 72));
    assert(hs.subrange(72, 80) =~= core.subrange(72, 80));
    assert(hs.subrange(80, 84) =~= core.subrange(80, 84));
    assert(hs.subrange(84, 88) =~= core.subrange(84, 88));
    assert(hs.subrange(88, 92) =~= core.subrange(88, 92));
    assert(core.subrange(0, 8) =~= spec_u64_to_le_bytes(GPT_SIGNATURE));
    assert(core.subrange(8, 12) =~= spec_u32_to_le_bytes(t.revision));
    assert(core.subrange(12, 16) =~= spec_u32_to_le_bytes(92));
    assert(core.subrange(16, 20) =~= spec_u32_to_le_bytes(hcrc));
    assert(core.subrange(20, 24) =~= spec_u32_to_le_bytes(0));
    assert(core.subrange(24, 32) =~= spec_u64_to_le_bytes(1));
    assert(core.subrange(32, 40) =~= spec_u64_to_le_bytes((total - 1) as u64));
    assert(core.subrange(40, 48) =~= spec_u64_to_le_bytes(t.first_usable));
    assert(core.subrange(48, 56) =~= spec_u64_to_le_bytes(t.last_usable));
    assert(core.subrange(56, 72) =~= t.disk_guid.spec_bytes());
    assert(core.subrange(72, 80) =~= spec_u64_to_le_bytes(2));
    assert(core.subrange(80, 84) =~= spec_u32_to_le_bytes(n as u32));
    assert(core.subrange(84, 88) =~= spec_u32_to_le_bytes(128));
    assert(core.subrange(88, 92) =~= spec_u32_to_le_bytes(acrc));
    assert((total - 1) as u64 as int == total - 1);
    assert(n as u32 as int == n);
    // Header-sector padding is zero.
    assert forall|i: int| ssz + 92 <= i < 2 * ssz implies disk[i] == 0 by {
        assert(disk.subrange(ssz, ssz + ssz)[i - ssz] == disk[i]);
        assert(hs[i - ssz] == zeros((ssz - 92) as nat)[i - ssz - 92]);
    }
    // Entry-array bytes and padding.
    let er = t.spec_entries_region();
    let eb = spec_entries_bytes(t.entries@);
    assert(disk.subrange(2 * ssz, 2 * ssz + n * 128) == eb) by {
        lemma_sub_extract(disk, 2 * ssz, er, 0, n * 128);
        assert(er.subrange(0, n * 128) =~= eb);
    }
    assert forall|i: int| 2 * ssz + n * 128 <= i < 2 * ssz + t.esec() * ssz implies disk[i] == 0
        by {
        assert(disk.subrange(2 * ssz, 2 * ssz + t.esec() * ssz)[i - 2 * ssz] == disk[i]);
        assert(er[i - 2 * ssz] == zeros((t.esec() * ssz - n * 128) as nat)[i - 2 * ssz - n
            * 128]);
    }
    // The two checksum equations.
    lemma_header_region(disk, t, hcrc, acrc);
    assert(spec_crc32(spec_zeroed_header(disk, ssz)) == hcrc);
    assert(spec_u32_from_le_bytes(disk.subrange(ssz + 80, ssz + 84)) == n);
    assert((n * 128 + ssz - 1) / ssz == t.esec());
    assert(valid_primary(disk, ssz));
}

/// Applying a table's write plan to any device image of the right
/// length, protective record in place, leaves an image that carries
/// the table in both copies — and nothing below the first header
/// sector is touched.
pub proof fn lemma_apply_write_plan(disk: Seq<u8>, t: Table, plan: Seq<Region>)
    requires
        t.wf(),
        disk.len() == t.disk_len(),
        disk[510] == 0x55,
        disk[511] == 0xaa,
        plan.len() == 4,
        plan[0].offset == t.backup_entries_off(),
        plan[0].bytes@ == t.spec_entries_region(),
        plan[1].offset == t.backup_header_off(),
        plan[1].bytes@ == t.spec_backup_header_sector(),
        plan[2].offset == t.primary_entries_off(),
        plan[2].bytes@ == t.spec_entries_region(),
        plan[3].offset == t.primary_header_off(),
        plan[3].bytes@ == t.spec_primary_header_sector(),
    ensures
        spec_apply(disk, plan).len() == disk.len(),
        disk_matches_primary(spec_apply(disk, plan), t),
        disk_matches_backup(spec_apply(disk, plan), t),
        forall|i: int| 0 <= i < t.sector_size ==> spec_apply(disk, plan)[i] == disk[i],
{
    lemma_region_layout(t);
    let p1 = plan.drop_last();
    let p2 = p1.drop_last();
    let p3 = p2.drop_last();
    let p4 = p3.drop_last();
    assert(p4.len() == 0);
    assert(spec_apply(disk, p4) == disk);
    assert(p3.last() == plan[0] && p2.last() == plan[1] && p1.last() == plan[2] && plan.last()
        == plan[3]);
    let esz = t.esec() * t.sector_size;
    let d1 = spec_apply(disk, p3);
    let d2 = spec_apply(disk, p2);
    let d3 = spec_apply(disk, p1);
    let d4 = spec_apply(disk, plan);
    assert(d1 == overwrite(disk, t.backup_entries_off(), t.spec_entries_region()));
    assert(d2 == overwrite(d1, t.backup_header_off(), t.spec_backup_header_sector()));
    assert(d3 == overwrite(d2, t.primary_entries_off(), t.spec_entries_region()));
    assert(d4 == overwrite(d3, t.primary_header_off(), t.spec_primary_header_sector()));
    assert(d4.subrange(t.primary_header_off(), t.primary_header_off() + t.sector_size)
        =~= t.spec_primary_header_sector());
    assert(d4.subrange(t.primary_entries_off(), t.primary_entries_off() + esz)
        =~= t.spec_entries_region());
    assert(d4.subrange(t.backup_entries_off(), t.backup_entries_off() + esz)
        =~= t.spec_entries_region());
    assert(d4.subrange(t.backup_header_off(), t.backup_header_off() + t.sector_size)
        =~= t.spec_backup_header_sector());
}

/// Applies a write plan to an in-memory disk image, in plan order.
pub fn apply_plan(disk: &mut Vec<u8>, plan: &Vec<Region>)
    requires
        forall|i: int|
            0 <= i < plan@.len() ==> (#[trigger] plan@[i]).offset + plan@[i].bytes@.len() <= old(
                disk,
            )@.len(),
    ensures
        final(disk)@ == spec_apply(old(disk)@, plan@),
        final(disk)@.len() == old(disk)@.len(),
{
    let ghost orig = disk@;
    let mut k: usize = 0;
    proof {
        assert(plan@.take(0) =~= Seq::<Region>::empty());
    }
    while k < plan.len()
        invariant
            k <= plan@.len(),
            disk@.len() == orig.len(),
            disk@ == spec_apply(orig, plan@.take(k as int)),
            forall|i: int|
                0 <= i < plan@.len() ==> (#[trigger] plan@[i]).offset + plan@[i].bytes@.len()
                    <= orig.len(),
        decreases plan@.len() - k,
    {
        let r = &plan[k];
        let off: usize = r.offset;
        let m: usize = r.bytes.len();
        let dl: usize = disk.len();
        let ghost before = disk@;
        let mut j: usize = 0;
        proof {
            assert(disk@ =~= overwrite(before, off as int, r.bytes@.take(0)));
        }
        while j < m
            invariant
                j <= m,
                m == r.bytes@.len(),
                off + m <= dl,
                disk@.len() == dl,
                dl == before.len(),
                disk@ == overwrite(before, off as int, r.bytes@.take(j as int)),
            decreases m - j,
        {
            let idx: usize = off + j;
            let b: u8 = r.bytes[j];
            disk[idx] = b;
            proof {
                assert(disk@ =~= overwrite(before, off as int, r.bytes@.take(j + 1)));
            }
            j = j + 1;
        }
        proof {
            assert(r.bytes@.take(m as int) =~= r.bytes@);
            assert(plan@.take(k + 1).drop_last() =~= plan@.take(k as int));
            assert(plan@.take(k + 1).last() == plan@[k as int]);
        }
        k = k + 1;
    }
    proof {
        assert(plan@.take(plan@.len() as int) =~= plan@);
    }
}

} // verus!
