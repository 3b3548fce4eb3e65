//! 128-bit partition identifiers and the fixed catalog of role
//! identifiers that assigns a partition entry to redundant set A or B.

use vstd::prelude::*;
use vstd::bytes::*;

verus! {

/// A 128-bit identifier, compared byte-for-byte.  Stored as the two
/// little-endian 64-bit halves of its on-disk byte layout (`lo` holds
/// bytes 0..8, `hi` bytes 8..16).  It serves both as a partition *type*
/// tag (which redundant slot an entry belongs to) and as a partition
/// *unique* tag (instance identity); it carries no ordering semantics
/// beyond equality.
#[derive(Clone, Copy, Debug, PartialEq, Eq, Structural)]
pub struct Identifier {
    pub lo: u64,
    pub hi: u64,
}

/// The two redundant partition sets.
#[derive(Clone, Copy, Debug, PartialEq, Eq, Structural)]
pub enum Slot {
    A,
    B,
}

/// Type identifier of the kernel partition of set A.
pub const KERNEL_A_LO: u64 = 0x4f4f_4220_4c4e_4b36;

/// Type identifier of the kernel partition of set A (upper half).
pub const KERNEL_A_HI: u64 = 0x8a09_46aa_3b41_54c9;

/// Type identifier of the kernel partition of set B.
pub const KERNEL_B_LO: u64 = 0x4f4f_4220_4c4e_4b36;

/// Type identifier of the kernel partition of set B (upper half).
pub const KERNEL_B_HI: u64 = 0x8a09_46aa_3b41_54ca;

/// Type identifier of the root partition of set A.
pub const ROOT_A_LO: u64 = 0x4f4f_4220_544f_4f52;

/// Type identifier of the root partition of set A (upper half).
pub const ROOT_A_HI: u64 = 0x8a09_46aa_3b41_54c9;

/// Type identifier of the root partition of set B.
pub const ROOT_B_LO: u64 = 0x4f4f_4220_544f_4f52;

/// Type identifier of the root partition of set B (upper half).
pub const ROOT_B_HI: u64 = 0x8a09_46aa_3b41_54ca;

impl Identifier {
    /// The sixteen bytes of the identifier in its on-disk layout.
    pub open spec fn spec_bytes(self) -> Seq<u8> {
        spec_u64_to_le_bytes(self.lo) + spec_u64_to_le_bytes(self.hi)
    }

    /// Parses an identifier from its sixteen-byte on-disk layout.
    pub fn from_bytes(bytes: &[u8]) -> (r: Identifier)
        requires
            bytes@.len() == 16,
        ensures
            r.spec_bytes() == bytes@,
    {
        let lo = u64_from_le_bytes(vstd::slice::slice_subrange(bytes, 0, 8));
        let hi = u64_from_le_bytes(vstd::slice::slice_subrange(bytes, 8, 16));
        proof {
            lemma_auto_spec_u64_to_from_le_bytes();
            assert(spec_u64_to_le_bytes(lo) + spec_u64_to_le_bytes(hi) =~= bytes@);
        }
        Identifier { lo, hi }
    }

    /// Which redundant set this identifier, read as a partition type
    /// tag, assigns an entry to: `None` for any type outside the fixed
    /// catalog (such entries are ignored).
    pub open spec fn spec_slot(self) -> Option<Slot> {
        if (self.lo == KERNEL_A_LO && self.hi == KERNEL_A_HI) || (self.lo == ROOT_A_LO
            && self.hi == ROOT_A_HI) {
            Some(Slot::A)
        } else if (self.lo == KERNEL_B_LO && self.hi == KERNEL_B_HI) || (self.lo == ROOT_B_LO
            && self.hi == ROOT_B_HI) {
            Some(Slot::B)
        } else {
            None
        }
    }

    /// Classifies this identifier against the role catalog.
    pub fn slot(&self) -> (r: Option<Slot>)
        ensures
            r == self.spec_slot(),
    {
        if (self.lo == KERNEL_A_LO && self.hi == KERNEL_A_HI) || (self.lo == ROOT_A_LO && self.hi
            == ROOT_A_HI) {
            Some(Slot::A)
        } else if (self.lo == KERNEL_B_LO && self.hi == KERNEL_B_HI) || (self.lo == ROOT_B_LO
            && self.hi == ROOT_B_HI) {
            Some(Slot::B)
        } else {
            None
        }
    }

    /// The hexadecimal digit for one value below sixteen.
    pub open spec fn spec_hex_digit(n: u8) -> char {
        if n < 10 {
            (n + 48) as char
        } else {
            (n + 87) as char
        }
    }

    /// The canonical mixed-endian text of the identifier: the first
    /// three dash-separated groups are printed most-significant-first
    /// from their little-endian stored bytes, the last two in byte
    /// order.
    pub open spec fn spec_text(self) -> Seq<char> {
        let b = self.spec_bytes();
        Self::hex_pair(b[3]) + Self::hex_pair(b[2]) + Self::hex_pair(b[1]) + Self::hex_pair(b[0])
            + seq!['-'] + Self::hex_pair(b[5]) + Self::hex_pair(b[4]) + seq!['-'] + Self::hex_pair(
            b[7],
        ) + Self::hex_pair(b[6]) + seq!['-'] + Self::hex_pair(b[8]) + Self::hex_pair(b[9])
            + seq!['-'] + Self::hex_pair(b[10]) + Self::hex_pair(b[11]) + Self::hex_pair(b[12])
            + Self::hex_pair(b[13]) + Self::hex_pair(b[14]) + Self::hex_pair(b[15])
    }

    /// The two hexadecimal digits of one byte.
    pub open spec fn hex_pair(b: u8) -> Seq<char> {
        seq![Self::spec_hex_digit(b / 16), Self::spec_hex_digit(b % 16)]
    }

    /// Formats the identifier as its canonical 36-character text.
    pub fn to_chars(&self) -> (r: Vec<char>)
        ensures
            r@ == self.spec_text(),
    {
        let b = self.to_bytes();
        proof {
            lemma_auto_spec_u64_to_from_le_bytes();
        }
        let mut r: Vec<char> = Vec::new();
        push_hex_pair(&mut r, b[3]);
        push_hex_pair(&mut r, b[2]);
        push_hex_pair(&mut r, b[1]);
        push_hex_pair(&mut r, b[0]);
        r.push('-');
        push_hex_pair(&mut r, b[5]);
        push_hex_pair(&mut r, b[4]);
        r.push('-');
        push_hex_pair(&mut r, b[7]);
        push_hex_pair(&mut r, b[6]);
        r.push('-');
        push_hex_pair(&mut r, b[8]);
        push_hex_pair(&mut r, b[9]);
        r.push('-');
        push_hex_pair(&mut r, b[10]);
        push_hex_pair(&mut r, b[11]);
        push_hex_pair(&mut r, b[12]);
        push_hex_pair(&mut r, b[13]);
        push_hex_pair(&mut r, b[14]);
        push_hex_pair(&mut r, b[15]);
        proof {
            assert(r@ =~= self.spec_text());
        }
        r
    }

    /// Serialises the identifier back to its sixteen-byte layout.
    pub fn to_bytes(&self) -> (r: Vec<u8>)
        ensures
            r@ == self.spec_bytes(),
    {
        let mut r = u64_to_le_bytes(self.lo);
        let mut hi = u64_to_le_bytes(self.hi);
        r.append(&mut hi);
        r
    }
}

/// Appends the two hexadecimal digits of one byte.
fn push_hex_pair(v: &mut Vec<char>, b: u8)
    ensures
        final(v)@ == old(v)@ + Identifier::hex_pair(b),
{
    let hi: u8 = b / 16;
    let lo: u8 = b % 16;
    let c1: char = if hi < 10 {
        (hi + 48) as char
    } else {
        (hi + 87) as char
    };
    let c2: char = if lo < 10 {
        (lo + 48) as char
    } else {
        (lo + 87) as char
    };
    v.push(c1);
    v.push(c2);
    proof {
        assert(v@ =~= old(v)@ + Identifier::hex_pair(b));
    }
}

} // verus!
