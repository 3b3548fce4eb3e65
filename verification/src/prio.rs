//! Bit-field codec for the managed sub-fields of a partition entry's
//! 64-bit attribute word: a 4-bit boot priority, a 4-bit tries-remaining
//! budget and a 1-bit successful flag.  Every other bit of the word is
//! firmware-owned and must pass through untouched.

use vstd::prelude::*;

verus! {

/// Highest representable boot priority (the priority field is 4 bits).
pub const MAX_PRIORITY: u8 = 15;

/// Highest representable tries-remaining budget (the field is 4 bits).
pub const MAX_TRIES: u8 = 15;

/// Lowest bit of the priority field inside the attribute word.
pub const PRIORITY_SHIFT: u64 = 48;

/// Lowest bit of the tries-remaining field inside the attribute word.
pub const TRIES_SHIFT: u64 = 52;

/// Bit of the successful flag inside the attribute word.
pub const SUCCESSFUL_SHIFT: u64 = 56;

/// Mask of all nine managed bits within the attribute word.
pub const MANAGED_MASK: u64 = 0x01ff_0000_0000_0000;

/// The priority field of an attribute word.
pub open spec fn spec_priority(word: u64) -> u64 {
    (word >> 48) & 0xf
}

/// The tries-remaining field of an attribute word.
pub open spec fn spec_tries(word: u64) -> u64 {
    (word >> 52) & 0xf
}

/// The successful flag of an attribute word.
pub open spec fn spec_successful(word: u64) -> bool {
    (word >> 56) & 1 == 1
}

/// The attribute word with exactly the three managed fields rewritten.
pub open spec fn spec_encode(word: u64, priority: u64, tries: u64, successful: bool) -> u64 {
    (word & !0x01ff_0000_0000_0000) | (priority << 48) | (tries << 52) | (
    if successful {
        1u64 << 56
    } else {
        0u64
    })
}

/// Extracts `(priority, tries_remaining, successful)` from an attribute
/// word.
pub fn decode(word: u64) -> (r: (u8, u8, bool))
    ensures
        r.0 == spec_priority(word),
        r.1 == spec_tries(word),
        r.2 == spec_successful(word),
        r.0 <= MAX_PRIORITY,
        r.1 <= MAX_TRIES,
{
    proof {
        assert((word >> 48) & 0xf <= 15 && (word >> 52) & 0xf <= 15) by (bit_vector);
    }
    let priority: u64 = (word >> 48) & 0xf;
    let tries: u64 = (word >> 52) & 0xf;
    let successful: bool = (word >> 56) & 1 == 1;
    (priority as u8, tries as u8, successful)
}

/// Rewrites the three managed bit ranges of `word` to hold the given
/// triple, leaving every unmanaged bit unchanged.
pub fn encode(word: u64, priority: u8, tries: u8, successful: bool) -> (r: u64)
    requires
        priority <= MAX_PRIORITY,
        tries <= MAX_TRIES,
    ensures
        r == spec_encode(word, priority as u64, tries as u64, successful),
        spec_priority(r) == priority,
        spec_tries(r) == tries,
        spec_successful(r) == successful,
        r & !MANAGED_MASK == word & !MANAGED_MASK,
{
    let p: u64 = priority as u64;
    let t: u64 = tries as u64;
    let s: u64 = if successful {
        1u64 << 56
    } else {
        0u64
    };
    let r: u64 = (word & !0x01ff_0000_0000_0000) | (p << 48) | (t << 52) | s;
    proof {
        lemma_round_trip(word, p, t, successful);
    }
    r
}

/// Round-trip law: for every representable triple and every attribute
/// word, decoding an encoded word yields the triple back, and every bit
/// outside the three managed fields is unchanged by the encoding.
pub proof fn lemma_round_trip(word: u64, priority: u64, tries: u64, successful: bool)
    requires
        priority <= MAX_PRIORITY,
        tries <= MAX_TRIES,
    ensures
        spec_priority(spec_encode(word, priority, tries, successful)) == priority,
        spec_tries(spec_encode(word, priority, tries, successful)) == tries,
        spec_successful(spec_encode(word, priority, tries, successful)) == successful,
        spec_encode(word, priority, tries, successful) & !MANAGED_MASK == word & !MANAGED_MASK,
{
    let e = spec_encode(word, priority, tries, successful);
    assert((e >> 48) & 0xf == priority && (e >> 52) & 0xf == tries && ((e >> 56) & 1 == 1
        <==> successful) && e & !0x01ff_0000_0000_0000u64 == word & !0x01ff_0000_0000_0000u64)
        by (bit_vector)
        requires
            priority <= 15u64,
            tries <= 15u64,
            e == (word & !0x01ff_0000_0000_0000) | (priority << 48) | (tries << 52) | (
            if successful {
                1u64 << 56
            } else {
                0u64
            }),
    ;
}

/// Re-encoding a word's own decoded triple reproduces the word
/// bit-for-bit.
pub proof fn lemma_encode_of_decode(word: u64)
    ensures
        spec_encode(word, spec_priority(word), spec_tries(word), spec_successful(word)) == word,
{
    assert((word & !0x01ff_0000_0000_0000) | (((word >> 48) & 0xf) << 48) | (((word >> 52) & 0xf)
        << 52) | (if (word >> 56) & 1 == 1 {
        1u64 << 56
    } else {
        0u64
    }) == word) by (bit_vector);
}

/// A set is eligible to boot when it is marked successful or still has
/// tries remaining.
pub open spec fn spec_eligible(tries: u64, successful: bool) -> bool {
    successful || tries > 0
}

} // verus!
