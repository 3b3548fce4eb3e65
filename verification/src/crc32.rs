//! CRC-32 (the reflected polynomial used by the GPT structures),
//! computed bit by bit and verified against a direct mathematical
//! definition over byte sequences.

use vstd::prelude::*;

verus! {

/// The reflected generator polynomial.
pub const POLY: u32 = 0xedb8_8320;

/// One shift-and-conditionally-xor step on the running remainder.
pub open spec fn spec_step_bit(crc: u32) -> u32 {
    if crc & 1 == 1 {
        (crc >> 1) ^ 0xedb8_8320
    } else {
        crc >> 1
    }
}

/// `n` bit steps on the running remainder.
pub open spec fn spec_step_bits(crc: u32, n: nat) -> u32
    decreases n,
{
    if n == 0 {
        crc
    } else {
        spec_step_bits(spec_step_bit(crc), (n - 1) as nat)
    }
}

/// Folds one byte into the running remainder.
pub open spec fn spec_step_byte(crc: u32, byte: u8) -> u32 {
    spec_step_bits(crc ^ (byte as u32), 8)
}

/// The running remainder after folding a whole byte sequence into the
/// all-ones initial state.
pub open spec fn spec_state(s: Seq<u8>) -> u32
    decreases s.len(),
{
    if s.len() == 0 {
        0xffff_ffffu32
    } else {
        spec_step_byte(spec_state(s.drop_last()), s.last())
    }
}

/// The CRC-32 checksum of a byte sequence: the final remainder with
/// every bit inverted.
pub open spec fn spec_crc32(s: Seq<u8>) -> u32 {
    !spec_state(s)
}

/// Computes the checksum of `bytes[start..end]`.
pub fn crc32_range(bytes: &Vec<u8>, start: usize, end: usize) -> (r: u32)
    requires
        start <= end <= bytes@.len(),
    ensures
        r == spec_crc32(bytes@.subrange(start as int, end as int)),
{
    let mut crc: u32 = 0xffff_ffff;
    let mut i: usize = start;
    proof {
        assert(bytes@.subrange(start as int, start as int) =~= Seq::<u8>::empty());
    }
    while i < end
        invariant
            start <= i <= end <= bytes@.len(),
            crc == spec_state(bytes@.subrange(start as int, i as int)),
        decreases end - i,
    {
        let byte = bytes[i];
        crc = crc ^ (byte as u32);
        let mut k: usize = 0;
        let ghost entry: u32 = crc;
        while k < 8
            invariant
                k <= 8,
                crc == spec_step_bits(entry, k as nat),
            decreases 8 - k,
        {
            proof {
                lemma_step_bits_unfold(entry, k as nat);
            }
            if crc & 1 == 1 {
                crc = (crc >> 1) ^ POLY;
            } else {
                crc = crc >> 1;
            }
            k = k + 1;
        }
        proof {
            let pre = bytes@.subrange(start as int, i as int);
            let post = bytes@.subrange(start as int, i + 1);
            assert(post.drop_last() =~= pre);
            assert(post.last() == bytes@[i as int]);
        }
        i = i + 1;
    }
    !crc
}

/// Unfolding step: `n + 1` bit steps are one bit step after `n`.
proof fn lemma_step_bits_unfold(crc: u32, n: nat)
    ensures
        spec_step_bits(crc, n + 1) == spec_step_bit(spec_step_bits(crc, n)),
    decreases n,
{
    if n == 0 {
        assert(spec_step_bits(crc, 1) == spec_step_bits(spec_step_bit(crc), 0));
    } else {
        lemma_step_bits_unfold(spec_step_bit(crc), (n - 1) as nat);
        assert(spec_step_bits(crc, n + 1) == spec_step_bits(spec_step_bit(crc), n));
        assert(spec_step_bits(crc, n) == spec_step_bits(spec_step_bit(crc), (n - 1) as nat));
    }
}

} // verus!
