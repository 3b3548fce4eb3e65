use signpost::crc32::crc32_range;
use signpost::guid::Identifier;
use signpost::guid::Slot;
use signpost::guid::KERNEL_A_HI;
use signpost::guid::KERNEL_A_LO;
use signpost::guid::KERNEL_B_HI;
use signpost::guid::KERNEL_B_LO;
use signpost::guid::ROOT_B_HI;
use signpost::guid::ROOT_B_LO;
use signpost::prio::decode;
use signpost::prio::encode;
use signpost::prio::MAX_PRIORITY;
use signpost::prio::MAX_TRIES;

#[test]
fn decode_extracts_the_three_fields() {
    // priority 5 at bit 48, tries 3 at bit 52, successful at bit 56
    let word: u64 = (5u64 << 48) | (3u64 << 52) | (1u64 << 56);
    assert_eq!(decode(word), (5, 3, true));
}

#[test]
fn decode_ignores_unmanaged_bits() {
    let word: u64 = 0x0000_ffff_ffff_ffff | (2u64 << 48);
    assert_eq!(decode(word), (2, 0, false));
}

#[test]
fn encode_round_trips_every_triple() {
    let words: [u64; 3] = [0, u64::MAX, 0x8000_0000_0000_0007];
    for &w in words.iter() {
        for p in 0..=MAX_PRIORITY {
            for t in 0..=MAX_TRIES {
                for &s in [false, true].iter() {
                    let e = encode(w, p, t, s);
                    assert_eq!(decode(e), (p, t, s));
                }
            }
        }
    }
}

#[test]
fn encode_preserves_unmanaged_bits() {
    let managed: u64 = 0x01ff_0000_0000_0000;
    let words: [u64; 3] = [0, u64::MAX, 0xdead_beef_cafe_f00d];
    for &w in words.iter() {
        let e = encode(w, 7, 1, true);
        assert_eq!(e & !managed, w & !managed);
    }
}

#[test]
fn encode_exact_bit_pattern() {
    let e = encode(0, 4, 15, false);
    assert_eq!(e, (4u64 << 48) | (15u64 << 52));
}

#[test]
fn crc32_check_value() {
    // The standard check input for this polynomial and reflection.
    let bytes: Vec<u8> = b"123456789".to_vec();
    assert_eq!(crc32_range(&bytes, 0, 9), 0xcbf4_3926);
}

#[test]
fn crc32_empty_range() {
    let bytes: Vec<u8> = vec![1, 2, 3];
    assert_eq!(crc32_range(&bytes, 1, 1), 0);
}

#[test]
fn crc32_subrange_only() {
    let a: Vec<u8> = vec![9, 1, 2, 3, 9];
    let b: Vec<u8> = vec![1, 2, 3];
    assert_eq!(crc32_range(&a, 1, 4), crc32_range(&b, 0, 3));
}

#[test]
fn identifier_round_trip() {
    let bytes: Vec<u8> = (0u8..16u8).collect();
    let id = Identifier::from_bytes(&bytes);
    assert_eq!(id.to_bytes(), bytes);
}

#[test]
fn identifier_equality_is_byte_for_byte() {
    let a = Identifier { lo: 1, hi: 2 };
    let b = Identifier { lo: 1, hi: 2 };
    let c = Identifier { lo: 1, hi: 3 };
    assert_eq!(a, b);
    assert_ne!(a, c);
}

#[test]
fn identifier_text_is_mixed_endian() {
    let bytes: Vec<u8> = vec![
        0x00, 0x11, 0x22, 0x33, 0x44, 0x55, 0x66, 0x77, 0x88, 0x99, 0xaa, 0xbb, 0xcc, 0xdd, 0xee,
        0xff,
    ];
    let id = Identifier::from_bytes(&bytes);
    let text: String = id.to_chars().into_iter().collect();
    assert_eq!(text, "33221100-5544-7766-8899-aabbccddeeff");
}

#[test]
fn catalog_classifies_known_roles() {
    let ka = Identifier { lo: KERNEL_A_LO, hi: KERNEL_A_HI };
    let kb = Identifier { lo: KERNEL_B_LO, hi: KERNEL_B_HI };
    let rb = Identifier { lo: ROOT_B_LO, hi: ROOT_B_HI };
    let other = Identifier { lo: 0x1234, hi: 0x5678 };
    assert_eq!(ka.slot(), Some(Slot::A));
    assert_eq!(kb.slot(), Some(Slot::B));
    assert_eq!(rb.slot(), Some(Slot::B));
    assert_eq!(other.slot(), None);
}
