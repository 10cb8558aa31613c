use mini_canvas::hash::{hash_bytes, FNV_OFFSET, FNV_PRIME};

fn reference_fnv1a(bytes: &[u8]) -> u64 {
    let mut h = FNV_OFFSET;
    for b in bytes {
        h ^= *b as u64;
        h = h.wrapping_mul(FNV_PRIME);
    }
    h
}

#[test]
fn fnv1a_known_values() {
    assert_eq!(hash_bytes(b""), 0xcbf2_9ce4_8422_2325);
    assert_eq!(hash_bytes(b"a"), 0xaf63_dc4c_8601_ec8c);
    assert_eq!(hash_bytes(b"foobar"), 0x8594_4171_f739_67e8);
}

#[test]
fn eight_byte_rounds_match_byte_at_a_time() {
    let data: Vec<u8> = (0u32..53).map(|i| (i * 37 + 11) as u8).collect();
    for len in 0..data.len() {
        assert_eq!(hash_bytes(&data[..len]), reference_fnv1a(&data[..len]));
    }
}

#[test]
fn different_images_hash_differently() {
    assert_ne!(hash_bytes(b"\x89PNG red"), hash_bytes(b"\x89PNG blue"));
}
