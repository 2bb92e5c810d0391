use abo_builder::uuid::{format_uuid, name_to_uuid};

/// The id computed step by step: the hash of the name's bytes, then the marks.
fn expected_uuid(name: &str) -> [u8; 16] {
    let mut h: u64 = 0x1234_5678_9ABC_DEF0;
    for b in name.bytes() {
        h = h.wrapping_mul(0x100_0000_01B3).wrapping_add(b as u64);
    }
    let hb = h.to_le_bytes();
    [
        0x41, 0x73, 0x74, 0x65, hb[0], hb[1], (hb[2] & 0x0f) | 0x40, hb[3], (hb[4] & 0x3f) | 0x80,
        hb[5], hb[6], hb[7], 0, 0, 0, 0,
    ]
}

#[test]
fn format_uuid_groups() {
    let u: [u8; 16] = [0x41, 0x73, 0x74, 0x65, 1, 2, 0x43, 4, 0x85, 6, 7, 8, 0, 0, 0, 0xff];
    assert_eq!(format_uuid(&u), "41737465-0102-4304-8506-0708000000ff");
    assert_eq!(format_uuid(&[0xab; 16]), "abababab-abab-abab-abab-abababababab");
}

#[test]
fn the_empty_name_hashes_to_the_seed() {
    let u = name_to_uuid("");
    // The seed 0x123456789abcdef0 in little-endian order, with the marks applied.
    assert_eq!(u, [0x41, 0x73, 0x74, 0x65, 0xf0, 0xde, 0x4c, 0x9a, 0xb8, 0x56, 0x34, 0x12, 0, 0, 0, 0]);
    assert_eq!(format_uuid(&u), "41737465-f0de-4c9a-b856-341200000000");
}

#[test]
fn names_give_their_ids() {
    for name in ["init", "a", "service://init", "ünïcødé", "a much longer component name"] {
        assert_eq!(name_to_uuid(name), expected_uuid(name));
    }
    assert_ne!(name_to_uuid("init"), name_to_uuid("inis"));
}

#[test]
fn ids_are_deterministic_and_marked() {
    for name in ["init", "x", "", "abc"] {
        let u = name_to_uuid(name);
        assert_eq!(u, name_to_uuid(name));
        assert_eq!(&u[0..4], b"Aste");
        assert_eq!(u[6] & 0xf0, 0x40);
        assert_eq!(u[8] & 0xc0, 0x80);
        assert_eq!(&u[12..16], &[0, 0, 0, 0]);
        let s = format_uuid(&u);
        assert_eq!(s.len(), 36);
        assert_eq!(s.as_bytes()[8], b'-');
        assert_eq!(s.as_bytes()[13], b'-');
        assert_eq!(s.as_bytes()[14], b'4');
    }
}

/// The id spelled by a textual form.
fn decode(s: &str) -> [u8; 16] {
    let digits: Vec<u8> = s.bytes().filter(|b| *b != b'-').collect();
    let mut u = [0u8; 16];
    for i in 0..16 {
        let hv = |c: u8| if c.is_ascii_digit() { c - b'0' } else { c - b'a' + 10 };
        u[i] = hv(digits[2 * i]) * 16 + hv(digits[2 * i + 1]);
    }
    u
}

#[test]
fn the_textual_form_decodes_to_the_id() {
    for name in ["", "init", "x", "ünïcødé"] {
        let u = name_to_uuid(name);
        assert_eq!(decode(&format_uuid(&u)), u);
    }
    let u: [u8; 16] = core::array::from_fn(|i| (i * 17) as u8);
    assert_eq!(decode(&format_uuid(&u)), u);
    let mut v = u;
    v[15] ^= 1;
    assert_ne!(format_uuid(&u), format_uuid(&v));
}
