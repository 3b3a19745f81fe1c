use unique_rename::name::{canonical, generate_new_name, hex_digit, name_of};

fn looks_canonical(name: &str) -> bool {
    let bytes = name.as_bytes();
    bytes.len() == 36
        && bytes.iter().enumerate().all(|(i, b)| {
            if i == 8 || i == 13 || i == 18 || i == 23 {
                *b == b'-'
            } else {
                b.is_ascii_digit() || (b'a'..=b'f').contains(b)
            }
        })
}

#[test]
fn name_of_formats_each_byte_as_two_lower_case_digits() {
    let bytes = [
        0x93, 0x6d, 0xa0, 0x1f, 0x9a, 0xbd, 0x4d, 0x9d, 0x80, 0xc7, 0x02, 0xaf, 0x85, 0xc8, 0x22,
        0xa8,
    ];
    assert_eq!(name_of(&bytes), "936da01f-9abd-4d9d-80c7-02af85c822a8");
}

#[test]
fn name_of_zero_bytes() {
    assert_eq!(name_of(&[0u8; 16]), "00000000-0000-0000-0000-000000000000");
}

#[test]
fn name_of_all_ones() {
    assert_eq!(name_of(&[0xffu8; 16]), "ffffffff-ffff-ffff-ffff-ffffffffffff");
}

#[test]
fn name_of_counts_up() {
    let mut bytes = [0u8; 16];
    for (i, b) in bytes.iter_mut().enumerate() {
        *b = (i as u8) * 17;
    }
    assert_eq!(name_of(&bytes), "00112233-4455-6677-8899-aabbccddeeff");
}

#[test]
fn name_of_is_always_canonical() {
    let mut bytes = [0u8; 16];
    for round in 0..=255u8 {
        for (i, b) in bytes.iter_mut().enumerate() {
            *b = round.wrapping_mul(31).wrapping_add((i as u8).wrapping_mul(97));
        }
        let name = name_of(&bytes);
        assert!(canonical(&name));
        assert!(looks_canonical(&name));
    }
}

#[test]
fn generated_name_is_canonical() {
    for _ in 0..200 {
        let name = generate_new_name();
        assert!(canonical(&name), "{}", name);
        assert!(looks_canonical(&name), "{}", name);
        assert_eq!(name.len(), 36);
    }
}

#[test]
fn generated_name_shows_version_and_variant() {
    for _ in 0..200 {
        let name = generate_new_name();
        let bytes = name.as_bytes();
        assert_eq!(bytes[14], b'4');
        assert!(matches!(bytes[19], b'8' | b'9' | b'a' | b'b'));
    }
}

#[test]
fn generated_names_differ() {
    let mut seen = std::collections::HashSet::new();
    for _ in 0..1000 {
        assert!(seen.insert(generate_new_name()));
    }
}

#[test]
fn canonical_accepts_the_canonical_form_only() {
    assert!(canonical("936da01f-9abd-4d9d-80c7-02af85c822a8"));
    assert!(canonical("00000000-0000-0000-0000-000000000000"));
    assert!(!canonical(""));
    assert!(!canonical("936da01f9abd4d9d80c702af85c822a8"));
    assert!(!canonical("936DA01F-9ABD-4D9D-80C7-02AF85C822A8"));
    assert!(!canonical("936da01f-9abd-4d9d-80c7-02af85c822a"));
    assert!(!canonical("936da01f-9abd-4d9d-80c7-02af85c822a8a"));
    assert!(!canonical("936da01f-9abd-4d9d-80c7-02af85c822ag"));
    assert!(!canonical("936da01f-9abd-4d9d-80c7002af85c822a8"));
    assert!(!canonical("936da01f-9abd-4d9d-80c7-02af85c8-2a8"));
    assert!(!canonical("936da01f-9abd-4d9d-80c7-02af85c822\u{e9}8"));
}

#[test]
fn hex_digit_accepts_lower_case_only() {
    for c in "0123456789abcdef".chars() {
        assert!(hex_digit(c));
    }
    for c in "ABCDEFgG-/ .`:@".chars() {
        assert!(!hex_digit(c));
    }
}

#[test]
fn different_identifiers_have_different_names() {
    let base = [0x5au8; 16];
    let name = name_of(&base);
    for k in 0..16 {
        for bit in 0..8 {
            let mut other = base;
            other[k] ^= 1 << bit;
            assert_ne!(name_of(&other), name, "byte {} bit {}", k, bit);
        }
    }
}
