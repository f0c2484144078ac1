use qemu_harness::text::{chars_of, contains_chars, push_decimal};
use qemu_harness::util::{generate_mac, mac_from_bytes, SshConfig};

fn is_qemu_mac(m: &str) -> bool {
    let b = m.as_bytes();
    m.len() == 17
        && m.starts_with("52:54:00:")
        && b[11] == b':'
        && b[14] == b':'
        && [9, 10, 12, 13, 15, 16].iter().all(|&i| matches!(b[i], b'0'..=b'9' | b'a'..=b'f'))
}

#[test]
fn mac_from_bytes_formats_lower_hex() {
    assert_eq!(mac_from_bytes([0x00, 0xab, 0xff]), "52:54:00:00:ab:ff");
    assert_eq!(mac_from_bytes([0x12, 0x09, 0xa0]), "52:54:00:12:09:a0");
    for b in [[1u8, 2, 3], [255, 0, 16], [0x7f, 0x80, 0x0f]] {
        assert_eq!(mac_from_bytes(b), format!("52:54:00:{:02x}:{:02x}:{:02x}", b[0], b[1], b[2]));
    }
}

#[test]
fn generated_macs_are_in_qemu_range() {
    for _ in 0..20 {
        let m = generate_mac().expect("random source failed");
        assert!(is_qemu_mac(&m), "{m}");
    }
}

#[test]
fn ssh_config_has_a_mac() {
    let c = SshConfig::new().expect("random source failed");
    assert!(is_qemu_mac(c.mac()));
    let d = c.clone();
    assert_eq!(d.mac(), c.mac());
}

#[test]
fn decimal_strings() {
    for n in [0u64, 7, 10, 99, 100, 12345, u64::MAX] {
        let mut s = "x".to_string();
        push_decimal(&mut s, n);
        assert_eq!(s, format!("x{n}"));
    }
}

#[test]
fn substring_search() {
    let h = chars_of("abcabd");
    assert!(contains_chars(&h, &chars_of("abd")));
    assert!(contains_chars(&h, &chars_of("")));
    assert!(contains_chars(&h, &chars_of("abcabd")));
    assert!(!contains_chars(&h, &chars_of("abdx")));
    assert!(!contains_chars(&h, &chars_of("acb")));
    assert!(!contains_chars(&chars_of(""), &chars_of("a")));
    assert_eq!(chars_of("aü€"), vec!['a', 'ü', '€']);
}
