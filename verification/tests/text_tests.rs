use serial_repack::text::{decimal_string, str_eq};

#[test]
fn decimal_matches_to_string() {
    for n in [0u64, 7, 10, 99, 100, 12345, u64::MAX] {
        assert_eq!(decimal_string(n), n.to_string());
    }
}

#[test]
fn str_eq_compares_characters() {
    assert!(str_eq("none", "none"));
    assert!(!str_eq("none", "None"));
    assert!(!str_eq("odd", "odd "));
    assert!(str_eq("", ""));
}
