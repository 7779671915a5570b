use duneview::tables::{cos_at, sin_at, SIN_TABLE};

#[test]
fn sin_table_has_256_entries_spanning_signed_bytes() {
    assert_eq!(SIN_TABLE.len(), 256);
    for &v in SIN_TABLE.iter() {
        assert!((-127..=127).contains(&(v as i32)));
    }
}

#[test]
fn sin_known_values() {
    assert_eq!(sin_at(0), 0);
    assert_eq!(sin_at(64), 127);
    assert_eq!(sin_at(128), 0);
    assert_eq!(sin_at(192), -127);
    assert_eq!(sin_at(1), 3);
    assert_eq!(sin_at(255), -3);
}

#[test]
fn cos_is_sine_shifted_by_65() {
    for i in 0..256 {
        assert_eq!(cos_at(i), sin_at((i + 65) & 255));
    }
}

#[test]
fn lookups_wrap_modulo_256() {
    for i in -600..600 {
        assert_eq!(sin_at(i), sin_at(i & 255));
        assert_eq!(cos_at(i), cos_at(i & 255));
    }
    assert_eq!(sin_at(-1), sin_at(255));
    assert_eq!(sin_at(i32::MIN), sin_at(0));
}
