use unblind::field::{bytes_equal, fe_equal, fe_from_u64, fe_zero};

#[test]
fn zero_equals_from_u64_zero() {
    let z = fe_zero();
    let z2 = fe_from_u64(0);
    assert!(fe_equal(&z, &z2));
    assert_eq!(z.bytes.len(), 32);
    assert_eq!(z.bytes, z2.bytes);
}

#[test]
fn distinct_values_differ() {
    let a = fe_from_u64(41);
    let b = fe_from_u64(42);
    assert!(!fe_equal(&a, &b));
    assert!(fe_equal(&a, &fe_from_u64(41)));
}

#[test]
fn from_u64_little_endian_bytes() {
    let a = fe_from_u64(0x0102);
    assert_eq!(a.bytes[0], 0x02);
    assert_eq!(a.bytes[1], 0x01);
    assert_eq!(a.bytes[2], 0x00);
    assert!(bytes_equal(&a.bytes, &a.bytes));
}
