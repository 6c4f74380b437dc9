use deip::primitives::H160;

#[test]
fn from_be_bytes_splits_high_and_low_parts() {
    let mut bytes = [0u8; 20];
    bytes[3] = 1;
    bytes[19] = 2;
    bytes[4] = 0x80;
    let h = H160::from_be_bytes(&bytes);
    assert_eq!(h.hi, 1);
    assert_eq!(h.lo, (0x80u128 << 120) | 2);
}

#[test]
fn to_be_bytes_round_trips() {
    let h = H160::new(0xdead_beef, 0x0102_0304_0506_0708_090a_0b0c_0d0e_0f10);
    let bytes = h.to_be_bytes();
    assert_eq!(&bytes[0..4], &[0xde, 0xad, 0xbe, 0xef]);
    assert_eq!(bytes[4], 0x01);
    assert_eq!(bytes[19], 0x10);
    assert_eq!(H160::from_be_bytes(&bytes), h);
}

#[test]
fn bytes_agree_with_the_runtime_identifier() {
    let mut bytes = [0u8; 20];
    bytes[12..20].copy_from_slice(&0x0123_4567_89ab_cdefu64.to_be_bytes());
    let runtime = sp_core::H160(bytes);
    let h = H160::from_be_bytes(&runtime.0);
    assert_eq!(h, H160::new(0, 0x0123_4567_89ab_cdef));
    assert_eq!(h.to_be_bytes(), runtime.0);
}

#[test]
fn order_follows_the_runtime_identifier_order() {
    let mut a_bytes = [0u8; 20];
    a_bytes[19] = 5;
    let a = sp_core::H160(a_bytes);
    let mut b_bytes = [0u8; 20];
    b_bytes[0] = 1;
    let b = sp_core::H160(b_bytes);
    assert!(a < b);
    assert!(H160::from_be_bytes(&a.0).lt(&H160::from_be_bytes(&b.0)));
    assert!(!H160::from_be_bytes(&b.0).lt(&H160::from_be_bytes(&a.0)));
}
