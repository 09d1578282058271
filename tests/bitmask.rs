use ipcalc::bitmask::{Bitmask, BitmaskV4, BitmaskV6, MaskError};
use ipcalc::types::Version;

#[test]
fn bitmask_v4_correct() {
    let bitmask = BitmaskV4::new(24);
    assert!(bitmask.is_ok());
    let bitmask = bitmask.unwrap();
    assert_eq!(bitmask.bits_number(), 24);
    assert_eq!(bitmask.get(), 0xffffff00);
    assert_eq!(bitmask.addresses_number(), 254);
    assert_eq!(bitmask.to_bitstring(), "11111111.11111111.11111111.00000000");
}

#[test]
fn bitmask_v4_incorrect() {
    let bitmask = BitmaskV4::new(32);
    assert!(bitmask.is_err());
}

#[test]
fn bitmask_v6_correct() {
    let bitmask = BitmaskV6::new(126);
    assert!(bitmask.is_ok());
    let bitmask = bitmask.unwrap();
    assert_eq!(bitmask.bits_number(), 126);
    assert_eq!(bitmask.get(), 0xfffffffffffffffffffffffffffffffc);
    assert_eq!(bitmask.addresses_number(), 4);
    assert_eq!(bitmask.to_bitstring(), "1111111111111111:1111111111111111:1111111111111111:1111111111111111:1111111111111111:1111111111111111:1111111111111111:1111111111111100")
}

#[test]
fn bitmask_v6_incorrect() {
    let bitmask = BitmaskV6::new(129);
    assert!(bitmask.is_err());
}

#[test]
fn bitmask_v4_boundary() {
    assert_eq!(BitmaskV4::new(31).unwrap_err(), MaskError::InvalidPrefix);
    let m = BitmaskV4::new(30).unwrap();
    assert_eq!(m.addresses_number(), 2);
    assert_eq!(m.get(), 0xfffffffc);
    let m = Bitmask::new(Version::IpV4, 30).unwrap();
    assert_eq!(m.addresses_number(), 2);
    assert_eq!(Bitmask::new(Version::IpV4, 31).unwrap_err(), MaskError::InvalidPrefix);
}

#[test]
fn bitmask_v6_boundary() {
    assert_eq!(BitmaskV6::new(127).unwrap_err(), MaskError::InvalidPrefix);
    let m = BitmaskV6::new(125).unwrap();
    assert_eq!(m.addresses_number(), 8);
    let m = Bitmask::new(Version::IpV6, 126).unwrap();
    assert_eq!(m.addresses_number(), 4);
    assert_eq!(Bitmask::new(Version::IpV6, 127).unwrap_err(), MaskError::InvalidPrefix);
}

#[test]
fn bitmask_zero_prefix() {
    let m = BitmaskV4::new(0).unwrap();
    assert_eq!(m.get(), 0);
    assert_eq!(m.addresses_number(), 4294967294);
    let m = BitmaskV6::new(0).unwrap();
    assert_eq!(m.get(), 0);
    let m = BitmaskV6::new(1).unwrap();
    assert_eq!(m.get(), 1 << 127);
    assert_eq!(m.addresses_number(), 1 << 127);
}

#[test]
fn bitmask_enum_accessors() {
    let m = Bitmask::new(Version::IpV4, 28).unwrap();
    assert_eq!(m.get(), 0xfffffff0);
    assert_eq!(m.bits_number(), 28);
    assert_eq!(m.to_bitstring(), "11111111.11111111.11111111.11110000");
    assert_eq!(m.addresses_number(), 14);
    let m = Bitmask::new(Version::IpV6, 16).unwrap();
    assert_eq!(m.get(), 0xffff << 112);
    assert_eq!(m.bits_number(), 16);
    assert_eq!(m.to_bitstring(), "1111111111111111:0000000000000000:0000000000000000:0000000000000000:0000000000000000:0000000000000000:0000000000000000:0000000000000000");
}
