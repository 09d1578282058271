use ipcalc::address::{Address, AddressError, AddressV4, AddressV6};
use ipcalc::bitmask::{Bitmask, BitmaskV4, BitmaskV6};
use ipcalc::types::Version;

#[test]
fn address_v4_correct_from_u32() {
    let address = AddressV4::from_u32(0xbcdaf000);
    assert_eq!(address.as_u32(), 0xbcdaf000);
    assert_eq!(address.to_string(), "188.218.240.0");
    assert_eq!(address.to_bitstring(), "10111100.11011010.11110000.00000000");
}

#[test]
fn address_v4_correct_from_string() {
    let address = AddressV4::from_string("188.218.240.0");
    assert!(address.is_ok());
    let address = address.unwrap();
    assert_eq!(address.as_u32(), 0xbcdaf000);
    assert_eq!(address.to_string(), "188.218.240.0");
    assert_eq!(address.to_bitstring(), "10111100.11011010.11110000.00000000");
}

#[test]
fn address_v4_correct_from_bytes() {
    let address = AddressV4::from_bytes([0xbc, 0xda, 0xf0, 0x00]);
    assert_eq!(address.as_u32(), 0xbcdaf000);
    assert_eq!(address.to_string(), "188.218.240.0");
    assert_eq!(address.to_bitstring(), "10111100.11011010.11110000.00000000");
}

#[test]
fn address_v4_incorrect_from_string() {
    let address = AddressV4::from_string("123|123.423.432.23");
    assert!(address.is_err());
}

#[test]
fn address_v6_correct_from_u128() {
    let address = AddressV6::from_u128(0xFABC1234BEEF45640000EEFD11124123);
    assert_eq!(address.as_u128(), 0xFABC1234BEEF45640000EEFD11124123);
    assert_eq!(address.to_string(), "fabc:1234:beef:4564:0000:eefd:1112:4123");
    assert_eq!(address.to_bitstring(), "1111101010111100:0001001000110100:1011111011101111:0100010101100100:0000000000000000:1110111011111101:0001000100010010:0100000100100011");
}

#[test]
fn address_v6_correct_from_string() {
    let address = AddressV6::from_string("fabc:1234:beef:4564:0000:eefd:1112:4123");
    assert!(address.is_ok());
    let address = address.unwrap();
    assert_eq!(address.as_u128(), 0xFABC1234BEEF45640000EEFD11124123);
    assert_eq!(address.to_string(), "fabc:1234:beef:4564:0000:eefd:1112:4123");
    assert_eq!(address.to_bitstring(), "1111101010111100:0001001000110100:1011111011101111:0100010101100100:0000000000000000:1110111011111101:0001000100010010:0100000100100011");
}

#[test]
fn address_v6_correct_from_bytes() {
    let address = AddressV6::from_bytes([0xFA, 0xBC, 0x12, 0x34, 0xBE, 0xEF, 0x45, 0x64, 0x00, 0x00, 0xEE, 0xFD, 0x11, 0x12, 0x41, 0x23]);
    assert_eq!(address.as_u128(), 0xFABC1234BEEF45640000EEFD11124123);
    assert_eq!(address.to_string(), "fabc:1234:beef:4564:0000:eefd:1112:4123");
    assert_eq!(address.to_bitstring(), "1111101010111100:0001001000110100:1011111011101111:0100010101100100:0000000000000000:1110111011111101:0001000100010010:0100000100100011");
}

#[test]
fn address_v6_incorrect_from_string() {
    let address = AddressV6::from_string("123|123.423.432.23");
    assert!(address.is_err());
}

#[test]
fn v4_text_round_trips() {
    for s in ["0.0.0.0", "255.255.255.255", "10.0.0.1", "192.168.110.14", "1.22.133.4"] {
        assert_eq!(Address::from_string(s).unwrap().to_string(), s);
        assert_eq!(AddressV4::from_string(s).unwrap().to_string(), s);
    }
}

#[test]
fn v6_text_round_trips() {
    for s in [
        "0000:0000:0000:0000:0000:0000:0000:0000",
        "ffff:ffff:ffff:ffff:ffff:ffff:ffff:ffff",
        "feed:1234:abcd:5345:6576:1234:abcd:abcd",
    ] {
        assert_eq!(Address::from_string(s).unwrap().to_string(), s);
        assert_eq!(AddressV6::from_string(s).unwrap().to_string(), s);
    }
}

#[test]
fn v4_parse_accepts_leading_zeros_and_renders_canonically() {
    let a = AddressV4::from_string("010.001.000.255").unwrap();
    assert_eq!(a.as_u32(), 0x0a0100ff);
    assert_eq!(a.to_string(), "10.1.0.255");
}

#[test]
fn v6_parse_accepts_upper_case_and_renders_lower_case() {
    let a = AddressV6::from_string("FEED:1234:ABCD:5345:6576:1234:ABCD:ABCD").unwrap();
    assert_eq!(a.to_string(), "feed:1234:abcd:5345:6576:1234:abcd:abcd");
}

#[test]
fn v4_parse_errors() {
    for s in ["", "1.2.3", "1.2.3.4.5", "1.2.3.256", "1..3.4", "1.2.3.-4", "+1.2.3.4", "a.b.c.d", "1.2.3.4 "] {
        assert_eq!(AddressV4::from_string(s), Err(AddressError::ParseError), "{}", s);
    }
}

#[test]
fn v6_parse_errors() {
    for s in [
        "",
        "::1",
        "feed:1234:abcd:5345:6576:1234:abcd",
        "feed:1234:abcd:5345:6576:1234:abcd:abcd:0000",
        "feed:1234:abcd:5345:6576:1234:abcd:abc",
        "feed:1234:abcd:5345:6576:1234:abcd:abcde",
        "feed:1234:abcd:5345:6576:1234:abcd:abcg",
        "+eed:1234:abcd:5345:6576:1234:abcd:abcd",
    ] {
        assert_eq!(AddressV6::from_string(s), Err(AddressError::ParseError), "{}", s);
    }
    assert_eq!(Address::from_string("1.2.3"), Err(AddressError::ParseError));
}

#[test]
fn address_families_from_string() {
    let a = Address::from_string("192.168.0.1").unwrap();
    assert_eq!(a, Address::V4(AddressV4::from_u32(0xc0a80001)));
    let b = Address::from_string("0000:0000:0000:0000:0000:0000:0000:0001").unwrap();
    assert_eq!(b, Address::V6(AddressV6::from_u128(1)));
}

#[test]
fn address_from_bytes_and_as_bytes() {
    let a = Address::from_bytes(&[192, 168, 0, 1]);
    assert_eq!(a, Address::from_u32(0xc0a80001));
    assert_eq!(a.as_bytes(), vec![192, 168, 0, 1]);
    let bytes: Vec<u8> = (1..=16).collect();
    let b = Address::from_bytes(&bytes);
    assert_eq!(b, Address::from_u128(0x0102030405060708090a0b0c0d0e0f10));
    assert_eq!(b.as_bytes(), bytes);
    assert_eq!(AddressV4::from_u32(0x01020304).as_bytes(), [1, 2, 3, 4]);
    assert_eq!(AddressV6::from_u128(0x0102030405060708090a0b0c0d0e0f10).as_bytes().to_vec(), bytes);
}

#[test]
fn address_next_and_overflow() {
    assert_eq!(AddressV4::from_u32(7).next(), Ok(AddressV4::from_u32(8)));
    assert_eq!(AddressV4::from_u32(u32::MAX).next(), Err(AddressError::AddressOverflow));
    assert_eq!(AddressV6::from_u128(u128::MAX - 1).next(), Ok(AddressV6::from_u128(u128::MAX)));
    assert_eq!(AddressV6::from_u128(u128::MAX).next(), Err(AddressError::AddressOverflow));
    assert_eq!(Address::from_u32(255).next(), Ok(Address::from_u32(256)));
    assert_eq!(Address::from_u32(u32::MAX).next(), Err(AddressError::AddressOverflow));
    assert_eq!(Address::from_u128(u128::MAX).next(), Err(AddressError::AddressOverflow));
}

#[test]
fn address_set_value() {
    let mut a = AddressV4::from_u32(1);
    a.set_u32(0x7f000001);
    assert_eq!(a.to_string(), "127.0.0.1");
    let mut b = AddressV6::from_u128(1);
    b.set_u128(2);
    assert_eq!(b.as_u128(), 2);
}

#[test]
fn apply_bitmask_masks_and_checks_family() {
    let a = Address::from_string("192.168.110.77").unwrap();
    let m4 = Bitmask::new(Version::IpV4, 28).unwrap();
    let m6 = Bitmask::new(Version::IpV6, 64).unwrap();
    let masked = a.apply_bitmask(&m4).unwrap();
    assert_eq!(masked.to_string(), "192.168.110.64");
    assert_eq!(masked.apply_bitmask(&m4), Ok(masked));
    assert_eq!(a.apply_bitmask(&m6), Err(AddressError::FamilyMismatch));
    let b = Address::from_string("feed:1234:abcd:5345:6576:1234:abcd:abcd").unwrap();
    let masked6 = b.apply_bitmask(&m6).unwrap();
    assert_eq!(masked6.to_string(), "feed:1234:abcd:5345:0000:0000:0000:0000");
    assert_eq!(masked6.apply_bitmask(&m6), Ok(masked6));
    assert_eq!(b.apply_bitmask(&m4), Err(AddressError::FamilyMismatch));
    let v4 = AddressV4::from_u32(0xffffffff);
    assert_eq!(v4.apply_bitmask(&Bitmask::V4(BitmaskV4::new(8).unwrap())), Ok(AddressV4::from_u32(0xff000000)));
    let v6 = AddressV6::from_u128(u128::MAX);
    assert_eq!(v6.apply_bitmask(&Bitmask::V6(BitmaskV6::new(120).unwrap())), Ok(AddressV6::from_u128(u128::MAX << 8)));
    assert_eq!(v6.apply_bitmask(&m4), Err(AddressError::FamilyMismatch));
}

#[test]
fn address_bitstrings() {
    assert_eq!(Address::from_u32(1).to_bitstring(), "00000000.00000000.00000000.00000001");
    assert_eq!(Address::from_u128(1 << 127).to_bitstring(), "1000000000000000:0000000000000000:0000000000000000:0000000000000000:0000000000000000:0000000000000000:0000000000000000:0000000000000000");
}
