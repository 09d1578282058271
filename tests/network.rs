use ipcalc::address::{Address, AddressError};
use ipcalc::bitmask::Bitmask;
use ipcalc::network::Network;
use ipcalc::types::Version;

#[test]
fn v4_network_scenario() {
    let network = Network::new(
        Address::from_string("192.168.110.0").unwrap(),
        Bitmask::new(Version::IpV4, 28).unwrap(),
    )
    .unwrap();
    let mask = Bitmask::new(Version::IpV4, 28).unwrap();
    assert_eq!(mask.get(), 0xfffffff0);
    assert_eq!(network.to_string(), "192.168.110.0/28");
    assert_eq!(network.name(), "192.168.110.0");
    assert_eq!(network.name_as_bits(), "11000000.10101000.01101110.00000000");
    assert_eq!(network.mask(), "11111111.11111111.11111111.11110000");
    assert_eq!(network.addresses_number(), 14);
    let addresses = network.get_available_addresses().unwrap();
    assert_eq!(addresses.len(), 14);
    assert_eq!(addresses[0].to_string(), "192.168.110.1");
    assert_eq!(addresses[13].to_string(), "192.168.110.14");
}

#[test]
fn network_clears_host_bits() {
    let network = Network::new(
        Address::from_string("192.168.110.77").unwrap(),
        Bitmask::new(Version::IpV4, 24).unwrap(),
    )
    .unwrap();
    assert_eq!(network.to_string(), "192.168.110.0/24");
    let name = Network::address_to_name(Address::from_u32(0x0a0b0c0d), &Bitmask::new(Version::IpV4, 16).unwrap());
    assert_eq!(name, Ok(Address::from_u32(0x0a0b0000)));
}

#[test]
fn network_family_mismatch() {
    let r = Network::new(Address::from_u32(1), Bitmask::new(Version::IpV6, 64).unwrap());
    assert_eq!(r.err(), Some(AddressError::FamilyMismatch));
    let r = Network::address_to_name(Address::from_u128(1), &Bitmask::new(Version::IpV4, 8).unwrap());
    assert_eq!(r, Err(AddressError::FamilyMismatch));
}

#[test]
fn v6_network_count_matches_enumeration() {
    let network = Network::new(
        Address::from_string("feed:1234:abcd:5345:6576:1234:abcd:abcd").unwrap(),
        Bitmask::new(Version::IpV6, 125).unwrap(),
    )
    .unwrap();
    assert_eq!(network.addresses_number(), 8);
    let addresses = network.get_available_addresses().unwrap();
    assert_eq!(addresses.len() as u128, network.addresses_number());
    assert_eq!(addresses[0].to_string(), "feed:1234:abcd:5345:6576:1234:abcd:abc9");
    assert_eq!(addresses[7].to_string(), "feed:1234:abcd:5345:6576:1234:abcd:abd0");
    assert_eq!(network.to_string(), "feed:1234:abcd:5345:6576:1234:abcd:abc8/125");
}

#[test]
fn v6_enumeration_past_the_last_address_fails() {
    let network = Network::new(Address::from_u128(u128::MAX), Bitmask::new(Version::IpV6, 126).unwrap()).unwrap();
    assert_eq!(network.name(), "ffff:ffff:ffff:ffff:ffff:ffff:ffff:fffc");
    assert_eq!(network.get_available_addresses(), Err(AddressError::AddressOverflow));
}

#[test]
fn v4_enumeration_at_the_top_of_the_space() {
    let network = Network::new(Address::from_u32(u32::MAX), Bitmask::new(Version::IpV4, 30).unwrap()).unwrap();
    let addresses = network.get_available_addresses().unwrap();
    assert_eq!(addresses, vec![Address::from_u32(u32::MAX - 2), Address::from_u32(u32::MAX - 1)]);
    assert_eq!(addresses.len() as u128, network.addresses_number());
}
