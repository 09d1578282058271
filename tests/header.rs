use ipcalc::address::{AddressV4, AddressV6};
use ipcalc::header::{decode, get_version, Header, HeaderError, HeaderV4, HeaderV6};
use ipcalc::types::{TransportProtocolsNumbers, Version};

fn sample_v4() -> HeaderV4 {
    HeaderV4 {
        header_length: 5,
        dscp: 0,
        ecn: 2,
        packet_length: 56,
        id: 0x000F,
        dont_fragment: true,
        has_fragments: false,
        fragment_offset: 0,
        ttl: 62,
        protocol: TransportProtocolsNumbers::Sctp,
        checksum: 0xF109,
        src_ip: AddressV4::from_string("23.41.23.41").unwrap(),
        dst_ip: AddressV4::from_string("117.123.43.12").unwrap(),
    }
}

fn sample_v6() -> HeaderV6 {
    HeaderV6 {
        dscp: 0x0,
        ecn: 0x2,
        flow_label: 0x12345,
        payload_length: 1234,
        next_header: TransportProtocolsNumbers::Sctp,
        hop_limit: 16,
        source_address: AddressV6::from_string("feed:1234:abcd:5345:6576:1234:abcd:abcd").unwrap(),
        destination_address: AddressV6::from_string("12ed:6666:4543:2344:beef:1234:1234:abcd").unwrap(),
    }
}

#[test]
fn v4_header_scenario() {
    let header = sample_v4();
    let bytes = header.encode();
    assert_eq!(
        bytes,
        vec![
            0x45, 0x02, 0x00, 0x38, 0x00, 0x0F, 0x40, 0x00, 62, 132, 0xF1, 0x09, 23, 41, 23, 41, 117, 123, 43, 12
        ]
    );
    assert_eq!(HeaderV4::decode(&bytes), Ok(header));
    assert_eq!(decode(&bytes), Ok(Header::V4(header)));
}

#[test]
fn v4_header_round_trip_all_fields() {
    let header = HeaderV4 {
        header_length: 5,
        dscp: 0x2e,
        ecn: 3,
        packet_length: 0xabcd,
        id: 0x1234,
        dont_fragment: false,
        has_fragments: true,
        fragment_offset: 0x1abc,
        ttl: 255,
        protocol: TransportProtocolsNumbers::Udp,
        checksum: 0xffff,
        src_ip: AddressV4::from_u32(0xffffffff),
        dst_ip: AddressV4::from_u32(0),
    };
    let bytes = header.encode();
    assert_eq!(bytes[1], 0xbb);
    assert_eq!(bytes[6], 0x3a);
    assert_eq!(bytes[7], 0xbc);
    assert_eq!(HeaderV4::decode(&bytes), Ok(header));
}

#[test]
fn v4_header_length_always_five() {
    let mut header = sample_v4();
    header.header_length = 9;
    let decoded = HeaderV4::decode(&header.encode()).unwrap();
    assert_eq!(decoded.header_length, 5);
}

#[test]
fn v4_header_errors() {
    assert_eq!(HeaderV4::decode(&vec![0x45; 19]), Err(HeaderError::InvalidLength));
    assert_eq!(HeaderV4::decode(&vec![0x45; 21]), Err(HeaderError::InvalidLength));
    let mut bytes = sample_v4().encode();
    bytes[9] = 1;
    assert_eq!(HeaderV4::decode(&bytes), Err(HeaderError::UnknownProtocolNumber(1)));
    assert_eq!(decode(&bytes), Err(HeaderError::UnknownProtocolNumber(1)));
}

#[test]
fn v6_header_round_trip() {
    let header = sample_v6();
    let bytes = header.encode();
    assert_eq!(bytes.len(), 40);
    assert_eq!(&bytes[..8], &[0x60, 0x21, 0x23, 0x45, 0x04, 0xd2, 132, 16]);
    assert_eq!(&bytes[8..12], &[0xfe, 0xed, 0x12, 0x34]);
    assert_eq!(&bytes[36..], &[0x12, 0x34, 0xab, 0xcd]);
    assert_eq!(HeaderV6::decode(&bytes), Ok(header));
    assert_eq!(decode(&bytes), Ok(Header::V6(header)));
}

#[test]
fn v6_header_dscp_and_flow_label() {
    let mut header = sample_v6();
    header.dscp = 0x3f;
    header.ecn = 1;
    header.flow_label = 0xfff12345;
    let bytes = header.encode();
    assert_eq!(bytes[0], 0x6f);
    assert_eq!(bytes[1], 0xd1);
    let decoded = HeaderV6::decode(&bytes).unwrap();
    assert_eq!(decoded.dscp, 0x3f);
    assert_eq!(decoded.ecn, 1);
    assert_eq!(decoded.flow_label, 0x12345);
}

#[test]
fn v6_header_errors() {
    assert_eq!(HeaderV6::decode(&vec![0x60; 39]), Err(HeaderError::InvalidLength));
    let mut bytes = sample_v6().encode();
    bytes[6] = 59;
    assert_eq!(HeaderV6::decode(&bytes), Err(HeaderError::UnknownProtocolNumber(59)));
}

#[test]
fn version_detection() {
    assert_eq!(get_version(&vec![]), Err(HeaderError::EmptyInput));
    assert_eq!(decode(&vec![]), Err(HeaderError::EmptyInput));
    assert_eq!(get_version(&vec![0x45]), Ok(Version::IpV4));
    assert_eq!(get_version(&vec![0x60]), Ok(Version::IpV6));
    assert_eq!(get_version(&vec![0x10]), Ok(Version::IpV6));
    assert_eq!(decode(&vec![0x45; 40]), Err(HeaderError::InvalidLength));
}

#[test]
fn empty_headers() {
    let h = HeaderV4::empty();
    assert_eq!(h.protocol, TransportProtocolsNumbers::Tcp);
    assert_eq!(h.src_ip.as_u32(), 0);
    let h = HeaderV6::empty();
    assert_eq!(h.next_header, TransportProtocolsNumbers::Tcp);
    assert_eq!(h.destination_address.as_u128(), 0);
}

#[test]
fn protocol_numbers() {
    assert_eq!(TransportProtocolsNumbers::Tcp.number(), 6);
    assert_eq!(TransportProtocolsNumbers::Udp.number(), 17);
    assert_eq!(TransportProtocolsNumbers::Sctp.number(), 132);
    assert_eq!(TransportProtocolsNumbers::from_number(17), Some(TransportProtocolsNumbers::Udp));
    assert_eq!(TransportProtocolsNumbers::from_number(0), None);
}
