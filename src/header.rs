//! The fixed IPv4 header (20 bytes, no options) and IPv6 header (40 bytes,
//! no extension headers): encoding to bytes and decoding from them.
use vstd::arithmetic::power::pow;
use vstd::prelude::*;

use crate::address::{lemma_v4_same_value, lemma_v6_same_value, AddressV4, AddressV6};
use crate::numeral::{
    be_bytes, be_bytes_of, from_be_bytes, from_be_digits, lemma_address_powers,
    lemma_be_bytes_round_trip,
};
use crate::types::{protocol_number, protocol_of, TransportProtocolsNumbers, Version};

verus! {

/// Why bytes could not be read as a header.
#[derive(Debug, Clone, Copy, PartialEq, Eq, Structural)]
pub enum HeaderError {
    /// No bytes at all.
    EmptyInput,
    /// Not exactly 20 bytes for IPv4, or 40 for IPv6.
    InvalidLength,
    /// The protocol byte names no known transport protocol.
    UnknownProtocolNumber(u8),
}

/// The fields of an IPv4 header.
#[derive(Debug, Clone, Copy, PartialEq, Eq, Structural)]
pub struct HeaderV4 {
    /// Header length in 32-bit words; always encoded as 5.
    pub header_length: u8,
    /// Differentiated Services Code Point, 6 bits.
    pub dscp: u8,
    /// Explicit Congestion Notification, 2 bits.
    pub ecn: u8,
    pub packet_length: u16,
    pub id: u16,
    pub dont_fragment: bool,
    /// The "more fragments" flag.
    pub has_fragments: bool,
    /// 13 bits, in units of 8 bytes.
    pub fragment_offset: u16,
    /// Time to live.
    pub ttl: u8,
    pub protocol: TransportProtocolsNumbers,
    /// Carried as it is; never computed or checked.
    pub checksum: u16,
    pub src_ip: AddressV4,
    pub dst_ip: AddressV4,
}

/// The fields of an IPv6 header.
#[derive(Debug, Clone, Copy, PartialEq, Eq, Structural)]
pub struct HeaderV6 {
    /// Differentiated Services Code Point, 6 bits.
    pub dscp: u8,
    /// Explicit Congestion Notification, 2 bits.
    pub ecn: u8,
    /// 20 bits; higher bits are not encoded.
    pub flow_label: u32,
    pub payload_length: u16,
    pub next_header: TransportProtocolsNumbers,
    pub hop_limit: u8,
    pub source_address: AddressV6,
    pub destination_address: AddressV6,
}

/// A header of either family.
#[derive(Debug, Clone, Copy, PartialEq, Eq, Structural)]
pub enum Header {
    V4(HeaderV4),
    V6(HeaderV6),
}

/// IPv4 byte 1: the DSCP in the upper six bits, the ECN in the lower two.
pub open spec fn v4_traffic_byte(dscp: u8, ecn: u8) -> u8 {
    (dscp << 2u8) | (ecn & 0x03u8)
}

/// IPv4 byte 6: bit 6 "don't fragment", bit 5 "more fragments", bits 4..0 the
/// top five bits of the fragment offset.
pub open spec fn v4_flags_byte(dont_fragment: bool, has_fragments: bool, offset: u16) -> u8 {
    (if dont_fragment {
        0x40u8
    } else {
        0u8
    }) | (if has_fragments {
        0x20u8
    } else {
        0u8
    }) | (((offset >> 8u16) as u8) & 0x1fu8)
}

/// The 20 bytes that encode `h`.
pub open spec fn v4_header_bytes(h: HeaderV4) -> Seq<u8> {
    seq![0x45u8, v4_traffic_byte(h.dscp, h.ecn)] + be_bytes(h.packet_length as nat, 2) + be_bytes(
        h.id as nat,
        2,
    ) + seq![
        v4_flags_byte(h.dont_fragment, h.has_fragments, h.fragment_offset),
        (h.fragment_offset & 0xffu16) as u8,
        h.ttl,
        protocol_number(h.protocol),
    ] + be_bytes(h.checksum as nat, 2) + be_bytes(h.src_ip@ as nat, 4) + be_bytes(
        h.dst_ip@ as nat,
        4,
    )
}

/// `h` holds the fields that the 20 bytes `b` encode.
pub open spec fn v4_decoded(b: Seq<u8>, h: HeaderV4) -> bool {
    &&& h.header_length == b[0] & 0x0fu8
    &&& h.dscp == b[1] >> 2u8
    &&& h.ecn == b[1] & 0x03u8
    &&& h.packet_length == from_be_bytes(b.subrange(2, 4))
    &&& h.id == from_be_bytes(b.subrange(4, 6))
    &&& h.dont_fragment == (b[6] & 0x40u8 == 0x40u8)
    &&& h.has_fragments == (b[6] & 0x20u8 == 0x20u8)
    &&& h.fragment_offset == from_be_bytes(seq![b[6] & 0x1fu8, b[7]])
    &&& h.ttl == b[8]
    &&& protocol_of(b[9]) == Some(h.protocol)
    &&& h.checksum == from_be_bytes(b.subrange(10, 12))
    &&& h.src_ip@ == from_be_bytes(b.subrange(12, 16))
    &&& h.dst_ip@ == from_be_bytes(b.subrange(16, 20))
}

/// IPv6 byte 0: version 6 in the upper nibble, the top four DSCP bits below it.
pub open spec fn v6_first_byte(dscp: u8) -> u8 {
    0x60u8 | (dscp >> 2u8)
}

/// IPv6 byte 1: the low two DSCP bits, the ECN, then bits 19..16 of the flow label.
pub open spec fn v6_second_byte(dscp: u8, ecn: u8, flow_label: u32) -> u8 {
    (((dscp << 6u8) | (ecn << 4u8)) & 0xf0u8) | (((flow_label >> 16u32) as u8) & 0x0fu8)
}

/// The 40 bytes that encode `h`.
pub open spec fn v6_header_bytes(h: HeaderV6) -> Seq<u8> {
    seq![v6_first_byte(h.dscp), v6_second_byte(h.dscp, h.ecn, h.flow_label)] + be_bytes(
        h.flow_label as nat,
        2,
    ) + be_bytes(h.payload_length as nat, 2) + seq![protocol_number(h.next_header), h.hop_limit]
        + be_bytes(h.source_address@ as nat, 16) + be_bytes(h.destination_address@ as nat, 16)
}

/// `h` holds the fields that the 40 bytes `b` encode.
pub open spec fn v6_decoded(b: Seq<u8>, h: HeaderV6) -> bool {
    &&& h.dscp == ((b[0] & 0x0fu8) << 2u8) | (b[1] >> 6u8)
    &&& h.ecn == (b[1] >> 4u8) & 0x03u8
    &&& h.flow_label == from_be_bytes(seq![b[1] & 0x0fu8, b[2], b[3]])
    &&& h.payload_length == from_be_bytes(b.subrange(4, 6))
    &&& protocol_of(b[6]) == Some(h.next_header)
    &&& h.hop_limit == b[7]
    &&& h.source_address@ == from_be_bytes(b.subrange(8, 24))
    &&& h.destination_address@ == from_be_bytes(b.subrange(24, 40))
}

/// The family that a header's first byte announces: IPv4 where its upper
/// nibble is 4, IPv6 for every other value.
pub open spec fn version_of(first: u8) -> Version {
    if first & 0xf0u8 == 0x40u8 {
        Version::IpV4
    } else {
        Version::IpV6
    }
}

proof fn lemma_from_be_digits_small(d: Seq<nat>)
    requires
        1 <= d.len() <= 3,
    ensures
        d.len() == 1 ==> from_be_digits(d, 256) == d[0],
        d.len() == 2 ==> from_be_digits(d, 256) == d[0] * 256 + d[1],
        d.len() == 3 ==> from_be_digits(d, 256) == (d[0] * 256 + d[1]) * 256 + d[2],
    decreases d.len(),
{
    if d.len() > 1 {
        lemma_from_be_digits_small(d.drop_last());
    } else {
        assert(d.drop_last() =~= Seq::<nat>::empty());
        assert(from_be_digits(d.drop_last(), 256) == 0);
    }
}

proof fn lemma_from_be_bytes_two(a: u8, b: u8)
    ensures
        from_be_bytes(seq![a, b]) == a as nat * 256 + b as nat,
{
    let d = seq![a, b].map_values(|v: u8| v as nat);
    assert(d =~= seq![a as nat, b as nat]);
    lemma_from_be_digits_small(d);
}

proof fn lemma_from_be_bytes_three(a: u8, b: u8, c: u8)
    ensures
        from_be_bytes(seq![a, b, c]) == (a as nat * 256 + b as nat) * 256 + c as nat,
{
    let d = seq![a, b, c].map_values(|v: u8| v as nat);
    assert(d =~= seq![a as nat, b as nat, c as nat]);
    lemma_from_be_digits_small(d);
}

/// The family of the header in `bytes`, from the upper nibble of its first byte.
pub fn get_version(bytes: &Vec<u8>) -> (r: Result<Version, HeaderError>)
    ensures
        r is Err <==> bytes@.len() == 0,
        r matches Ok(v) ==> v == version_of(bytes@[0]),
        r matches Err(e) ==> e == HeaderError::EmptyInput,
{
    if bytes.len() == 0 {
        return Err(HeaderError::EmptyInput);
    }
    if bytes[0] & 0xf0 == 0x40 {
        Ok(Version::IpV4)
    } else {
        Ok(Version::IpV6)
    }
}


/// Appends the last `n` bytes of `x`, most significant first.
fn push_be(out: &mut Vec<u8>, x: u128, n: usize)
    ensures
        final(out)@ == old(out)@ + be_bytes(x as nat, n as nat),
{
    let mut b = be_bytes_of(x, n);
    out.append(&mut b);
}

impl HeaderV4 {
    /// A header with every field zero, TCP as protocol and 0.0.0.0 as addresses.
    pub fn empty() -> (r: HeaderV4)
        ensures
            r.header_length == 0 && r.dscp == 0 && r.ecn == 0 && r.packet_length == 0 && r.id == 0,
            !r.dont_fragment && !r.has_fragments && r.fragment_offset == 0 && r.ttl == 0,
            r.protocol == TransportProtocolsNumbers::Tcp && r.checksum == 0,
            r.src_ip@ == 0 && r.dst_ip@ == 0,
    {
        HeaderV4 {
            header_length: 0,
            dscp: 0x0,
            ecn: 0x0,
            packet_length: 0,
            id: 0x0000,
            dont_fragment: false,
            has_fragments: false,
            fragment_offset: 0,
            ttl: 0,
            protocol: TransportProtocolsNumbers::Tcp,
            checksum: 0x0000,
            src_ip: AddressV4::from_u32(0),
            dst_ip: AddressV4::from_u32(0),
        }
    }

    /// The 20 bytes of the header. The header length is always written as 5
    /// words; byte 1 carries both the DSCP and the ECN.
    pub fn encode(&self) -> (r: Vec<u8>)
        ensures
            r@ == v4_header_bytes(*self),
            r@.len() == 20,
    {
        let mut bytes: Vec<u8> = Vec::new();
        bytes.push(0x45);
        bytes.push((self.dscp << 2) | (self.ecn & 0x03));
        push_be(&mut bytes, self.packet_length as u128, 2);
        push_be(&mut bytes, self.id as u128, 2);
        let dont_fragment: u8 = if self.dont_fragment {
            0x40
        } else {
            0
        };
        let has_fragments: u8 = if self.has_fragments {
            0x20
        } else {
            0
        };
        bytes.push(dont_fragment | has_fragments | (((self.fragment_offset >> 8) as u8) & 0x1f));
        bytes.push((self.fragment_offset & 0xff) as u8);
        bytes.push(self.ttl);
        bytes.push(self.protocol.number());
        push_be(&mut bytes, self.checksum as u128, 2);
        push_be(&mut bytes, self.src_ip.as_u32() as u128, 4);
        push_be(&mut bytes, self.dst_ip.as_u32() as u128, 4);
        proof {
            crate::numeral::lemma_be_digits_shape(self.packet_length as nat, 2, 256);
            crate::numeral::lemma_be_digits_shape(self.id as nat, 2, 256);
            crate::numeral::lemma_be_digits_shape(self.checksum as nat, 2, 256);
            crate::numeral::lemma_be_digits_shape(self.src_ip@ as nat, 4, 256);
            crate::numeral::lemma_be_digits_shape(self.dst_ip@ as nat, 4, 256);
        }
        assert(bytes@ =~= v4_header_bytes(*self));
        bytes
    }

    /// The header that the 20 bytes `bytes` encode.
    pub fn decode(bytes: &Vec<u8>) -> (r: Result<HeaderV4, HeaderError>)
        ensures
            r is Ok <==> bytes@.len() == 20 && protocol_of(bytes@[9]) is Some,
            r matches Ok(h) ==> v4_decoded(bytes@, h),
            bytes@.len() != 20 ==> r == Err::<HeaderV4, HeaderError>(HeaderError::InvalidLength),
            bytes@.len() == 20 && protocol_of(bytes@[9]) is None ==> r == Err::<
                HeaderV4,
                HeaderError,
            >(HeaderError::UnknownProtocolNumber(bytes@[9])),
    {
        if bytes.len() != 20 {
            return Err(HeaderError::InvalidLength);
        }
        let protocol = match TransportProtocolsNumbers::from_number(bytes[9]) {
            Some(p) => p,
            None => {
                return Err(HeaderError::UnknownProtocolNumber(bytes[9]));
            },
        };
        let b = bytes;
        proof {
            lemma_from_be_bytes_two(b@[2], b@[3]);
            lemma_from_be_bytes_two(b@[4], b@[5]);
            lemma_from_be_bytes_two(b@[6] & 0x1f, b@[7]);
            lemma_from_be_bytes_two(b@[10], b@[11]);
            assert(b@.subrange(2, 4) =~= seq![b@[2], b@[3]]);
            assert(b@.subrange(4, 6) =~= seq![b@[4], b@[5]]);
            assert(b@.subrange(10, 12) =~= seq![b@[10], b@[11]]);
        }
        let src = [b[12], b[13], b[14], b[15]];
        let dst = [b[16], b[17], b[18], b[19]];
        assert(src@ =~= b@.subrange(12, 16));
        assert(dst@ =~= b@.subrange(16, 20));
        let h = HeaderV4 {
            header_length: b[0] & 0x0f,
            dscp: b[1] >> 2,
            ecn: b[1] & 0x03,
            packet_length: b[2] as u16 * 256 + b[3] as u16,
            id: b[4] as u16 * 256 + b[5] as u16,
            dont_fragment: b[6] & 0x40 == 0x40,
            has_fragments: b[6] & 0x20 == 0x20,
            fragment_offset: (b[6] & 0x1f) as u16 * 256 + b[7] as u16,
            ttl: b[8],
            protocol,
            checksum: b[10] as u16 * 256 + b[11] as u16,
            src_ip: AddressV4::from_bytes(src),
            dst_ip: AddressV4::from_bytes(dst),
        };
        Ok(h)
    }
}

impl HeaderV6 {
    /// A header with every field zero, TCP as next header and :: as addresses.
    pub fn empty() -> (r: HeaderV6)
        ensures
            r.dscp == 0 && r.ecn == 0 && r.flow_label == 0 && r.payload_length == 0,
            r.next_header == TransportProtocolsNumbers::Tcp && r.hop_limit == 0,
            r.source_address@ == 0 && r.destination_address@ == 0,
    {
        HeaderV6 {
            dscp: 0,
            ecn: 0,
            flow_label: 0,
            payload_length: 0,
            next_header: TransportProtocolsNumbers::Tcp,
            hop_limit: 0,
            source_address: AddressV6::from_u128(0),
            destination_address: AddressV6::from_u128(0),
        }
    }

    /// The 40 bytes of the header. Only the low 20 bits of the flow label are
    /// written.
    pub fn encode(&self) -> (r: Vec<u8>)
        ensures
            r@ == v6_header_bytes(*self),
            r@.len() == 40,
    {
        let mut bytes: Vec<u8> = Vec::new();
        bytes.push(0x60 | (self.dscp >> 2));
        bytes.push((((self.dscp << 6) | (self.ecn << 4)) & 0xf0) | (((self.flow_label >> 16) as u8)
            & 0x0f));
        push_be(&mut bytes, self.flow_label as u128, 2);
        push_be(&mut bytes, self.payload_length as u128, 2);
        bytes.push(self.next_header.number());
        bytes.push(self.hop_limit);
        push_be(&mut bytes, self.source_address.as_u128(), 16);
        push_be(&mut bytes, self.destination_address.as_u128(), 16);
        proof {
            crate::numeral::lemma_be_digits_shape(self.flow_label as nat, 2, 256);
            crate::numeral::lemma_be_digits_shape(self.payload_length as nat, 2, 256);
            crate::numeral::lemma_be_digits_shape(self.source_address@ as nat, 16, 256);
            crate::numeral::lemma_be_digits_shape(self.destination_address@ as nat, 16, 256);
        }
        assert(bytes@ =~= v6_header_bytes(*self));
        bytes
    }

    /// The header that the 40 bytes `bytes` encode.
    pub fn decode(bytes: &Vec<u8>) -> (r: Result<HeaderV6, HeaderError>)
        ensures
            r is Ok <==> bytes@.len() == 40 && protocol_of(bytes@[6]) is Some,
            r matches Ok(h) ==> v6_decoded(bytes@, h),
            bytes@.len() != 40 ==> r == Err::<HeaderV6, HeaderError>(HeaderError::InvalidLength),
            bytes@.len() == 40 && protocol_of(bytes@[6]) is None ==> r == Err::<
                HeaderV6,
                HeaderError,
            >(HeaderError::UnknownProtocolNumber(bytes@[6])),
    {
        if bytes.len() != 40 {
            return Err(HeaderError::InvalidLength);
        }
        let next_header = match TransportProtocolsNumbers::from_number(bytes[6]) {
            Some(p) => p,
            None => {
                return Err(HeaderError::UnknownProtocolNumber(bytes[6]));
            },
        };
        let b = bytes;
        proof {
            lemma_from_be_bytes_three(b@[1] & 0x0f, b@[2], b@[3]);
            lemma_from_be_bytes_two(b@[4], b@[5]);
            assert(b@.subrange(4, 6) =~= seq![b@[4], b@[5]]);
        }
        let src = [
            b[8],
            b[9],
            b[10],
            b[11],
            b[12],
            b[13],
            b[14],
            b[15],
            b[16],
            b[17],
            b[18],
            b[19],
            b[20],
            b[21],
            b[22],
            b[23],
        ];
        let dst = [
            b[24],
            b[25],
            b[26],
            b[27],
            b[28],
            b[29],
            b[30],
            b[31],
            b[32],
            b[33],
            b[34],
            b[35],
            b[36],
            b[37],
            b[38],
            b[39],
        ];
        assert(src@ =~= b@.subrange(8, 24));
        assert(dst@ =~= b@.subrange(24, 40));
        let h = HeaderV6 {
            dscp: ((b[0] & 0x0f) << 2) | (b[1] >> 6),
            ecn: (b[1] >> 4) & 0x03,
            flow_label: ((b[1] & 0x0f) as u32 * 256 + b[2] as u32) * 256 + b[3] as u32,
            payload_length: b[4] as u16 * 256 + b[5] as u16,
            next_header,
            hop_limit: b[7],
            source_address: AddressV6::from_bytes(src),
            destination_address: AddressV6::from_bytes(dst),
        };
        Ok(h)
    }
}

/// The header in `bytes`, decoded as IPv4 where the first byte's upper nibble
/// is 4 and as IPv6 otherwise.
pub fn decode(bytes: &Vec<u8>) -> (r: Result<Header, HeaderError>)
    ensures
        bytes@.len() == 0 ==> r == Err::<Header, HeaderError>(HeaderError::EmptyInput),
        bytes@.len() > 0 && version_of(bytes@[0]) == Version::IpV4 ==> match r {
            Ok(Header::V4(h)) => bytes@.len() == 20 && v4_decoded(bytes@, h),
            Ok(Header::V6(_)) => false,
            Err(e) => (bytes@.len() != 20 && e == HeaderError::InvalidLength) || (bytes@.len()
                == 20 && protocol_of(bytes@[9]) is None && e == HeaderError::UnknownProtocolNumber(
                bytes@[9],
            )),
        },
        bytes@.len() > 0 && version_of(bytes@[0]) == Version::IpV6 ==> match r {
            Ok(Header::V6(h)) => bytes@.len() == 40 && v6_decoded(bytes@, h),
            Ok(Header::V4(_)) => false,
            Err(e) => (bytes@.len() != 40 && e == HeaderError::InvalidLength) || (bytes@.len()
                == 40 && protocol_of(bytes@[6]) is None && e == HeaderError::UnknownProtocolNumber(
                bytes@[6],
            )),
        },
{
    match get_version(bytes) {
        Err(e) => Err(e),
        Ok(Version::IpV4) => match HeaderV4::decode(bytes) {
            Ok(h) => Ok(Header::V4(h)),
            Err(e) => Err(e),
        },
        Ok(Version::IpV6) => match HeaderV6::decode(bytes) {
            Ok(h) => Ok(Header::V6(h)),
            Err(e) => Err(e),
        },
    }
}


/// An IPv4 header whose fields fit their widths on the wire: DSCP below 2^6,
/// ECN below 2^2, fragment offset below 2^13.
pub open spec fn v4_in_range(h: HeaderV4) -> bool {
    h.dscp < 64 && h.ecn < 4 && h.fragment_offset < 8192
}

/// An IPv6 header whose DSCP and ECN fit their widths on the wire.
pub open spec fn v6_in_range(h: HeaderV6) -> bool {
    h.dscp < 64 && h.ecn < 4
}

proof fn lemma_v4_bits(dscp: u8, ecn: u8, f: u8, g: u8, offset: u16)
    by (bit_vector)
    requires
        dscp < 64,
        ecn < 4,
        f == 0 || f == 0x40,
        g == 0 || g == 0x20,
        offset < 8192,
    ensures
        0x45u8 & 0x0fu8 == 5,
        ((dscp << 2u8) | (ecn & 0x03u8)) >> 2u8 == dscp,
        ((dscp << 2u8) | (ecn & 0x03u8)) & 0x03u8 == ecn,
        ((f | g | (((offset >> 8u16) as u8) & 0x1fu8)) & 0x40u8 == 0x40u8) == (f == 0x40),
        ((f | g | (((offset >> 8u16) as u8) & 0x1fu8)) & 0x20u8 == 0x20u8) == (g == 0x20),
        ((f | g | (((offset >> 8u16) as u8) & 0x1fu8)) & 0x1fu8) as u16 * 256 + ((offset
            & 0xffu16) as u8) as u16 == offset,
{
}

proof fn lemma_v6_bits(dscp: u8, ecn: u8, flow: u32, b0: u8, b1: u8)
    by (bit_vector)
    requires
        dscp < 64,
        ecn < 4,
        b0 == 0x60u8 | (dscp >> 2u8),
        b1 == (((dscp << 6u8) | (ecn << 4u8)) & 0xf0u8) | (((flow >> 16u32) as u8) & 0x0fu8),
    ensures
        ((b0 & 0x0fu8) << 2u8) | (b1 >> 6u8) == dscp,
        (b1 >> 4u8) & 0x03u8 == ecn,
        (((b1 & 0x0fu8) as u32) * 256 + ((flow / 256) % 256)) * 256 + flow % 256 == flow
            & 0xfffffu32,
{
}

/// Decoding the bytes that `encode` writes gives the header back: it decodes
/// (20 bytes, a known protocol), and every field but the header length, which
/// reads as 5, is the one encoded.
pub proof fn lemma_v4_round_trip(h: HeaderV4, d: HeaderV4)
    requires
        v4_in_range(h),
        v4_decoded(v4_header_bytes(h), d),
    ensures
        v4_header_bytes(h).len() == 20,
        protocol_of(v4_header_bytes(h)[9]) is Some,
        d == (HeaderV4 { header_length: 5, ..h }),
{
    let b = v4_header_bytes(h);
    reveal_with_fuel(pow, 3);
    lemma_address_powers();
    lemma_be_bytes_round_trip(h.packet_length as nat, 2);
    lemma_be_bytes_round_trip(h.id as nat, 2);
    lemma_be_bytes_round_trip(h.checksum as nat, 2);
    lemma_be_bytes_round_trip(h.src_ip@ as nat, 4);
    lemma_be_bytes_round_trip(h.dst_ip@ as nat, 4);
    assert(b.subrange(2, 4) =~= be_bytes(h.packet_length as nat, 2));
    assert(b.subrange(4, 6) =~= be_bytes(h.id as nat, 2));
    assert(b.subrange(10, 12) =~= be_bytes(h.checksum as nat, 2));
    assert(b.subrange(12, 16) =~= be_bytes(h.src_ip@ as nat, 4));
    assert(b.subrange(16, 20) =~= be_bytes(h.dst_ip@ as nat, 4));
    let f: u8 = if h.dont_fragment {
        0x40
    } else {
        0
    };
    let g: u8 = if h.has_fragments {
        0x20
    } else {
        0
    };
    lemma_v4_bits(h.dscp, h.ecn, f, g, h.fragment_offset);
    lemma_from_be_bytes_two(b[6] & 0x1f, b[7]);
    crate::types::lemma_protocol_number_round_trip(h.protocol);
    lemma_v4_same_value(d.src_ip, h.src_ip);
    lemma_v4_same_value(d.dst_ip, h.dst_ip);
}

/// Decoding the bytes that `encode` writes gives the header back: it decodes
/// (40 bytes, a known next header), and every field is the one encoded, but
/// the flow label, of which the low 20 bits come back.
pub proof fn lemma_v6_round_trip(h: HeaderV6, d: HeaderV6)
    requires
        v6_in_range(h),
        v6_decoded(v6_header_bytes(h), d),
    ensures
        v6_header_bytes(h).len() == 40,
        protocol_of(v6_header_bytes(h)[6]) is Some,
        d == (HeaderV6 { flow_label: h.flow_label & 0xfffff, ..h }),
{
    let b = v6_header_bytes(h);
    reveal_with_fuel(pow, 3);
    reveal_with_fuel(crate::numeral::be_digits, 3);
    lemma_address_powers();
    lemma_be_bytes_round_trip(h.payload_length as nat, 2);
    lemma_be_bytes_round_trip(h.source_address@ as nat, 16);
    lemma_be_bytes_round_trip(h.destination_address@ as nat, 16);
    crate::numeral::lemma_be_digits_shape(h.flow_label as nat, 2, 256);
    assert(b.subrange(4, 6) =~= be_bytes(h.payload_length as nat, 2));
    assert(b.subrange(8, 24) =~= be_bytes(h.source_address@ as nat, 16));
    assert(b.subrange(24, 40) =~= be_bytes(h.destination_address@ as nat, 16));
    lemma_v6_bits(h.dscp, h.ecn, h.flow_label, b[0], b[1]);
    lemma_from_be_bytes_three(b[1] & 0x0f, b[2], b[3]);
    assert(b[2] == ((h.flow_label / 256) % 256) as u8);
    assert(b[3] == (h.flow_label % 256) as u8);
    crate::types::lemma_protocol_number_round_trip(h.next_header);
    lemma_v6_same_value(d.source_address, h.source_address);
    lemma_v6_same_value(d.destination_address, h.destination_address);
}

} // verus!
