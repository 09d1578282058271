//! IPv4 and IPv6 addresses: parsing, rendering, increment and masking.
use vstd::arithmetic::power::{lemma_pow_increases, pow};
use vstd::prelude::*;

use crate::bitmask::{v4_bits_text, v4_mask, v6_bits_text, v6_mask, Bitmask};
use crate::numeral::{
    all_digits, be_bytes, be_bytes_of, be_digits, chars_of, decimal_text, digit_value, fixed_text,
    free_of,
    from_be_bytes, from_be_slice, grouped_decimal_text, grouped_text, lemma_address_powers,
    lemma_be_digits_shape, lemma_decimal_text, lemma_digit_step_bound, lemma_digits_free_of,
    lemma_fixed_text, lemma_from_be_digits_round_trip, lemma_join_free_of, lemma_parts_value,
    lemma_split_join, numeral_value, parts_value, push_grouped, push_grouped_decimal, split,
    split_chars, string_of, text_value,
};
use crate::types::Version;

verus! {

/// Dotted-decimal rendering of an IPv4 value: its four bytes in decimal, joined by '.'.
pub open spec fn v4_text(x: nat) -> Seq<char> {
    grouped_decimal_text(x, 4, 256, '.')
}

/// Full-form rendering of an IPv6 value: its eight 16-bit groups as four
/// lower-case hexadecimal digits each, joined by ':'.
pub open spec fn v6_text(x: nat) -> Seq<char> {
    grouped_text(x, 8, 65536, 4, 16, ':')
}

/// One dotted-decimal octet: one or more decimal digits worth at most 255.
pub open spec fn is_octet_text(g: Seq<char>) -> bool {
    g.len() > 0 && all_digits(g, 10) && text_value(g, 10) <= 255
}

/// One full-form IPv6 group: exactly four hexadecimal digits, of either case.
pub open spec fn is_hextet_text(g: Seq<char>) -> bool {
    g.len() == 4 && all_digits(g, 16)
}

/// The IPv4 value that `s` writes in dotted-decimal form: four octets
/// separated by '.', nothing else.
pub open spec fn parse_v4(s: Seq<char>) -> Option<nat> {
    let parts = split(s, '.');
    if parts.len() == 4 && forall|k: int| 0 <= k < 4 ==> is_octet_text(#[trigger] parts[k]) {
        Some(parts_value(parts, 10, 256))
    } else {
        None
    }
}

/// The IPv6 value that `s` writes in full form: eight four-digit hexadecimal
/// groups separated by ':', nothing else.
pub open spec fn parse_v6(s: Seq<char>) -> Option<nat> {
    let parts = split(s, ':');
    if parts.len() == 8 && forall|k: int| 0 <= k < 8 ==> is_hextet_text(#[trigger] parts[k]) {
        Some(parts_value(parts, 16, 65536))
    } else {
        None
    }
}

/// Why an address operation failed.
#[derive(Debug, Clone, Copy, PartialEq, Eq, Structural)]
pub enum AddressError {
    /// The text is no address of the expected form.
    ParseError,
    /// An IPv4 value met an IPv6 one, or the other way round.
    FamilyMismatch,
    /// The address is the last of its family and has no successor.
    AddressOverflow,
}

/// A numeral of all-digits of base `radix` is below `radix^len`.
proof fn lemma_text_value_bound(g: Seq<char>, radix: nat)
    requires
        all_digits(g, radix),
    ensures
        text_value(g, radix) < pow(radix as int, g.len()),
    decreases g.len(),
{
    reveal(pow);
    if g.len() > 0 {
        let init = g.drop_last();
        assert(all_digits(init, radix)) by {
            assert forall|i: int| 0 <= i < init.len() implies digit_value(
                #[trigger] init[i],
            ) < radix by {
                assert(init[i] == g[i]);
            }
        }
        lemma_text_value_bound(init, radix);
        assert(digit_value(g[g.len() - 1]) < radix);
        lemma_digit_step_bound(
            text_value(init, radix),
            digit_value(g.last()),
            radix,
            init.len(),
        );
    }
}

/// The value of `s` read in dotted-decimal form.
fn parse_dotted(s: &str) -> (r: Option<u32>)
    ensures
        r is Some <==> parse_v4(s@) is Some,
        r matches Some(v) ==> v == parse_v4(s@)->0,
{
    let chars = chars_of(s);
    let parts = split_chars(&chars, '.');
    let ghost sp = split(s@, '.');
    if parts.len() != 4 {
        return None;
    }
    let mut acc: u128 = 0;
    let mut k: usize = 0;
    proof {
        reveal(pow);
        lemma_address_powers();
    }
    assert(sp.take(0) =~= Seq::<Seq<char>>::empty());
    while k < 4
        invariant
            sp == split(s@, '.'),
            parts@.len() == 4 == sp.len(),
            forall|j: int| 0 <= j < 4 ==> (#[trigger] parts@[j])@ == sp[j],
            k <= 4,
            forall|j: int| 0 <= j < k ==> is_octet_text(#[trigger] sp[j]),
            acc == parts_value(sp.take(k as int), 10, 256),
            acc < pow(256, k as nat),
            pow(256, 4) == 0x1_0000_0000,
        decreases 4 - k,
    {
        match numeral_value(&parts[k], 10, 255) {
            None => {
                assert(!is_octet_text(sp[k as int]));
                assert(!(forall|j: int| 0 <= j < 4 ==> is_octet_text(#[trigger] sp[j])));
                return None;
            },
            Some(v) => {
                proof {
                    lemma_digit_step_bound(acc as nat, v as nat, 256, k as nat);
                    lemma_pow_increases(256, (k + 1) as nat, 4);
                    assert(sp.take(k + 1).drop_last() =~= sp.take(k as int));
                }
                acc = acc * 256 + v as u128;
            },
        }
        k = k + 1;
    }
    assert(sp.take(4) =~= sp);
    Some(acc as u32)
}

/// The value of `s` read in full IPv6 form.
fn parse_full_hex(s: &str) -> (r: Option<u128>)
    ensures
        r is Some <==> parse_v6(s@) is Some,
        r matches Some(v) ==> v == parse_v6(s@)->0,
{
    let chars = chars_of(s);
    let parts = split_chars(&chars, ':');
    let ghost sp = split(s@, ':');
    if parts.len() != 8 {
        return None;
    }
    let mut acc: u128 = 0;
    let mut k: usize = 0;
    proof {
        reveal(pow);
        lemma_address_powers();
    }
    assert(sp.take(0) =~= Seq::<Seq<char>>::empty());
    while k < 8
        invariant
            sp == split(s@, ':'),
            parts@.len() == 8 == sp.len(),
            forall|j: int| 0 <= j < 8 ==> (#[trigger] parts@[j])@ == sp[j],
            k <= 8,
            forall|j: int| 0 <= j < k ==> is_hextet_text(#[trigger] sp[j]),
            acc == parts_value(sp.take(k as int), 16, 65536),
            acc < pow(65536, k as nat),
            pow(65536, 8) == 0x1_0000_0000_0000_0000_0000_0000_0000_0000,
        decreases 8 - k,
    {
        if parts[k].len() != 4 {
            assert(!is_hextet_text(sp[k as int]));
            assert(!(forall|j: int| 0 <= j < 8 ==> is_hextet_text(#[trigger] sp[j])));
            return None;
        }
        proof {
            if all_digits(sp[k as int], 16) {
                lemma_text_value_bound(sp[k as int], 16);
                reveal_with_fuel(pow, 5);
            }
        }
        match numeral_value(&parts[k], 16, 0xffff) {
            None => {
                assert(!is_hextet_text(sp[k as int]));
                assert(!(forall|j: int| 0 <= j < 8 ==> is_hextet_text(#[trigger] sp[j])));
                return None;
            },
            Some(v) => {
                proof {
                    lemma_digit_step_bound(acc as nat, v as nat, 65536, k as nat);
                    lemma_pow_increases(65536, (k + 1) as nat, 8);
                    assert(sp.take(k + 1).drop_last() =~= sp.take(k as int));
                }
                acc = acc * 65536 + v as u128;
            },
        }
        k = k + 1;
    }
    assert(sp.take(8) =~= sp);
    Some(acc)
}


/// An IPv4 address, held as its 32-bit big-endian value.
#[derive(Debug, Clone, Copy, PartialEq, Eq, Structural)]
pub struct AddressV4 {
    bits: u32,
}

/// An IPv6 address, held as its 128-bit big-endian value.
#[derive(Debug, Clone, Copy, PartialEq, Eq, Structural)]
pub struct AddressV6 {
    bits: u128,
}

impl View for AddressV4 {
    type V = u32;

    closed spec fn view(&self) -> u32 {
        self.bits
    }
}

impl View for AddressV6 {
    type V = u128;

    closed spec fn view(&self) -> u128 {
        self.bits
    }
}

impl AddressV4 {
    /// The address whose bytes are `bytes`, most significant first.
    pub fn from_bytes(bytes: [u8; 4]) -> (r: AddressV4)
        ensures
            r@ == from_be_bytes(bytes@),
    {
        let v = from_be_slice(bytes.as_slice());
        proof {
            lemma_address_powers();
        }
        AddressV4 { bits: v as u32 }
    }

    /// The address written in dotted-decimal form by `ip_address`.
    pub fn from_string(ip_address: &str) -> (r: Result<AddressV4, AddressError>)
        ensures
            r is Ok <==> parse_v4(ip_address@) is Some,
            r matches Ok(a) ==> a@ == parse_v4(ip_address@)->0,
            r matches Err(e) ==> e == AddressError::ParseError,
    {
        match parse_dotted(ip_address) {
            Some(v) => Ok(AddressV4 { bits: v }),
            None => Err(AddressError::ParseError),
        }
    }

    /// The address of value `ip_address`.
    pub fn from_u32(ip_address: u32) -> (r: AddressV4)
        ensures
            r@ == ip_address,
    {
        AddressV4 { bits: ip_address }
    }

    /// The four bytes of the address, most significant first.
    pub fn as_bytes(&self) -> (r: [u8; 4])
        ensures
            r@ == be_bytes(self@ as nat, 4),
    {
        let v = be_bytes_of(self.bits as u128, 4);
        let r = [v[0], v[1], v[2], v[3]];
        assert(r@ =~= v@);
        r
    }

    /// The address's value.
    pub fn as_u32(&self) -> (r: u32)
        ensures
            r == self@,
    {
        self.bits
    }

    /// Replaces the address's value with `new_value`.
    pub fn set_u32(&mut self, new_value: u32)
        ensures
            final(self)@ == new_value,
    {
        self.bits = new_value;
    }

    /// The dotted-decimal form: four bytes in decimal, joined by '.'.
    pub fn to_string(&self) -> (r: String)
        ensures
            r@ == v4_text(self@ as nat),
    {
        let mut out: Vec<char> = Vec::new();
        push_grouped_decimal(&mut out, self.bits as u128, 4, 256, '.');
        string_of(&out)
    }

    /// The binary form: four 8-bit groups joined by '.'.
    pub fn to_bitstring(&self) -> (r: String)
        ensures
            r@ == v4_bits_text(self@ as nat),
    {
        let mut out: Vec<char> = Vec::new();
        push_grouped(&mut out, self.bits as u128, 4, 256, 8, 2, '.');
        string_of(&out)
    }

    /// The following address; the last IPv4 address has none.
    pub fn next(&self) -> (r: Result<AddressV4, AddressError>)
        ensures
            r is Ok <==> self@ < u32::MAX,
            r matches Ok(a) ==> a@ == self@ + 1,
            r matches Err(e) ==> e == AddressError::AddressOverflow,
    {
        match self.bits.checked_add(1) {
            Some(v) => Ok(AddressV4 { bits: v }),
            None => Err(AddressError::AddressOverflow),
        }
    }

    /// The address with every bit that `bitmask` clears cleared; an IPv6 mask
    /// does not apply.
    pub fn apply_bitmask(&self, bitmask: &Bitmask) -> (r: Result<AddressV4, AddressError>)
        ensures
            r is Ok <==> bitmask is V4,
            r matches Ok(a) ==> a@ == self@ & (bitmask.mask_value() as u32),
            r matches Err(e) ==> e == AddressError::FamilyMismatch,
    {
        match bitmask {
            Bitmask::V4(m) => Ok(AddressV4 { bits: self.bits & m.get() }),
            Bitmask::V6(_) => Err(AddressError::FamilyMismatch),
        }
    }
}

impl AddressV6 {
    /// The address whose bytes are `bytes`, most significant first.
    pub fn from_bytes(bytes: [u8; 16]) -> (r: AddressV6)
        ensures
            r@ == from_be_bytes(bytes@),
    {
        AddressV6 { bits: from_be_slice(bytes.as_slice()) }
    }

    /// The address written in full form by `ip_address`: eight groups of four
    /// hexadecimal digits separated by ':'.
    pub fn from_string(ip_address: &str) -> (r: Result<AddressV6, AddressError>)
        ensures
            r is Ok <==> parse_v6(ip_address@) is Some,
            r matches Ok(a) ==> a@ == parse_v6(ip_address@)->0,
            r matches Err(e) ==> e == AddressError::ParseError,
    {
        match parse_full_hex(ip_address) {
            Some(v) => Ok(AddressV6 { bits: v }),
            None => Err(AddressError::ParseError),
        }
    }

    /// The address of value `ip_address`.
    pub fn from_u128(ip_address: u128) -> (r: AddressV6)
        ensures
            r@ == ip_address,
    {
        AddressV6 { bits: ip_address }
    }

    /// The sixteen bytes of the address, most significant first.
    pub fn as_bytes(&self) -> (r: [u8; 16])
        ensures
            r@ == be_bytes(self@ as nat, 16),
    {
        let v = be_bytes_of(self.bits, 16);
        let r = [
            v[0],
            v[1],
            v[2],
            v[3],
            v[4],
            v[5],
            v[6],
            v[7],
            v[8],
            v[9],
            v[10],
            v[11],
            v[12],
            v[13],
            v[14],
            v[15],
        ];
        assert(r@ =~= v@);
        r
    }

    /// The address's value.
    pub fn as_u128(&self) -> (r: u128)
        ensures
            r == self@,
    {
        self.bits
    }

    /// Replaces the address's value with `new_value`.
    pub fn set_u128(&mut self, new_value: u128)
        ensures
            final(self)@ == new_value,
    {
        self.bits = new_value;
    }

    /// The full form: eight groups of four lower-case hexadecimal digits,
    /// joined by ':'.
    pub fn to_string(&self) -> (r: String)
        ensures
            r@ == v6_text(self@ as nat),
    {
        let mut out: Vec<char> = Vec::new();
        push_grouped(&mut out, self.bits, 8, 65536, 4, 16, ':');
        string_of(&out)
    }

    /// The binary form: eight 16-bit groups joined by ':'.
    pub fn to_bitstring(&self) -> (r: String)
        ensures
            r@ == v6_bits_text(self@ as nat),
    {
        let mut out: Vec<char> = Vec::new();
        push_grouped(&mut out, self.bits, 8, 65536, 16, 2, ':');
        string_of(&out)
    }

    /// The following address; the last IPv6 address has none.
    pub fn next(&self) -> (r: Result<AddressV6, AddressError>)
        ensures
            r is Ok <==> self@ < u128::MAX,
            r matches Ok(a) ==> a@ == self@ + 1,
            r matches Err(e) ==> e == AddressError::AddressOverflow,
    {
        match self.bits.checked_add(1) {
            Some(v) => Ok(AddressV6 { bits: v }),
            None => Err(AddressError::AddressOverflow),
        }
    }

    /// The address with every bit that `bitmask` clears cleared; an IPv4 mask
    /// does not apply.
    pub fn apply_bitmask(&self, bitmask: &Bitmask) -> (r: Result<AddressV6, AddressError>)
        ensures
            r is Ok <==> bitmask is V6,
            r matches Ok(a) ==> a@ == self@ & (bitmask.mask_value() as u128),
            r matches Err(e) ==> e == AddressError::FamilyMismatch,
    {
        match bitmask {
            Bitmask::V4(_) => Err(AddressError::FamilyMismatch),
            Bitmask::V6(m) => Ok(AddressV6 { bits: self.bits & m.get() }),
        }
    }
}


/// The family and value that `s` writes: dotted-decimal IPv4 form first,
/// else full IPv6 form.
pub open spec fn parse_address(s: Seq<char>) -> Option<(Version, nat)> {
    if parse_v4(s) is Some {
        Some((Version::IpV4, parse_v4(s)->0))
    } else if parse_v6(s) is Some {
        Some((Version::IpV6, parse_v6(s)->0))
    } else {
        None
    }
}

/// An address of either family.
#[derive(Debug, Clone, Copy, PartialEq, Eq, Structural)]
pub enum Address {
    V4(AddressV4),
    V6(AddressV6),
}

impl Address {
    /// The address's value.
    pub open spec fn value(&self) -> nat {
        match self {
            Address::V4(a) => a@ as nat,
            Address::V6(a) => a@ as nat,
        }
    }

    /// The address's family.
    pub open spec fn version(&self) -> Version {
        match self {
            Address::V4(_) => Version::IpV4,
            Address::V6(_) => Version::IpV6,
        }
    }

    /// The largest value of the address's family.
    pub open spec fn max_value(&self) -> nat {
        match self {
            Address::V4(_) => u32::MAX as nat,
            Address::V6(_) => u128::MAX as nat,
        }
    }

    /// How many bytes an address of this family has.
    pub open spec fn byte_len(&self) -> nat {
        match self {
            Address::V4(_) => 4,
            Address::V6(_) => 16,
        }
    }

    /// The textual form: dotted decimal for IPv4, full hexadecimal for IPv6.
    pub open spec fn text(&self) -> Seq<char> {
        match self {
            Address::V4(a) => v4_text(a@ as nat),
            Address::V6(a) => v6_text(a@ as nat),
        }
    }

    /// The binary form.
    pub open spec fn bits_text(&self) -> Seq<char> {
        match self {
            Address::V4(a) => v4_bits_text(a@ as nat),
            Address::V6(a) => v6_bits_text(a@ as nat),
        }
    }

    /// The value with every bit that `m` clears cleared, where the families
    /// agree; the value itself where they do not.
    pub open spec fn masked_value(&self, m: Bitmask) -> nat {
        match (self, m) {
            (Address::V4(a), Bitmask::V4(b)) => (a@ & v4_mask(b@)) as nat,
            (Address::V6(a), Bitmask::V6(b)) => (a@ & v6_mask(b@)) as nat,
            _ => self.value(),
        }
    }

    /// The address whose bytes are `bytes` (4 for IPv4, 16 for IPv6), most
    /// significant first.
    pub fn from_bytes(bytes: &[u8]) -> (r: Address)
        requires
            bytes@.len() == 4 || bytes@.len() == 16,
        ensures
            r.version() == (if bytes@.len() == 4 {
                Version::IpV4
            } else {
                Version::IpV6
            }),
            r.value() == from_be_bytes(bytes@),
    {
        let v = from_be_slice(bytes);
        if bytes.len() == 4 {
            proof {
                lemma_address_powers();
            }
            Address::V4(AddressV4::from_u32(v as u32))
        } else {
            Address::V6(AddressV6::from_u128(v))
        }
    }

    /// The address that `ip_address` writes, in dotted-decimal IPv4 form or in
    /// full IPv6 form.
    pub fn from_string(ip_address: &str) -> (r: Result<Address, AddressError>)
        ensures
            r is Ok <==> parse_address(ip_address@) is Some,
            r matches Ok(a) ==> (a.version(), a.value()) == parse_address(ip_address@)->0,
            r matches Err(e) ==> e == AddressError::ParseError,
    {
        match AddressV4::from_string(ip_address) {
            Ok(a) => Ok(Address::V4(a)),
            Err(_) => match AddressV6::from_string(ip_address) {
                Ok(a) => Ok(Address::V6(a)),
                Err(e) => Err(e),
            },
        }
    }

    /// The IPv4 address of value `ip_address`.
    pub fn from_u32(ip_address: u32) -> (r: Address)
        ensures
            r.version() == Version::IpV4,
            r.value() == ip_address,
    {
        Address::V4(AddressV4::from_u32(ip_address))
    }

    /// The IPv6 address of value `ip_address`.
    pub fn from_u128(ip_address: u128) -> (r: Address)
        ensures
            r.version() == Version::IpV6,
            r.value() == ip_address,
    {
        Address::V6(AddressV6::from_u128(ip_address))
    }

    /// The address's bytes, most significant first.
    pub fn as_bytes(&self) -> (r: Vec<u8>)
        ensures
            r@ == be_bytes(self.value(), self.byte_len()),
    {
        match self {
            Address::V4(a) => be_bytes_of(a.as_u32() as u128, 4),
            Address::V6(a) => be_bytes_of(a.as_u128(), 16),
        }
    }

    /// The textual form: dotted decimal for IPv4, full hexadecimal for IPv6.
    pub fn to_string(&self) -> (r: String)
        ensures
            r@ == self.text(),
    {
        match self {
            Address::V4(a) => a.to_string(),
            Address::V6(a) => a.to_string(),
        }
    }

    /// The binary form: 8-bit groups joined by '.' for IPv4, 16-bit groups
    /// joined by ':' for IPv6.
    pub fn to_bitstring(&self) -> (r: String)
        ensures
            r@ == self.bits_text(),
    {
        match self {
            Address::V4(a) => a.to_bitstring(),
            Address::V6(a) => a.to_bitstring(),
        }
    }

    /// The following address of the same family; the last one has none.
    pub fn next(&self) -> (r: Result<Address, AddressError>)
        ensures
            r is Ok <==> self.value() < self.max_value(),
            r matches Ok(a) ==> a.version() == self.version() && a.value() == self.value() + 1,
            r matches Err(e) ==> e == AddressError::AddressOverflow,
    {
        match self {
            Address::V4(a) => match a.next() {
                Ok(b) => Ok(Address::V4(b)),
                Err(e) => Err(e),
            },
            Address::V6(a) => match a.next() {
                Ok(b) => Ok(Address::V6(b)),
                Err(e) => Err(e),
            },
        }
    }

    /// The address with every bit that `bitmask` clears cleared; the families
    /// must agree.
    pub fn apply_bitmask(&self, bitmask: &Bitmask) -> (r: Result<Address, AddressError>)
        ensures
            r is Ok <==> self.version() == bitmask.version(),
            r matches Ok(a) ==> a.version() == self.version() && a.value() == self.masked_value(
                *bitmask,
            ),
            r matches Err(e) ==> e == AddressError::FamilyMismatch,
    {
        match self {
            Address::V4(a) => match a.apply_bitmask(bitmask) {
                Ok(b) => Ok(Address::V4(b)),
                Err(e) => Err(e),
            },
            Address::V6(a) => match a.apply_bitmask(bitmask) {
                Ok(b) => Ok(Address::V6(b)),
                Err(e) => Err(e),
            },
        }
    }
}


/// Masking twice with the same mask gives what masking once gave: where `b`
/// is `a` masked with `m` (same family), masking `b` with `m` leaves it as it is.
pub proof fn lemma_mask_idempotent(a: Address, m: Bitmask, b: Address)
    requires
        a.version() == m.version(),
        b.version() == a.version(),
        b.value() == a.masked_value(m),
    ensures
        b.masked_value(m) == b.value(),
{
    match (a, m, b) {
        (Address::V4(x), Bitmask::V4(k), Address::V4(y)) => {
            let (xv, kv, yv) = (x@, v4_mask(k@), y@);
            assert(yv == xv & kv);
            assert((xv & kv) & kv == xv & kv) by (bit_vector);
        },
        (Address::V6(x), Bitmask::V6(k), Address::V6(y)) => {
            let (xv, kv, yv) = (x@, v6_mask(k@), y@);
            assert(yv == xv & kv);
            assert((xv & kv) & kv == xv & kv) by (bit_vector);
        },
        _ => {},
    }
}


/// Two IPv4 addresses of the same value are the same address.
pub proof fn lemma_v4_same_value(a: AddressV4, b: AddressV4)
    requires
        a@ == b@,
    ensures
        a == b,
{
}

/// Two IPv6 addresses of the same value are the same address.
pub proof fn lemma_v6_same_value(a: AddressV6, b: AddressV6)
    requires
        a@ == b@,
    ensures
        a == b,
{
}


/// The strings that are the dotted-decimal form of some IPv4 value.
pub open spec fn is_dotted_decimal(s: Seq<char>) -> bool {
    exists|x: u32| v4_text(x as nat) == s
}

/// The strings that are the full form of some IPv6 value.
pub open spec fn is_full_hex(s: Seq<char>) -> bool {
    exists|x: u128| v6_text(x as nat) == s
}

proof fn lemma_parse_v4_text(x: u32)
    ensures
        parse_v4(v4_text(x as nat)) == Some(x as nat),
{
    let ds = be_digits(x as nat, 4, 256);
    let f = |g: nat| decimal_text(g);
    let parts = ds.map_values(f);
    lemma_be_digits_shape(x as nat, 4, 256);
    assert forall|k: int| 0 <= k < 4 implies free_of(#[trigger] parts[k], '.') && is_octet_text(
        parts[k],
    ) by {
        lemma_decimal_text(ds[k]);
        lemma_digits_free_of(parts[k], 10, '.');
    }
    lemma_split_join(parts, '.');
    assert forall|i: int| 0 <= i < ds.len() implies text_value(f(#[trigger] ds[i]), 10) == ds[i] by {
        lemma_decimal_text(ds[i]);
    }
    lemma_parts_value(ds, f, 10, 256);
    lemma_from_be_digits_round_trip(x as nat, 4, 256);
    lemma_address_powers();
    vstd::arithmetic::div_mod::lemma_small_mod(x as nat, 0x1_0000_0000);
}

proof fn lemma_parse_v6_text(x: u128)
    ensures
        parse_v6(v6_text(x as nat)) == Some(x as nat),
        parse_v4(v6_text(x as nat)) is None,
{
    let ds = be_digits(x as nat, 8, 65536);
    let f = |g: nat| fixed_text(g, 4, 16);
    let parts = ds.map_values(f);
    lemma_be_digits_shape(x as nat, 8, 65536);
    reveal_with_fuel(pow, 5);
    assert forall|k: int| 0 <= k < 8 implies free_of(#[trigger] parts[k], ':') && free_of(
        parts[k],
        '.',
    ) && is_hextet_text(parts[k]) by {
        lemma_fixed_text(ds[k], 4, 16);
        lemma_digits_free_of(parts[k], 16, ':');
        lemma_digits_free_of(parts[k], 16, '.');
    }
    lemma_split_join(parts, ':');
    assert forall|i: int| 0 <= i < ds.len() implies text_value(f(#[trigger] ds[i]), 16) == ds[i] by {
        lemma_fixed_text(ds[i], 4, 16);
        vstd::arithmetic::div_mod::lemma_small_mod(ds[i], 65536);
    }
    lemma_parts_value(ds, f, 16, 65536);
    lemma_from_be_digits_round_trip(x as nat, 8, 65536);
    lemma_address_powers();
    vstd::arithmetic::div_mod::lemma_small_mod(x as nat, pow(65536, 8) as nat);
    lemma_join_free_of(parts, ':', '.');
    crate::numeral::lemma_split_single(v6_text(x as nat), '.');
}

/// Reading the textual form of an address gives the address back, and writing
/// it out again gives the same string: a dotted-decimal string reads as the
/// IPv4 value it writes, a full-form IPv6 string as the IPv6 value it writes.
pub proof fn lemma_text_round_trip(s: Seq<char>)
    requires
        is_dotted_decimal(s) || is_full_hex(s),
    ensures
        parse_address(s) is Some,
        is_dotted_decimal(s) ==> (parse_address(s)->0).0 == Version::IpV4 && (parse_address(s)->0).1
            <= u32::MAX && v4_text((parse_address(s)->0).1) == s,
        is_full_hex(s) ==> (parse_address(s)->0).0 == Version::IpV6 && v6_text(
            (parse_address(s)->0).1,
        ) == s,
{
    if is_dotted_decimal(s) {
        let x = choose|x: u32| v4_text(x as nat) == s;
        lemma_parse_v4_text(x);
    }
    if is_full_hex(s) {
        let x = choose|x: u128| v6_text(x as nat) == s;
        lemma_parse_v6_text(x);
    }
}

} // verus!
