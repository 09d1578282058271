//! CIDR masks of both families.
use vstd::arithmetic::power2::{
    lemma2_to64, lemma2_to64_rest, lemma_pow2_adds, lemma_pow2_strictly_increases,
    lemma_pow2_unfold, pow2,
};
use vstd::prelude::*;

use crate::numeral::{grouped_text, push_grouped, string_of};
use crate::types::Version;

verus! {

/// The IPv4 mask with `prefix` leading one-bits and zero-bits after them.
pub open spec fn v4_mask(prefix: nat) -> u32 {
    !(0xffff_ffffu32 >> (prefix as u32))
}

/// The IPv6 mask with `prefix` leading one-bits and zero-bits after them.
pub open spec fn v6_mask(prefix: nat) -> u128 {
    !(0xffff_ffff_ffff_ffff_ffff_ffff_ffff_ffffu128 >> (prefix as u128))
}

/// Binary rendering of an IPv4 value: four 8-bit groups joined by '.'.
pub open spec fn v4_bits_text(x: nat) -> Seq<char> {
    grouped_text(x, 4, 256, 8, 2, '.')
}

/// Binary rendering of an IPv6 value: eight 16-bit groups joined by ':'.
pub open spec fn v6_bits_text(x: nat) -> Seq<char> {
    grouped_text(x, 8, 65536, 16, 2, ':')
}

/// Why a mask could not be built.
#[derive(Debug, Clone, Copy, PartialEq, Eq, Structural)]
pub enum MaskError {
    /// The prefix leaves fewer host bits than the family requires.
    InvalidPrefix,
}

/// An IPv4 mask: a prefix length below 31 and the mask it gives.
#[derive(Debug, Clone, Copy)]
pub struct BitmaskV4 {
    mask: u32,
    bits_number: u8,
}

/// An IPv6 mask: a prefix length below 127 and the mask it gives.
#[derive(Debug, Clone, Copy)]
pub struct BitmaskV6 {
    mask: u128,
    bits_number: u8,
}

impl View for BitmaskV4 {
    type V = nat;

    /// The prefix length.
    closed spec fn view(&self) -> nat {
        self.bits_number as nat
    }
}

impl View for BitmaskV6 {
    type V = nat;

    /// The prefix length.
    closed spec fn view(&self) -> nat {
        self.bits_number as nat
    }
}

proof fn lemma_v4_mask_step(i: u32, j: u32)
    by (bit_vector)
    requires
        i < 32,
        j == i + 1,
    ensures
        !(0xffff_ffffu32 >> i) | (0x8000_0000u32 >> i) == !(0xffff_ffffu32 >> j),
{
}

proof fn lemma_v6_mask_step(i: u128, j: u128)
    by (bit_vector)
    requires
        i < 128,
        j == i + 1,
    ensures
        !(0xffff_ffff_ffff_ffff_ffff_ffff_ffff_ffffu128 >> i) | (
        0x8000_0000_0000_0000_0000_0000_0000_0000u128 >> i) == !(
        0xffff_ffff_ffff_ffff_ffff_ffff_ffff_ffffu128 >> j),
{
}

/// 2^e, for e below 128.
pub fn power_of_two(e: u32) -> (r: u128)
    requires
        e < 128,
    ensures
        r == pow2(e as nat),
{
    let mut r: u128 = 1;
    let mut i: u32 = 0;
    proof {
        lemma2_to64();
        lemma2_to64_rest();
        lemma_pow2_adds(63, 64);
    }
    while i < e
        invariant
            i <= e < 128,
            r == pow2(i as nat),
            pow2(127) == 0x8000_0000_0000_0000_0000_0000_0000_0000,
        decreases e - i,
    {
        proof {
            lemma_pow2_unfold((i + 1) as nat);
            if i + 1 < 127 {
                lemma_pow2_strictly_increases((i + 1) as nat, 127);
            }
        }
        r = r * 2;
        i = i + 1;
    }
    r
}

impl BitmaskV4 {
    #[verifier::type_invariant]
    spec fn well_formed(self) -> bool {
        &&& self.bits_number < 31
        &&& self.mask == v4_mask(self.bits_number as nat)
    }

    /// The mask of prefix length `bits_number`; prefixes from 31 on leave fewer
    /// than two host addresses and are refused.
    pub fn new(bits_number: u8) -> (r: Result<BitmaskV4, MaskError>)
        ensures
            r is Ok <==> bits_number < 31,
            r matches Ok(m) ==> m@ == bits_number,
            r matches Err(e) ==> e == MaskError::InvalidPrefix,
    {
        if bits_number >= 31 {
            return Err(MaskError::InvalidPrefix);
        }
        Ok(BitmaskV4 { mask: BitmaskV4::fill_n_bits(bits_number), bits_number })
    }

    /// The mask as an integer.
    pub fn get(&self) -> (r: u32)
        ensures
            r == v4_mask(self@),
    {
        proof {
            use_type_invariant(self);
        }
        self.mask
    }

    /// The prefix length.
    pub fn bits_number(&self) -> (r: u8)
        ensures
            r == self@,
            r < 31,
    {
        proof {
            use_type_invariant(self);
        }
        self.bits_number
    }

    /// How many host addresses the mask leaves: 2^(32 - prefix) less the
    /// network and broadcast addresses.
    pub fn addresses_number(&self) -> (r: u128)
        ensures
            r == pow2((32 - self@) as nat) - 2,
    {
        proof {
            use_type_invariant(self);
            lemma_pow2_strictly_increases(1, (32 - self@) as nat);
            lemma2_to64();
        }
        power_of_two(32 - self.bits_number as u32) - 2
    }

    /// The mask in binary, as four 8-bit groups joined by '.'.
    pub fn to_bitstring(&self) -> (r: String)
        ensures
            r@ == v4_bits_text(v4_mask(self@) as nat),
    {
        let mut out: Vec<char> = Vec::new();
        push_grouped(&mut out, self.get() as u128, 4, 256, 8, 2, '.');
        string_of(&out)
    }

    fn fill_n_bits(n: u8) -> (r: u32)
        requires
            n < 32,
        ensures
            r == v4_mask(n as nat),
    {
        let mut bitmask: u32 = 0;
        let mut i: u32 = 0;
        assert(!(0xffff_ffffu32 >> 0u32) == 0) by (bit_vector);
        while i < n as u32
            invariant
                i <= n < 32,
                bitmask == !(0xffff_ffffu32 >> i),
            decreases n - i,
        {
            proof {
                lemma_v4_mask_step(i, (i + 1) as u32);
            }
            bitmask = bitmask | (0x8000_0000u32 >> i);
            i = i + 1;
        }
        bitmask
    }
}

impl BitmaskV6 {
    #[verifier::type_invariant]
    spec fn well_formed(self) -> bool {
        &&& self.bits_number < 127
        &&& self.mask == v6_mask(self.bits_number as nat)
    }

    /// The mask of prefix length `bits_number`; prefixes from 127 on are refused.
    pub fn new(bits_number: u8) -> (r: Result<BitmaskV6, MaskError>)
        ensures
            r is Ok <==> bits_number < 127,
            r matches Ok(m) ==> m@ == bits_number,
            r matches Err(e) ==> e == MaskError::InvalidPrefix,
    {
        if bits_number >= 127 {
            return Err(MaskError::InvalidPrefix);
        }
        Ok(BitmaskV6 { mask: BitmaskV6::fill_n_bits(bits_number), bits_number })
    }

    /// The mask as an integer.
    pub fn get(&self) -> (r: u128)
        ensures
            r == v6_mask(self@),
    {
        proof {
            use_type_invariant(self);
        }
        self.mask
    }

    /// The prefix length.
    pub fn bits_number(&self) -> (r: u8)
        ensures
            r == self@,
            r < 127,
    {
        proof {
            use_type_invariant(self);
        }
        self.bits_number
    }

    /// How many addresses follow the network address: 2^(128 - prefix), with
    /// nothing reserved. For prefix 0 that count does not fit a `u128`.
    pub fn addresses_number(&self) -> (r: u128)
        requires
            self@ >= 1,
        ensures
            r == pow2((128 - self@) as nat),
    {
        proof {
            use_type_invariant(self);
        }
        power_of_two(128 - self.bits_number as u32)
    }

    /// The mask in binary, as eight 16-bit groups joined by ':'.
    pub fn to_bitstring(&self) -> (r: String)
        ensures
            r@ == v6_bits_text(v6_mask(self@) as nat),
    {
        let mut out: Vec<char> = Vec::new();
        push_grouped(&mut out, self.get(), 8, 65536, 16, 2, ':');
        string_of(&out)
    }

    fn fill_n_bits(n: u8) -> (r: u128)
        requires
            n < 128,
        ensures
            r == v6_mask(n as nat),
    {
        let mut bitmask: u128 = 0;
        let mut i: u128 = 0;
        assert(!(0xffff_ffff_ffff_ffff_ffff_ffff_ffff_ffffu128 >> 0u128) == 0) by (bit_vector);
        while i < n as u128
            invariant
                i <= n < 128,
                bitmask == !(0xffff_ffff_ffff_ffff_ffff_ffff_ffff_ffffu128 >> i),
            decreases n - i,
        {
            proof {
                lemma_v6_mask_step(i, (i + 1) as u128);
            }
            bitmask = bitmask | (0x8000_0000_0000_0000_0000_0000_0000_0000u128 >> i);
            i = i + 1;
        }
        bitmask
    }
}

/// A mask of either family.
#[derive(Debug, Clone, Copy)]
pub enum Bitmask {
    V4(BitmaskV4),
    V6(BitmaskV6),
}

impl Bitmask {
    /// The prefix length.
    pub open spec fn prefix(&self) -> nat {
        match self {
            Bitmask::V4(m) => m@,
            Bitmask::V6(m) => m@,
        }
    }

    /// The mask as a number.
    pub open spec fn mask_value(&self) -> nat {
        match self {
            Bitmask::V4(m) => v4_mask(m@) as nat,
            Bitmask::V6(m) => v6_mask(m@) as nat,
        }
    }

    /// The family of the mask.
    pub open spec fn version(&self) -> Version {
        match self {
            Bitmask::V4(_) => Version::IpV4,
            Bitmask::V6(_) => Version::IpV6,
        }
    }

    /// How many addresses the mask leaves for hosts: for IPv4 the
    /// 2^(32 - prefix) addresses less the network and broadcast addresses, for
    /// IPv6 all 2^(128 - prefix).
    pub open spec fn address_count(&self) -> nat {
        match self {
            Bitmask::V4(m) => (pow2((32 - m@) as nat) - 2) as nat,
            Bitmask::V6(m) => pow2((128 - m@) as nat),
        }
    }

    /// The binary rendering of the mask.
    pub open spec fn bits_text(&self) -> Seq<char> {
        match self {
            Bitmask::V4(m) => v4_bits_text(v4_mask(m@) as nat),
            Bitmask::V6(m) => v6_bits_text(v6_mask(m@) as nat),
        }
    }

    /// The mask of family `version` and prefix length `bits_number`.
    pub fn new(version: Version, bits_number: u8) -> (r: Result<Bitmask, MaskError>)
        ensures
            r is Ok <==> (version == Version::IpV4 && bits_number < 31) || (version
                == Version::IpV6 && bits_number < 127),
            r matches Ok(m) ==> m.version() == version && m.prefix() == bits_number,
            r matches Err(e) ==> e == MaskError::InvalidPrefix,
    {
        match version {
            Version::IpV4 => match BitmaskV4::new(bits_number) {
                Ok(m) => Ok(Bitmask::V4(m)),
                Err(e) => Err(e),
            },
            Version::IpV6 => match BitmaskV6::new(bits_number) {
                Ok(m) => Ok(Bitmask::V6(m)),
                Err(e) => Err(e),
            },
        }
    }

    /// The mask as an integer.
    pub fn get(&self) -> (r: u128)
        ensures
            r == self.mask_value(),
    {
        match self {
            Bitmask::V4(m) => m.get() as u128,
            Bitmask::V6(m) => m.get(),
        }
    }

    /// The prefix length.
    pub fn bits_number(&self) -> (r: u8)
        ensures
            r == self.prefix(),
            self.version() == Version::IpV4 ==> r < 31,
            self.version() == Version::IpV6 ==> r < 127,
    {
        match self {
            Bitmask::V4(m) => m.bits_number(),
            Bitmask::V6(m) => m.bits_number(),
        }
    }

    /// The mask in binary: four 8-bit groups joined by '.' for IPv4, eight
    /// 16-bit groups joined by ':' for IPv6.
    pub fn to_bitstring(&self) -> (r: String)
        ensures
            r@ == self.bits_text(),
    {
        match self {
            Bitmask::V4(m) => m.to_bitstring(),
            Bitmask::V6(m) => m.to_bitstring(),
        }
    }

    /// How many host addresses the mask leaves (see `address_count`); the
    /// IPv6 count of prefix 0 does not fit a `u128` and is excluded.
    pub fn addresses_number(&self) -> (r: u128)
        requires
            self.address_count() <= u128::MAX,
        ensures
            r == self.address_count(),
    {
        match self {
            Bitmask::V4(m) => m.addresses_number(),
            Bitmask::V6(m) => {
                if m.bits_number() == 0 {
                    proof {
                        lemma2_to64();
                        lemma_pow2_adds(64, 64);
                        assert(pow2(128) > u128::MAX);
                    }
                }
                m.addresses_number()
            },
        }
    }
}

} // verus!
