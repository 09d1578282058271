//! Networks: an address with its host bits cleared, under a mask of the same family.
use vstd::arithmetic::power2::{
    lemma2_to64, lemma_pow2_adds, lemma_pow2_pos, lemma_pow2_strictly_increases, pow2,
};
use vstd::bits::lemma_u32_shr_is_div;
use vstd::prelude::*;

use crate::address::{lemma_mask_idempotent, Address, AddressError};
use crate::bitmask::{v4_mask, Bitmask};
use crate::numeral::{chars_of, decimal_text, push_decimal, string_of};
use crate::types::Version;

verus! {

/// A network: its name (an address whose host bits are all zero) and its mask.
#[derive(Debug, Clone, Copy)]
pub struct Network {
    name: Address,
    mask: Bitmask,
}

impl Network {
    #[verifier::type_invariant]
    spec fn well_formed(self) -> bool {
        &&& self.name.version() == self.mask.version()
        &&& self.name.masked_value(self.mask) == self.name.value()
    }

    /// The network's name: its address with the host bits cleared.
    pub closed spec fn spec_name(&self) -> Address {
        self.name
    }

    /// The network's mask.
    pub closed spec fn spec_mask(&self) -> Bitmask {
        self.mask
    }

    /// The network holding `name` under `mask`; the families must agree.
    pub fn new(name: Address, mask: Bitmask) -> (r: Result<Network, AddressError>)
        ensures
            r is Ok <==> name.version() == mask.version(),
            r matches Ok(n) ==> n.spec_name().version() == name.version()
                && n.spec_name().value() == name.masked_value(mask) && n.spec_mask() == mask,
            r matches Err(e) ==> e == AddressError::FamilyMismatch,
    {
        match Network::address_to_name(name, &mask) {
            Ok(a) => {
                proof {
                    lemma_mask_idempotent(name, mask, a);
                }
                Ok(Network { name: a, mask })
            },
            Err(e) => Err(e),
        }
    }

    /// `addr` with the host bits of `bitmask` cleared; the families must agree.
    pub fn address_to_name(addr: Address, bitmask: &Bitmask) -> (r: Result<Address, AddressError>)
        ensures
            r is Ok <==> addr.version() == bitmask.version(),
            r matches Ok(a) ==> a.version() == addr.version() && a.value() == addr.masked_value(
                *bitmask,
            ),
            r matches Err(e) ==> e == AddressError::FamilyMismatch,
    {
        addr.apply_bitmask(bitmask)
    }

    /// The name's textual form.
    pub fn name(&self) -> (r: String)
        ensures
            r@ == self.spec_name().text(),
    {
        self.name.to_string()
    }

    /// The name's binary form.
    pub fn name_as_bits(&self) -> (r: String)
        ensures
            r@ == self.spec_name().bits_text(),
    {
        self.name.to_bitstring()
    }

    /// The mask's binary form.
    pub fn mask(&self) -> (r: String)
        ensures
            r@ == self.spec_mask().bits_text(),
    {
        self.mask.to_bitstring()
    }

    /// How many host addresses the network has (see `Bitmask::address_count`).
    pub fn addresses_number(&self) -> (r: u128)
        requires
            self.spec_mask().address_count() <= u128::MAX,
        ensures
            r == self.spec_mask().address_count(),
    {
        self.mask.addresses_number()
    }

    /// "<name>/<prefix length>".
    pub fn to_string(&self) -> (r: String)
        ensures
            r@ == self.spec_name().text().push('/') + decimal_text(self.spec_mask().prefix()),
    {
        let name = self.name.to_string();
        let mut out = chars_of(name.as_str());
        out.push('/');
        push_decimal(&mut out, self.mask.bits_number() as u128);
        string_of(&out)
    }

    /// The host addresses in order: the `addresses_number()` addresses that
    /// follow the name, each the successor of the one before. Fails where they
    /// would run past the family's last address.
    pub fn get_available_addresses(&self) -> (r: Result<Vec<Address>, AddressError>)
        requires
            self.spec_mask().address_count() <= u128::MAX,
        ensures
            r is Ok <==> self.spec_name().value() + self.spec_mask().address_count()
                <= self.spec_name().max_value(),
            r matches Ok(v) ==> {
                &&& v@.len() == self.spec_mask().address_count()
                &&& forall|i: int|
                    0 <= i < v@.len() ==> (#[trigger] v@[i]).version() == self.spec_name().version()
                        && v@[i].value() == self.spec_name().value() + 1 + i
            },
            r matches Err(e) ==> e == AddressError::AddressOverflow,
            self.spec_name().version() == Version::IpV4 ==> r is Ok,
    {
        proof {
            use_type_invariant(self);
        }
        let prefix = self.mask.bits_number();
        proof {
            if let (Address::V4(a), Bitmask::V4(m)) = (self.name, self.mask) {
                lemma_v4_host_room(a@, prefix as nat);
                assert(self.spec_name().value() == a@);
                assert(self.spec_mask().address_count() == pow2((32 - m@) as nat) - 2);
            }
        }
        let number = self.addresses_number();
        let mut available: Vec<Address> = Vec::new();
        let mut current = self.name;
        let mut k: u128 = 0;
        while k < number
            invariant
                number == self.spec_mask().address_count(),
                self.spec_name().version() == Version::IpV4 ==> self.spec_name().value() + number
                    <= self.spec_name().max_value(),
                k <= number,
                current.version() == self.spec_name().version(),
                current.max_value() == self.spec_name().max_value(),
                current.value() == self.spec_name().value() + k,
                self.spec_name().value() + k <= self.spec_name().max_value(),
                available@.len() == k,
                forall|i: int|
                    0 <= i < k ==> (#[trigger] available@[i]).version() == self.spec_name().version()
                        && available@[i].value() == self.spec_name().value() + 1 + i,
            decreases number - k,
        {
            match current.next() {
                Ok(a) => {
                    current = a;
                },
                Err(e) => {
                    return Err(e);
                },
            }
            available.push(current);
            k = k + 1;
        }
        Ok(available)
    }
}

/// Clearing the bits of `y` from `x` leaves room to add `y` within 32 bits.
proof fn lemma_host_room(x: u32, y: u32)
    by (bit_vector)
    ensures
        (x & !y) as int + y as int <= 0xffff_ffff,
{
}

/// An IPv4 value whose host bits are clear has room after it for all the
/// host addresses of its prefix.
proof fn lemma_v4_host_room(x: u32, p: nat)
    requires
        p < 31,
    ensures
        (x & v4_mask(p)) + pow2((32 - p) as nat) - 2 <= u32::MAX,
        pow2((32 - p) as nat) >= 2,
{
    lemma_pow2_strictly_increases(1, (32 - p) as nat);
    let y = 0xffff_ffffu32 >> (p as u32);
    lemma_host_room(x, y);
    lemma_u32_shr_is_div(0xffff_ffffu32, p as u32);
    lemma_pow2_adds(p, (32 - p) as nat);
    lemma2_to64();
    lemma_pow2_pos(p);
    lemma_pow2_pos((32 - p) as nat);
    let q = pow2(p);
    let r = pow2((32 - p) as nat);
    assert(0xffff_ffff == (r - 1) * q + (q - 1)) by (nonlinear_arith)
        requires
            q * r == 0x1_0000_0000,
    ;
    vstd::arithmetic::div_mod::lemma_fundamental_div_mod_converse(0xffff_ffff, q as int, r - 1, q - 1);
}

} // verus!
