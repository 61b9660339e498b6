use vstd::prelude::*;
use vstd::arithmetic::power2::pow2;
use vstd::bits::{lemma_u64_pow2_no_overflow, lemma_u64_shl_is_mul};
use vstd::string::*;

use crate::address::{bit_at, parse_address, to_text, Address};
use crate::error::IPError;
use crate::text::{decimal, parse_byte, push_decimal};
use crate::Prefix;

verus! {

/// The mask of a prefix: `prefix` one-bits followed by zero-bits.
pub open spec fn mask_of(prefix: u32) -> u32 {
    if prefix == 0 {
        0u32
    } else {
        0xffff_ffffu32 << (32u32 - prefix) as u32
    }
}

/// The network address of `address` under `prefix`: its host bits cleared.
pub open spec fn network_of(address: u32, prefix: u32) -> u32 {
    address & mask_of(prefix)
}

/// The broadcast address: the network address with every host bit set.
pub open spec fn broadcast_of(address: u32, prefix: u32) -> u32 {
    network_of(address, prefix) | !mask_of(prefix)
}

/// The broadcast address with its least significant bit cleared.
pub open spec fn last_host_of(address: u32, prefix: u32) -> u32 {
    broadcast_of(address, prefix) & 0xffff_fffeu32
}

/// The network address with its least significant bit set.
pub open spec fn first_host_of(address: u32, prefix: u32) -> u32 {
    network_of(address, prefix) | 1u32
}

/// The address of subnet `i` when `network` is divided into networks of
/// `new_prefix` bits: `i` written into the bits just above the new host bits.
pub open spec fn subnet_address(network: u32, new_prefix: u32, i: u32) -> u32 {
    network | (i << (32u32 - new_prefix) as u32)
}

/// The position of the first `/` in `s`, where there is one.
pub open spec fn first_slash(s: Seq<char>) -> int {
    choose|i: int| 0 <= i < s.len() && s[i] == '/' && forall|j: int| 0 <= j < i ==> s[j] != '/'
}

/// What CIDR text such as `10.0.0.0/8` denotes: an address and a prefix.
pub open spec fn parse_cidr(s: Seq<char>) -> Result<(u32, u8), IPError> {
    if forall|k: int| 0 <= k < s.len() ==> s[k] != '/' {
        Err(IPError::InvalidAddress)
    } else {
        let i = first_slash(s);
        match parse_address(s.take(i)) {
            None => Err(IPError::InvalidAddress),
            Some(a) => match parse_byte(s.skip(i + 1)) {
                None => Err(IPError::InvalidAddress),
                Some(p) => if p > 32 {
                    Err(IPError::InvalidPrefix)
                } else {
                    Ok((a, p))
                },
            },
        }
    }
}

/// An IPv4 address together with the prefix of its network, and the mask
/// and network address that follow from the two.
#[derive(Debug)]
pub struct IP {
    address: Address,
    mask: Address,
    net_address: Address,
    prefix: Prefix,
    is_network_address: bool,
}

impl IP {
    #[verifier::type_invariant]
    spec fn well_formed(self) -> bool {
        &&& self.prefix <= 32
        &&& self.mask@ == mask_of(self.prefix as u32)
        &&& self.net_address@ == network_of(self.address@, self.prefix as u32)
        &&& self.is_network_address == (self.address@ == self.net_address@)
    }

    /// The address as it was given.
    pub closed spec fn spec_address(&self) -> u32 {
        self.address@
    }

    /// The prefix length.
    pub closed spec fn spec_prefix(&self) -> u8 {
        self.prefix
    }

    fn from_parts(address: Address, prefix: Prefix) -> (r: Self)
        requires
            prefix <= 32,
        ensures
            r.spec_address() == address@,
            r.spec_prefix() == prefix,
    {
        let m: u32 = if prefix == 0 {
            0
        } else {
            0xffff_ffffu32 << (32 - prefix) as u32
        };
        let mask = Address(m);
        let net_address = Address(address.0 & m);
        let is_network_address = address.0 == net_address.0;
        IP { address, mask, net_address, prefix, is_network_address }
    }

    /// Reads CIDR text such as `192.168.1.10/24`.
    pub fn try_from(value: &str) -> (r: Result<Self, IPError>)
        ensures
            match parse_cidr(value@) {
                Ok((a, p)) => r is Ok && r->Ok_0.spec_address() == a && r->Ok_0.spec_prefix() == p,
                Err(e) => r is Err && r->Err_0 == e,
            },
    {
        let n = value.unicode_len();
        let mut i: usize = 0;
        while i < n && value.get_char(i) != '/'
            invariant
                i <= n,
                n == value@.len(),
                forall|j: int| 0 <= j < i ==> value@[j] != '/',
            decreases n - i,
        {
            i = i + 1;
        }
        if i == n {
            return Err(IPError::InvalidAddress);
        }
        assert(value@[i as int] == '/');
        assert(first_slash(value@) == i) by {
            let k = first_slash(value@);
            assert(0 <= k < value@.len() && value@[k] == '/' && forall|j: int|
                0 <= j < k ==> value@[j] != '/');
            if k < i {
            } else if k > i {
                assert(value@[i as int] != '/');
            }
        }
        let head = value.substring_char(0, i);
        let tail = value.substring_char(i + 1, n);
        assert(head@ =~= value@.take(i as int));
        assert(tail@ =~= value@.skip(i + 1));
        let address = match Address::new(head) {
            Ok(a) => a,
            Err(e) => return Err(e),
        };
        let mut digits: Vec<char> = Vec::new();
        let mut k: usize = 0;
        let tn = tail.unicode_len();
        while k < tn
            invariant
                k <= tn,
                tn == tail@.len(),
                digits@ =~= tail@.take(k as int),
            decreases tn - k,
        {
            digits.push(tail.get_char(k));
            k = k + 1;
        }
        assert(tail@.take(tn as int) =~= tail@);
        let prefix: Prefix = match crate::text::parse_byte_chars(&digits) {
            Some(p) => p,
            None => return Err(IPError::InvalidAddress),
        };
        if prefix > 32 {
            return Err(IPError::InvalidPrefix);
        }
        Ok(Self::from_parts(address, prefix))
    }

    /// The prefix length, at most 32.
    pub fn prefix(&self) -> (r: &Prefix)
        ensures
            *r == self.spec_prefix(),
            *r <= 32,
    {
        proof {
            use_type_invariant(self);
        }
        &self.prefix
    }

    /// The network address: the address with its host bits cleared.
    pub fn net_addr(&self) -> (r: &Address)
        ensures
            r@ == network_of(self.spec_address(), self.spec_prefix() as u32),
    {
        proof {
            use_type_invariant(self);
        }
        &self.net_address
    }

    /// The subnet mask of the prefix.
    pub fn mask(&self) -> (r: &Address)
        ensures
            r@ == mask_of(self.spec_prefix() as u32),
    {
        proof {
            use_type_invariant(self);
        }
        &self.mask
    }

    /// The broadcast address: the network address with every host bit set.
    pub fn broadcast(&self) -> (r: Address)
        ensures
            r@ == broadcast_of(self.spec_address(), self.spec_prefix() as u32),
    {
        proof {
            use_type_invariant(self);
        }
        Address::from(self.net_address.0 | !self.mask.0)
    }

    /// The broadcast address with its least significant bit cleared.
    pub fn last_host(&self) -> (r: Address)
        ensures
            r@ == last_host_of(self.spec_address(), self.spec_prefix() as u32),
    {
        proof {
            use_type_invariant(self);
        }
        Address::from((self.net_address.0 | !self.mask.0) & 0xffff_fffeu32)
    }

    /// The network address with its least significant bit set.
    pub fn first_host(&self) -> (r: Address)
        ensures
            r@ == first_host_of(self.spec_address(), self.spec_prefix() as u32),
    {
        proof {
            use_type_invariant(self);
        }
        Address::from(self.net_address.0 | 1u32)
    }

    /// The wildcard mask: the complement of the subnet mask.
    pub fn wildcard(&self) -> (r: Address)
        ensures
            r@ == !mask_of(self.spec_prefix() as u32),
    {
        proof {
            use_type_invariant(self);
        }
        Address::from(!self.mask.0)
    }

    /// The CIDR text of the descriptor: the address as it was given, `/`,
    /// and the prefix, such as `192.168.1.10/24`.
    pub fn as_str(&self) -> (r: String)
        ensures
            r@ == to_text(self.spec_address()) + seq!['/'] + decimal(self.spec_prefix() as nat),
    {
        let mut out = self.address.as_str();
        let slash = "/";
        proof {
            reveal_strlit("/");
        }
        out.append(slash);
        push_decimal(&mut out, self.prefix);
        out
    }

    /// The CIDR text, then the network address and the mask on lines of
    /// their own.
    pub fn details(&self) -> (r: String)
        ensures
            r@ == to_text(self.spec_address()) + seq!['/'] + decimal(self.spec_prefix() as nat)
                + "\nnetwork: "@ + to_text(network_of(self.spec_address(), self.spec_prefix() as u32))
                + "\nsubnet mask: "@ + to_text(mask_of(self.spec_prefix() as u32)),
    {
        proof {
            use_type_invariant(self);
        }
        let mut out = self.as_str();
        out.append("\nnetwork: ");
        let net = self.net_address.as_str();
        out.append(net.as_str());
        out.append("\nsubnet mask: ");
        let mask = self.mask.as_str();
        out.append(mask.as_str());
        out
    }

    /// Divides the network into the `2^(new_prefix - prefix)` networks of
    /// prefix `new_prefix`, in ascending order of address.
    pub fn subnet(&self, new_prefix: u8) -> (r: Result<Vec<Self>, IPError>)
        ensures
            new_prefix <= self.spec_prefix() ==> r == Err::<Vec<Self>, IPError>(
                IPError::InvalidSubnetPrefix,
            ),
            new_prefix > self.spec_prefix() && self.spec_address() != network_of(
                self.spec_address(),
                self.spec_prefix() as u32,
            ) ==> r == Err::<Vec<Self>, IPError>(IPError::InvalidNetworkAddress),
            new_prefix > self.spec_prefix() && self.spec_address() == network_of(
                self.spec_address(),
                self.spec_prefix() as u32,
            ) && new_prefix > 32 ==> r == Err::<Vec<Self>, IPError>(IPError::InvalidPrefix),
            new_prefix > self.spec_prefix() && self.spec_address() == network_of(
                self.spec_address(),
                self.spec_prefix() as u32,
            ) && new_prefix <= 32 ==> {
                &&& r is Ok
                &&& r->Ok_0@.len() == pow2((new_prefix - self.spec_prefix()) as nat)
                &&& forall|i: int|
                    0 <= i < r->Ok_0@.len() ==> {
                        &&& (#[trigger] r->Ok_0@[i]).spec_prefix() == new_prefix
                        &&& r->Ok_0@[i].spec_address() == subnet_address(
                            self.spec_address(),
                            new_prefix as u32,
                            i as u32,
                        )
                    }
            },
    {
        proof {
            use_type_invariant(self);
        }
        if new_prefix <= self.prefix {
            return Err(IPError::InvalidSubnetPrefix);
        } else if !self.is_network_address {
            return Err(IPError::InvalidNetworkAddress);
        }
        if new_prefix > 32 {
            return Err(IPError::InvalidPrefix);
        }
        let network = self.net_address.0;
        let borrowed: u8 = new_prefix - self.prefix;
        let shift: u32 = (32 - new_prefix) as u32;
        proof {
            lemma_u64_pow2_no_overflow(borrowed as nat);
            lemma_u64_shl_is_mul(1u64, borrowed as u64);
        }
        let count: u64 = 1u64 << (borrowed as u64);
        assert(count <= 0x1_0000_0000u64) by {
            vstd::arithmetic::power2::lemma_pow2_adds(borrowed as nat, (32 - borrowed) as nat);
            vstd::arithmetic::power2::lemma_pow2_pos((32 - borrowed) as nat);
            vstd::arithmetic::power2::lemma2_to64();
        }
        let mut subnets: Vec<Self> = Vec::new();
        let mut i: u64 = 0;
        while i < count
            invariant
                i <= count,
                count == pow2(borrowed as nat),
                count <= 0x1_0000_0000u64,
                borrowed == new_prefix - self.spec_prefix(),
                shift == 32 - new_prefix,
                shift < 32,
                new_prefix <= 32,
                network == self.spec_address(),
                subnets@.len() == i,
                forall|k: int|
                    0 <= k < i ==> {
                        &&& (#[trigger] subnets@[k]).spec_prefix() == new_prefix
                        &&& subnets@[k].spec_address() == subnet_address(
                            network,
                            new_prefix as u32,
                            k as u32,
                        )
                    },
            decreases count - i,
        {
            let a: u32 = network | ((i as u32) << shift);
            subnets.push(Self::from_parts(Address::from(a), new_prefix));
            i = i + 1;
        }
        Ok(subnets)
    }
}

/// The mask of a prefix `p` has its first `p` bits set and its other
/// `32 - p` bits clear, and the wildcard mask has every bit of the mask
/// flipped.
pub proof fn lemma_mask_bits(p: u32)
    requires
        p <= 32,
    ensures
        forall|i: u32| i < 32 ==> (bit_at(mask_of(p), i) <==> i < p),
        forall|i: u32| i < 32 ==> (bit_at(!mask_of(p), i) <==> !bit_at(mask_of(p), i)),
{
    assert forall|i: u32| i < 32 implies (bit_at(mask_of(p), i) <==> i < p) by {
        if p == 0 {
            assert((0u32 >> (31u32 - i) as u32) & 1u32 != 1u32) by (bit_vector);
        } else {
            assert(((0xffff_ffffu32 << (32u32 - p) as u32) >> (31u32 - i) as u32) & 1u32 == 1u32
                <==> i < p) by (bit_vector)
                requires
                    0 < p <= 32,
                    i < 32,
            ;
        }
    }
    assert forall|i: u32| i < 32 implies (bit_at(!mask_of(p), i) <==> !bit_at(mask_of(p), i)) by {
        let m = mask_of(p);
        assert(((!m) >> (31u32 - i) as u32) & 1u32 == 1u32 <==> !((m >> (31u32 - i) as u32) & 1u32
            == 1u32)) by (bit_vector)
            requires
                i < 32,
        ;
    }
}

/// Every bit of a network address past its prefix is clear.
pub proof fn lemma_network_host_bits_clear(address: u32, p: u32)
    requires
        p <= 32,
    ensures
        forall|i: u32| p <= i < 32 ==> !#[trigger] bit_at(network_of(address, p), i),
{
    lemma_mask_bits(p);
    assert forall|i: u32| p <= i < 32 implies !bit_at(network_of(address, p), i) by {
        let m = mask_of(p);
        assert(!bit_at(m, i));
        assert(((m >> (31u32 - i) as u32) & 1u32 != 1u32) ==> (((address & m) >> (31u32 - i) as u32)
            & 1u32 != 1u32)) by (bit_vector)
            requires
                i < 32,
        ;
    }
}

proof fn lemma_child_block_bits(network: u32, i: u32, s: u32, q: u32, m_new: u32, m_p: u32)
    by (bit_vector)
    requires
        s < q <= 32,
        m_new == 0xffff_ffffu32 << s,
        q == 32 ==> m_p == 0u32,
        q < 32 ==> m_p == 0xffff_ffffu32 << q,
        network & m_p == network,
        (i as u64) < (1u64 << (q - s) as u64),
    ensures
        (network | (i << s)) & m_new == network | (i << s),
        (network | (i << s)) & m_p == network,
        ((network | (i << s)) & m_new) | !m_new <= (network & m_p) | !m_p,
        i == 0 ==> network | (i << s) == network,
        (i as u64) + 1 < (1u64 << (q - s) as u64) ==> (((network | (i << s)) & m_new) | !m_new) + 1
            == network | (((i + 1) as u32) << s),
        (i as u64) + 1 == (1u64 << (q - s) as u64) ==> ((network | (i << s)) & m_new) | !m_new == (
        network & m_p) | !m_p,
        network <= network | (i << s),
        i != 0 ==> network < network | (i << s),
        i == 0 ==> ((network | (i << s)) & m_new) | !m_new < (network & m_p) | !m_p,
{
}

proof fn lemma_child_block(network: u32, p: u32, new_prefix: u32, i: u32)
    requires
        p < new_prefix <= 32,
        network_of(network, p) == network,
        (i as u64) < (1u64 << (new_prefix - p) as u64),
    ensures
        network_of(subnet_address(network, new_prefix, i), new_prefix) == subnet_address(
            network,
            new_prefix,
            i,
        ),
        network_of(subnet_address(network, new_prefix, i), p) == network,
        broadcast_of(subnet_address(network, new_prefix, i), new_prefix) <= broadcast_of(
            network,
            p,
        ),
        i == 0 ==> subnet_address(network, new_prefix, i) == network,
        (i as u64) + 1 < (1u64 << (new_prefix - p) as u64) ==> broadcast_of(
            subnet_address(network, new_prefix, i),
            new_prefix,
        ) + 1 == subnet_address(network, new_prefix, (i + 1) as u32),
        (i as u64) + 1 == (1u64 << (new_prefix - p) as u64) ==> broadcast_of(
            subnet_address(network, new_prefix, i),
            new_prefix,
        ) == broadcast_of(network, p),
        network <= subnet_address(network, new_prefix, i),
        i != 0 ==> network < subnet_address(network, new_prefix, i),
        i == 0 ==> broadcast_of(subnet_address(network, new_prefix, i), new_prefix) < broadcast_of(
            network,
            p,
        ),
{
    let s = (32u32 - new_prefix) as u32;
    let q = (32u32 - p) as u32;
    let m_new = mask_of(new_prefix);
    let m_p = mask_of(p);
    assert((1u64 << (new_prefix - p) as u64) == (1u64 << (q - s) as u64));
    lemma_child_block_bits(network, i, s, q, m_new, m_p);
}

/// Dividing a network of prefix `p` into the networks of prefix
/// `new_prefix` gives `2^(new_prefix - p)` of them, in ascending order. Each
/// is a network of the new prefix that lies inside the parent and is not all
/// of it. The first starts where the parent starts, each other starts just
/// after the one before it ends, and the last ends where the parent ends: so
/// every address of the parent lies in exactly one of them.
pub proof fn lemma_subnets_partition(network: u32, p: u8, new_prefix: u8)
    requires
        p < new_prefix <= 32,
        network_of(network, p as u32) == network,
    ensures
        forall|i: int|
            0 <= i < pow2((new_prefix - p) as nat) ==> {
                let a = #[trigger] subnet_address(network, new_prefix as u32, i as u32);
                let b = broadcast_of(a, new_prefix as u32);
                &&& network_of(a, new_prefix as u32) == a
                &&& network_of(a, p as u32) == network
                &&& network <= a
                &&& b <= broadcast_of(network, p as u32)
                &&& (a != network || b != broadcast_of(network, p as u32))
                &&& i == 0 ==> a == network
                &&& i + 1 < pow2((new_prefix - p) as nat) ==> b + 1 == subnet_address(
                    network,
                    new_prefix as u32,
                    (i + 1) as u32,
                )
                &&& i + 1 == pow2((new_prefix - p) as nat) ==> b == broadcast_of(
                    network,
                    p as u32,
                )
            },
{
    let k = (new_prefix - p) as u64;
    lemma_u64_pow2_no_overflow(k as nat);
    lemma_u64_shl_is_mul(1u64, k);
    let count = 1u64 << k;
    assert(count == pow2(k as nat));
    assert forall|i: int| 0 <= i < pow2((new_prefix - p) as nat) implies {
        let a = #[trigger] subnet_address(network, new_prefix as u32, i as u32);
        let b = broadcast_of(a, new_prefix as u32);
        &&& network_of(a, new_prefix as u32) == a
        &&& network_of(a, p as u32) == network
        &&& network <= a
        &&& b <= broadcast_of(network, p as u32)
        &&& (a != network || b != broadcast_of(network, p as u32))
        &&& i == 0 ==> a == network
        &&& i + 1 < pow2((new_prefix - p) as nat) ==> b + 1 == subnet_address(
            network,
            new_prefix as u32,
            (i + 1) as u32,
        )
        &&& i + 1 == pow2((new_prefix - p) as nat) ==> b == broadcast_of(network, p as u32)
    } by {
        vstd::arithmetic::power2::lemma_pow2_adds(k as nat, (32 - k) as nat);
        vstd::arithmetic::power2::lemma_pow2_pos((32 - k) as nat);
        vstd::arithmetic::power2::lemma2_to64();
        assert(i <= u32::MAX);
        let j = i as u32;
        assert(j as int == i);
        lemma_child_block(network, p as u32, new_prefix as u32, j);
        if i + 1 < pow2((new_prefix - p) as nat) {
            assert(((j + 1) as u32) as int == i + 1);
        }
    }
}

} // verus!
