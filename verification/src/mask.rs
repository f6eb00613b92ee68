//! Mask arithmetic: prefix lengths, their masks, and the smallest block that
//! holds a number of hosts.

use crate::codec::{
    addr_value, binar_ip_into_decimal, bits_value, decimal_ip_into_binar, from_bits,
    lemma_bits_value_bound, lemma_bits_value_concat, lemma_from_bits_value,
    lemma_to_bits_from_bits, lemma_to_bits_value, to_bits,
};
use crate::types::VlsmError;
use vstd::arithmetic::div_mod::lemma_fundamental_div_mod_converse;
use vstd::arithmetic::power2::{
    lemma2_to64, lemma_pow2_adds, lemma_pow2_pos, lemma_pow2_strictly_increases,
    lemma_pow2_unfold, pow2,
};
use vstd::prelude::*;

verus! {

/// The longest prefix: every bit of the address.
pub const MAX_PREFIX: u32 = 32;

/// The bit pattern of a mask: `prefix` ones, then zeros, 32 bits in all.
pub open spec fn prefix_bits(prefix: nat) -> Seq<bool> {
    Seq::new(32, |i: int| i < prefix)
}

/// The number of addresses in a block of the given prefix length.
pub open spec fn block_size(prefix: nat) -> nat {
    pow2((32 - prefix) as nat)
}

/// A run of `n` equal bits spells zero if they are clear, and one less than
/// two to the power `n` if they are set.
pub proof fn lemma_bits_value_run(n: nat, bit: bool)
    ensures
        bits_value(Seq::new(n, |i: int| bit)) == if bit {
            pow2(n) - 1
        } else {
            0
        },
    decreases n,
{
    let run = Seq::new(n, |i: int| bit);
    if n == 0 {
        lemma2_to64();
    } else {
        lemma_bits_value_run((n - 1) as nat, bit);
        assert(run.drop_last() =~= Seq::new((n - 1) as nat, |i: int| bit));
        lemma_pow2_unfold(n);
    }
}

/// The mask of a prefix has the value of all 32 bits set less the block's
/// host bits.
pub proof fn lemma_prefix_bits_value(prefix: nat)
    requires
        prefix <= 32,
    ensures
        bits_value(prefix_bits(prefix)) == pow2(32) - block_size(prefix),
{
    let ones = Seq::new(prefix, |i: int| true);
    let zeros = Seq::new((32 - prefix) as nat, |i: int| false);
    assert(prefix_bits(prefix) =~= ones + zeros);
    lemma_bits_value_concat(ones, zeros);
    lemma_bits_value_run(prefix, true);
    lemma_bits_value_run((32 - prefix) as nat, false);
    lemma_pow2_adds(prefix, (32 - prefix) as nat);
    let a = pow2(prefix);
    let b = pow2((32 - prefix) as nat);
    assert((a - 1) * b == a * b - b) by (nonlinear_arith);
}

/// The mask of a prefix length of at most 32: `prefix_mask` leading one-bits,
/// the rest clear.
pub fn prefix_mask_octets(prefix_mask: u32) -> (mask: [u8; 4])
    requires
        prefix_mask <= 32,
    ensures
        to_bits(mask@) == prefix_bits(prefix_mask as nat),
        mask@ == from_bits(prefix_bits(prefix_mask as nat)),
        addr_value(mask@) == pow2(32) - block_size(prefix_mask as nat),
{
    let mut binar_ip: [bool; 32] = [false; 32];
    let mut i: usize = 0;
    while i < prefix_mask as usize
        invariant
            prefix_mask <= 32,
            i <= prefix_mask,
            forall|k: int| 0 <= k < 32 ==> #[trigger] binar_ip@[k] == (k < i),
        decreases prefix_mask - i,
    {
        let ghost prior = binar_ip@;
        binar_ip[i] = true;
        assert(binar_ip@ == prior.update(i as int, true));
        i += 1;
    }
    assert(binar_ip@ =~= prefix_bits(prefix_mask as nat));
    proof {
        lemma_to_bits_from_bits(binar_ip@);
        lemma_from_bits_value(binar_ip@);
        lemma_prefix_bits_value(prefix_mask as nat);
    }
    binar_ip_into_decimal(&binar_ip)
}

/// The dotted-decimal mask of a prefix length: `prefix_mask` leading one-bits,
/// the rest clear. A prefix length above 32 is rejected.
pub fn mask_into_decimal(prefix_mask: u32) -> (result: Result<[u8; 4], VlsmError>)
    ensures
        match result {
            Ok(mask) => {
                &&& prefix_mask <= 32
                &&& to_bits(mask@) == prefix_bits(prefix_mask as nat)
                &&& mask@ == from_bits(prefix_bits(prefix_mask as nat))
                &&& addr_value(mask@) == pow2(32) - block_size(prefix_mask as nat)
            },
            Err(e) => prefix_mask > 32 && e == (VlsmError::RangeError { prefix: prefix_mask }),
        },
{
    if prefix_mask > MAX_PREFIX {
        Err(VlsmError::RangeError { prefix: prefix_mask })
    } else {
        Ok(prefix_mask_octets(prefix_mask))
    }
}

/// The first exponent at or after `e`, and at most 32, whose power of two
/// reaches `needed`; 32 if none below it does.
pub open spec fn first_exponent(needed: nat, e: nat) -> nat
    decreases 32 - e,
{
    if e >= 32 || pow2(e) >= needed {
        e
    } else {
        first_exponent(needed, e + 1)
    }
}

/// The prefix length of the smallest block that holds `hosts` host addresses
/// beside its network and broadcast addresses.
pub open spec fn optimal_prefix(hosts: nat) -> nat {
    (32 - first_exponent(hosts + 2, 0)) as nat
}

/// Whether a block with room for `hosts` hosts exists at all.
pub open spec fn representable(hosts: nat) -> bool {
    hosts + 2 <= pow2(32)
}

/// The scan stops within range, at an exponent that reaches `needed`, and no
/// exponent between its start and its stop reaches it.
pub proof fn lemma_first_exponent(needed: nat, e: nat)
    requires
        e <= 32,
        needed <= pow2(32),
    ensures
        e <= first_exponent(needed, e) <= 32,
        pow2(first_exponent(needed, e)) >= needed,
        forall|k: nat| e <= k < first_exponent(needed, e) ==> #[trigger] pow2(k) < needed,
    decreases 32 - e,
{
    if e >= 32 || pow2(e) >= needed {
    } else {
        lemma_first_exponent(needed, e + 1);
    }
}

/// The optimal prefix gives a block that holds the hosts with the two reserved
/// addresses, and every longer prefix gives a block that does not.
pub proof fn lemma_optimal_prefix(hosts: nat)
    requires
        representable(hosts),
    ensures
        optimal_prefix(hosts) <= 31,
        block_size(optimal_prefix(hosts)) >= hosts + 2,
        forall|longer: nat|
            optimal_prefix(hosts) < longer <= 32 ==> #[trigger] block_size(longer) < hosts + 2,
{
    lemma_first_exponent(hosts + 2, 0);
    lemma2_to64();
    let e = first_exponent(hosts + 2, 0);
    assert(e >= 1);
    assert forall|longer: nat| optimal_prefix(hosts) < longer <= 32 implies #[trigger] block_size(
        longer,
    ) < hosts + 2 by {
        let k = (32 - longer) as nat;
        assert(pow2(k) < hosts + 2);
    }
}

/// The prefix length of the smallest block with room for `num_hosts` hosts,
/// the network address and the broadcast address. A host count that no block
/// can hold is rejected.
pub fn compute_optimal_mask(num_hosts: u128) -> (result: Result<u32, VlsmError>)
    ensures
        match result {
            Ok(prefix) => {
                &&& representable(num_hosts as nat)
                &&& prefix == optimal_prefix(num_hosts as nat)
                &&& prefix <= 31
                &&& block_size(prefix as nat) >= num_hosts + 2
                &&& forall|longer: nat|
                    prefix < longer <= 32 ==> #[trigger] block_size(longer) < num_hosts + 2
            },
            Err(e) => !representable(num_hosts as nat) && e == VlsmError::AllocationError,
        },
{
    proof {
        lemma2_to64();
    }
    if num_hosts > 0xFFFF_FFFE {
        return Err(VlsmError::AllocationError);
    }
    let needed: u128 = num_hosts + 2;
    let mut size: u128 = 1;
    let mut exponent: u32 = 0;
    while exponent < 32 && size < needed
        invariant
            exponent <= 32,
            size == pow2(exponent as nat),
            size <= 0x1_0000_0000,
            needed == num_hosts + 2,
            needed <= pow2(32),
            first_exponent(needed as nat, 0) == first_exponent(needed as nat, exponent as nat),
        decreases 32 - exponent,
    {
        proof {
            lemma2_to64();
            lemma_pow2_unfold((exponent + 1) as nat);
            if exponent + 1 < 32 {
                lemma_pow2_strictly_increases((exponent + 1) as nat, 32);
            }
        }
        size = size * 2;
        exponent += 1;
    }
    proof {
        lemma_optimal_prefix(num_hosts as nat);
    }
    Ok(32 - exponent)
}

/// The first address of the block of the given prefix length that holds `v`.
#[verifier::opaque]
pub open spec fn network_value(v: nat, prefix: nat) -> nat {
    (v - v % block_size(prefix)) as nat
}

/// The last address of the block of the given prefix length that holds `v`.
#[verifier::opaque]
pub open spec fn broadcast_value(v: nat, prefix: nat) -> nat {
    (network_value(v, prefix) + block_size(prefix) - 1) as nat
}

/// The bits of an address with the host bits cleared.
pub open spec fn network_bits(bits: Seq<bool>, prefix: nat) -> Seq<bool> {
    Seq::new(32, |i: int| i < prefix && bits[i])
}

/// The bits of an address with the host bits set.
pub open spec fn broadcast_bits(bits: Seq<bool>, prefix: nat) -> Seq<bool> {
    Seq::new(32, |i: int| i >= prefix || bits[i])
}

/// Clearing the host bits of a 32-bit vector gives the first address of its
/// block; setting them gives the last.
pub proof fn lemma_host_bits(bits: Seq<bool>, prefix: nat)
    requires
        bits.len() == 32,
        prefix <= 32,
    ensures
        bits_value(network_bits(bits, prefix)) == network_value(bits_value(bits), prefix),
        bits_value(broadcast_bits(bits, prefix)) == broadcast_value(bits_value(bits), prefix),
{
    reveal(network_value);
    reveal(broadcast_value);
    let width = (32 - prefix) as nat;
    let high = bits.take(prefix as int);
    let low = bits.skip(prefix as int);
    let zeros = Seq::new(width, |i: int| false);
    let ones = Seq::new(width, |i: int| true);
    assert(bits =~= high + low);
    assert(network_bits(bits, prefix) =~= high + zeros);
    assert(broadcast_bits(bits, prefix) =~= high + ones);
    lemma_bits_value_concat(high, low);
    lemma_bits_value_concat(high, zeros);
    lemma_bits_value_concat(high, ones);
    lemma_bits_value_run(width, false);
    lemma_bits_value_run(width, true);
    lemma_bits_value_bound(low);
    lemma_pow2_pos(width);
    lemma_fundamental_div_mod_converse(
        bits_value(bits) as int,
        pow2(width) as int,
        bits_value(high) as int,
        bits_value(low) as int,
    );
}

/// The network address of `ip` under a prefix length: `ip` and the prefix's
/// mask, bit by bit. A prefix length above 32 is rejected.
pub fn network_address(ip: &[u8; 4], prefix: u32) -> (result: Result<[u8; 4], VlsmError>)
    ensures
        match result {
            Ok(network) => {
                &&& prefix <= 32
                &&& network@ == from_bits(network_bits(to_bits(ip@), prefix as nat))
                &&& addr_value(network@) == network_value(addr_value(ip@), prefix as nat)
            },
            Err(e) => prefix > 32 && e == (VlsmError::RangeError { prefix }),
        },
{
    let mask: [u8; 4] = match mask_into_decimal(prefix) {
        Ok(mask) => mask,
        Err(e) => {
            return Err(e);
        },
    };
    let binar_ip: [bool; 32] = decimal_ip_into_binar(ip);
    let binar_prefix: [bool; 32] = decimal_ip_into_binar(&mask);
    let mut binar_netw_ip: [bool; 32] = [false; 32];
    let mut i: usize = 0;
    while i < 32
        invariant
            i <= 32,
            prefix <= 32,
            binar_ip@ == to_bits(ip@),
            binar_prefix@ == prefix_bits(prefix as nat),
            forall|k: int| 0 <= k < i ==> #[trigger] binar_netw_ip@[k] == (k < prefix && binar_ip@[k]),
        decreases 32 - i,
    {
        let ghost prior = binar_netw_ip@;
        let bit: bool = if binar_prefix[i] {
            binar_ip[i]
        } else {
            false
        };
        binar_netw_ip[i] = bit;
        assert(binar_netw_ip@ == prior.update(i as int, bit));
        i += 1;
    }
    assert(binar_netw_ip@ =~= network_bits(to_bits(ip@), prefix as nat));
    proof {
        lemma_host_bits(to_bits(ip@), prefix as nat);
        lemma_from_bits_value(binar_netw_ip@);
        lemma_to_bits_value(ip@);
    }
    Ok(binar_ip_into_decimal(&binar_netw_ip))
}

/// The broadcast address of the block of the given prefix length that holds
/// `network`: the bits beyond the prefix forced to one.
pub fn broadcast_address(network: &[u8; 4], prefix_mask: u32) -> (broadcast: [u8; 4])
    requires
        prefix_mask <= 32,
    ensures
        broadcast@ == from_bits(broadcast_bits(to_bits(network@), prefix_mask as nat)),
        addr_value(broadcast@) == broadcast_value(addr_value(network@), prefix_mask as nat),
{
    let mut binar_network: [bool; 32] = decimal_ip_into_binar(network);
    let mut i: usize = prefix_mask as usize;
    while i < 32
        invariant
            prefix_mask <= i <= 32,
            forall|k: int|
                0 <= k < 32 ==> #[trigger] binar_network@[k] == ((prefix_mask <= k < i)
                    || to_bits(network@)[k]),
        decreases 32 - i,
    {
        let ghost prior = binar_network@;
        binar_network[i] = true;
        assert(binar_network@ == prior.update(i as int, true));
        i += 1;
    }
    assert(binar_network@ =~= broadcast_bits(to_bits(network@), prefix_mask as nat));
    proof {
        lemma_host_bits(to_bits(network@), prefix_mask as nat);
        lemma_from_bits_value(binar_network@);
        lemma_to_bits_value(network@);
    }
    binar_ip_into_decimal(&binar_network)
}

} // verus!
