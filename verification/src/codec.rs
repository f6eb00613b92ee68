//! Address codec: octets, the 32-bit positional bit vector, and stepping an
//! address by one.

use vstd::arithmetic::div_mod::lemma_fundamental_div_mod_converse;
use vstd::arithmetic::power2::{
    lemma2_to64, lemma_pow2_strictly_increases, lemma_pow2_unfold, pow2,
};
use vstd::prelude::*;

verus! {

/// The `n`-bit expansion of `x`, most significant bit first. Bits of `x` above
/// the `n`-th are dropped.
pub open spec fn bits_of(x: nat, n: nat) -> Seq<bool>
    decreases n,
{
    if n == 0 {
        Seq::empty()
    } else {
        bits_of(x / 2, (n - 1) as nat).push(x % 2 == 1)
    }
}

/// The number that a bit sequence spells, most significant bit first.
pub open spec fn bits_value(bits: Seq<bool>) -> nat
    decreases bits.len(),
{
    if bits.len() == 0 {
        0
    } else {
        2 * bits_value(bits.drop_last()) + if bits.last() {
            1nat
        } else {
            0nat
        }
    }
}

/// The 32 bits of an address: each octet expanded most significant bit first,
/// the octets in network order.
pub open spec fn to_bits(ip: Seq<u8>) -> Seq<bool> {
    Seq::new(32, |i: int| bits_of(ip[i / 8] as nat, 8)[i % 8])
}

/// The four octets that a 32-bit vector spells, eight bits to an octet.
pub open spec fn from_bits(bits: Seq<bool>) -> Seq<u8> {
    Seq::new(4, |k: int| bits_value(bits.subrange(8 * k, 8 * k + 8)) as u8)
}

/// The address as one unsigned 32-bit number in network order.
pub open spec fn addr_value(ip: Seq<u8>) -> nat {
    (ip[0] as nat) * 16777216 + (ip[1] as nat) * 65536 + (ip[2] as nat) * 256 + (ip[3] as nat)
}

/// An expansion to `n` bits has `n` bits.
pub proof fn lemma_bits_of_len(x: nat, n: nat)
    ensures
        bits_of(x, n).len() == n,
    decreases n,
{
    if n > 0 {
        lemma_bits_of_len(x / 2, (n - 1) as nat);
    }
}

/// Expands an address into its 32 bits, most significant bit of the first
/// octet first.
pub fn decimal_ip_into_binar(decimal_ip: &[u8; 4]) -> (binar_ip: [bool; 32])
    ensures
        binar_ip@ == to_bits(decimal_ip@),
        bits_value(binar_ip@) == addr_value(decimal_ip@),
{
    proof {
        lemma_to_bits_value(decimal_ip@);
    }
    let mut binar_ip: [bool; 32] = [false; 32];
    let mut i: usize = 0;
    while i < 4
        invariant
            i <= 4,
            forall|k: int|
                0 <= k < 8 * i ==> binar_ip@[k] == bits_of(decimal_ip@[k / 8] as nat, 8)[k % 8],
        decreases 4 - i,
    {
        let mut aux: u8 = decimal_ip[i];
        let mut t: usize = 8;
        proof {
            lemma_bits_of_len(decimal_ip@[i as int] as nat, 8);
            assert(bits_of(decimal_ip@[i as int] as nat, 8).take(8) =~= bits_of(aux as nat, 8));
        }
        while t > 0
            invariant
                i < 4,
                t <= 8,
                bits_of(decimal_ip@[i as int] as nat, 8).len() == 8,
                bits_of(decimal_ip@[i as int] as nat, 8).take(t as int) == bits_of(
                    aux as nat,
                    t as nat,
                ),
                forall|k: int|
                    0 <= k < 8 * i ==> binar_ip@[k] == bits_of(decimal_ip@[k / 8] as nat, 8)[k % 8],
                forall|k: int|
                    8 * i + t <= k < 8 * i + 8 ==> binar_ip@[k] == bits_of(
                        decimal_ip@[i as int] as nat,
                        8,
                    )[k - 8 * i],
            decreases t,
        {
            let ghost whole = bits_of(decimal_ip@[i as int] as nat, 8);
            proof {
                lemma_bits_of_len((aux / 2) as nat, (t - 1) as nat);
                assert(whole.take(t as int)[t - 1] == (aux % 2 == 1));
                assert(whole.take(t - 1) =~= whole.take(t as int).drop_last());
            }
            t -= 1;
            binar_ip[i * 8 + t] = aux % 2 == 1;
            aux = aux / 2;
        }
        i += 1;
    }
    binar_ip
}

/// A bit sequence spells a number below two to the power of its length.
pub proof fn lemma_bits_value_bound(bits: Seq<bool>)
    ensures
        bits_value(bits) < pow2(bits.len()),
    decreases bits.len(),
{
    if bits.len() == 0 {
        lemma2_to64();
    } else {
        lemma_bits_value_bound(bits.drop_last());
        lemma_pow2_unfold(bits.len());
    }
}

/// Packs a 32-bit vector into four octets, eight bits to an octet, most
/// significant bit first.
pub fn binar_ip_into_decimal(ip: &[bool; 32]) -> (ipv4: [u8; 4])
    ensures
        ipv4@ == from_bits(ip@),
        addr_value(ipv4@) == bits_value(ip@),
{
    proof {
        lemma_from_bits_value(ip@);
    }
    let mut ipv4: [u8; 4] = [0; 4];
    let mut i: usize = 0;
    while i < 4
        invariant
            i <= 4,
            forall|k: int|
                0 <= k < i ==> ipv4@[k] as nat == bits_value(ip@.subrange(8 * k, 8 * k + 8)),
        decreases 4 - i,
    {
        let mut acc: u8 = 0;
        let mut j: usize = 0;
        while j < 8
            invariant
                i < 4,
                j <= 8,
                acc as nat == bits_value(ip@.subrange(8 * i, 8 * i + j)),
                forall|k: int|
                    0 <= k < i ==> ipv4@[k] as nat == bits_value(ip@.subrange(8 * k, 8 * k + 8)),
            decreases 8 - j,
        {
            proof {
                let seen = ip@.subrange(8 * i, 8 * i + j);
                let next = ip@.subrange(8 * i, 8 * i + j + 1);
                assert(next.drop_last() =~= seen);
                lemma_bits_value_bound(seen);
                lemma_pow2_strictly_increases(j as nat, 8);
                lemma_pow2_unfold(8);
                lemma2_to64();
            }
            acc = 2 * acc + if ip[i * 8 + j] {
                1
            } else {
                0
            };
            j += 1;
        }
        ipv4[i] = acc;
        i += 1;
    }
    assert(ipv4@ =~= from_bits(ip@));
    ipv4
}

/// Expanding a number that fits in `n` bits and reading the bits back gives
/// the number.
pub proof fn lemma_bits_value_of(x: nat, n: nat)
    requires
        x < pow2(n),
    ensures
        bits_value(bits_of(x, n)) == x,
    decreases n,
{
    if n == 0 {
        lemma2_to64();
    } else {
        lemma_pow2_unfold(n);
        lemma_bits_value_of(x / 2, (n - 1) as nat);
        assert(bits_of(x, n).drop_last() =~= bits_of(x / 2, (n - 1) as nat));
    }
}

/// Reading a bit sequence as a number and expanding it to the same length
/// gives the sequence back.
pub proof fn lemma_bits_of_value(bits: Seq<bool>)
    ensures
        bits_of(bits_value(bits), bits.len()) == bits,
    decreases bits.len(),
{
    if bits.len() > 0 {
        lemma_bits_of_value(bits.drop_last());
        assert(bits_of(bits_value(bits), bits.len()) =~= bits);
    } else {
        assert(bits_of(bits_value(bits), bits.len()) =~= bits);
    }
}

/// The value of a concatenation: the leading part shifted left by the length
/// of the trailing part, plus the trailing part.
pub proof fn lemma_bits_value_concat(high: Seq<bool>, low: Seq<bool>)
    ensures
        bits_value(high + low) == bits_value(high) * pow2(low.len()) + bits_value(low),
    decreases low.len(),
{
    if low.len() == 0 {
        lemma2_to64();
        assert(high + low =~= high);
    } else {
        let shorter = low.drop_last();
        lemma_bits_value_concat(high, shorter);
        assert((high + low).drop_last() =~= high + shorter);
        lemma_pow2_unfold(low.len());
        let h = bits_value(high);
        let p = pow2(shorter.len());
        assert(2 * (h * p) == h * (2 * p)) by (nonlinear_arith);
    }
}

/// Round trip through the bit vector: an address expanded to bits and packed
/// again is the same address.
pub proof fn lemma_from_bits_to_bits(ip: Seq<u8>)
    requires
        ip.len() == 4,
    ensures
        from_bits(to_bits(ip)) == ip,
{
    lemma2_to64();
    assert forall|k: int| 0 <= k < 4 implies from_bits(to_bits(ip))[k] == ip[k] by {
        lemma_bits_of_len(ip[k] as nat, 8);
        assert(to_bits(ip).subrange(8 * k, 8 * k + 8) =~= bits_of(ip[k] as nat, 8));
        lemma_bits_value_of(ip[k] as nat, 8);
    }
    assert(from_bits(to_bits(ip)) =~= ip);
}

/// Round trip through the octets: a 32-bit vector packed into octets and
/// expanded again is the same vector.
pub proof fn lemma_to_bits_from_bits(bits: Seq<bool>)
    requires
        bits.len() == 32,
    ensures
        to_bits(from_bits(bits)) == bits,
{
    lemma2_to64();
    assert forall|i: int| 0 <= i < 32 implies to_bits(from_bits(bits))[i] == bits[i] by {
        let k = i / 8;
        let part = bits.subrange(8 * k, 8 * k + 8);
        lemma_bits_value_bound(part);
        lemma_bits_of_value(part);
        assert(part[i % 8] == bits[i]);
    }
    assert(to_bits(from_bits(bits)) =~= bits);
}

/// The 32 bits of an address spell its 32-bit value.
pub proof fn lemma_to_bits_value(ip: Seq<u8>)
    requires
        ip.len() == 4,
    ensures
        bits_value(to_bits(ip)) == addr_value(ip),
{
    lemma2_to64();
    let b0 = bits_of(ip[0] as nat, 8);
    let b1 = bits_of(ip[1] as nat, 8);
    let b2 = bits_of(ip[2] as nat, 8);
    let b3 = bits_of(ip[3] as nat, 8);
    lemma_bits_of_len(ip[0] as nat, 8);
    lemma_bits_of_len(ip[1] as nat, 8);
    lemma_bits_of_len(ip[2] as nat, 8);
    lemma_bits_of_len(ip[3] as nat, 8);
    lemma_bits_value_of(ip[0] as nat, 8);
    lemma_bits_value_of(ip[1] as nat, 8);
    lemma_bits_value_of(ip[2] as nat, 8);
    lemma_bits_value_of(ip[3] as nat, 8);
    assert(to_bits(ip) =~= ((b0 + b1) + b2) + b3);
    lemma_bits_value_concat(b0, b1);
    lemma_bits_value_concat(b0 + b1, b2);
    lemma_bits_value_concat((b0 + b1) + b2, b3);
}

/// The four octets of a 32-bit vector spell the vector's value.
pub proof fn lemma_from_bits_value(bits: Seq<bool>)
    requires
        bits.len() == 32,
    ensures
        addr_value(from_bits(bits)) == bits_value(bits),
{
    lemma_to_bits_from_bits(bits);
    lemma_to_bits_value(from_bits(bits));
}

/// The address whose 32-bit value is `v`.
#[verifier::opaque]
pub open spec fn addr_of(v: nat) -> Seq<u8> {
    seq![
        (v / 16777216 % 256) as u8,
        (v / 65536 % 256) as u8,
        (v / 256 % 256) as u8,
        (v % 256) as u8,
    ]
}

/// An address is the address of its value.
pub proof fn lemma_addr_of_value(ip: Seq<u8>)
    requires
        ip.len() == 4,
    ensures
        addr_of(addr_value(ip)) == ip,
        addr_value(ip) < 4294967296,
{
    reveal(addr_of);
    let v = addr_value(ip) as int;
    let a = ip[0] as int;
    let b = ip[1] as int;
    let c = ip[2] as int;
    let d = ip[3] as int;
    lemma_fundamental_div_mod_converse(v, 16777216, a, b * 65536 + c * 256 + d);
    lemma_fundamental_div_mod_converse(v, 65536, a * 256 + b, c * 256 + d);
    lemma_fundamental_div_mod_converse(v, 256, a * 65536 + b * 256 + c, d);
    assert(addr_of(addr_value(ip)) =~= ip);
}

/// A 32-bit value is the value of its address.
pub proof fn lemma_addr_value_of(v: nat)
    requires
        v < 4294967296,
    ensures
        addr_of(v).len() == 4,
        addr_value(addr_of(v)) == v,
{
    let a = v / 16777216;
    let low24 = v % 16777216;
    let b = low24 / 65536;
    let low16 = low24 % 65536;
    let c = low16 / 256;
    let d = low16 % 256;
    let ip = seq![a as u8, b as u8, c as u8, d as u8];
    assert(addr_value(ip) == v);
    lemma_addr_of_value(ip);
}

/// Two addresses with the same 32-bit value are the same address.
pub proof fn lemma_addr_value_injective(a: Seq<u8>, b: Seq<u8>)
    requires
        a.len() == 4,
        b.len() == 4,
        addr_value(a) == addr_value(b),
    ensures
        a == b,
{
    lemma_addr_of_value(a);
    lemma_addr_of_value(b);
}

/// The address after `v`; the last address wraps to the first.
pub open spec fn next_value(v: nat) -> nat {
    (v + 1) % 4294967296
}

/// The address before `v`; the first address wraps to the last.
pub open spec fn prev_value(v: nat) -> nat {
    ((v + 4294967295) % 4294967296) as nat
}

/// Adds one to an address, carrying from the last octet leftward.
/// `255.255.255.255` wraps to `0.0.0.0`.
pub fn increment_ip(ip: &mut [u8; 4])
    ensures
        addr_value(final(ip)@) == next_value(addr_value(old(ip)@)),
        final(ip)@ == addr_of(next_value(addr_value(old(ip)@))),
{
    let ghost before = ip@;
    let mut i: usize = 4;
    while i > 0
        invariant
            i <= 4,
            before == old(ip)@,
            forall|k: int| i <= k < 4 ==> #[trigger] before[k] == 255,
            forall|k: int| i <= k < 4 ==> #[trigger] ip@[k] == 0,
            forall|k: int| 0 <= k < i ==> #[trigger] ip@[k] == before[k],
        decreases i,
    {
        i -= 1;
        assert(ip@[i as int] == before[i as int]);
        if ip[i] < 255 {
            ip[i] += 1;
            proof {
                lemma_addr_of_value(ip@);
            }
            return ;
        } else {
            let ghost prior = ip@;
            ip[i] = 0;
            assert(ip@ == prior.update(i as int, 0u8));
        }
    }
    proof {
        lemma_addr_of_value(ip@);
    }
}

/// Subtracts one from an address, borrowing from the last octet leftward.
/// `0.0.0.0` wraps to `255.255.255.255`.
pub fn decrement_ip(ip: &mut [u8; 4])
    ensures
        addr_value(final(ip)@) == prev_value(addr_value(old(ip)@)),
        final(ip)@ == addr_of(prev_value(addr_value(old(ip)@))),
{
    let ghost before = ip@;
    let mut i: usize = 4;
    while i > 0
        invariant
            i <= 4,
            before == old(ip)@,
            forall|k: int| i <= k < 4 ==> #[trigger] before[k] == 0,
            forall|k: int| i <= k < 4 ==> #[trigger] ip@[k] == 255,
            forall|k: int| 0 <= k < i ==> #[trigger] ip@[k] == before[k],
        decreases i,
    {
        i -= 1;
        assert(ip@[i as int] == before[i as int]);
        if ip[i] > 0 {
            ip[i] -= 1;
            proof {
                lemma_addr_of_value(ip@);
            }
            return ;
        } else {
            let ghost prior = ip@;
            ip[i] = 255;
            assert(ip@ == prior.update(i as int, 255u8));
        }
    }
    proof {
        lemma_addr_of_value(ip@);
    }
}

} // verus!
