//! The allocator: one pass over the requests, largest first, carving each
//! block at a cursor and moving the cursor behind it.

use crate::codec::{
    addr_of, addr_value, decrement_ip, from_bits, increment_ip, lemma_addr_of_value,
    lemma_addr_value_of, lemma_from_bits_value, next_value, prev_value,
};
use crate::mask::{
    block_size, broadcast_address, broadcast_value, compute_optimal_mask,
    lemma_optimal_prefix, lemma_prefix_bits_value, network_address, network_value,
    optimal_prefix, prefix_bits, prefix_mask_octets, representable,
};
use crate::order::{
    allocation_order, effective_hosts, get_total_hosts, largest_first, lemma_insert_position,
    lemma_sort_desc_largest_first, lemma_sort_desc_len, lemma_sort_desc_permutes,
    insert_position, picked, sort_desc,
};
use crate::text::{
    decimal_ip_into_string, dotted_text, lemma_parse_dotted, parse_address, str_into_decimal_ip,
};
use crate::types::{ComputedSubnet, NetworkInfo, VlsmError};
use vstd::arithmetic::div_mod::{lemma_fundamental_div_mod, lemma_mod_multiples_basic};
use vstd::arithmetic::power2::{
    lemma2_to64, lemma_pow2_adds, lemma_pow2_pos, lemma_pow2_strictly_increases,
    lemma_pow2_unfold, pow2,
};
use vstd::bits::lemma_u64_shl_is_mul;
use vstd::prelude::*;
use vstd::seq_lib::to_multiset_contains;
use vstd::string::*;

verus! {

/// The prefix length of the block that serves a request.
pub open spec fn request_prefix(net: NetworkInfo) -> nat {
    optimal_prefix(effective_hosts(net))
}

/// The number of addresses in the block that serves a request.
pub open spec fn request_size(net: NetworkInfo) -> nat {
    block_size(request_prefix(net))
}

/// The number of addresses that the blocks of a sequence of requests take
/// together.
pub open spec fn total_size(s: Seq<NetworkInfo>) -> nat
    decreases s.len(),
{
    if s.len() == 0 {
        0
    } else {
        total_size(s.drop_last()) + request_size(s.last())
    }
}

/// Whether a block exists for every request.
pub open spec fn all_representable(s: Seq<NetworkInfo>) -> bool {
    forall|i: int| 0 <= i < s.len() ==> representable(effective_hosts(#[trigger] s[i]))
}

/// Whether the requests can be served from a base block of the given prefix
/// length: a block exists for each, and the blocks together are no larger than
/// the base block.
pub open spec fn fits(s: Seq<NetworkInfo>, prefix: nat) -> bool {
    all_representable(s) && total_size(s) <= block_size(prefix)
}

/// The first address of the `i`-th block carved from `base`.
pub open spec fn block_start(base: nat, sorted: Seq<NetworkInfo>, i: int) -> nat {
    base + total_size(sorted.take(i))
}

/// The last address of the `i`-th block carved from `base`.
pub open spec fn block_end(base: nat, sorted: Seq<NetworkInfo>, i: int) -> nat {
    (base + total_size(sorted.take(i + 1)) - 1) as nat
}

/// The separator between the two ends of the assignable range.
pub open spec fn range_separator() -> Seq<char> {
    seq![' ', '-', ' ']
}

/// Whether a record describes the block from `start` to `end` with the given
/// prefix length, under the given name. The assignable range runs from the
/// address after `start` to the address before `end`.
#[verifier::opaque]
pub open spec fn renders(
    subnet: ComputedSubnet,
    name: Seq<char>,
    prefix: nat,
    start: nat,
    end: nat,
) -> bool {
    &&& subnet.network_name@ == name
    &&& subnet.prefix_mask == prefix
    &&& subnet.decimal_mask@ == dotted_text(addr_of((pow2(32) - block_size(prefix)) as nat))
    &&& subnet.ip_network@ == dotted_text(addr_of(start))
    &&& subnet.assignable_ips@ == dotted_text(addr_of(next_value(start))) + range_separator()
        + dotted_text(addr_of(prev_value(end)))
    &&& subnet.ip_broadcast@ == dotted_text(addr_of(end))
}

/// The number of addresses in a block of the given prefix length.
pub fn block_len(prefix: u32) -> (len: u64)
    requires
        prefix <= 32,
    ensures
        len == block_size(prefix as nat),
        1 <= len <= 0x1_0000_0000,
{
    let shift: u64 = (32 - prefix) as u64;
    proof {
        lemma2_to64();
        lemma_pow2_pos(shift as nat);
        if shift < 32 {
            lemma_pow2_strictly_increases(shift as nat, 32);
        }
        lemma_u64_shl_is_mul(1, shift);
    }
    1u64 << shift
}

/// Packages a block for display: the request's name, the prefix length, and
/// the mask, network address, assignable range and broadcast address in
/// dotted decimal.
pub fn assemble_subnet(
    netw: &NetworkInfo,
    prefix_mask: u32,
    decimal_mask: [u8; 4],
    network: [u8; 4],
    first: [u8; 4],
    last: [u8; 4],
    broadcast: [u8; 4],
) -> (subnet: ComputedSubnet)
    ensures
        subnet.network_name@ == netw.name@,
        subnet.prefix_mask == prefix_mask,
        subnet.decimal_mask@ == dotted_text(decimal_mask@),
        subnet.ip_network@ == dotted_text(network@),
        subnet.assignable_ips@ == dotted_text(first@) + range_separator() + dotted_text(last@),
        subnet.ip_broadcast@ == dotted_text(broadcast@),
{
    proof {
        reveal_strlit(" - ");
    }
    let mut assignable_ips = decimal_ip_into_string(first);
    assignable_ips.append(" - ");
    let last_text = decimal_ip_into_string(last);
    assignable_ips.append(last_text.as_str());
    assert(" - "@ =~= range_separator());
    ComputedSubnet {
        network_name: netw.name.clone(),
        prefix_mask,
        decimal_mask: decimal_ip_into_string(decimal_mask),
        ip_network: decimal_ip_into_string(network),
        assignable_ips,
        ip_broadcast: decimal_ip_into_string(broadcast),
    }
}

/// The blocks of the first `i` requests take no more than those of the first
/// `j`, where `i` is at most `j`.
proof fn lemma_total_size_take(s: Seq<NetworkInfo>, i: int, j: int)
    requires
        0 <= i <= j <= s.len(),
    ensures
        total_size(s.take(i)) <= total_size(s.take(j)),
    decreases j - i,
{
    if i < j {
        lemma_total_size_take(s, i, j - 1);
        assert(s.take(j).drop_last() =~= s.take(j - 1));
    }
}

/// Adding a request anywhere adds the size of its block to the total.
proof fn lemma_total_size_insert(s: Seq<NetworkInfo>, pos: int, net: NetworkInfo)
    requires
        0 <= pos <= s.len(),
    ensures
        total_size(s.insert(pos, net)) == total_size(s) + request_size(net),
    decreases s.len() - pos,
{
    let longer = s.insert(pos, net);
    if pos == s.len() {
        assert(longer.drop_last() =~= s);
    } else {
        lemma_total_size_insert(s.drop_last(), pos, net);
        assert(longer.drop_last() =~= s.drop_last().insert(pos, net));
        assert(longer.last() == s.last());
    }
}

/// The order of service does not change how much the requests take together.
pub proof fn lemma_total_size_sorted(s: Seq<NetworkInfo>)
    ensures
        total_size(sort_desc(s)) == total_size(s),
    decreases s.len(),
{
    if s.len() > 0 {
        let sorted = sort_desc(s.drop_last());
        lemma_total_size_sorted(s.drop_last());
        lemma_insert_position(sorted, s.last());
        lemma_total_size_insert(sorted, insert_position(sorted, s.last()), s.last());
    }
}

/// The order of service serves the same requests: a block exists for each of
/// them exactly where one exists for each request as given.
pub proof fn lemma_all_representable_sorted(s: Seq<NetworkInfo>)
    ensures
        all_representable(sort_desc(s)) == all_representable(s),
{
    let sorted = sort_desc(s);
    lemma_sort_desc_permutes(s);
    assert forall|net: NetworkInfo| sorted.contains(net) == s.contains(net) by {
        to_multiset_contains(sorted, net);
        to_multiset_contains(s, net);
    }
    if all_representable(s) {
        assert forall|i: int| 0 <= i < sorted.len() implies representable(
            effective_hosts(#[trigger] sorted[i]),
        ) by {
            assert(sorted.contains(sorted[i]));
            let k = choose|k: int| 0 <= k < s.len() && s[k] == sorted[i];
            assert(representable(effective_hosts(s[k])));
        }
    }
    if all_representable(sorted) {
        assert forall|i: int| 0 <= i < s.len() implies representable(
            effective_hosts(#[trigger] s[i]),
        ) by {
            assert(s.contains(s[i]));
            let k = choose|k: int| 0 <= k < sorted.len() && sorted[k] == s[i];
            assert(representable(effective_hosts(sorted[k])));
        }
    }
}

/// A request that needs at least as many addresses as another gets a prefix
/// that is no longer, and so a block that is no smaller.
pub proof fn lemma_request_prefix_monotone(larger: NetworkInfo, smaller: NetworkInfo)
    requires
        effective_hosts(larger) >= effective_hosts(smaller),
        representable(effective_hosts(larger)),
    ensures
        request_prefix(larger) <= request_prefix(smaller) <= 31,
{
    lemma_optimal_prefix(effective_hosts(larger));
    lemma_optimal_prefix(effective_hosts(smaller));
    if request_prefix(larger) > request_prefix(smaller) {
        assert(block_size(request_prefix(larger)) < effective_hosts(smaller) + 2);
    }
}

/// A multiple of a power of two is a multiple of every smaller power of two.
proof fn lemma_aligned_coarser(x: nat, a: nat, b: nat)
    requires
        x % pow2(a) == 0,
        b <= a,
    ensures
        x % pow2(b) == 0,
{
    lemma_pow2_pos(a);
    lemma_pow2_pos(b);
    lemma_pow2_adds((a - b) as nat, b);
    lemma_fundamental_div_mod(x as int, pow2(a) as int);
    let q = x as int / pow2(a) as int;
    let r = pow2((a - b) as nat) as int;
    let m = pow2(b) as int;
    assert(x == (q * r) * m) by (nonlinear_arith)
        requires
            x == (r * m) * q,
    ;
    lemma_mod_multiples_basic(q * r, m);
}

/// The sum of two multiples of `m` is a multiple of `m`.
proof fn lemma_aligned_sum(x: nat, y: nat, m: nat)
    requires
        m > 0,
        x % m == 0,
        y % m == 0,
    ensures
        (x + y) % m == 0,
{
    lemma_fundamental_div_mod(x as int, m as int);
    lemma_fundamental_div_mod(y as int, m as int);
    let qx = x as int / m as int;
    let qy = y as int / m as int;
    assert(x + y == (qx + qy) * m) by (nonlinear_arith)
        requires
            x == m * qx,
            y == m * qy,
    ;
    lemma_mod_multiples_basic(qx + qy, m as int);
}

/// Where each of the first `i` blocks has at least `e` host bits, they take a
/// multiple of two to the power `e` together.
proof fn lemma_total_size_aligned(sorted: Seq<NetworkInfo>, i: int, e: nat)
    requires
        0 <= i <= sorted.len(),
        e <= 32,
        forall|k: int| 0 <= k < i ==> request_prefix(#[trigger] sorted[k]) <= 32 - e,
    ensures
        total_size(sorted.take(i)) % pow2(e) == 0,
    decreases i,
{
    lemma_pow2_pos(e);
    if i > 0 {
        lemma_total_size_aligned(sorted, i - 1, e);
        assert(sorted.take(i).drop_last() =~= sorted.take(i - 1));
        assert(sorted.take(i).last() == sorted[i - 1]);
        let width = (32 - request_prefix(sorted[i - 1])) as nat;
        lemma_pow2_pos(width);
        assert(pow2(width) % pow2(width) == 0) by {
            lemma_mod_multiples_basic(1, pow2(width) as int);
        }
        lemma_aligned_coarser(pow2(width), width, e);
        lemma_aligned_sum(total_size(sorted.take(i - 1)), request_size(sorted[i - 1]), pow2(e));
    } else {
        assert(total_size(sorted.take(i)) == 0);
    }
}

/// The base block of an address: it starts at a multiple of its size and ends
/// within the address space.
pub proof fn lemma_base_block(v: nat, prefix: nat)
    requires
        v < pow2(32),
        prefix <= 32,
    ensures
        network_value(v, prefix) % block_size(prefix) == 0,
        network_value(v, prefix) + block_size(prefix) <= pow2(32),
{
    reveal(network_value);
    let size = block_size(prefix) as int;
    let count = pow2(prefix) as int;
    lemma_pow2_pos((32 - prefix) as nat);
    lemma_pow2_adds(prefix, (32 - prefix) as nat);
    lemma_fundamental_div_mod(v as int, size);
    let q = v as int / size;
    assert(network_value(v, prefix) == q * size) by (nonlinear_arith)
        requires
            v == size * q + v % (size as nat),
            network_value(v, prefix) == v - v % (size as nat),
    ;
    lemma_mod_multiples_basic(q, size);
    assert(q * size + size <= count * size) by (nonlinear_arith)
        requires
            q * size <= v,
            v < count * size,
            size > 0,
    ;
}

/// Served largest first from an aligned base, every block starts at a multiple
/// of its own size, so it is the block of its prefix length that holds its
/// first address, and its last address is that block's broadcast address.
pub proof fn lemma_block_aligned(base: nat, prefix: nat, sorted: Seq<NetworkInfo>, i: int)
    requires
        prefix <= 32,
        base % block_size(prefix) == 0,
        largest_first(sorted),
        all_representable(sorted),
        0 <= i < sorted.len(),
        total_size(sorted.take(i + 1)) <= block_size(prefix),
    ensures
        prefix <= request_prefix(sorted[i]) <= 31,
        block_start(base, sorted, i) % request_size(sorted[i]) == 0,
        network_value(block_start(base, sorted, i), request_prefix(sorted[i])) == block_start(
            base,
            sorted,
            i,
        ),
        broadcast_value(block_start(base, sorted, i), request_prefix(sorted[i])) == block_end(
            base,
            sorted,
            i,
        ),
        block_end(base, sorted, i) + 1 == block_start(base, sorted, i) + request_size(sorted[i]),
{
    reveal(network_value);
    reveal(broadcast_value);
    let p = request_prefix(sorted[i]);
    let width = (32 - p) as nat;
    lemma_optimal_prefix(effective_hosts(sorted[i]));
    assert(sorted.take(i + 1).drop_last() =~= sorted.take(i));
    assert(sorted.take(i + 1).last() == sorted[i]);
    if p < prefix {
        lemma_pow2_strictly_increases((32 - prefix) as nat, width);
    }
    assert forall|k: int| 0 <= k < i implies request_prefix(#[trigger] sorted[k]) <= 32 - width by {
        lemma_request_prefix_monotone(sorted[k], sorted[i]);
    }
    lemma_total_size_aligned(sorted, i, width);
    lemma_aligned_coarser(base, (32 - prefix) as nat, width);
    lemma_pow2_pos(width);
    lemma_aligned_sum(base, total_size(sorted.take(i)), pow2(width));
}

/// Carves a block of the given prefix length at the cursor `network` and
/// packages it for the request `netw`. The block runs from the cursor to the
/// broadcast address of the block of that length that holds the cursor.
/// Returns the record and the address behind the block, where the next block
/// starts.
pub fn carve_block(netw: &NetworkInfo, prefix_mask: u32, network: &[u8; 4]) -> (carved: (
    ComputedSubnet,
    [u8; 4],
))
    requires
        prefix_mask <= 32,
    ensures
        renders(
            carved.0,
            netw.name@,
            prefix_mask as nat,
            addr_value(network@),
            broadcast_value(addr_value(network@), prefix_mask as nat),
        ),
        addr_value(carved.1@) == next_value(
            broadcast_value(addr_value(network@), prefix_mask as nat),
        ),
{
    reveal(renders);
    let decimal_mask: [u8; 4] = prefix_mask_octets(prefix_mask);
    let broadcast_ip: [u8; 4] = broadcast_address(network, prefix_mask);
    let mut first_ip: [u8; 4] = *network;
    increment_ip(&mut first_ip);
    let mut last_ip: [u8; 4] = broadcast_ip;
    decrement_ip(&mut last_ip);
    let mut next_network_ip: [u8; 4] = broadcast_ip;
    increment_ip(&mut next_network_ip);
    proof {
        lemma_addr_of_value(decimal_mask@);
        lemma_addr_of_value(network@);
        lemma_addr_of_value(first_ip@);
        lemma_addr_of_value(last_ip@);
        lemma_addr_of_value(broadcast_ip@);
    }
    let subnet = assemble_subnet(
        netw,
        prefix_mask,
        decimal_mask,
        *network,
        first_ip,
        last_ip,
        broadcast_ip,
    );
    (subnet, next_network_ip)
}

/// What stays true while the requests are served: the base block is aligned
/// and lies in the address space, a block exists for every request, and
/// `order` is the order of service.
#[verifier::opaque]
spec fn standing(base: nat, prefix: nat, networks: Seq<NetworkInfo>, order: Seq<usize>) -> bool {
    &&& prefix <= 32
    &&& base % block_size(prefix) == 0
    &&& base + block_size(prefix) <= pow2(32)
    &&& all_representable(networks)
    &&& order.len() == networks.len()
    &&& forall|k: int| 0 <= k < order.len() ==> #[trigger] order[k] < networks.len()
    &&& picked(networks, order) == sort_desc(networks)
}

/// The request to serve next: the order names it, a block exists for it, and
/// its block adds to what the blocks before it take.
proof fn lemma_next_request(
    base: nat,
    prefix: nat,
    networks: Seq<NetworkInfo>,
    order: Seq<usize>,
    i: int,
)
    requires
        standing(base, prefix, networks, order),
        0 <= i < networks.len(),
    ensures
        order[i] < networks.len(),
        networks[order[i] as int] == sort_desc(networks)[i],
        representable(effective_hosts(sort_desc(networks)[i])),
        total_size(sort_desc(networks).take(i + 1)) == total_size(sort_desc(networks).take(i))
            + request_size(sort_desc(networks)[i]),
{
    reveal(standing);
    lemma_sort_desc_len(networks);
    assert(picked(networks, order)[i] == networks[order[i] as int]);
    lemma_total_size_grows(sort_desc(networks), i);
}

/// Where the blocks up to the `i`-th are larger than the base block, the
/// requests do not fit.
proof fn lemma_exhausted(prefix: nat, networks: Seq<NetworkInfo>, i: int)
    requires
        0 <= i < networks.len(),
        total_size(sort_desc(networks).take(i + 1)) > block_size(prefix),
    ensures
        !fits(networks, prefix),
{
    let sorted = sort_desc(networks);
    lemma_sort_desc_len(networks);
    lemma_total_size_sorted(networks);
    lemma_total_size_take(sorted, i + 1, sorted.len() as int);
    assert(sorted.take(sorted.len() as int) =~= sorted);
}

/// Where the blocks of all requests are no larger than the base block, the
/// requests fit.
proof fn lemma_served(base: nat, prefix: nat, networks: Seq<NetworkInfo>, order: Seq<usize>)
    requires
        standing(base, prefix, networks, order),
        total_size(sort_desc(networks).take(networks.len() as int)) <= block_size(prefix),
    ensures
        fits(networks, prefix),
{
    reveal(standing);
    let sorted = sort_desc(networks);
    lemma_sort_desc_len(networks);
    lemma_total_size_sorted(networks);
    assert(sorted.take(sorted.len() as int) =~= sorted);
}

/// One step of the allocation: where the first `i + 1` blocks fit in the base
/// block, the `i`-th block starts within the address space, ends at the
/// broadcast address of its block, and the address after its end is where the
/// next block starts.
proof fn lemma_carve_step(
    base: nat,
    prefix: nat,
    networks: Seq<NetworkInfo>,
    order: Seq<usize>,
    i: int,
)
    requires
        standing(base, prefix, networks, order),
        0 <= i < networks.len(),
        total_size(sort_desc(networks).take(i + 1)) <= block_size(prefix),
    ensures
        block_start(base, sort_desc(networks), i) < 4294967296,
        broadcast_value(
            block_start(base, sort_desc(networks), i),
            request_prefix(sort_desc(networks)[i]),
        ) == block_end(base, sort_desc(networks), i),
        next_value(block_end(base, sort_desc(networks), i)) == (base + total_size(
            sort_desc(networks).take(i + 1),
        )) % 4294967296,
{
    reveal(standing);
    let sorted = sort_desc(networks);
    lemma2_to64();
    lemma_sort_desc_len(networks);
    lemma_sort_desc_largest_first(networks);
    lemma_all_representable_sorted(networks);
    lemma_block_aligned(base, prefix, sorted, i);
    lemma_pow2_strictly_increases(0, (32 - request_prefix(sorted[i])) as nat);
    lemma_total_size_grows(sorted, i);
}

/// Serves one request at the cursor `network`, with `room` addresses left in
/// the base block: carves the smallest block that holds the request and
/// returns its record, the address behind it and its size. The request is
/// rejected where no block exists for it or its block is larger than the room
/// left.
pub fn serve_request(netw: &NetworkInfo, network: &[u8; 4], room: u64) -> (served: Result<
    (ComputedSubnet, [u8; 4], u64),
    VlsmError,
>)
    ensures
        match served {
            Ok((subnet, next, size)) => {
                &&& representable(effective_hosts(*netw))
                &&& size == request_size(*netw)
                &&& size <= room
                &&& renders(
                    subnet,
                    netw.name@,
                    request_prefix(*netw),
                    addr_value(network@),
                    broadcast_value(addr_value(network@), request_prefix(*netw)),
                )
                &&& addr_value(next@) == next_value(
                    broadcast_value(addr_value(network@), request_prefix(*netw)),
                )
            },
            Err(e) => {
                &&& e == VlsmError::AllocationError
                &&& !representable(effective_hosts(*netw)) || request_size(*netw) > room
            },
        },
{
    proof {
        lemma2_to64();
    }
    if netw.num_hosts > 0xFFFF_FFFE {
        return Err(VlsmError::AllocationError);
    }
    let prefix_mask: u32 = match compute_optimal_mask(get_total_hosts(netw)) {
        Ok(prefix_mask) => prefix_mask,
        Err(e) => {
            return Err(e);
        },
    };
    let size: u64 = block_len(prefix_mask);
    if size > room {
        return Err(VlsmError::AllocationError);
    }
    let (subnet, next) = carve_block(netw, prefix_mask, network);
    Ok((subnet, next, size))
}

/// Whether a block exists for every request.
pub fn requests_representable(networks: &Vec<NetworkInfo>) -> (ok: bool)
    ensures
        ok == all_representable(networks@),
{
    proof {
        lemma2_to64();
    }
    let mut i: usize = 0;
    while i < networks.len()
        invariant
            i <= networks@.len(),
            pow2(32) == 0x1_0000_0000,
            forall|k: int| 0 <= k < i ==> representable(effective_hosts(#[trigger] networks@[k])),
        decreases networks@.len() - i,
    {
        if networks[i].num_hosts > 0xFFFF_FFFE {
            assert(!representable(effective_hosts(networks@[i as int])));
            return false;
        }
        let hosts: u128 = get_total_hosts(&networks[i]);
        match compute_optimal_mask(hosts) {
            Ok(_) => {},
            Err(_) => {
                assert(!representable(effective_hosts(networks@[i as int])));
                return false;
            },
        }
        i += 1;
    }
    true
}

/// The network address of the base block: the first address of the block of
/// the given prefix length that holds the address that `ip` spells.
pub open spec fn base_address(ip: Seq<char>, prefix: nat) -> nat {
    network_value(addr_value(parse_address(ip)->0), prefix)
}

/// Whether `subnets` is the allocation for the given base and requests: one
/// record for each request, in the order of service, each describing the block
/// carved for it.
pub open spec fn allocation(
    ip: Seq<char>,
    prefix: u32,
    networks: Seq<NetworkInfo>,
    subnets: Seq<ComputedSubnet>,
) -> bool {
    let sorted = sort_desc(networks);
    let base = base_address(ip, prefix as nat);
    &&& subnets.len() == networks.len()
    &&& forall|i: int|
        0 <= i < subnets.len() ==> renders(
            #[trigger] subnets[i],
            sorted[i].name@,
            request_prefix(sorted[i]),
            block_start(base, sorted, i),
            block_end(base, sorted, i),
        )
}

/// Whether the second record's block starts right behind the first's: its
/// network address reads as the address after the first's broadcast address.
pub open spec fn touching(first: ComputedSubnet, second: ComputedSubnet) -> bool {
    &&& parse_address(first.ip_broadcast@) is Some
    &&& parse_address(second.ip_network@) is Some
    &&& addr_value(parse_address(second.ip_network@)->0) == next_value(
        addr_value(parse_address(first.ip_broadcast@)->0),
    )
}

/// Whether consecutive records touch.
pub open spec fn contiguous(subnets: Seq<ComputedSubnet>) -> bool {
    forall|i: int| 0 <= i && i + 1 < subnets.len() ==> touching(#[trigger] subnets[i], subnets[i + 1])
}

/// Whether the prefix lengths never fall along the records, so that the
/// blocks never grow.
pub open spec fn never_growing(subnets: Seq<ComputedSubnet>) -> bool {
    forall|i: int, j: int|
        0 <= i <= j < subnets.len() ==> (#[trigger] subnets[i]).prefix_mask <= (
        #[trigger] subnets[j]).prefix_mask
}

/// Allocates a block of the base network to each request.
///
/// The base block is the block of length `prefix` that holds the address `ip`.
/// The requests are served by effective hosts, largest first, equals in the
/// order given. Each gets the smallest block that holds its effective hosts
/// beside a network and a broadcast address, right behind the block before it;
/// the first block starts at the base block's network address.
///
/// The call is rejected with a `FormatError` where `ip` spells no address;
/// else with a `RangeError` where `prefix` is above 32; else with an
/// `AllocationError` where no block exists for some request or the blocks
/// together are larger than the base block.
pub fn subnet_calculator(ip: &str, prefix: u32, networks: &Vec<NetworkInfo>) -> (result: Result<
    Vec<ComputedSubnet>,
    VlsmError,
>)
    ensures
        match result {
            Ok(subnets) => {
                &&& parse_address(ip@) is Some
                &&& prefix <= 32
                &&& fits(networks@, prefix as nat)
                &&& allocation(ip@, prefix, networks@, subnets@)
                &&& largest_first(sort_desc(networks@))
                &&& never_growing(subnets@)
                &&& contiguous(subnets@)
            },
            Err(VlsmError::FormatError { input }) => parse_address(ip@) is None && input@ == ip@,
            Err(VlsmError::RangeError { prefix: rejected }) => {
                &&& parse_address(ip@) is Some
                &&& prefix > 32
                &&& rejected == prefix
            },
            Err(VlsmError::AllocationError) => {
                &&& parse_address(ip@) is Some
                &&& prefix <= 32
                &&& !fits(networks@, prefix as nat)
            },
        },
{
    let decimal_ip: [u8; 4] = match str_into_decimal_ip(ip) {
        Ok(address) => address,
        Err(e) => {
            return Err(e);
        },
    };
    let mut current_network_ip: [u8; 4] = match network_address(&decimal_ip, prefix) {
        Ok(network) => network,
        Err(e) => {
            return Err(e);
        },
    };
    proof {
        lemma2_to64();
    }
    if !requests_representable(networks) {
        return Err(VlsmError::AllocationError);
    }
    let order: Vec<usize> = allocation_order(networks);
    let capacity: u64 = block_len(prefix);
    let ghost sorted = sort_desc(networks@);
    let ghost base = base_address(ip@, prefix as nat);
    proof {
        reveal(standing);
        lemma_addr_of_value(decimal_ip@);
        lemma_base_block(addr_value(decimal_ip@), prefix as nat);
        assert(sorted.take(0) =~= Seq::<NetworkInfo>::empty());
    }
    let mut used: u64 = 0;
    let mut result: Vec<ComputedSubnet> = Vec::new();
    let mut i: usize = 0;
    while i < order.len()
        invariant
            standing(base, prefix as nat, networks@, order@),
            sorted == sort_desc(networks@),
            base == base_address(ip@, prefix as nat),
            parse_address(ip@) is Some,
            prefix <= 32,
            i <= order@.len(),
            order@.len() == networks@.len(),
            capacity == block_size(prefix as nat),
            base + capacity <= 0x1_0000_0000,
            used == total_size(sorted.take(i as int)),
            used <= capacity,
            addr_value(current_network_ip@) == (base + used) % 0x1_0000_0000,
            result@.len() == i,
            forall|k: int|
                0 <= k < i ==> renders(
                    #[trigger] result@[k],
                    sorted[k].name@,
                    request_prefix(sorted[k]),
                    block_start(base, sorted, k),
                    block_end(base, sorted, k),
                ),
        decreases order@.len() - i,
    {
        proof {
            lemma_next_request(base, prefix as nat, networks@, order@, i as int);
        }
        let netw: &NetworkInfo = &networks[order[i]];
        let (subnet, next_network_ip, size) = match serve_request(
            netw,
            &current_network_ip,
            capacity - used,
        ) {
            Ok(served) => served,
            Err(e) => {
                proof {
                    lemma_exhausted(prefix as nat, networks@, i as int);
                }
                return Err(e);
            },
        };
        proof {
            lemma_carve_step(base, prefix as nat, networks@, order@, i as int);
        }
        result.push(subnet);
        current_network_ip = next_network_ip;
        used = used + size;
        i += 1;
    }
    proof {
        lemma_served(base, prefix as nat, networks@, order@);
        assert forall|k: int, j: int| 0 <= k <= j < result@.len() implies (
        #[trigger] result@[k]).prefix_mask <= (#[trigger] result@[j]).prefix_mask by {
            lemma_allocation_largest_first(ip@, prefix, networks@, result@, k, j);
        }
        assert forall|k: int| 0 <= k && k + 1 < result@.len() implies touching(
            #[trigger] result@[k],
            result@[k + 1],
        ) by {
            lemma_allocation_contiguous(ip@, prefix, networks@, result@, k);
        }
    }
    Ok(result)
}

/// Every block holds at least two addresses, so the total grows with every
/// request.
proof fn lemma_total_size_grows(s: Seq<NetworkInfo>, i: int)
    requires
        0 <= i < s.len(),
    ensures
        total_size(s.take(i + 1)) == total_size(s.take(i)) + request_size(s[i]),
        request_size(s[i]) >= 1,
{
    assert(s.take(i + 1).drop_last() =~= s.take(i));
    assert(s.take(i + 1).last() == s[i]);
    lemma_pow2_pos((32 - request_prefix(s[i])) as nat);
}

/// Consecutive blocks touch: each block starts at the address after the
/// broadcast address of the block before it.
pub proof fn lemma_blocks_contiguous(base: nat, sorted: Seq<NetworkInfo>, i: int)
    requires
        0 <= i,
        i + 1 < sorted.len(),
        base + total_size(sorted) <= pow2(32),
    ensures
        block_start(base, sorted, i + 1) == next_value(block_end(base, sorted, i)),
{
    lemma2_to64();
    lemma_total_size_grows(sorted, i);
    lemma_total_size_grows(sorted, i + 1);
    lemma_total_size_take(sorted, i + 2, sorted.len() as int);
    assert(sorted.take(sorted.len() as int) =~= sorted);
}

/// Blocks do not overlap: a block ends before any later block starts.
pub proof fn lemma_blocks_disjoint(base: nat, sorted: Seq<NetworkInfo>, i: int, j: int)
    requires
        0 <= i < j < sorted.len(),
    ensures
        block_start(base, sorted, i) <= block_end(base, sorted, i) < block_start(base, sorted, j),
{
    lemma_total_size_grows(sorted, i);
    lemma_total_size_take(sorted, i + 1, j);
}

/// Blocks stay in the base block: none starts before it and none ends behind
/// it.
pub proof fn lemma_blocks_within_base(base: nat, prefix: nat, sorted: Seq<NetworkInfo>, i: int)
    requires
        0 <= i < sorted.len(),
        total_size(sorted) <= block_size(prefix),
    ensures
        base <= block_start(base, sorted, i),
        block_end(base, sorted, i) < base + block_size(prefix),
{
    lemma_total_size_grows(sorted, i);
    lemma_total_size_take(sorted, i + 1, sorted.len() as int);
    assert(sorted.take(sorted.len() as int) =~= sorted);
}

/// What a record of an allocation holds: the name and the prefix length of the
/// request it serves, and in dotted decimal the mask of that prefix length, the
/// first address of its block, the addresses after the first and before the
/// last, and the last.
pub proof fn lemma_allocation_record(
    ip: Seq<char>,
    prefix: u32,
    networks: Seq<NetworkInfo>,
    subnets: Seq<ComputedSubnet>,
    i: int,
)
    requires
        allocation(ip, prefix, networks, subnets),
        0 <= i < subnets.len(),
    ensures
        ({
            let sorted = sort_desc(networks);
            let base = base_address(ip, prefix as nat);
            let start = block_start(base, sorted, i);
            let end = block_end(base, sorted, i);
            let p = request_prefix(sorted[i]);
            &&& subnets[i].network_name@ == sorted[i].name@
            &&& subnets[i].prefix_mask == p
            &&& subnets[i].decimal_mask@ == dotted_text(addr_of((pow2(32) - block_size(p)) as nat))
            &&& subnets[i].ip_network@ == dotted_text(addr_of(start))
            &&& subnets[i].assignable_ips@ == dotted_text(addr_of(next_value(start)))
                + range_separator() + dotted_text(addr_of(prev_value(end)))
            &&& subnets[i].ip_broadcast@ == dotted_text(addr_of(end))
        }),
{
    reveal(renders);
}

/// What holds of the blocks of an allocation. The order of service holds the
/// requests as given and never rises in effective hosts. Each block is the
/// smallest that holds its request, starts at a multiple of its size, and lies
/// in the base block, which lies in the address space. Its assignable range
/// starts one address after its first and ends one before its last.
pub proof fn lemma_allocation_blocks(ip: Seq<char>, prefix: u32, networks: Seq<NetworkInfo>, i: int)
    requires
        parse_address(ip) is Some,
        prefix <= 32,
        fits(networks, prefix as nat),
        0 <= i < networks.len(),
    ensures
        ({
            let sorted = sort_desc(networks);
            let base = base_address(ip, prefix as nat);
            let start = block_start(base, sorted, i);
            let end = block_end(base, sorted, i);
            let p = request_prefix(sorted[i]);
            let size = block_size(p);
            &&& largest_first(sorted)
            &&& sorted.to_multiset() == networks.to_multiset()
            &&& prefix <= p <= 31
            &&& size >= effective_hosts(sorted[i]) + 2
            &&& size / 2 < effective_hosts(sorted[i]) + 2
            &&& start % size == 0
            &&& end + 1 == start + size
            &&& base <= start
            &&& end < base + block_size(prefix as nat)
            &&& base + block_size(prefix as nat) <= pow2(32)
            &&& next_value(start) == start + 1
            &&& prev_value(end) == end - 1
        }),
{
    let sorted = sort_desc(networks);
    let base = base_address(ip, prefix as nat);
    let start = block_start(base, sorted, i);
    let end = block_end(base, sorted, i);
    let p = request_prefix(sorted[i]);
    let size = block_size(p);
    lemma_sort_desc_len(networks);
    lemma_sort_desc_largest_first(networks);
    lemma_sort_desc_permutes(networks);
    lemma_all_representable_sorted(networks);
    assert(base % block_size(prefix as nat) == 0 && base + block_size(prefix as nat) <= pow2(32))
        by {
        lemma2_to64();
        lemma_addr_of_value(parse_address(ip)->0);
        lemma_base_block(addr_value(parse_address(ip)->0), prefix as nat);
    }
    assert(total_size(sorted.take(i + 1)) <= block_size(prefix as nat)) by {
        lemma_total_size_sorted(networks);
        lemma_total_size_take(sorted, i + 1, sorted.len() as int);
        assert(sorted.take(sorted.len() as int) =~= sorted);
    }
    lemma_block_aligned(base, prefix as nat, sorted, i);
    assert(base <= start && end < base + block_size(prefix as nat)) by {
        lemma_total_size_grows(sorted, i);
    }
    assert(size >= effective_hosts(sorted[i]) + 2 && size / 2 < effective_hosts(sorted[i]) + 2)
        by {
        lemma_optimal_prefix(effective_hosts(sorted[i]));
        lemma_pow2_unfold((32 - p) as nat);
        assert(block_size(p + 1) < effective_hosts(sorted[i]) + 2);
    }
    assert(size >= 2);
    assert(next_value(start) == start + 1 && prev_value(end) == end - 1) by {
        lemma2_to64();
    }
}

/// The addresses of a record read back as the ends of its block, and its mask
/// as the mask of its prefix length.
pub proof fn lemma_allocation_reads(
    ip: Seq<char>,
    prefix: u32,
    networks: Seq<NetworkInfo>,
    subnets: Seq<ComputedSubnet>,
    i: int,
)
    requires
        parse_address(ip) is Some,
        prefix <= 32,
        fits(networks, prefix as nat),
        allocation(ip, prefix, networks, subnets),
        0 <= i < subnets.len(),
    ensures
        ({
            let sorted = sort_desc(networks);
            let base = base_address(ip, prefix as nat);
            let start = block_start(base, sorted, i);
            let end = block_end(base, sorted, i);
            &&& parse_address(subnets[i].ip_network@) == Some(addr_of(start))
            &&& parse_address(subnets[i].ip_broadcast@) == Some(addr_of(end))
            &&& addr_value(addr_of(start)) == start
            &&& addr_value(addr_of(end)) == end
            &&& parse_address(subnets[i].decimal_mask@) == Some(
                from_bits(prefix_bits(subnets[i].prefix_mask as nat)),
            )
        }),
{
    let sorted = sort_desc(networks);
    let base = base_address(ip, prefix as nat);
    let start = block_start(base, sorted, i);
    let end = block_end(base, sorted, i);
    let p = request_prefix(sorted[i]);
    lemma2_to64();
    lemma_allocation_record(ip, prefix, networks, subnets, i);
    lemma_allocation_blocks(ip, prefix, networks, i);
    lemma_addr_value_of(start);
    lemma_addr_value_of(end);
    lemma_parse_dotted(addr_of(start));
    lemma_parse_dotted(addr_of(end));
    let mask = from_bits(prefix_bits(p));
    lemma_prefix_bits_value(p);
    lemma_from_bits_value(prefix_bits(p));
    lemma_addr_of_value(mask);
    lemma_parse_dotted(mask);
}

/// Consecutive records touch: the network address of each record is the
/// address after the broadcast address of the record before it.
pub proof fn lemma_allocation_contiguous(
    ip: Seq<char>,
    prefix: u32,
    networks: Seq<NetworkInfo>,
    subnets: Seq<ComputedSubnet>,
    i: int,
)
    requires
        parse_address(ip) is Some,
        prefix <= 32,
        fits(networks, prefix as nat),
        allocation(ip, prefix, networks, subnets),
        0 <= i,
        i + 1 < subnets.len(),
    ensures
        parse_address(subnets[i].ip_broadcast@) is Some,
        parse_address(subnets[i + 1].ip_network@) is Some,
        addr_value(parse_address(subnets[i + 1].ip_network@)->0) == next_value(
            addr_value(parse_address(subnets[i].ip_broadcast@)->0),
        ),
{
    let sorted = sort_desc(networks);
    let base = base_address(ip, prefix as nat);
    lemma_allocation_reads(ip, prefix, networks, subnets, i);
    lemma_allocation_reads(ip, prefix, networks, subnets, i + 1);
    lemma_allocation_blocks(ip, prefix, networks, i);
    lemma_sort_desc_len(networks);
    lemma_total_size_sorted(networks);
    lemma_blocks_contiguous(base, sorted, i);
}

/// The records stand largest first: along the result the effective hosts of
/// the requests served never rise, and the prefix lengths never fall.
pub proof fn lemma_allocation_largest_first(
    ip: Seq<char>,
    prefix: u32,
    networks: Seq<NetworkInfo>,
    subnets: Seq<ComputedSubnet>,
    i: int,
    j: int,
)
    requires
        parse_address(ip) is Some,
        prefix <= 32,
        fits(networks, prefix as nat),
        allocation(ip, prefix, networks, subnets),
        0 <= i <= j < subnets.len(),
    ensures
        effective_hosts(sort_desc(networks)[i]) >= effective_hosts(sort_desc(networks)[j]),
        subnets[i].prefix_mask <= subnets[j].prefix_mask,
{
    let sorted = sort_desc(networks);
    lemma_allocation_record(ip, prefix, networks, subnets, i);
    lemma_allocation_record(ip, prefix, networks, subnets, j);
    lemma_sort_desc_largest_first(networks);
    lemma_sort_desc_len(networks);
    lemma_all_representable_sorted(networks);
    lemma_request_prefix_monotone(sorted[i], sorted[j]);
}

} // verus!
