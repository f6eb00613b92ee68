//! Largest first: the order in which requests are served.

use crate::types::NetworkInfo;
use vstd::prelude::*;
use vstd::seq_lib::to_multiset_insert;

verus! {

/// The addresses a request needs for hosts: its host count, and one more for
/// the default gateway unless the count already includes it.
pub open spec fn effective_hosts(net: NetworkInfo) -> nat {
    net.num_hosts as nat + if net.contains_default_gateway {
        0nat
    } else {
        1nat
    }
}

/// Whether a sequence of requests never rises in effective hosts.
pub open spec fn largest_first(s: Seq<NetworkInfo>) -> bool {
    forall|i: int, j: int|
        0 <= i <= j < s.len() ==> effective_hosts(#[trigger] s[i]) >= effective_hosts(
            #[trigger] s[j],
        )
}

/// Where a request joins a sequence: right behind the last request that needs
/// at least as many addresses, so behind every equal that came before it.
pub open spec fn insert_position(sorted: Seq<NetworkInfo>, net: NetworkInfo) -> int
    decreases sorted.len(),
{
    if sorted.len() == 0 {
        0
    } else if effective_hosts(sorted.last()) >= effective_hosts(net) {
        sorted.len() as int
    } else {
        insert_position(sorted.drop_last(), net)
    }
}

/// The requests by effective hosts, largest first; requests that need equally
/// many keep the order in which they were given.
pub open spec fn sort_desc(s: Seq<NetworkInfo>) -> Seq<NetworkInfo>
    decreases s.len(),
{
    if s.len() == 0 {
        Seq::empty()
    } else {
        let sorted = sort_desc(s.drop_last());
        sorted.insert(insert_position(sorted, s.last()), s.last())
    }
}

/// The order of service as indices into the requests as given: the index of
/// each request stands where the request stands in `sort_desc`.
pub open spec fn service_order(s: Seq<NetworkInfo>) -> Seq<int>
    decreases s.len(),
{
    if s.len() == 0 {
        Seq::empty()
    } else {
        let rest = s.drop_last();
        service_order(rest).insert(insert_position(sort_desc(rest), s.last()), s.len() - 1)
    }
}

/// The indices of an order as numbers.
pub open spec fn indices(order: Seq<usize>) -> Seq<int> {
    Seq::new(order.len(), |i: int| order[i] as int)
}

/// The requests that a sequence of indices picks.
pub open spec fn picked(networks: Seq<NetworkInfo>, order: Seq<usize>) -> Seq<NetworkInfo> {
    Seq::new(order.len(), |i: int| networks[order[i] as int])
}

/// The position lies within the sequence. In a sequence that is largest
/// first, every request before it needs at least as many addresses as the
/// newcomer, and every request from it on needs fewer.
pub proof fn lemma_insert_position(sorted: Seq<NetworkInfo>, net: NetworkInfo)
    ensures
        0 <= insert_position(sorted, net) <= sorted.len(),
        largest_first(sorted) ==> forall|k: int|
            0 <= k < insert_position(sorted, net) ==> effective_hosts(#[trigger] sorted[k])
                >= effective_hosts(net),
        forall|k: int|
            insert_position(sorted, net) <= k < sorted.len() ==> effective_hosts(
                #[trigger] sorted[k],
            ) < effective_hosts(net),
    decreases sorted.len(),
{
    if sorted.len() > 0 {
        if effective_hosts(sorted.last()) >= effective_hosts(net) {
            if largest_first(sorted) {
                assert forall|k: int| 0 <= k < sorted.len() implies effective_hosts(
                    #[trigger] sorted[k],
                ) >= effective_hosts(net) by {
                    assert(effective_hosts(sorted[k]) >= effective_hosts(
                        sorted[sorted.len() - 1],
                    ));
                }
            }
        } else {
            let shorter = sorted.drop_last();
            lemma_insert_position(shorter, net);
            assert forall|k: int|
                insert_position(sorted, net) <= k < sorted.len() implies effective_hosts(
                #[trigger] sorted[k],
            ) < effective_hosts(net) by {
                if k < shorter.len() {
                    assert(shorter[k] == sorted[k]);
                }
            }
            if largest_first(sorted) {
                assert(largest_first(shorter)) by {
                    assert forall|i: int, j: int| 0 <= i <= j < shorter.len() implies effective_hosts(
                        #[trigger] shorter[i],
                    ) >= effective_hosts(#[trigger] shorter[j]) by {
                        assert(shorter[i] == sorted[i] && shorter[j] == sorted[j]);
                    }
                }
                assert forall|k: int| 0 <= k < insert_position(sorted, net) implies effective_hosts(
                    #[trigger] sorted[k],
                ) >= effective_hosts(net) by {
                    assert(shorter[k] == sorted[k]);
                }
            }
        }
    }
}

/// Sorting keeps every request: the result has the length of the input.
pub proof fn lemma_sort_desc_len(s: Seq<NetworkInfo>)
    ensures
        sort_desc(s).len() == s.len(),
    decreases s.len(),
{
    if s.len() > 0 {
        let sorted = sort_desc(s.drop_last());
        lemma_sort_desc_len(s.drop_last());
        lemma_insert_position(sorted, s.last());
    }
}

/// The order of service never rises in effective hosts.
pub proof fn lemma_sort_desc_largest_first(s: Seq<NetworkInfo>)
    ensures
        largest_first(sort_desc(s)),
    decreases s.len(),
{
    if s.len() > 0 {
        let sorted = sort_desc(s.drop_last());
        let net = s.last();
        let pos = insert_position(sorted, net);
        let result = sort_desc(s);
        lemma_sort_desc_largest_first(s.drop_last());
        lemma_insert_position(sorted, net);
        assert forall|i: int, j: int| 0 <= i <= j < result.len() implies effective_hosts(
            #[trigger] result[i],
        ) >= effective_hosts(#[trigger] result[j]) by {
            let a = if i < pos {
                sorted[i]
            } else if i == pos {
                net
            } else {
                sorted[i - 1]
            };
            let b = if j < pos {
                sorted[j]
            } else if j == pos {
                net
            } else {
                sorted[j - 1]
            };
            assert(result[i] == a);
            assert(result[j] == b);
        }
    }
}

/// Sorting only reorders: the result holds the same requests as the input,
/// each as often.
pub proof fn lemma_sort_desc_permutes(s: Seq<NetworkInfo>)
    ensures
        sort_desc(s).to_multiset() == s.to_multiset(),
    decreases s.len(),
{
    if s.len() > 0 {
        let sorted = sort_desc(s.drop_last());
        let net = s.last();
        lemma_sort_desc_permutes(s.drop_last());
        lemma_insert_position(sorted, net);
        to_multiset_insert(sorted, insert_position(sorted, net), net);
        to_multiset_insert(s.drop_last(), s.len() - 1, net);
        assert(s.drop_last().insert(s.len() - 1, net) =~= s);
    } else {
        assert(sort_desc(s) =~= s);
    }
}

/// The order of service names every request once: its indices lie within the
/// requests, no index occurs twice, and each picks the request that stands at
/// its place in `sort_desc`.
pub proof fn lemma_service_order(s: Seq<NetworkInfo>)
    ensures
        service_order(s).len() == s.len(),
        sort_desc(s).len() == s.len(),
        forall|k: int|
            0 <= k < s.len() ==> 0 <= #[trigger] service_order(s)[k] < s.len() && sort_desc(s)[k]
                == s[service_order(s)[k]],
        forall|j: int, k: int|
            0 <= j < k < s.len() ==> #[trigger] service_order(s)[j] != #[trigger] service_order(
                s,
            )[k],
    decreases s.len(),
{
    if s.len() > 0 {
        let rest = s.drop_last();
        let before = service_order(rest);
        let sorted = sort_desc(rest);
        let pos = insert_position(sorted, s.last());
        let order = service_order(s);
        lemma_service_order(rest);
        lemma_insert_position(sorted, s.last());
        assert forall|k: int| 0 <= k < s.len() implies 0 <= #[trigger] order[k] < s.len()
            && sort_desc(s)[k] == s[order[k]] by {
            if k < pos {
                assert(order[k] == before[k]);
                assert(rest[before[k]] == s[before[k]]);
            } else if k > pos {
                assert(order[k] == before[k - 1]);
                assert(rest[before[k - 1]] == s[before[k - 1]]);
            }
        }
        assert forall|j: int, k: int| 0 <= j < k < s.len() implies #[trigger] order[j]
            != #[trigger] order[k] by {
            let a = if j < pos {
                before[j]
            } else if j == pos {
                s.len() - 1
            } else {
                before[j - 1]
            };
            let b = if k < pos {
                before[k]
            } else if k == pos {
                s.len() - 1
            } else {
                before[k - 1]
            };
            assert(order[j] == a);
            assert(order[k] == b);
        }
    }
}

/// The test for a request that needs exactly `hosts` addresses.
pub open spec fn needs(hosts: nat) -> spec_fn(NetworkInfo) -> bool {
    |net: NetworkInfo| effective_hosts(net) == hosts
}

/// A filter that no member passes leaves nothing.
proof fn lemma_filter_none(s: Seq<NetworkInfo>, pred: spec_fn(NetworkInfo) -> bool)
    requires
        forall|i: int| 0 <= i < s.len() ==> !pred(#[trigger] s[i]),
    ensures
        s.filter(pred) == Seq::<NetworkInfo>::empty(),
    decreases s.len(),
{
    reveal(Seq::filter);
    if s.len() > 0 {
        let shorter = s.drop_last();
        assert forall|i: int| 0 <= i < shorter.len() implies !pred(#[trigger] shorter[i]) by {
            assert(shorter[i] == s[i]);
        }
        lemma_filter_none(shorter, pred);
        assert(!pred(s[s.len() - 1]));
    } else {
        assert(s =~= Seq::<NetworkInfo>::empty());
    }
}

/// Sorting is stable: the requests that need a given number of addresses stand
/// in the result in the order in which they were given.
pub proof fn lemma_sort_desc_stable(s: Seq<NetworkInfo>, hosts: nat)
    ensures
        sort_desc(s).filter(needs(hosts)) == s.filter(needs(hosts)),
    decreases s.len(),
{
    reveal(Seq::filter);
    let pred = needs(hosts);
    if s.len() > 0 {
        let rest = s.drop_last();
        let net = s.last();
        let sorted = sort_desc(rest);
        let pos = insert_position(sorted, net);
        lemma_sort_desc_stable(rest, hosts);
        lemma_sort_desc_largest_first(rest);
        lemma_insert_position(sorted, net);
        let head = sorted.subrange(0, pos);
        let tail = sorted.subrange(pos, sorted.len() as int);
        assert(sorted =~= head + tail);
        assert(sort_desc(s) == head.push(net) + tail);
        Seq::filter_distributes_over_add(head, tail, pred);
        Seq::filter_distributes_over_add(head.push(net), tail, pred);
        assert(head.push(net).drop_last() =~= head);
        if effective_hosts(net) == hosts {
            assert forall|i: int| 0 <= i < tail.len() implies !pred(#[trigger] tail[i]) by {
                assert(tail[i] == sorted[pos + i]);
            }
            lemma_filter_none(tail, pred);
            assert(sort_desc(s).filter(pred) =~= head.filter(pred).push(net));
            assert(sorted.filter(pred) =~= head.filter(pred));
        }
    }
}

/// The effective hosts of a request.
pub fn get_total_hosts(net: &NetworkInfo) -> (total: u128)
    requires
        effective_hosts(*net) <= u128::MAX,
    ensures
        total == effective_hosts(*net),
{
    net.num_hosts + if net.contains_default_gateway {
        0
    } else {
        1
    }
}

/// Whether the first request needs fewer addresses than the second.
pub fn fewer_hosts(first: &NetworkInfo, second: &NetworkInfo) -> (fewer: bool)
    ensures
        fewer == (effective_hosts(*first) < effective_hosts(*second)),
{
    if first.num_hosts < second.num_hosts {
        second.num_hosts - first.num_hosts > 1 || first.contains_default_gateway
            || !second.contains_default_gateway
    } else if first.num_hosts == second.num_hosts {
        first.contains_default_gateway && !second.contains_default_gateway
    } else {
        false
    }
}

/// The order of service, as indices into `networks`: by effective hosts,
/// largest first, equals in the order given.
pub fn allocation_order(networks: &Vec<NetworkInfo>) -> (order: Vec<usize>)
    ensures
        indices(order@) == service_order(networks@),
        order@.len() == networks@.len(),
        forall|i: int| 0 <= i < order@.len() ==> #[trigger] order@[i] < networks@.len(),
        picked(networks@, order@) == sort_desc(networks@),
        largest_first(picked(networks@, order@)),
{
    proof {
        lemma_sort_desc_largest_first(networks@);
    }
    let mut order: Vec<usize> = Vec::new();
    let mut i: usize = 0;
    while i < networks.len()
        invariant
            i <= networks@.len(),
            order@.len() == i,
            forall|k: int| 0 <= k < order@.len() ==> #[trigger] order@[k] < i,
            picked(networks@, order@) == sort_desc(networks@.take(i as int)),
            indices(order@) == service_order(networks@.take(i as int)),
        decreases networks@.len() - i,
    {
        let ghost sorted = picked(networks@, order@);
        let ghost net = networks@[i as int];
        let mut pos: usize = order.len();
        assert(sorted.take(pos as int) =~= sorted);
        while pos > 0 && fewer_hosts(&networks[order[pos - 1]], &networks[i])
            invariant
                pos <= order@.len(),
                i < networks@.len(),
                net == networks@[i as int],
                sorted == picked(networks@, order@),
                forall|k: int| 0 <= k < order@.len() ==> #[trigger] order@[k] < i,
                insert_position(sorted, net) == insert_position(sorted.take(pos as int), net),
            decreases pos,
        {
            proof {
                let head = sorted.take(pos as int);
                assert(head.last() == networks@[order@[pos - 1] as int]);
                assert(head.drop_last() =~= sorted.take(pos - 1));
            }
            pos -= 1;
        }
        proof {
            let head = sorted.take(pos as int);
            if pos > 0 {
                assert(head.last() == networks@[order@[pos - 1] as int]);
            }
            assert(insert_position(sorted, net) == pos);
            assert(networks@.take(i + 1).drop_last() =~= networks@.take(i as int));
            assert(picked(networks@, order@.insert(pos as int, i)) =~= sorted.insert(pos as int, net));
            assert(indices(order@.insert(pos as int, i)) =~= indices(order@).insert(
                pos as int,
                i as int,
            ));
        }
        order.insert(pos, i);
        i += 1;
    }
    assert(networks@.take(networks@.len() as int) =~= networks@);
    order
}

} // verus!
