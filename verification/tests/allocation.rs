use vlsm::allocator::{
    assemble_subnet, block_len, carve_block, requests_representable, serve_request,
};
use vlsm::mask::mask_into_decimal;
use vlsm::order::{allocation_order, fewer_hosts, get_total_hosts};
use vlsm::text::str_into_decimal_ip;
use vlsm::{subnet_calculator, ComputedSubnet, NetworkInfo, VlsmError};

fn request(name: &str, num_hosts: u128, contains_default_gateway: bool) -> NetworkInfo {
    NetworkInfo { name: name.to_string(), num_hosts, contains_default_gateway }
}

fn subnet(name: &str, prefix: u32, mask: &str, network: &str, range: &str, broadcast: &str) -> ComputedSubnet {
    ComputedSubnet {
        network_name: name.to_string(),
        prefix_mask: prefix,
        decimal_mask: mask.to_string(),
        ip_network: network.to_string(),
        assignable_ips: range.to_string(),
        ip_broadcast: broadcast.to_string(),
    }
}

fn value(text: &str) -> u64 {
    let ip = str_into_decimal_ip(text).unwrap();
    ((ip[0] as u64) << 24) | ((ip[1] as u64) << 16) | ((ip[2] as u64) << 8) | ip[3] as u64
}

#[test]
fn effective_hosts_count_the_gateway_once() {
    assert_eq!(get_total_hosts(&request("a", 100, false)), 101);
    assert_eq!(get_total_hosts(&request("a", 100, true)), 100);
    assert_eq!(get_total_hosts(&request("a", 0, true)), 0);
    assert_eq!(get_total_hosts(&request("a", 0, false)), 1);
    assert_eq!(get_total_hosts(&request("a", u128::MAX, true)), u128::MAX);
}

#[test]
fn order_is_largest_first() {
    let networks = vec![request("a", 10, false), request("b", 100, false), request("c", 50, true)];
    assert_eq!(allocation_order(&networks), vec![1, 2, 0]);
}

#[test]
fn order_keeps_equals_as_given() {
    let networks = vec![
        request("a", 9, false),
        request("b", 10, true),
        request("c", 20, true),
        request("d", 10, true),
        request("e", 19, false),
        request("f", 9, false),
    ];
    assert_eq!(allocation_order(&networks), vec![2, 4, 0, 1, 3, 5]);
}

#[test]
fn order_of_nothing_is_empty() {
    assert_eq!(allocation_order(&Vec::new()), Vec::<usize>::new());
}

#[test]
fn block_lengths() {
    assert_eq!(block_len(32), 1);
    assert_eq!(block_len(31), 2);
    assert_eq!(block_len(24), 256);
    assert_eq!(block_len(1), 1 << 31);
    assert_eq!(block_len(0), 1 << 32);
}

#[test]
fn representable_requests() {
    assert!(requests_representable(&Vec::new()));
    assert!(requests_representable(&vec![request("a", 5, false), request("b", (1 << 32) - 2, true)]));
    assert!(!requests_representable(&vec![request("a", 5, false), request("b", (1 << 32) - 2, false)]));
    assert!(!requests_representable(&vec![request("a", u128::MAX, false)]));
    assert!(!requests_representable(&vec![request("a", u128::MAX, true)]));
}

#[test]
fn assembles_a_record() {
    let record = assemble_subnet(
        &request("lab", 50, true),
        26,
        [255, 255, 255, 192],
        [192, 168, 1, 128],
        [192, 168, 1, 129],
        [192, 168, 1, 190],
        [192, 168, 1, 191],
    );
    assert_eq!(
        record,
        subnet("lab", 26, "255.255.255.192", "192.168.1.128", "192.168.1.129 - 192.168.1.190", "192.168.1.191")
    );
}

#[test]
fn carves_a_block_and_moves_behind_it() {
    let (record, next) = carve_block(&request("lab", 50, true), 26, &[192, 168, 1, 128]);
    assert_eq!(
        record,
        subnet("lab", 26, "255.255.255.192", "192.168.1.128", "192.168.1.129 - 192.168.1.190", "192.168.1.191")
    );
    assert_eq!(next, [192, 168, 1, 192]);
}

#[test]
fn carves_the_last_block_of_the_address_space() {
    let (record, next) = carve_block(&request("top", 2, false), 30, &[255, 255, 255, 252]);
    assert_eq!(
        record,
        subnet("top", 30, "255.255.255.252", "255.255.255.252", "255.255.255.253 - 255.255.255.254", "255.255.255.255")
    );
    assert_eq!(next, [0, 0, 0, 0]);
}

#[test]
fn allocates_three_networks_from_a_24() {
    let networks = vec![request("A", 100, false), request("B", 50, true), request("C", 10, false)];
    let subnets = subnet_calculator("192.168.1.0", 24, &networks).unwrap();
    assert_eq!(
        subnets,
        vec![
            subnet("A", 25, "255.255.255.128", "192.168.1.0", "192.168.1.1 - 192.168.1.126", "192.168.1.127"),
            subnet("B", 26, "255.255.255.192", "192.168.1.128", "192.168.1.129 - 192.168.1.190", "192.168.1.191"),
            subnet("C", 28, "255.255.255.240", "192.168.1.192", "192.168.1.193 - 192.168.1.206", "192.168.1.207"),
        ]
    );
}

#[test]
fn allocates_in_order_of_size_not_of_input() {
    let networks = vec![request("C", 10, false), request("A", 100, false), request("B", 50, true)];
    let subnets = subnet_calculator("192.168.1.0", 24, &networks).unwrap();
    let names: Vec<&str> = subnets.iter().map(|s| s.network_name.as_str()).collect();
    assert_eq!(names, vec!["A", "B", "C"]);
    assert_eq!(subnets[0].ip_network, "192.168.1.0");
    assert_eq!(subnets[1].ip_network, "192.168.1.128");
    assert_eq!(subnets[2].ip_network, "192.168.1.192");
}

#[test]
fn allocates_from_the_network_address_of_the_base() {
    let networks = vec![request("only", 5, false)];
    let subnets = subnet_calculator("10.1.2.77", 24, &networks).unwrap();
    assert_eq!(
        subnets,
        vec![subnet("only", 29, "255.255.255.248", "10.1.2.0", "10.1.2.1 - 10.1.2.6", "10.1.2.7")]
    );
}

#[test]
fn allocates_nothing_for_no_requests() {
    assert_eq!(subnet_calculator("10.0.0.0", 8, &Vec::new()), Ok(Vec::new()));
    assert_eq!(subnet_calculator("10.0.0.0", 32, &Vec::new()), Ok(Vec::new()));
}

#[test]
fn allocates_the_whole_base_block() {
    let networks = vec![request("half", 126, true), request("other", 125, false)];
    let subnets = subnet_calculator("172.16.5.0", 24, &networks).unwrap();
    assert_eq!(
        subnets,
        vec![
            subnet("half", 25, "255.255.255.128", "172.16.5.0", "172.16.5.1 - 172.16.5.126", "172.16.5.127"),
            subnet("other", 25, "255.255.255.128", "172.16.5.128", "172.16.5.129 - 172.16.5.254", "172.16.5.255"),
        ]
    );
}

#[test]
fn allocates_the_whole_address_space() {
    let networks = vec![request("all", (1 << 32) - 2, true)];
    let subnets = subnet_calculator("8.8.8.8", 0, &networks).unwrap();
    assert_eq!(
        subnets,
        vec![subnet("all", 0, "0.0.0.0", "0.0.0.0", "0.0.0.1 - 255.255.255.254", "255.255.255.255")]
    );
}

#[test]
fn allocates_up_to_the_last_address() {
    let networks = vec![request("a", 2, true), request("b", 1, true)];
    let subnets = subnet_calculator("255.255.255.250", 29, &networks).unwrap();
    assert_eq!(
        subnets,
        vec![
            subnet("a", 30, "255.255.255.252", "255.255.255.248", "255.255.255.249 - 255.255.255.250", "255.255.255.251"),
            subnet("b", 30, "255.255.255.252", "255.255.255.252", "255.255.255.253 - 255.255.255.254", "255.255.255.255"),
        ]
    );
}

#[test]
fn allocates_a_block_of_two_addresses() {
    let networks = vec![request("link", 0, true)];
    let subnets = subnet_calculator("10.0.0.0", 24, &networks).unwrap();
    assert_eq!(
        subnets,
        vec![subnet("link", 31, "255.255.255.254", "10.0.0.0", "10.0.0.1 - 10.0.0.0", "10.0.0.1")]
    );
}

#[test]
fn keeps_names_that_repeat() {
    let networks = vec![request("x", 2, true), request("x", 2, true)];
    let subnets = subnet_calculator("10.0.0.0", 24, &networks).unwrap();
    assert_eq!(
        subnets,
        vec![
            subnet("x", 30, "255.255.255.252", "10.0.0.0", "10.0.0.1 - 10.0.0.2", "10.0.0.3"),
            subnet("x", 30, "255.255.255.252", "10.0.0.4", "10.0.0.5 - 10.0.0.6", "10.0.0.7"),
        ]
    );
}

#[test]
fn consecutive_blocks_touch() {
    let networks = vec![
        request("a", 500, false),
        request("b", 60, true),
        request("c", 1000, false),
        request("d", 3, false),
        request("e", 60, false),
        request("f", 14, true),
    ];
    let subnets = subnet_calculator("10.10.0.0", 16, &networks).unwrap();
    assert_eq!(subnets.len(), networks.len());
    assert_eq!(subnets[0].ip_network, "10.10.0.0");
    for pair in subnets.windows(2) {
        assert_eq!(value(&pair[1].ip_network), value(&pair[0].ip_broadcast) + 1);
    }
}

#[test]
fn blocks_never_grow_along_the_result() {
    let networks = vec![
        request("a", 500, false),
        request("b", 60, true),
        request("c", 1000, false),
        request("d", 3, false),
        request("e", 60, false),
        request("f", 14, true),
    ];
    let subnets = subnet_calculator("10.10.0.0", 16, &networks).unwrap();
    let names: Vec<&str> = subnets.iter().map(|s| s.network_name.as_str()).collect();
    assert_eq!(names, vec!["c", "a", "e", "b", "f", "d"]);
    for pair in subnets.windows(2) {
        assert!(pair[0].prefix_mask <= pair[1].prefix_mask);
    }
}

#[test]
fn blocks_are_aligned_and_of_their_size() {
    let networks = vec![
        request("a", 500, false),
        request("b", 60, true),
        request("c", 1000, false),
        request("d", 3, false),
    ];
    let subnets = subnet_calculator("10.10.77.3", 16, &networks).unwrap();
    for s in &subnets {
        let size = 1u64 << (32 - s.prefix_mask);
        assert_eq!(value(&s.ip_network) % size, 0);
        assert_eq!(value(&s.ip_broadcast) - value(&s.ip_network) + 1, size);
        assert!(value(&s.ip_network) >= value("10.10.0.0"));
        assert!(value(&s.ip_broadcast) <= value("10.10.255.255"));
    }
}

#[test]
fn rejects_a_malformed_base_address() {
    let networks = vec![request("a", 10, false)];
    assert_eq!(
        subnet_calculator("10.0.0", 24, &networks),
        Err(VlsmError::FormatError { input: "10.0.0".to_string() })
    );
    assert_eq!(
        subnet_calculator("10.0.0.256", 24, &networks),
        Err(VlsmError::FormatError { input: "10.0.0.256".to_string() })
    );
}

#[test]
fn rejects_a_prefix_above_32() {
    let networks = vec![request("a", 10, false)];
    assert_eq!(subnet_calculator("10.0.0.0", 33, &networks), Err(VlsmError::RangeError { prefix: 33 }));
}

#[test]
fn reports_the_address_before_the_prefix() {
    let networks = vec![request("a", u128::MAX, false)];
    assert_eq!(
        subnet_calculator("nonsense", 99, &networks),
        Err(VlsmError::FormatError { input: "nonsense".to_string() })
    );
    assert_eq!(subnet_calculator("1.1.1.1", 99, &networks), Err(VlsmError::RangeError { prefix: 99 }));
}

#[test]
fn rejects_a_request_that_no_block_holds() {
    let networks = vec![request("small", 10, false), request("huge", (1 << 32) - 1, true)];
    assert_eq!(subnet_calculator("10.0.0.0", 0, &networks), Err(VlsmError::AllocationError));
    let networks = vec![request("huge", u128::MAX, false)];
    assert_eq!(subnet_calculator("10.0.0.0", 0, &networks), Err(VlsmError::AllocationError));
}

#[test]
fn rejects_requests_that_exhaust_the_base_block() {
    let networks = vec![request("a", 100, false), request("b", 100, false), request("c", 1, true)];
    assert_eq!(subnet_calculator("192.168.1.0", 24, &networks), Err(VlsmError::AllocationError));
}

#[test]
fn rejects_a_request_larger_than_the_base_block() {
    let networks = vec![request("a", 300, false)];
    assert_eq!(subnet_calculator("192.168.1.0", 24, &networks), Err(VlsmError::AllocationError));
}

#[test]
fn rejects_any_request_from_a_single_address() {
    let networks = vec![request("a", 0, true)];
    assert_eq!(subnet_calculator("192.168.1.1", 32, &networks), Err(VlsmError::AllocationError));
}

#[test]
fn serves_a_request_where_there_is_room() {
    let (record, next, size) = serve_request(&request("lab", 50, true), &[192, 168, 1, 128], 64).unwrap();
    assert_eq!(
        record,
        subnet("lab", 26, "255.255.255.192", "192.168.1.128", "192.168.1.129 - 192.168.1.190", "192.168.1.191")
    );
    assert_eq!(next, [192, 168, 1, 192]);
    assert_eq!(size, 64);
}

#[test]
fn serves_no_request_without_room() {
    assert_eq!(
        serve_request(&request("lab", 50, true), &[192, 168, 1, 128], 63),
        Err(VlsmError::AllocationError)
    );
    assert_eq!(serve_request(&request("lab", 0, true), &[10, 0, 0, 0], 0), Err(VlsmError::AllocationError));
}

#[test]
fn blocks_do_not_overlap() {
    let networks = vec![
        request("a", 30, false),
        request("b", 30, false),
        request("c", 2, true),
        request("d", 120, true),
        request("e", 6, true),
    ];
    let subnets = subnet_calculator("172.20.4.9", 22, &networks).unwrap();
    for (i, a) in subnets.iter().enumerate() {
        assert!(value(&a.ip_network) < value(&a.ip_broadcast));
        for b in &subnets[i + 1..] {
            assert!(value(&a.ip_broadcast) < value(&b.ip_network));
        }
    }
}

#[test]
fn records_carry_the_mask_of_their_prefix() {
    let networks = vec![request("a", 1000, false), request("b", 30, false), request("c", 2, true)];
    let subnets = subnet_calculator("10.0.0.0", 8, &networks).unwrap();
    for s in &subnets {
        let mask = mask_into_decimal(s.prefix_mask).unwrap();
        assert_eq!(str_into_decimal_ip(&s.decimal_mask), Ok(mask));
    }
}

#[test]
fn assignable_range_lies_inside_the_block() {
    let networks = vec![request("a", 1000, false), request("b", 30, false), request("c", 2, true)];
    let subnets = subnet_calculator("10.0.0.0", 8, &networks).unwrap();
    for s in &subnets {
        let ends: Vec<&str> = s.assignable_ips.split(" - ").collect();
        assert_eq!(ends.len(), 2);
        assert_eq!(value(ends[0]), value(&s.ip_network) + 1);
        assert_eq!(value(ends[1]) + 1, value(&s.ip_broadcast));
    }
}

#[test]
fn each_block_is_the_smallest_that_holds_its_request() {
    let networks = vec![
        request("a", 0, false),
        request("b", 1, false),
        request("c", 2, false),
        request("d", 5, false),
        request("e", 6, false),
        request("f", 13, true),
        request("g", 14, true),
        request("h", 15, true),
    ];
    let subnets = subnet_calculator("10.0.0.0", 24, &networks).unwrap();
    for s in &subnets {
        let net = networks.iter().find(|n| n.name == s.network_name).unwrap();
        let hosts = get_total_hosts(net);
        let size = 1u128 << (32 - s.prefix_mask);
        assert!(size >= hosts + 2);
        assert!(size / 2 < hosts + 2);
    }
}

#[test]
fn fewer_hosts_compares_effective_hosts() {
    assert!(fewer_hosts(&request("a", 9, false), &request("b", 11, true)));
    assert!(fewer_hosts(&request("a", 9, true), &request("b", 10, true)));
    assert!(fewer_hosts(&request("a", 9, true), &request("b", 9, false)));
    assert!(fewer_hosts(&request("a", 9, false), &request("b", 10, false)));
    assert!(!fewer_hosts(&request("a", 9, false), &request("b", 10, true)));
    assert!(!fewer_hosts(&request("a", 9, false), &request("b", 9, false)));
    assert!(!fewer_hosts(&request("a", 10, true), &request("b", 9, false)));
    assert!(!fewer_hosts(&request("a", 11, true), &request("b", 9, false)));
}

#[test]
fn fewer_hosts_at_the_largest_counts() {
    assert!(fewer_hosts(&request("a", u128::MAX, true), &request("b", u128::MAX, false)));
    assert!(!fewer_hosts(&request("a", u128::MAX, false), &request("b", u128::MAX, false)));
    assert!(!fewer_hosts(&request("a", u128::MAX, false), &request("b", u128::MAX, true)));
    assert!(fewer_hosts(&request("a", u128::MAX - 1, false), &request("b", u128::MAX, false)));
    assert!(!fewer_hosts(&request("a", u128::MAX - 1, false), &request("b", u128::MAX, true)));
}

#[test]
fn order_takes_requests_of_any_size() {
    let networks = vec![request("a", 5, false), request("b", u128::MAX, false), request("c", u128::MAX, true)];
    assert_eq!(allocation_order(&networks), vec![1, 2, 0]);
}

#[test]
fn serves_no_request_that_no_block_holds() {
    assert_eq!(
        serve_request(&request("huge", u128::MAX, false), &[0, 0, 0, 0], 1 << 32),
        Err(VlsmError::AllocationError)
    );
    assert_eq!(
        serve_request(&request("huge", (1 << 32) - 1, true), &[0, 0, 0, 0], 1 << 32),
        Err(VlsmError::AllocationError)
    );
}
