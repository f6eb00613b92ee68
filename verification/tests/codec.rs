use vlsm::codec::{binar_ip_into_decimal, decimal_ip_into_binar, decrement_ip, increment_ip};

fn bits_of_text(text: &str) -> [bool; 32] {
    let mut bits = [false; 32];
    let mut i = 0;
    for c in text.chars() {
        if c == '0' || c == '1' {
            bits[i] = c == '1';
            i += 1;
        }
    }
    assert_eq!(i, 32);
    bits
}

#[test]
fn expands_most_significant_bit_first() {
    let bits = decimal_ip_into_binar(&[192, 168, 1, 10]);
    assert_eq!(bits, bits_of_text("11000000 10101000 00000001 00001010"));
}

#[test]
fn expands_the_extremes() {
    assert_eq!(decimal_ip_into_binar(&[0, 0, 0, 0]), [false; 32]);
    assert_eq!(decimal_ip_into_binar(&[255, 255, 255, 255]), [true; 32]);
}

#[test]
fn expands_single_bits() {
    let mut expected = [false; 32];
    expected[0] = true;
    assert_eq!(decimal_ip_into_binar(&[128, 0, 0, 0]), expected);
    let mut expected = [false; 32];
    expected[31] = true;
    assert_eq!(decimal_ip_into_binar(&[0, 0, 0, 1]), expected);
    let mut expected = [false; 32];
    expected[15] = true;
    assert_eq!(decimal_ip_into_binar(&[0, 1, 0, 0]), expected);
}

#[test]
fn packs_bits_into_octets() {
    let bits = bits_of_text("00001010 00000000 11111111 10000001");
    assert_eq!(binar_ip_into_decimal(&bits), [10, 0, 255, 129]);
}

#[test]
fn bits_round_trip() {
    let samples: [[u8; 4]; 6] = [
        [0, 0, 0, 0],
        [255, 255, 255, 255],
        [192, 168, 1, 1],
        [10, 20, 30, 40],
        [1, 2, 4, 8],
        [127, 128, 129, 254],
    ];
    for ip in samples {
        assert_eq!(binar_ip_into_decimal(&decimal_ip_into_binar(&ip)), ip);
    }
}

#[test]
fn octets_round_trip() {
    let bits = bits_of_text("10110011 01010101 00000000 11110000");
    assert_eq!(decimal_ip_into_binar(&binar_ip_into_decimal(&bits)), bits);
}

#[test]
fn increment_adds_one() {
    let mut ip = [192, 168, 1, 10];
    increment_ip(&mut ip);
    assert_eq!(ip, [192, 168, 1, 11]);
}

#[test]
fn increment_carries() {
    let mut ip = [10, 0, 0, 255];
    increment_ip(&mut ip);
    assert_eq!(ip, [10, 0, 1, 0]);
    let mut ip = [10, 255, 255, 255];
    increment_ip(&mut ip);
    assert_eq!(ip, [11, 0, 0, 0]);
}

#[test]
fn increment_wraps_the_last_address() {
    let mut ip = [255, 255, 255, 255];
    increment_ip(&mut ip);
    assert_eq!(ip, [0, 0, 0, 0]);
}

#[test]
fn decrement_subtracts_one() {
    let mut ip = [192, 168, 1, 10];
    decrement_ip(&mut ip);
    assert_eq!(ip, [192, 168, 1, 9]);
}

#[test]
fn decrement_borrows() {
    let mut ip = [10, 0, 1, 0];
    decrement_ip(&mut ip);
    assert_eq!(ip, [10, 0, 0, 255]);
    let mut ip = [11, 0, 0, 0];
    decrement_ip(&mut ip);
    assert_eq!(ip, [10, 255, 255, 255]);
}

#[test]
fn decrement_wraps_the_first_address() {
    let mut ip = [0, 0, 0, 0];
    decrement_ip(&mut ip);
    assert_eq!(ip, [255, 255, 255, 255]);
}

#[test]
fn decrement_undoes_increment() {
    let samples: [[u8; 4]; 4] = [[0, 0, 0, 0], [255, 255, 255, 255], [1, 255, 255, 255], [9, 9, 9, 9]];
    for ip in samples {
        let mut stepped = ip;
        increment_ip(&mut stepped);
        decrement_ip(&mut stepped);
        assert_eq!(stepped, ip);
    }
}
