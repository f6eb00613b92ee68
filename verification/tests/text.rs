use vlsm::text::{decimal_ip_into_string, str_into_decimal_ip};
use vlsm::VlsmError;

fn rejected(text: &str) -> Result<[u8; 4], VlsmError> {
    Err(VlsmError::FormatError { input: text.to_string() })
}

#[test]
fn renders_dotted_decimal() {
    assert_eq!(decimal_ip_into_string([192, 168, 1, 10]), "192.168.1.10");
    assert_eq!(decimal_ip_into_string([0, 0, 0, 0]), "0.0.0.0");
    assert_eq!(decimal_ip_into_string([255, 255, 255, 255]), "255.255.255.255");
}

#[test]
fn renders_without_leading_zeros() {
    assert_eq!(decimal_ip_into_string([1, 20, 100, 9]), "1.20.100.9");
    assert_eq!(decimal_ip_into_string([10, 99, 101, 200]), "10.99.101.200");
}

#[test]
fn renders_every_octet_as_std_does() {
    for octet in 0..=255u8 {
        let text = decimal_ip_into_string([octet, 0, octet, 7]);
        assert_eq!(text, format!("{}.0.{}.7", octet, octet));
    }
}

#[test]
fn reads_dotted_decimal() {
    assert_eq!(str_into_decimal_ip("192.168.1.0"), Ok([192, 168, 1, 0]));
    assert_eq!(str_into_decimal_ip("0.0.0.0"), Ok([0, 0, 0, 0]));
    assert_eq!(str_into_decimal_ip("255.255.255.255"), Ok([255, 255, 255, 255]));
}

#[test]
fn reads_leading_zeros_and_plus_signs() {
    assert_eq!(str_into_decimal_ip("010.001.000.007"), Ok([10, 1, 0, 7]));
    assert_eq!(str_into_decimal_ip("+1.+2.+3.+4"), Ok([1, 2, 3, 4]));
    assert_eq!(str_into_decimal_ip("0000000000000000255.1.1.1"), Ok([255, 1, 1, 1]));
}

#[test]
fn rejects_three_octets() {
    assert_eq!(str_into_decimal_ip("10.0.0"), rejected("10.0.0"));
}

#[test]
fn rejects_a_wrong_field_count() {
    assert_eq!(str_into_decimal_ip(""), rejected(""));
    assert_eq!(str_into_decimal_ip("10"), rejected("10"));
    assert_eq!(str_into_decimal_ip("10.0.0.0.0"), rejected("10.0.0.0.0"));
    assert_eq!(str_into_decimal_ip("1.2.3.4."), rejected("1.2.3.4."));
    assert_eq!(str_into_decimal_ip(".1.2.3.4"), rejected(".1.2.3.4"));
}

#[test]
fn rejects_an_empty_field() {
    assert_eq!(str_into_decimal_ip("10..0.1"), rejected("10..0.1"));
    assert_eq!(str_into_decimal_ip("1.2.3."), rejected("1.2.3."));
    assert_eq!(str_into_decimal_ip("..."), rejected("..."));
    assert_eq!(str_into_decimal_ip("1.+.3.4"), rejected("1.+.3.4"));
}

#[test]
fn rejects_what_is_not_a_number() {
    assert_eq!(str_into_decimal_ip("a.b.c.d"), rejected("a.b.c.d"));
    assert_eq!(str_into_decimal_ip("1.2.3.x"), rejected("1.2.3.x"));
    assert_eq!(str_into_decimal_ip("1.2.3.4 "), rejected("1.2.3.4 "));
    assert_eq!(str_into_decimal_ip(" 1.2.3.4"), rejected(" 1.2.3.4"));
    assert_eq!(str_into_decimal_ip("1.-2.3.4"), rejected("1.-2.3.4"));
    assert_eq!(str_into_decimal_ip("1.2+.3.4"), rejected("1.2+.3.4"));
    assert_eq!(str_into_decimal_ip("1.++2.3.4"), rejected("1.++2.3.4"));
    assert_eq!(str_into_decimal_ip("1.2.3.\u{663}"), rejected("1.2.3.\u{663}"));
}

#[test]
fn rejects_an_octet_out_of_range() {
    assert_eq!(str_into_decimal_ip("256.0.0.1"), rejected("256.0.0.1"));
    assert_eq!(str_into_decimal_ip("1.2.3.999"), rejected("1.2.3.999"));
    assert_eq!(str_into_decimal_ip("1.2.3.65536"), rejected("1.2.3.65536"));
    assert_eq!(
        str_into_decimal_ip("1.2.3.99999999999999999999999999"),
        rejected("1.2.3.99999999999999999999999999")
    );
}

#[test]
fn reads_as_std_reads_octets() {
    let fields = ["0", "7", "07", "+7", "255", "256", "", "+", "-1", "1 ", "0x1", "\u{ff11}"];
    for a in fields {
        for b in fields {
            let text = format!("{}.1.{}.2", a, b);
            let expected = match (a.parse::<u8>(), b.parse::<u8>()) {
                (Ok(x), Ok(y)) => Ok([x, 1, y, 2]),
                _ => rejected(&text),
            };
            assert_eq!(str_into_decimal_ip(&text), expected);
        }
    }
}

#[test]
fn text_round_trip() {
    let samples: [[u8; 4]; 5] =
        [[0, 0, 0, 0], [255, 255, 255, 255], [192, 168, 1, 1], [10, 20, 30, 40], [100, 9, 99, 199]];
    for ip in samples {
        assert_eq!(str_into_decimal_ip(&decimal_ip_into_string(ip)), Ok(ip));
    }
}
