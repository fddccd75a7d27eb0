use headers::HeaderValue;
use x_real_ip::address::IpAddress;
use x_real_ip::header::{AddrParseError, InvalidHeader, XRealIP, HEADER_NAME};

fn v4(a: u8, b: u8, c: u8, d: u8) -> XRealIP {
    XRealIP::from(IpAddress::from_octets([a, b, c, d]))
}

fn v6(s: [u16; 8]) -> XRealIP {
    XRealIP::from(IpAddress::from_segments(s))
}

fn parse(s: &str) -> Result<XRealIP, AddrParseError> {
    s.parse::<XRealIP>()
}

fn decode(values: &[&str]) -> Result<XRealIP, InvalidHeader> {
    let values: Vec<HeaderValue> = values.iter().map(|v| HeaderValue::from_str(v).unwrap()).collect();
    XRealIP::decode(&values)
}

#[test]
fn string_formatter_works() {
    let ip = XRealIP::new(IpAddress::from_octets([127, 0, 0, 4]));
    assert_eq!(ip.to_string(), "127.0.0.4");
}

#[test]
fn xrealip_from_ipaddr_works() {
    let ip = XRealIP::from(IpAddress::from_segments([0, 0, 0, 0, 0, 0, 0, 4]));
    assert_eq!(ip.to_string(), "::4");
}

#[test]
fn parse_from_string_works() {
    let xrealip = "192.168.0.4".parse::<XRealIP>().unwrap();
    assert_eq!(xrealip, XRealIP::from(IpAddress::from_octets([192, 168, 0, 4])))
}

#[test]
fn octets_make_the_32_bit_value() {
    assert_eq!(IpAddress::from_octets([192, 168, 0, 4]), IpAddress::V4(0xc0a8_0004));
    assert_eq!(
        IpAddress::from_segments([0x2001, 0xdb8, 0, 0, 0, 0, 0, 1]),
        IpAddress::V6(0x2001_0db8_0000_0000_0000_0000_0000_0001)
    );
}

#[test]
fn formats_ipv4_octets_in_decimal() {
    assert_eq!(v4(0, 0, 0, 0).to_string(), "0.0.0.0");
    assert_eq!(v4(255, 255, 255, 255).to_string(), "255.255.255.255");
    assert_eq!(v4(10, 0, 100, 9).to_string(), "10.0.100.9");
}

#[test]
fn formats_ipv6_canonically() {
    assert_eq!(v6([0; 8]).to_string(), "::");
    assert_eq!(v6([0, 0, 0, 0, 0, 0, 0, 1]).to_string(), "::1");
    assert_eq!(v6([0x2001, 0xdb8, 0, 0, 0, 0, 0, 1]).to_string(), "2001:db8::1");
    assert_eq!(v6([1, 0, 0, 2, 0, 0, 3, 4]).to_string(), "1::2:0:0:3:4");
    assert_eq!(v6([1, 0, 0, 2, 0, 0, 0, 3]).to_string(), "1:0:0:2::3");
    assert_eq!(v6([1, 0, 2, 0, 3, 0, 4, 0]).to_string(), "1:0:2:0:3:0:4:0");
    assert_eq!(v6([0xfe80, 0, 0, 0, 0, 0, 0, 0]).to_string(), "fe80::");
    assert_eq!(v6([0xabcd, 0xef01, 0x2345, 0x6789, 0xa, 0xbc, 0xdef, 0xffff]).to_string(), "abcd:ef01:2345:6789:a:bc:def:ffff");
    assert_eq!(v6([0, 0, 0, 0, 0, 0xffff, 0x0102, 0x0304]).to_string(), "::ffff:1.2.3.4");
    assert_eq!(v6([0, 0, 0, 0, 0, 0, 0x0102, 0x0304]).to_string(), "::102:304");
}

#[test]
fn parses_ipv4_literals() {
    assert_eq!(parse("0.0.0.0"), Ok(v4(0, 0, 0, 0)));
    assert_eq!(parse("255.255.255.255"), Ok(v4(255, 255, 255, 255)));
    assert_eq!(parse("256.0.0.1"), Err(AddrParseError));
    assert_eq!(parse("01.2.3.4"), Err(AddrParseError));
    assert_eq!(parse("1.2.3"), Err(AddrParseError));
    assert_eq!(parse("1.2.3.4.5"), Err(AddrParseError));
    assert_eq!(parse(" 1.2.3.4"), Err(AddrParseError));
    assert_eq!(parse("1.2.3.4:80"), Err(AddrParseError));
    assert_eq!(parse("1.2.3.1234"), Err(AddrParseError));
    assert_eq!(parse(""), Err(AddrParseError));
}

#[test]
fn parses_ipv6_literals() {
    assert_eq!(parse("::"), Ok(v6([0; 8])));
    assert_eq!(parse("::4"), Ok(v6([0, 0, 0, 0, 0, 0, 0, 4])));
    assert_eq!(parse("2001:DB8::1"), Ok(v6([0x2001, 0xdb8, 0, 0, 0, 0, 0, 1])));
    assert_eq!(parse("1:2:3:4:5:6:7:8"), Ok(v6([1, 2, 3, 4, 5, 6, 7, 8])));
    assert_eq!(parse("1:2:3:4:5:6:7::"), Ok(v6([1, 2, 3, 4, 5, 6, 7, 0])));
    assert_eq!(parse("::2:3:4:5:6:7:8"), Ok(v6([0, 2, 3, 4, 5, 6, 7, 8])));
    assert_eq!(parse("0001:02::"), Ok(v6([1, 2, 0, 0, 0, 0, 0, 0])));
    assert_eq!(parse("::ffff:1.2.3.4"), Ok(v6([0, 0, 0, 0, 0, 0xffff, 0x0102, 0x0304])));
    assert_eq!(parse("1:2:3:4:5:6:1.2.3.4"), Ok(v6([1, 2, 3, 4, 5, 6, 0x0102, 0x0304])));
    assert_eq!(parse("1:2:3:4:5:6:7:8:9"), Err(AddrParseError));
    assert_eq!(parse("1::2::3"), Err(AddrParseError));
    assert_eq!(parse("12345::"), Err(AddrParseError));
    assert_eq!(parse(":::"), Err(AddrParseError));
    assert_eq!(parse("1:2:3:4:5:6:7:8::"), Err(AddrParseError));
    assert_eq!(parse("1.2.3.4::"), Err(AddrParseError));
    assert_eq!(parse("::1.2.3.4:5"), Err(AddrParseError));
    assert_eq!(parse("[::1]"), Err(AddrParseError));
}

#[test]
fn parse_of_formatted_text_gives_the_address_back() {
    for ip in [
        v4(127, 0, 0, 4),
        v4(8, 80, 255, 0),
        v6([0; 8]),
        v6([1, 0, 0, 2, 0, 0, 3, 4]),
        v6([0, 0, 0, 0, 0, 0xffff, 0xc0a8, 0x0001]),
        v6([0xffff; 8]),
    ] {
        assert_eq!(parse(&ip.to_string()), Ok(ip));
    }
}

#[test]
fn decode_rejects_empty_value() {
    assert_eq!(decode(&[""]), Err(InvalidHeader));
}

#[test]
fn decode_rejects_non_address_text() {
    assert_eq!(decode(&["not-an-ip"]), Err(InvalidHeader));
}

#[test]
fn decode_reads_only_the_first_value() {
    assert_eq!(decode(&["10.0.0.1", "10.0.0.2"]), Ok(v4(10, 0, 0, 1)));
    assert_eq!(decode(&["10.0.0.1", "garbage"]), Ok(v4(10, 0, 0, 1)));
    assert_eq!(decode(&["garbage", "10.0.0.2"]), Err(InvalidHeader));
}

#[test]
fn decode_rejects_empty_sequence() {
    assert_eq!(decode(&[]), Err(InvalidHeader));
}

#[test]
fn decode_rejects_bytes_that_are_not_visible_ascii() {
    let value = HeaderValue::from_bytes(b"\xff1.2.3.4").unwrap();
    assert_eq!(XRealIP::decode(&[value]), Err(InvalidHeader));
}

#[test]
fn decode_accepts_ipv6() {
    assert_eq!(decode(&["fe80::1"]), Ok(v6([0xfe80, 0, 0, 0, 0, 0, 0, 1])));
}

#[test]
fn encode_writes_nothing() {
    let mut values: Vec<HeaderValue> = Vec::new();
    v4(1, 2, 3, 4).encode(&mut values);
    assert!(values.is_empty());
}

#[test]
fn header_name_is_lowercase_x_real_ip() {
    assert_eq!(XRealIP::name(), "x-real-ip");
    assert_eq!(HEADER_NAME, "x-real-ip");
}

#[test]
fn decode_of_formatted_text_gives_the_address_back() {
    for ip in [v4(192, 168, 0, 4), v6([0x2001, 0xdb8, 0, 0, 0, 0, 0, 1]), v6([0, 0, 0, 0, 0, 0xffff, 0x0a00, 0x0001])] {
        let text = ip.to_string();
        assert_eq!(decode(&[text.as_str()]), Ok(ip));
    }
}
