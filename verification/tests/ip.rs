use acorntorrent::ip::{parse_ip, IpAddress};

fn p(s: &str) -> Option<IpAddress> {
    parse_ip(s.as_bytes())
}

#[test]
fn ipv4_accepted() {
    assert_eq!(p("127.0.0.1"), Some(IpAddress::V4(0x7f000001)));
    assert_eq!(p("0.0.0.0"), Some(IpAddress::V4(0)));
    assert_eq!(p("255.255.255.255"), Some(IpAddress::V4(0xffffffff)));
    assert_eq!(p("1.2.3.4"), Some(IpAddress::V4(0x01020304)));
}

#[test]
fn ipv4_rejected() {
    assert_eq!(p("256.0.0.1"), None);
    assert_eq!(p("01.2.3.4"), None); // leading zero
    assert_eq!(p("1.2.3"), None);
    assert_eq!(p("1.2.3.4.5"), None);
    assert_eq!(p("1.2.3."), None);
    assert_eq!(p(".1.2.3.4"), None);
    assert_eq!(p("1.2.3.4 "), None);
    assert_eq!(p(""), None);
    assert_eq!(p("nope"), None);
}

#[test]
fn ipv6_full_form() {
    assert_eq!(
        p("1:2:3:4:5:6:7:8"),
        Some(IpAddress::V6(0x0001_0002_0003_0004_0005_0006_0007_0008))
    );
    assert_eq!(
        p("ffff:ffff:ffff:ffff:ffff:ffff:ffff:ffff"),
        Some(IpAddress::V6(u128::MAX))
    );
    // Leading zeros inside a group are fine, up to four digits.
    assert_eq!(
        p("0001:0:0:0:0:0:0:0002"),
        Some(IpAddress::V6(0x0001_0000_0000_0000_0000_0000_0000_0002))
    );
}

#[test]
fn ipv6_compressed_form() {
    assert_eq!(p("::"), Some(IpAddress::V6(0)));
    assert_eq!(p("::1"), Some(IpAddress::V6(1)));
    assert_eq!(
        p("fe80::"),
        Some(IpAddress::V6(0xfe80_0000_0000_0000_0000_0000_0000_0000))
    );
    assert_eq!(
        p("ff02::2"),
        Some(IpAddress::V6(0xff02_0000_0000_0000_0000_0000_0000_0002))
    );
    assert_eq!(
        p("1:2::7:8"),
        Some(IpAddress::V6(0x0001_0002_0000_0000_0000_0000_0007_0008))
    );
}

#[test]
fn ipv6_embedded_ipv4() {
    assert_eq!(p("::ffff:1.2.3.4"), Some(IpAddress::V6(0xffff_0102_0304)));
    assert_eq!(
        p("1:2:3:4:5:6:7.8.9.10"),
        Some(IpAddress::V6(0x0001_0002_0003_0004_0005_0006_0708_090a))
    );
}

#[test]
fn ipv6_rejected() {
    assert_eq!(p("1:2:3"), None); // too few groups without ::
    assert_eq!(p("1:2:3:4:5:6:7:8:9"), None); // too many groups
    assert_eq!(p("12345::"), None); // group too long
    assert_eq!(p("a::b::c"), None); // two compressions
    assert_eq!(p(":::"), None);
    assert_eq!(p(":1:2:3:4:5:6:7"), None); // leading single colon
    assert_eq!(p("1:2:3:4:5:6:7:"), None); // trailing single colon
    assert_eq!(p("1:2:3:4:5:6:7:8::"), None); // compression with full groups
    assert_eq!(p("g::1"), None); // not a hex digit
}
