//! The literal-address grammar: IPv4, IPv6, ports, socket addresses.

use ns_router::addr::{Ip, SockAddr};
use ns_router::literal::{parse_ip, parse_ipv4, parse_ipv6, parse_port, parse_sockaddr, parse_u16_str};

#[test]
fn ipv4_forms() {
    assert_eq!(parse_ipv4("127.0.0.1"), Some(Ip::V4(127, 0, 0, 1)));
    assert_eq!(parse_ipv4("255.255.255.255"), Some(Ip::V4(255, 255, 255, 255)));
    assert_eq!(parse_ipv4("0.0.0.0"), Some(Ip::V4(0, 0, 0, 0)));
    // leading zeros, out-of-range octets, and wrong shapes are rejected
    assert_eq!(parse_ipv4("127.00.0.1"), None);
    assert_eq!(parse_ipv4("256.0.0.1"), None);
    assert_eq!(parse_ipv4("1.2.3"), None);
    assert_eq!(parse_ipv4("1.2.3.4.5"), None);
    assert_eq!(parse_ipv4("1.2.3."), None);
    assert_eq!(parse_ipv4("a.b.c.d"), None);
    assert_eq!(parse_ipv4(""), None);
}

#[test]
fn ipv6_forms() {
    assert_eq!(
        parse_ipv6("2001:db8::2:1"),
        Some(Ip::V6(0x2001, 0xdb8, 0, 0, 0, 0, 2, 1))
    );
    assert_eq!(parse_ipv6("::"), Some(Ip::V6(0, 0, 0, 0, 0, 0, 0, 0)));
    assert_eq!(parse_ipv6("::1"), Some(Ip::V6(0, 0, 0, 0, 0, 0, 0, 1)));
    assert_eq!(parse_ipv6("1::"), Some(Ip::V6(1, 0, 0, 0, 0, 0, 0, 0)));
    assert_eq!(
        parse_ipv6("1:2:3:4:5:6:7:8"),
        Some(Ip::V6(1, 2, 3, 4, 5, 6, 7, 8))
    );
    assert_eq!(
        parse_ipv6("ffff:ffff:ffff:ffff:ffff:ffff:ffff:ffff"),
        Some(Ip::V6(0xffff, 0xffff, 0xffff, 0xffff, 0xffff, 0xffff, 0xffff, 0xffff))
    );
    // too many groups, stray colons, double elision are rejected
    assert_eq!(parse_ipv6("1:2:3:4:5:6:7:8:9"), None);
    assert_eq!(parse_ipv6("1:2:3:4:5:6:7"), None);
    assert_eq!(parse_ipv6("1::2::3"), None);
    assert_eq!(parse_ipv6(":1:2:3:4:5:6:7"), None);
    assert_eq!(parse_ipv6("12345::"), None);
    assert_eq!(parse_ipv6(""), None);
    assert_eq!(parse_ipv6("localhost"), None);
}

#[test]
fn ipv6_embedded_dotted_quad() {
    // the final piece may be a dotted quad, standing for the last two groups
    assert_eq!(
        parse_ipv6("::ffff:1.2.3.4"),
        Some(Ip::V6(0, 0, 0, 0, 0, 0xffff, 0x0102, 0x0304))
    );
    assert_eq!(
        parse_ipv6("::1.2.3.4"),
        Some(Ip::V6(0, 0, 0, 0, 0, 0, 0x0102, 0x0304))
    );
    assert_eq!(
        parse_ipv6("1:2:3:4:5:6:1.2.3.4"),
        Some(Ip::V6(1, 2, 3, 4, 5, 6, 0x0102, 0x0304))
    );
    // only the final piece may be a dotted quad, and the count must fit
    assert_eq!(parse_ipv6("1.2.3.4::"), None);
    assert_eq!(parse_ipv6("1.2.3.4:1:2:3:4:5:6"), None);
    assert_eq!(parse_ipv6("1:2:3:4:5:6:7:1.2.3.4"), None);
    assert_eq!(parse_ipv6("::ffff:1.2.3.4.5"), None);
    assert_eq!(parse_ipv6("::ffff:1.2.3"), None);
    // and through the auto grammar and brackets
    assert_eq!(parse_ip("::ffff:192.0.2.1"), Some(Ip::V6(0, 0, 0, 0, 0, 0xffff, 0xc000, 0x0201)));
    assert_eq!(
        parse_sockaddr("[::ffff:1.2.3.4]:8123"),
        Some(SockAddr { ip: Ip::V6(0, 0, 0, 0, 0, 0xffff, 0x0102, 0x0304), port: 8123 })
    );
}

#[test]
fn ip_either_family() {
    assert_eq!(parse_ip("10.1.2.3"), Some(Ip::V4(10, 1, 2, 3)));
    assert_eq!(parse_ip("::1"), Some(Ip::V6(0, 0, 0, 0, 0, 0, 0, 1)));
    assert_eq!(parse_ip("example.org"), None);
}

#[test]
fn ports() {
    assert_eq!(parse_port("0"), Some(0));
    assert_eq!(parse_port("80"), Some(80));
    assert_eq!(parse_port("65535"), Some(65535));
    assert_eq!(parse_port("0080"), Some(80));
    assert_eq!(parse_port("65536"), None);
    assert_eq!(parse_port(""), None);
    assert_eq!(parse_port("8a"), None);
    assert_eq!(parse_port("+80"), None);
    // the host:port form tolerates one leading plus
    assert_eq!(parse_u16_str("+80"), Some(80));
    assert_eq!(parse_u16_str("80"), Some(80));
    assert_eq!(parse_u16_str("++80"), None);
}

#[test]
fn socket_addresses() {
    assert_eq!(
        parse_sockaddr("127.0.0.1:1234"),
        Some(SockAddr { ip: Ip::V4(127, 0, 0, 1), port: 1234 })
    );
    assert_eq!(
        parse_sockaddr("[2001:db8::2:1]:8123"),
        Some(SockAddr { ip: Ip::V6(0x2001, 0xdb8, 0, 0, 0, 0, 2, 1), port: 8123 })
    );
    assert_eq!(
        parse_sockaddr("[::1]:443"),
        Some(SockAddr { ip: Ip::V6(0, 0, 0, 0, 0, 0, 0, 1), port: 443 })
    );
    assert_eq!(parse_sockaddr("127.0.0.1"), None);
    assert_eq!(parse_sockaddr("2001:db8::2:1"), None);
    assert_eq!(parse_sockaddr("[127.0.0.1]:80"), None);
    assert_eq!(parse_sockaddr("localhost:80"), None);
    assert_eq!(parse_sockaddr("127.0.0.1:"), None);
    assert_eq!(parse_sockaddr("127.0.0.1:65536"), None);
}
