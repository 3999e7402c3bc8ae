//! The name grammar: classification of free-form names.

use ns_router::addr::{Ip, SockAddr};
use ns_router::name::{AutoName, Error, InternalName, Name, NameError};

fn name(s: &str) -> Name {
    Name::from_str(s).unwrap()
}

#[test]
fn auto() {
    assert_eq!(
        AutoName::Auto("localhost").parse(1234).unwrap(),
        InternalName::HostPort(name("localhost"), 1234)
    );
    assert_eq!(
        AutoName::Auto("localhost:8080").parse(1234).unwrap(),
        InternalName::HostPort(name("localhost"), 8080)
    );
    assert_eq!(
        AutoName::Auto("_my._svc.localhost").parse(1234).unwrap(),
        InternalName::Service(name("_my._svc.localhost"))
    );
}

#[test]
#[should_panic(expected = "InvalidChar")]
fn bad_names() {
    AutoName::Auto("_my._svc.localhost:8080").parse(1234).unwrap();
}

#[test]
fn auto_ip_literals() {
    assert_eq!(
        AutoName::Auto("127.0.0.1").parse(80).unwrap(),
        InternalName::Addr(SockAddr { ip: Ip::V4(127, 0, 0, 1), port: 80 })
    );
    assert_eq!(
        AutoName::Auto("127.0.0.1:1234").parse(80).unwrap(),
        InternalName::Addr(SockAddr { ip: Ip::V4(127, 0, 0, 1), port: 1234 })
    );
    assert_eq!(
        AutoName::Auto("2001:db8::2:1").parse(80).unwrap(),
        InternalName::Addr(SockAddr {
            ip: Ip::V6(0x2001, 0xdb8, 0, 0, 0, 0, 2, 1),
            port: 80
        })
    );
    assert_eq!(
        AutoName::Auto("[2001:db8::2:1]:8123").parse(80).unwrap(),
        InternalName::Addr(SockAddr {
            ip: Ip::V6(0x2001, 0xdb8, 0, 0, 0, 0, 2, 1),
            port: 8123
        })
    );
}

#[test]
fn auto_bad_port() {
    match AutoName::Auto("localhost:http").parse(80) {
        Err(Error::Port(raw)) => assert_eq!(raw, "localhost:http"),
        other => panic!("expected a port error, got {:?}", other),
    }
    match AutoName::Auto("localhost:99999").parse(80) {
        Err(Error::Port(_)) => {}
        other => panic!("expected a port error, got {:?}", other),
    }
}

#[test]
fn auto_bad_host() {
    match AutoName::Auto("UpperCase").parse(80) {
        Err(Error::Name(raw, NameError::InvalidChar)) => assert_eq!(raw, "UpperCase"),
        other => panic!("expected a name error, got {:?}", other),
    }
    match AutoName::Auto("-dash.example.org").parse(80) {
        Err(Error::Name(_, NameError::InvalidPrefixSuffix)) => {}
        other => panic!("expected a dash error, got {:?}", other),
    }
    match AutoName::Auto("two..dots").parse(80) {
        Err(Error::Name(_, NameError::DotError)) => {}
        other => panic!("expected a dot error, got {:?}", other),
    }
}

#[test]
fn explicit_variants() {
    assert_eq!(
        AutoName::HostPort("example.org", 8080).parse(80).unwrap(),
        InternalName::HostPort(name("example.org"), 8080)
    );
    assert_eq!(
        AutoName::HostDefaultPort("example.org").parse(80).unwrap(),
        InternalName::HostPort(name("example.org"), 80)
    );
    assert_eq!(
        AutoName::Service("myservice.query.consul").parse(80).unwrap(),
        InternalName::Service(name("myservice.query.consul"))
    );
    assert_eq!(
        AutoName::IpAddr(Ip::V4(10, 0, 0, 1)).parse(53).unwrap(),
        InternalName::Addr(SockAddr { ip: Ip::V4(10, 0, 0, 1), port: 53 })
    );
    let sa = SockAddr { ip: Ip::V4(10, 0, 0, 2), port: 8443 };
    assert_eq!(
        AutoName::SocketAddr(sa).parse(80).unwrap(),
        InternalName::Addr(sa)
    );
}

#[test]
fn names_trailing_dot_and_port_forms() {
    // a single trailing dot is allowed
    assert!(Name::from_str("name.example.org.").is_ok());
    assert!(Name::from_str(".name.org").is_err());
    // a '+' before the port digits is tolerated in host:port form
    assert_eq!(
        AutoName::Auto("localhost:+80").parse(1).unwrap(),
        InternalName::HostPort(name("localhost"), 80)
    );
    // leading zeros keep the value
    assert_eq!(
        AutoName::Auto("localhost:0080").parse(1).unwrap(),
        InternalName::HostPort(name("localhost"), 80)
    );
}
