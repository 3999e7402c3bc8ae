//! The façade's decisions for free-form names and name lists.

use ns_router::addr::{Address, Ip, SockAddr};
use ns_router::error::Error;
use ns_router::name::{AutoName, InternalName, Name};
use ns_router::router::{parse_names, resolve_auto_action, AutoAction};

fn name(s: &str) -> Name {
    Name::from_str(s).unwrap()
}

fn sa4(a: u8, b: u8, c: u8, d: u8, port: u16) -> SockAddr {
    SockAddr { ip: Ip::V4(a, b, c, d), port }
}

#[test]
fn test_straw_addresses() {
    // literal addresses are answered on the spot, no back-end involved
    match resolve_auto_action(&AutoName::Auto("127.0.0.1:1234"), 80) {
        AutoAction::Immediate(v) => {
            assert!(v.same_set(&Address::from_addrs(vec![sa4(127, 0, 0, 1, 1234)])))
        }
        other => panic!("expected an immediate reply, got {:?}", other),
    }
    match resolve_auto_action(&AutoName::Auto("127.0.0.1"), 80) {
        AutoAction::Immediate(v) => {
            assert!(v.same_set(&Address::from_addrs(vec![sa4(127, 0, 0, 1, 80)])))
        }
        other => panic!("expected an immediate reply, got {:?}", other),
    }
    match resolve_auto_action(&AutoName::Auto("[2001:db8::2:1]:8123"), 80) {
        AutoAction::Immediate(v) => {
            let want = SockAddr { ip: Ip::V6(0x2001, 0xdb8, 0, 0, 0, 0, 2, 1), port: 8123 };
            assert!(v.same_set(&Address::from_addrs(vec![want])));
        }
        other => panic!("expected an immediate reply, got {:?}", other),
    }
    match resolve_auto_action(&AutoName::Auto("2001:db8::2:1"), 80) {
        AutoAction::Immediate(v) => {
            let want = SockAddr { ip: Ip::V6(0x2001, 0xdb8, 0, 0, 0, 0, 2, 1), port: 80 };
            assert!(v.same_set(&Address::from_addrs(vec![want])));
        }
        other => panic!("expected an immediate reply, got {:?}", other),
    }
}

#[test]
fn test_auto() {
    match resolve_auto_action(&AutoName::Auto("localhost:1234"), 80) {
        AutoAction::SubmitHostPort(n, p) => {
            assert_eq!(n, name("localhost"));
            assert_eq!(p, 1234);
        }
        other => panic!("expected a host request, got {:?}", other),
    }
    match resolve_auto_action(&AutoName::Auto("localhost"), 80) {
        AutoAction::SubmitHostPort(n, p) => {
            assert_eq!(n, name("localhost"));
            assert_eq!(p, 80);
        }
        other => panic!("expected a host request, got {:?}", other),
    }
    match resolve_auto_action(&AutoName::Auto("_test._tcp.localhost"), 80) {
        AutoAction::SubmitService(n) => assert_eq!(n, name("_test._tcp.localhost")),
        other => panic!("expected a service request, got {:?}", other),
    }
}

#[test]
fn invalid_names_fail_immediately() {
    match resolve_auto_action(&AutoName::Auto("Bad Name"), 80) {
        AutoAction::Fail(Error::InvalidName(raw, reason)) => {
            assert_eq!(raw, "Bad Name");
            assert_eq!(reason, "bad name");
        }
        other => panic!("expected a failure, got {:?}", other),
    }
    match resolve_auto_action(&AutoName::Auto("localhost:http"), 80) {
        AutoAction::Fail(Error::InvalidName(raw, reason)) => {
            assert_eq!(raw, "localhost:http");
            assert_eq!(reason, "bad port number");
        }
        other => panic!("expected a failure, got {:?}", other),
    }
}

#[test]
fn name_lists_keep_what_parses() {
    let list = vec![
        AutoName::Auto("example.org:8080"),
        AutoName::Auto("_my._svc.example.org"),
        AutoName::Auto("Not Valid"),
        AutoName::Auto("example.net"),
    ];
    let parsed = parse_names(&list, 80);
    assert_eq!(
        parsed,
        vec![
            InternalName::HostPort(name("example.org"), 8080),
            InternalName::Service(name("_my._svc.example.org")),
            InternalName::HostPort(name("example.net"), 80),
        ]
    );
}
