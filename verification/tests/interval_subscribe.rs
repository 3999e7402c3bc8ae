//! The interval subscriber: poll a one-shot resolver, suppress repeats.

use ns_router::addr::{Address, Ip, IpList, SockAddr};
use ns_router::subscribe_ext::{IntervalHostResolver, IntervalResolver};

fn ip(a: u8, b: u8, c: u8, d: u8) -> Ip {
    Ip::V4(a, b, c, d)
}

fn sa(a: u8, b: u8, c: u8, d: u8, port: u16) -> SockAddr {
    SockAddr { ip: ip(a, b, c, d), port }
}

#[test]
fn interval_subscribe_test_host() {
    // poll every 100 ms for "localhost": the first answer is delivered, a
    // repeated answer is suppressed, a changed answer is delivered again
    let mut sub = IntervalHostResolver::new();
    let first = sub.on_result(IpList::from_ips(vec![ip(127, 0, 0, 1)]));
    assert!(first.unwrap().same_as(&IpList::from_ips(vec![ip(127, 0, 0, 1)])));
    assert!(sub.on_timer());
    assert!(sub.on_result(IpList::from_ips(vec![ip(127, 0, 0, 1)])).is_none());
    assert!(sub.on_timer());
    let third = sub.on_result(IpList::from_ips(vec![ip(127, 0, 0, 2)]));
    assert!(third.unwrap().same_as(&IpList::from_ips(vec![ip(127, 0, 0, 2)])));
}

#[test]
fn test_service() {
    // the first time an answer arrives it flows through; afterwards only
    // changes do
    let mut sub = IntervalResolver::new();
    let first = sub.on_result(Address::from_addrs(vec![sa(127, 0, 0, 1, 443)]));
    assert!(
        first.unwrap().same_set(&Address::from_addrs(vec![sa(127, 0, 0, 1, 443)])),
        "First time"
    );
    assert!(sub.on_timer());
    assert!(sub.on_result(Address::from_addrs(vec![sa(127, 0, 0, 1, 443)])).is_none());
    assert!(sub.on_timer());
    let third = sub.on_result(Address::from_addrs(vec![sa(127, 0, 0, 2, 443)]));
    assert!(third.unwrap().same_set(&Address::from_addrs(vec![sa(127, 0, 0, 2, 443)])));
}

#[test]
fn timer_while_waiting_is_ignored() {
    let mut sub = IntervalHostResolver::new();
    // not asleep: the timer does not issue a second query
    assert!(!sub.on_timer());
    let _ = sub.on_result(IpList::from_ips(vec![ip(10, 0, 0, 1)]));
    assert!(sub.on_timer());
}
