//! The multi-name subscriber: classification, unions, convergence gate.

use ns_router::addr::{Address, Ip, IpList, SockAddr};
use ns_router::config::{Backend, Config};
use ns_router::fuse::Poll;
use ns_router::multisubscr::{EntryValue, MultiSubscr, SubscribeOp};
use ns_router::name::{InternalName, Name};
use ns_router::slot::{channel, Slot};
use ns_router::subscr::TaskResult;

fn name(s: &str) -> Name {
    Name::from_str(s).unwrap()
}

fn ip(a: u8, b: u8, c: u8, d: u8) -> Ip {
    Ip::V4(a, b, c, d)
}

fn sa(a: u8, b: u8, c: u8, d: u8, port: u16) -> SockAddr {
    SockAddr { ip: ip(a, b, c, d), port }
}

fn take_value(tx: &mut Slot<Address>) -> Address {
    match tx.poll() {
        Poll::Ready(v) => v,
        _ => panic!("expected an emission"),
    }
}

/// Drive a fresh task to the state after its first name list arrived.
fn with_names(names: Vec<InternalName>, tx: &mut Slot<Address>) -> MultiSubscr {
    let mut task = MultiSubscr::new();
    let r = task.poll(false, Poll::Ready(names), Vec::new(), tx);
    assert_eq!(r, TaskResult::Restart);
    task
}

#[test]
fn host_and_service() {
    // one name is a static host, the other is watched through the
    // fallthrough back-end; the union carries both
    let b = Backend::full(1);
    let mut cfg = Config::new();
    cfg.add_host(&name("example.org"), IpList::from_ips(vec![ip(127, 0, 0, 2)]));
    cfg.set_fallthrough(b);
    let mut tx: Slot<Address> = channel();
    let mut task = with_names(
        vec![
            InternalName::HostPort(name("example.org"), 8080),
            InternalName::Service(name("_http._tcp.localhost")),
        ],
        &mut tx,
    );
    let (ops, alive) = task.restart(&cfg, &mut tx);
    assert!(alive);
    // one watch to open, on the fallthrough back-end
    assert_eq!(ops.len(), 1);
    match &ops[0] {
        SubscribeOp::AddrSub(n, backend) => {
            assert_eq!(*n, name("_http._tcp.localhost"));
            assert_eq!(*backend, b);
        }
        other => panic!("expected a service watch, got {:?}", other),
    }
    // no emission yet: the service entry is incomplete, the timer holds
    assert!(matches!(tx.poll(), Poll::NotReady));
    // the watched value arrives; every entry is complete, the union flows
    let r = task.poll(
        false,
        Poll::NotReady,
        vec![(
            InternalName::Service(name("_http._tcp.localhost")),
            EntryValue::Addrs(Address::from_addrs(vec![sa(127, 0, 0, 1, 1234)])),
        )],
        &mut tx,
    );
    assert_eq!(r, TaskResult::Continue);
    let got = take_value(&mut tx);
    let want = Address::from_addrs(vec![sa(127, 0, 0, 1, 1234), sa(127, 0, 0, 2, 8080)]);
    assert!(got.same_set(&want));

    // the service becomes a static override; the next restart delivers it
    cfg.add_service(
        &name("_http._tcp.localhost"),
        Address::from_addrs(vec![sa(127, 0, 0, 3, 80)]),
    );
    let (ops2, alive2) = task.restart(&cfg, &mut tx);
    assert!(alive2);
    // the live watch is kept: no new subscription for it
    assert_eq!(ops2.len(), 0);
    let got2 = take_value(&mut tx);
    let want2 = Address::from_addrs(vec![sa(127, 0, 0, 1, 1234), sa(127, 0, 0, 2, 8080)]);
    assert!(got2.same_set(&want2));
    // the kept watch's own subscription task observes the new static entry
    // and writes it into the watch slot; the next union carries it
    let r = task.poll(
        false,
        Poll::NotReady,
        vec![(
            InternalName::Service(name("_http._tcp.localhost")),
            EntryValue::Addrs(Address::from_addrs(vec![sa(127, 0, 0, 3, 80)])),
        )],
        &mut tx,
    );
    assert_eq!(r, TaskResult::Continue);
    let got3 = take_value(&mut tx);
    let want3 = Address::from_addrs(vec![sa(127, 0, 0, 3, 80), sa(127, 0, 0, 2, 8080)]);
    assert!(got3.same_set(&want3));
}

#[test]
fn fresh_static_service_is_classified() {
    // a name that was static before is re-classified on each restart
    let b = Backend::full(1);
    let mut cfg = Config::new();
    cfg.add_service(
        &name("_http._tcp.localhost"),
        Address::from_addrs(vec![sa(127, 0, 0, 3, 80)]),
    );
    cfg.set_fallthrough(b);
    let mut tx: Slot<Address> = channel();
    let mut task = with_names(
        vec![InternalName::Service(name("_http._tcp.localhost"))],
        &mut tx,
    );
    let (ops, alive) = task.restart(&cfg, &mut tx);
    assert!(alive);
    assert!(ops.is_empty());
    let got = take_value(&mut tx);
    assert!(got.same_set(&Address::from_addrs(vec![sa(127, 0, 0, 3, 80)])));
}

#[test]
fn literal_addresses_are_immediate() {
    // a list of literal addresses is complete at once; no timer is needed
    let mut cfg = Config::new();
    let mut tx: Slot<Address> = channel();
    let mut task = with_names(
        vec![InternalName::Addr(sa(10, 0, 0, 1, 80)), InternalName::Addr(sa(10, 0, 0, 2, 81))],
        &mut tx,
    );
    let (ops, alive) = task.restart(&mut cfg, &mut tx);
    assert!(alive);
    assert!(ops.is_empty());
    let got = take_value(&mut tx);
    assert!(got.same_set(&Address::from_addrs(vec![sa(10, 0, 0, 1, 80), sa(10, 0, 0, 2, 81)])));
}

#[test]
fn empty_list_completes_the_gate_immediately() {
    // an empty name list is vacuously converged: the empty endpoint set is
    // emitted at once and no timer is armed
    let cfg = Config::new();
    let mut tx: Slot<Address> = channel();
    let mut task = MultiSubscr::new();
    let (ops, alive) = task.restart(&cfg, &mut tx);
    assert!(alive);
    assert!(ops.is_empty());
    let got = take_value(&mut tx);
    assert_eq!(got.len(), 0);
}

#[test]
fn zero_convergence_delay_emits_partial_unions() {
    // with the delay at zero every update behaves as if complete
    let b = Backend::full(1);
    let mut cfg = Config::new();
    cfg.convergence_delay(0);
    cfg.add_host(&name("example.org"), IpList::from_ips(vec![ip(127, 0, 0, 2)]));
    cfg.set_fallthrough(b);
    let mut tx: Slot<Address> = channel();
    let mut task = with_names(
        vec![
            InternalName::HostPort(name("example.org"), 8080),
            InternalName::Service(name("_slow._tcp.localhost")),
        ],
        &mut tx,
    );
    let (_ops, alive) = task.restart(&cfg, &mut tx);
    assert!(alive);
    // the partial union — only the complete entry — is emitted at once
    let got = take_value(&mut tx);
    assert!(got.same_set(&Address::from_addrs(vec![sa(127, 0, 0, 2, 8080)])));
}

#[test]
fn convergence_timer_holds_partial_unions() {
    // a value arrives while another entry is still incomplete: the armed
    // timer suppresses the partial union until it fires
    let b = Backend::full(1);
    let mut cfg = Config::new();
    cfg.set_fallthrough(b);
    let mut tx: Slot<Address> = channel();
    let mut task = with_names(
        vec![
            InternalName::Service(name("_a._tcp.x")),
            InternalName::Service(name("_b._tcp.x")),
        ],
        &mut tx,
    );
    let (ops, _alive) = task.restart(&cfg, &mut tx);
    assert_eq!(ops.len(), 2);
    // one of two answers arrives: no emission
    let r = task.poll(
        false,
        Poll::NotReady,
        vec![(
            InternalName::Service(name("_a._tcp.x")),
            EntryValue::Addrs(Address::from_addrs(vec![sa(10, 0, 0, 1, 1)])),
        )],
        &mut tx,
    );
    assert_eq!(r, TaskResult::Continue);
    assert!(matches!(tx.poll(), Poll::NotReady));
    // the timer fires: what has converged so far is emitted
    let r = task.poll(true, Poll::NotReady, Vec::new(), &mut tx);
    assert_eq!(r, TaskResult::Continue);
    let got = take_value(&mut tx);
    assert!(got.same_set(&Address::from_addrs(vec![sa(10, 0, 0, 1, 1)])));
    // the second answer arrives later and joins the union at once
    let r = task.poll(
        false,
        Poll::NotReady,
        vec![(
            InternalName::Service(name("_b._tcp.x")),
            EntryValue::Addrs(Address::from_addrs(vec![sa(10, 0, 0, 2, 2)])),
        )],
        &mut tx,
    );
    assert_eq!(r, TaskResult::Continue);
    let got = take_value(&mut tx);
    assert!(got.same_set(&Address::from_addrs(vec![sa(10, 0, 0, 1, 1), sa(10, 0, 0, 2, 2)])));
}

#[test]
fn duplicate_values_are_suppressed() {
    let b = Backend::full(1);
    let mut cfg = Config::new();
    cfg.convergence_delay(0);
    cfg.set_fallthrough(b);
    let mut tx: Slot<Address> = channel();
    let mut task = with_names(vec![InternalName::Service(name("_a._tcp.x"))], &mut tx);
    let _ = task.restart(&cfg, &mut tx);
    let _ = tx.poll();
    let update = |task: &mut MultiSubscr, tx: &mut Slot<Address>| {
        task.poll(
            false,
            Poll::NotReady,
            vec![(
                InternalName::Service(name("_a._tcp.x")),
                EntryValue::Addrs(Address::from_addrs(vec![sa(10, 0, 0, 1, 1)])),
            )],
            tx,
        )
    };
    assert_eq!(update(&mut task, &mut tx), TaskResult::Continue);
    let got = take_value(&mut tx);
    assert!(got.same_set(&Address::from_addrs(vec![sa(10, 0, 0, 1, 1)])));
    // the same value again: no new emission
    assert_eq!(update(&mut task, &mut tx), TaskResult::Continue);
    assert!(matches!(tx.poll(), Poll::NotReady));
}

#[test]
fn name_stream_end_or_cancel_stops() {
    let mut tx: Slot<Address> = channel();
    let mut task = MultiSubscr::new();
    assert_eq!(task.poll(false, Poll::End, Vec::new(), &mut tx), TaskResult::Stop);

    let mut tx2: Slot<Address> = channel();
    let mut task2 = MultiSubscr::new();
    tx2.close_receiver();
    assert_eq!(
        task2.poll(false, Poll::NotReady, Vec::new(), &mut tx2),
        TaskResult::Stop
    );
}

#[test]
fn unchanged_name_list_does_not_restart() {
    let mut tx: Slot<Address> = channel();
    let mut task = with_names(vec![InternalName::Addr(sa(10, 0, 0, 1, 80))], &mut tx);
    let r = task.poll(
        false,
        Poll::Ready(vec![InternalName::Addr(sa(10, 0, 0, 1, 80))]),
        Vec::new(),
        &mut tx,
    );
    assert_eq!(r, TaskResult::Continue);
    let r = task.poll(
        false,
        Poll::Ready(vec![InternalName::Addr(sa(10, 0, 0, 2, 80))]),
        Vec::new(),
        &mut tx,
    );
    assert_eq!(r, TaskResult::Restart);
}
