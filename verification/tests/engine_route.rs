//! Engine routing: static tables, suffix dispatch, lifecycle steps.

use ns_router::addr::{Address, Ip, IpList, SockAddr};
use ns_router::config::{Backend, Config, ConfigCell, NullResolver};
use ns_router::engine::{get_suffix, on_config_event, on_request, Engine, EngineAction, EngineStep, Request, TaskOutcome};
use ns_router::error::Error;
use ns_router::name::Name;

fn name(s: &str) -> Name {
    Name::from_str(s).unwrap()
}

fn ips(list: &[Ip]) -> IpList {
    IpList::from_ips(list.to_vec())
}

fn addrs(list: &[SockAddr]) -> Address {
    Address::from_addrs(list.to_vec())
}

fn ip(a: u8, b: u8, c: u8, d: u8) -> Ip {
    Ip::V4(a, b, c, d)
}

fn sa(a: u8, b: u8, c: u8, d: u8, port: u16) -> SockAddr {
    SockAddr { ip: ip(a, b, c, d), port }
}

#[test]
fn resolve_memory_test_host() {
    // a statically configured host answers from the table, no back-end
    let mut cfg = Config::new();
    cfg.add_host(&name("localhost"), ips(&[ip(127, 0, 0, 1)]));
    let cfg = cfg.done();
    match on_request(&cfg, &Request::ResolveHost(name("localhost"))) {
        EngineAction::ReplyHosts(v) => assert!(v.same_as(&ips(&[ip(127, 0, 0, 1)]))),
        other => panic!("expected a static reply, got {:?}", other),
    }
}

#[test]
fn test_addr() {
    let mut cfg = Config::new();
    cfg.add_service(&name("_http._tcp.localhost"), addrs(&[sa(127, 0, 0, 1, 80)]));
    let cfg = cfg.done();
    match on_request(&cfg, &Request::Resolve(name("_http._tcp.localhost"))) {
        EngineAction::ReplyAddr(v) => assert!(v.same_set(&addrs(&[sa(127, 0, 0, 1, 80)]))),
        other => panic!("expected a static reply, got {:?}", other),
    }
}

#[test]
fn host_port_lifts_static_hosts() {
    let mut cfg = Config::new();
    cfg.add_host(&name("localhost"), ips(&[ip(127, 0, 0, 1)]));
    match on_request(&cfg, &Request::ResolveHostPort(name("localhost"), 1234)) {
        EngineAction::ReplyAddr(v) => assert!(v.same_set(&addrs(&[sa(127, 0, 0, 1, 1234)]))),
        other => panic!("expected a static reply, got {:?}", other),
    }
}

#[test]
fn test_host_suffix() {
    // suffix "consul" routes to its own back-end, everything else falls
    // through
    let b1 = Backend::full(1);
    let b2 = Backend::full(2);
    let mut cfg = Config::new();
    cfg.add_suffix("consul", b2);
    cfg.set_fallthrough(b1);
    assert_eq!(*get_suffix(&cfg, "x.consul"), b2);
    assert_eq!(*get_suffix(&cfg, "consul"), b2);
    assert_eq!(*get_suffix(&cfg, "localhost"), b1);
    assert_eq!(*get_suffix(&cfg, "notconsul"), b1);
    match on_request(&cfg, &Request::ResolveHost(name("x.consul"))) {
        EngineAction::DelegateResolveHost(b) => assert_eq!(b, b2),
        other => panic!("expected a delegation, got {:?}", other),
    }
}

#[test]
fn test_suffix() {
    let b1 = Backend::full(1);
    let b2 = Backend::full(2);
    let mut cfg = Config::new();
    cfg.add_suffix("consul", b2);
    cfg.set_fallthrough(b1);
    match on_request(&cfg, &Request::Resolve(name("x.consul"))) {
        EngineAction::DelegateResolve(b) => assert_eq!(b, b2),
        other => panic!("expected a delegation, got {:?}", other),
    }
    match on_request(&cfg, &Request::Resolve(name("localhost"))) {
        EngineAction::DelegateResolve(b) => assert_eq!(b, b1),
        other => panic!("expected a delegation, got {:?}", other),
    }
}

#[test]
fn longest_suffix_wins() {
    let b1 = Backend::full(1);
    let b2 = Backend::full(2);
    let mut cfg = Config::new();
    cfg.add_suffix("org", b1);
    cfg.add_suffix("example.org", b2);
    assert_eq!(*get_suffix(&cfg, "www.example.org"), b2);
    assert_eq!(*get_suffix(&cfg, "example.org"), b2);
    assert_eq!(*get_suffix(&cfg, "other.org"), b1);
    // label boundaries: "xexample.org" only matches the shorter suffix
    assert_eq!(*get_suffix(&cfg, "xexample.org"), b1);
}

#[test]
fn removed_suffix_falls_through() {
    let b1 = Backend::full(1);
    let b2 = Backend::full(2);
    let mut cfg = Config::new();
    cfg.add_suffix("consul", b2);
    cfg.set_fallthrough(b1);
    cfg.remove_suffix("consul");
    assert_eq!(*get_suffix(&cfg, "x.consul"), b1);
}

#[test]
fn subscribe_requests() {
    let b1 = Backend::full(1);
    let mut cfg = Config::new();
    cfg.add_host(&name("localhost"), ips(&[ip(127, 0, 0, 2)]));
    cfg.set_fallthrough(b1);
    match on_request(&cfg, &Request::HostSubscribe(name("localhost"))) {
        EngineAction::StaticHostValue(v) => assert!(v.same_as(&ips(&[ip(127, 0, 0, 2)]))),
        other => panic!("expected a static value, got {:?}", other),
    }
    match on_request(&cfg, &Request::HostSubscribe(name("elsewhere"))) {
        EngineAction::DelegateHostSubscribe(b) => assert_eq!(b, b1),
        other => panic!("expected a delegation, got {:?}", other),
    }
    match on_request(&cfg, &Request::Subscribe(name("_svc._tcp.x"))) {
        EngineAction::DelegateSubscribe(b) => assert_eq!(b, b1),
        other => panic!("expected a delegation, got {:?}", other),
    }
}

#[test]
fn null_resolver_answers_not_found() {
    let null = NullResolver;
    assert!(matches!(null.resolve_host(), Err(Error::NameNotFound)));
    assert!(matches!(null.resolve(), Err(Error::NameNotFound)));
    assert!(matches!(null.resolve_host_port(), Err(Error::NameNotFound)));
}

#[test]
fn engine_lifecycle() {
    let mut engine = Engine::new();
    assert!(engine.config().is_none());
    // nothing happens on Done
    assert_eq!(engine.on_task_outcome(TaskOutcome::Done), EngineStep::Continue);
    // the first configuration is installed and the notifier signalled
    let mut cfg = Config::new();
    cfg.restart_delay(250);
    let step = engine.on_task_outcome(on_config_event(Some(cfg.done())));
    assert_eq!(step, EngineStep::ConfigInstalled);
    assert!(engine.config().is_some());
    // a delayed restart uses the configured restart delay
    assert_eq!(
        engine.on_task_outcome(TaskOutcome::DelayRestart),
        EngineStep::ScheduleRestart(250)
    );
    assert_eq!(engine.on_task_outcome(TaskOutcome::Restart), EngineStep::RunRestart);
    // end of the configuration stream terminates the engine
    assert_eq!(engine.on_task_outcome(on_config_event(None)), EngineStep::Terminate);
}

#[test]
fn engine_terminates_when_drained() {
    // the second termination rule: a closed request queue and no task left
    let engine = Engine::new();
    assert_eq!(engine.on_idle(true, false), EngineStep::Terminate);
    assert_eq!(engine.on_idle(true, true), EngineStep::Continue);
    assert_eq!(engine.on_idle(false, false), EngineStep::Continue);
}

#[test]
fn resolver_down_is_a_temporary_error() {
    // a request that cannot reach the engine fails locally with this error
    match Error::resolver_down() {
        Error::TemporaryError(msg) => assert_eq!(msg, "Resolver is down"),
        other => panic!("expected a temporary error, got {:?}", other),
    }
}

#[test]
fn union_concatenates_endpoint_sets() {
    let parts = vec![
        addrs(&[sa(10, 0, 0, 1, 80)]),
        addrs(&[]),
        addrs(&[sa(10, 0, 0, 2, 81), sa(10, 0, 0, 3, 82)]),
    ];
    let u = ns_router::addr::union(&parts);
    assert_eq!(u.len(), 3);
    assert_eq!(u.get(0), sa(10, 0, 0, 1, 80));
    assert_eq!(u.get(1), sa(10, 0, 0, 2, 81));
    assert_eq!(u.get(2), sa(10, 0, 0, 3, 82));
}

#[test]
fn config_cell_holds_latest() {
    let mut cell = ConfigCell::new();
    assert!(cell.get().is_none());
    let mut cfg = Config::new();
    cfg.convergence_delay(7);
    cell.put(cfg.done());
    match cell.get() {
        Some(c) => assert_eq!(c.convergence_delay_ms(), 7),
        None => panic!("expected a configuration"),
    }
}
