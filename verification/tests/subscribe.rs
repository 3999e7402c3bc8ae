//! Single-name subscription tasks: restart routing, value delivery,
//! cancellation.

use ns_router::addr::{Address, Ip, IpList, SockAddr};
use ns_router::config::{Backend, Config};
use ns_router::engine::TaskOutcome;
use ns_router::fuse::{Fuse, Poll};
use ns_router::name::Name;
use ns_router::slot::{channel, Slot};
use ns_router::subscr::{subscr_future_step, HostRestart, HostSubscr, StreamHandle, Subscr, AddrRestart, TaskResult};

fn name(s: &str) -> Name {
    Name::from_str(s).unwrap()
}

fn ips(list: &[Ip]) -> IpList {
    IpList::from_ips(list.to_vec())
}

fn ip(a: u8, b: u8, c: u8, d: u8) -> Ip {
    Ip::V4(a, b, c, d)
}

fn sa(a: u8, b: u8, c: u8, d: u8, port: u16) -> SockAddr {
    SockAddr { ip: ip(a, b, c, d), port }
}

fn host_task(n: &str, backend: Backend) -> HostSubscr {
    HostSubscr {
        name: name(n),
        subscriber: backend,
        source: Fuse::new(StreamHandle { id: 7 }),
    }
}

#[test]
fn values_flow_into_the_slot() {
    let b = Backend::full(1);
    let mut task = host_task("localhost", b);
    let mut tx: Slot<IpList> = channel();
    let events = vec![
        Poll::Ready(ips(&[ip(127, 0, 0, 1)])),
        Poll::Ready(ips(&[ip(127, 0, 0, 2)])),
        Poll::NotReady,
    ];
    assert_eq!(task.poll(events, &mut tx), TaskResult::Continue);
    // latest value wins
    match tx.poll() {
        Poll::Ready(v) => assert!(v.same_as(&ips(&[ip(127, 0, 0, 2)]))),
        _ => panic!("expected a value"),
    }
}

#[test]
fn stream_end_asks_for_delayed_restart() {
    let b = Backend::full(1);
    let mut task = host_task("localhost", b);
    let mut tx: Slot<IpList> = channel();
    assert_eq!(task.poll(vec![Poll::End], &mut tx), TaskResult::DelayRestart);
    assert!(task.source.is_done());
    // a fused source keeps reporting end
    assert_eq!(task.poll(vec![Poll::NotReady], &mut tx), TaskResult::DelayRestart);
}

#[test]
fn stream_error_asks_for_delayed_restart() {
    let b = Backend::full(1);
    let mut task = host_task("localhost", b);
    let mut tx: Slot<IpList> = channel();
    assert_eq!(task.poll(vec![Poll::Failed], &mut tx), TaskResult::DelayRestart);
    assert!(task.source.is_done());
}

#[test]
fn cancel_stops_within_one_poll() {
    let b = Backend::full(1);
    let mut task = host_task("localhost", b);
    let mut tx: Slot<IpList> = channel();
    tx.close_receiver();
    assert_eq!(task.poll(vec![Poll::NotReady], &mut tx), TaskResult::Stop);
}

#[test]
fn restart_static_override_takes_over() {
    // scenario: a subscription served by the fallthrough sees a new
    // configuration that adds a static entry; the static value is delivered
    // and the task parks as a no-op
    let b = Backend::full(1);
    let task = host_task("localhost", b);
    let mut tx: Slot<IpList> = channel();
    let mut cfg = Config::new();
    cfg.add_host(&name("localhost"), ips(&[ip(127, 0, 0, 2)]));
    match task.restart(&cfg, &mut tx) {
        HostRestart::NoOp(noop) => {
            assert_eq!(noop.name, name("localhost"));
            match tx.poll() {
                Poll::Ready(v) => assert!(v.same_as(&ips(&[ip(127, 0, 0, 2)]))),
                _ => panic!("expected the static value"),
            }
        }
        other => panic!("expected a no-op park, got {:?}", other),
    }
}

#[test]
fn restart_backend_swap_resubscribes() {
    // scenario: the configuration replaced the back-end; the next emission
    // must come from the new one — the old stream is dropped with the task
    let b_old = Backend::full(1);
    let b_new = Backend::full(2);
    let task = host_task("localhost", b_old);
    let mut tx: Slot<IpList> = channel();
    let mut cfg = Config::new();
    cfg.set_fallthrough(b_new);
    match task.restart(&cfg, &mut tx) {
        HostRestart::Resubscribe(n, b) => {
            assert_eq!(n, name("localhost"));
            assert_eq!(b, b_new);
        }
        other => panic!("expected a fresh subscription, got {:?}", other),
    }
}

#[test]
fn restart_same_backend_keeps_task() {
    let b = Backend::full(1);
    let task = host_task("localhost", b);
    let mut tx: Slot<IpList> = channel();
    let mut cfg = Config::new();
    cfg.set_fallthrough(b);
    match task.restart(&cfg, &mut tx) {
        HostRestart::Keep(kept) => {
            assert_eq!(kept.name, name("localhost"));
            assert_eq!(kept.subscriber, b);
        }
        other => panic!("expected to keep the task, got {:?}", other),
    }
}

#[test]
fn restart_exhausted_stream_resubscribes() {
    let b = Backend::full(1);
    let mut task = host_task("localhost", b);
    let mut tx: Slot<IpList> = channel();
    // the stream ends; the fuse latches
    assert_eq!(task.poll(vec![Poll::End], &mut tx), TaskResult::DelayRestart);
    let mut cfg = Config::new();
    cfg.set_fallthrough(b);
    match task.restart(&cfg, &mut tx) {
        HostRestart::Resubscribe(_, b2) => assert_eq!(b2, b),
        other => panic!("expected a fresh subscription, got {:?}", other),
    }
}

#[test]
fn service_subscription_mirrors_hosts() {
    let b = Backend::full(1);
    let task = Subscr {
        name: name("_http._tcp.localhost"),
        subscriber: b,
        source: Fuse::new(StreamHandle { id: 9 }),
    };
    let mut tx: Slot<Address> = channel();
    let mut cfg = Config::new();
    cfg.add_service(
        &name("_http._tcp.localhost"),
        Address::from_addrs(vec![sa(127, 0, 0, 2, 80)]),
    );
    match task.restart(&cfg, &mut tx) {
        AddrRestart::NoOp(_) => match tx.poll() {
            Poll::Ready(v) => assert!(v.same_set(&Address::from_addrs(vec![sa(127, 0, 0, 2, 80)]))),
            _ => panic!("expected the static value"),
        },
        other => panic!("expected a no-op park, got {:?}", other),
    }
}

#[test]
fn future_step_priorities() {
    // a fired update notifier outranks the task result
    assert!(matches!(
        subscr_future_step(true, TaskResult::Continue),
        Some(TaskOutcome::Restart)
    ));
    assert!(subscr_future_step(false, TaskResult::Continue).is_none());
    assert!(matches!(
        subscr_future_step(false, TaskResult::Stop),
        Some(TaskOutcome::Done)
    ));
    assert!(matches!(
        subscr_future_step(false, TaskResult::DelayRestart),
        Some(TaskOutcome::DelayRestart)
    ));
}

#[test]
fn slot_is_latest_value_wins() {
    let mut s: Slot<u32> = channel();
    assert!(matches!(s.poll(), Poll::NotReady));
    assert_eq!(s.swap(1).unwrap(), None);
    assert_eq!(s.swap(2).unwrap(), Some(1));
    assert!(matches!(s.poll(), Poll::Ready(2)));
    assert!(matches!(s.poll(), Poll::NotReady));
    s.close();
    assert!(matches!(s.poll(), Poll::End));
}

#[test]
fn slot_send_fails_after_cancel() {
    let mut s: Slot<u32> = channel();
    s.close_receiver();
    assert!(s.poll_cancel());
    let err = s.swap(5).unwrap_err();
    assert_eq!(err.into_inner(), 5);
}

#[test]
fn fuse_latches_on_end_and_error() {
    let mut f: Fuse<u8> = Fuse::new(0);
    assert!(!f.is_done());
    assert!(matches!(f.poll(Poll::Ready(1u32)), Poll::Ready(1)));
    assert!(matches!(f.poll(Poll::<u32>::NotReady), Poll::NotReady));
    assert!(matches!(f.poll(Poll::<u32>::End), Poll::End));
    assert!(f.is_done());
    assert!(matches!(f.poll(Poll::Ready(2u32)), Poll::End));

    let mut g: Fuse<u8> = Fuse::new(0);
    assert!(matches!(g.poll(Poll::<u32>::Failed), Poll::Failed));
    assert!(g.is_done());
    assert!(matches!(g.poll(Poll::<u32>::NotReady), Poll::End));
}
