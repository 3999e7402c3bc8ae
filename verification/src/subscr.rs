//! Single-name subscription tasks.
//!
//! A subscription task carries values from one back-end stream into one
//! consumer slot.  It remembers which back-end serves it; when the
//! configuration changes, the engine re-runs its `restart`, which either
//! turns it into a no-op task behind a static entry, re-subscribes on a new
//! back-end, or keeps it as it is.

use vstd::prelude::*;

use crate::addr::{Address, IpList};
use crate::config::{Backend, Config};
use crate::engine::{get_suffix, on_request, route_backend, EngineAction, Request, TaskOutcome};
use crate::fuse::{Fuse, Poll};
use crate::name::Name;
use crate::slot::Slot;

verus! {

/// What one polling round of a subscription task decides.
#[derive(Debug, PartialEq, Eq, Structural)]
pub enum TaskResult {
    /// Nothing to report; stay scheduled.
    Continue,
    /// The task is finished.
    Stop,
    /// Re-route now under the current configuration.
    Restart,
    /// Re-route after the restart delay.
    DelayRestart,
}

/// Stands for a back-end stream held outside the state machine.
#[derive(Clone, Copy, Debug, PartialEq, Eq, Structural)]
pub struct StreamHandle {
    /// Identity of the stream instance.
    pub id: u64,
}

/// How a round of source observations plays out: the terminal result if one
/// was reached, the last value written to the consumer slot, and whether the
/// source latched shut.
pub struct FeedSpec<T> {
    /// The early result, or `None` when the round fell through to the
    /// cancellation check.
    pub result: Option<TaskResult>,
    /// The last value written to the slot in this round.
    pub last: Option<T>,
    /// Whether the fused source is now done.
    pub done: bool,
}

/// Fold a round of source observations through the fuse and the slot: each
/// value is written to the slot (stopping if the consumer is gone), the
/// first end or failure asks for a delayed restart, and a not-ready ends the
/// round.
pub open spec fn feed<T>(done0: bool, receiver_open: bool, events: Seq<Poll<T>>) -> FeedSpec<T>
    decreases events.len(),
{
    if events.len() == 0 {
        FeedSpec { result: None, last: None, done: done0 }
    } else if done0 {
        FeedSpec { result: Some(TaskResult::DelayRestart), last: None, done: true }
    } else {
        match events[0] {
            Poll::Ready(v) => if receiver_open {
                let rest = feed(false, receiver_open, events.drop_first());
                FeedSpec {
                    result: rest.result,
                    last: if rest.last is Some {
                        rest.last
                    } else {
                        Some(v)
                    },
                    done: rest.done,
                }
            } else {
                FeedSpec { result: Some(TaskResult::Stop), last: None, done: false }
            },
            Poll::End => FeedSpec { result: Some(TaskResult::DelayRestart), last: None, done: true },
            Poll::Failed => FeedSpec {
                result: Some(TaskResult::DelayRestart),
                last: None,
                done: true,
            },
            Poll::NotReady => FeedSpec { result: None, last: None, done: done0 },
        }
    }
}

/// Law: once the consumer slot is closed, a polling round of a live source
/// reaches `Stop` at once — either at the first value, or at the
/// cancellation check a round without values falls through to.
pub proof fn lemma_cancel_stops<T>(events: Seq<Poll<T>>)
    requires
        forall|i: int| 0 <= i < events.len() ==> !((#[trigger] events[i]) is End) && !(events[i]
            is Failed),
    ensures
        feed(false, false, events).result is None || feed(false, false, events).result == Some(
            TaskResult::Stop,
        ),
{
    if events.len() > 0 {
        assert(!(events[0] is End) && !(events[0] is Failed));
    }
}

/// A no-op task parked behind a static host entry; its `restart` re-enters
/// the engine's subscribe path.
#[derive(Debug)]
pub struct HostNoOpSubscr {
    /// The subscribed name.
    pub name: Name,
}

/// A no-op task parked behind a static service entry.
#[derive(Debug)]
pub struct NoOpSubscr {
    /// The subscribed name.
    pub name: Name,
}

/// What a subscription's `restart` decides.
#[derive(Debug)]
pub enum HostRestart {
    /// A static value was delivered but the consumer is gone.
    Finished,
    /// A static value was delivered; park as a no-op task.
    NoOp(HostNoOpSubscr),
    /// Subscribe this name afresh on this back-end, with a new stream.
    Resubscribe(Name, Backend),
    /// Keep the same back-end and stream.
    Keep(HostSubscr),
}

/// Same, for a service subscription.
#[derive(Debug)]
pub enum AddrRestart {
    /// A static value was delivered but the consumer is gone.
    Finished,
    /// A static value was delivered; park as a no-op task.
    NoOp(NoOpSubscr),
    /// Subscribe this name afresh on this back-end, with a new stream.
    Resubscribe(Name, Backend),
    /// Keep the same back-end and stream.
    Keep(Subscr),
}

/// A host subscription: drives one back-end host stream into one slot.
#[derive(Debug)]
pub struct HostSubscr {
    /// The subscribed name.
    pub name: Name,
    /// The back-end that serves this subscription.
    pub subscriber: Backend,
    /// The fused back-end stream.
    pub source: Fuse<StreamHandle>,
}

/// A service subscription: drives one back-end address stream into one slot.
#[derive(Debug)]
pub struct Subscr {
    /// The subscribed name.
    pub name: Name,
    /// The back-end that serves this subscription.
    pub subscriber: Backend,
    /// The fused back-end stream.
    pub source: Fuse<StreamHandle>,
}

impl HostSubscr {
    /// Re-route after a configuration change.
    ///
    /// Law: when the configuration has replaced this subscription's
    /// back-end, or its stream is exhausted, the decision is a fresh
    /// subscription on the back-end the new configuration routes the name
    /// to; the old stream is dropped with the task, so no further value of
    /// the old back-end can be delivered.
    pub fn restart(self, cfg: &Config, tx: &mut Slot<IpList>) -> (r: HostRestart)
        requires
            cfg.wf(),
            self.name@.len() < usize::MAX,
            old(tx).sender_open_spec(),
        ensures
            final(tx).sender_open_spec() && final(tx).receiver_open_spec() == old(
                tx,
            ).receiver_open_spec(),
            cfg@.hosts.contains_key(self.name@) && old(tx).receiver_open_spec() ==> (r matches
                HostRestart::NoOp(t) && t.name@ == self.name@ && (final(tx).value_spec() matches
                Some(v) && v@ == cfg@.hosts[self.name@])),
            cfg@.hosts.contains_key(self.name@) && !old(tx).receiver_open_spec() ==> r
                is Finished && final(tx).value_spec() == old(tx).value_spec(),
            !cfg@.hosts.contains_key(self.name@) ==> final(tx).value_spec() == old(
                tx,
            ).value_spec() && (if route_backend(cfg@, self.name@) != self.subscriber
                || self.source.done_spec() {
                r matches HostRestart::Resubscribe(n, b) && n@ == self.name@ && b
                    == route_backend(cfg@, self.name@)
            } else {
                r == HostRestart::Keep(self)
            }),
    {
        match cfg.find_host(&self.name) {
            Some(value) => {
                match tx.swap(value.duplicate()) {
                    Ok(_) => HostRestart::NoOp(HostNoOpSubscr { name: self.name }),
                    Err(_) => HostRestart::Finished,
                }
            },
            None => {
                let nsub = *get_suffix(cfg, self.name.as_str());
                if nsub != self.subscriber || self.source.is_done() {
                    HostRestart::Resubscribe(self.name, nsub)
                } else {
                    HostRestart::Keep(self)
                }
            },
        }
    }

    /// One polling round: drain the source observations into the slot, then
    /// check for cancellation.
    pub fn poll(&mut self, events: Vec<Poll<IpList>>, tx: &mut Slot<IpList>) -> (r: TaskResult)
        requires
            old(tx).sender_open_spec(),
        ensures
            final(self).name == old(self).name,
            final(self).subscriber == old(self).subscriber,
            final(self).source.stream_spec() == old(self).source.stream_spec(),
            final(tx).sender_open_spec() && final(tx).receiver_open_spec() == old(
                tx,
            ).receiver_open_spec(),
            ({
                let fo = feed(
                    old(self).source.done_spec(),
                    old(tx).receiver_open_spec(),
                    events@,
                );
                &&& final(self).source.done_spec() == fo.done
                &&& final(tx).value_spec() == (if fo.last is Some {
                    fo.last
                } else {
                    old(tx).value_spec()
                })
                &&& r == (match fo.result {
                    Some(tr) => tr,
                    None => if old(tx).receiver_open_spec() {
                        TaskResult::Continue
                    } else {
                        TaskResult::Stop
                    },
                })
            }),
    {
        match self.poll_events(events, tx) {
            Some(tr) => tr,
            None => {
                if tx.poll_cancel() {
                    TaskResult::Stop
                } else {
                    TaskResult::Continue
                }
            },
        }
    }

    fn poll_events(&mut self, events: Vec<Poll<IpList>>, tx: &mut Slot<IpList>) -> (r: Option<
        TaskResult,
    >)
        requires
            old(tx).sender_open_spec(),
        ensures
            final(self).name == old(self).name,
            final(self).subscriber == old(self).subscriber,
            final(self).source.stream_spec() == old(self).source.stream_spec(),
            final(tx).sender_open_spec() && final(tx).receiver_open_spec() == old(
                tx,
            ).receiver_open_spec(),
            ({
                let fo = feed(
                    old(self).source.done_spec(),
                    old(tx).receiver_open_spec(),
                    events@,
                );
                &&& final(self).source.done_spec() == fo.done
                &&& final(tx).value_spec() == (if fo.last is Some {
                    fo.last
                } else {
                    old(tx).value_spec()
                })
                &&& r == fo.result
            }),
        decreases events@.len(),
    {
        let mut events = events;
        if events.len() == 0 {
            return None;
        }
        let ghost ev0 = events@;
        let ev = events.remove(0);
        proof {
            assert(ev0.drop_first() =~= events@);
        }
        match self.source.poll(ev) {
            Poll::Ready(v) => {
                match tx.swap(v) {
                    Ok(_) => self.poll_events(events, tx),
                    Err(_) => Some(TaskResult::Stop),
                }
            },
            Poll::End => Some(TaskResult::DelayRestart),
            Poll::Failed => Some(TaskResult::DelayRestart),
            Poll::NotReady => None,
        }
    }
}

impl Subscr {
    /// Re-route after a configuration change; as for hosts, but against the
    /// static service table.
    pub fn restart(self, cfg: &Config, tx: &mut Slot<Address>) -> (r: AddrRestart)
        requires
            cfg.wf(),
            self.name@.len() < usize::MAX,
            old(tx).sender_open_spec(),
        ensures
            final(tx).sender_open_spec() && final(tx).receiver_open_spec() == old(
                tx,
            ).receiver_open_spec(),
            cfg@.services.contains_key(self.name@) && old(tx).receiver_open_spec() ==> (r matches
                AddrRestart::NoOp(t) && t.name@ == self.name@ && (final(tx).value_spec() matches
                Some(v) && v@ == cfg@.services[self.name@])),
            cfg@.services.contains_key(self.name@) && !old(tx).receiver_open_spec() ==> r
                is Finished && final(tx).value_spec() == old(tx).value_spec(),
            !cfg@.services.contains_key(self.name@) ==> final(tx).value_spec() == old(
                tx,
            ).value_spec() && (if route_backend(cfg@, self.name@) != self.subscriber
                || self.source.done_spec() {
                r matches AddrRestart::Resubscribe(n, b) && n@ == self.name@ && b
                    == route_backend(cfg@, self.name@)
            } else {
                r == AddrRestart::Keep(self)
            }),
    {
        match cfg.find_service(&self.name) {
            Some(value) => {
                match tx.swap(value.duplicate()) {
                    Ok(_) => AddrRestart::NoOp(NoOpSubscr { name: self.name }),
                    Err(_) => AddrRestart::Finished,
                }
            },
            None => {
                let nsub = *get_suffix(cfg, self.name.as_str());
                if nsub != self.subscriber || self.source.is_done() {
                    AddrRestart::Resubscribe(self.name, nsub)
                } else {
                    AddrRestart::Keep(self)
                }
            },
        }
    }

    /// One polling round: drain the source observations into the slot, then
    /// check for cancellation.
    pub fn poll(&mut self, events: Vec<Poll<Address>>, tx: &mut Slot<Address>) -> (r: TaskResult)
        requires
            old(tx).sender_open_spec(),
        ensures
            final(self).name == old(self).name,
            final(self).subscriber == old(self).subscriber,
            final(self).source.stream_spec() == old(self).source.stream_spec(),
            final(tx).sender_open_spec() && final(tx).receiver_open_spec() == old(
                tx,
            ).receiver_open_spec(),
            ({
                let fo = feed(
                    old(self).source.done_spec(),
                    old(tx).receiver_open_spec(),
                    events@,
                );
                &&& final(self).source.done_spec() == fo.done
                &&& final(tx).value_spec() == (if fo.last is Some {
                    fo.last
                } else {
                    old(tx).value_spec()
                })
                &&& r == (match fo.result {
                    Some(tr) => tr,
                    None => if old(tx).receiver_open_spec() {
                        TaskResult::Continue
                    } else {
                        TaskResult::Stop
                    },
                })
            }),
    {
        match self.poll_events(events, tx) {
            Some(tr) => tr,
            None => {
                if tx.poll_cancel() {
                    TaskResult::Stop
                } else {
                    TaskResult::Continue
                }
            },
        }
    }

    fn poll_events(&mut self, events: Vec<Poll<Address>>, tx: &mut Slot<Address>) -> (r: Option<
        TaskResult,
    >)
        requires
            old(tx).sender_open_spec(),
        ensures
            final(self).name == old(self).name,
            final(self).subscriber == old(self).subscriber,
            final(self).source.stream_spec() == old(self).source.stream_spec(),
            final(tx).sender_open_spec() && final(tx).receiver_open_spec() == old(
                tx,
            ).receiver_open_spec(),
            ({
                let fo = feed(
                    old(self).source.done_spec(),
                    old(tx).receiver_open_spec(),
                    events@,
                );
                &&& final(self).source.done_spec() == fo.done
                &&& final(tx).value_spec() == (if fo.last is Some {
                    fo.last
                } else {
                    old(tx).value_spec()
                })
                &&& r == fo.result
            }),
        decreases events@.len(),
    {
        let mut events = events;
        if events.len() == 0 {
            return None;
        }
        let ghost ev0 = events@;
        let ev = events.remove(0);
        proof {
            assert(ev0.drop_first() =~= events@);
        }
        match self.source.poll(ev) {
            Poll::Ready(v) => {
                match tx.swap(v) {
                    Ok(_) => self.poll_events(events, tx),
                    Err(_) => Some(TaskResult::Stop),
                }
            },
            Poll::End => Some(TaskResult::DelayRestart),
            Poll::Failed => Some(TaskResult::DelayRestart),
            Poll::NotReady => None,
        }
    }
}

impl HostNoOpSubscr {
    /// Re-enter the engine's subscribe path, as if the consumer had just
    /// subscribed; a configuration that dropped the static entry re-wires
    /// the slot to a live back-end.
    pub fn restart(self, cfg: &Config) -> (a: EngineAction)
        requires
            cfg.wf(),
            self.name@.len() < usize::MAX,
        ensures
            cfg@.hosts.contains_key(self.name@) ==> (a matches EngineAction::StaticHostValue(v)
                && v@ == cfg@.hosts[self.name@]),
            !cfg@.hosts.contains_key(self.name@) ==> a == EngineAction::DelegateHostSubscribe(
                route_backend(cfg@, self.name@),
            ),
    {
        on_request(cfg, &Request::HostSubscribe(self.name))
    }
}

impl NoOpSubscr {
    /// Re-enter the engine's subscribe path for a service subscription.
    pub fn restart(self, cfg: &Config) -> (a: EngineAction)
        requires
            cfg.wf(),
            self.name@.len() < usize::MAX,
        ensures
            cfg@.services.contains_key(self.name@) ==> (a matches EngineAction::StaticAddrValue(v)
                && v@ == cfg@.services[self.name@]),
            !cfg@.services.contains_key(self.name@) ==> a == EngineAction::DelegateSubscribe(
                route_backend(cfg@, self.name@),
            ),
    {
        on_request(cfg, &Request::Subscribe(self.name))
    }
}

/// One poll of the future wrapping a subscription task: a fired
/// configuration-update notifier outranks the task's own result and asks
/// for a restart; otherwise the task's result is handed to the engine, with
/// `Continue` meaning "stay scheduled".
pub fn subscr_future_step(update_fired: bool, tr: TaskResult) -> (r: Option<TaskOutcome>)
    ensures
        update_fired ==> r == Some(TaskOutcome::Restart),
        !update_fired ==> r == (match tr {
            TaskResult::Continue => None::<TaskOutcome>,
            TaskResult::Stop => Some(TaskOutcome::Done),
            TaskResult::Restart => Some(TaskOutcome::Restart),
            TaskResult::DelayRestart => Some(TaskOutcome::DelayRestart),
        }),
{
    if update_fired {
        return Some(TaskOutcome::Restart);
    }
    match tr {
        TaskResult::Continue => None,
        TaskResult::Stop => Some(TaskOutcome::Done),
        TaskResult::Restart => Some(TaskOutcome::Restart),
        TaskResult::DelayRestart => Some(TaskOutcome::DelayRestart),
    }
}

} // verus!
