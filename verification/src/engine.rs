//! The dispatch engine: routing decisions and the engine's own lifecycle.
//!
//! The engine owns the current configuration.  Each request is answered from
//! the static tables when possible and otherwise delegated to the back-end
//! owning the longest suffix of the name that is bound in the configuration,
//! falling through to the root back-end when no suffix matches.

use vstd::prelude::*;

use crate::addr::{spec_with_port, Address, IpList};
use crate::config::{Backend, Config, ConfigView, NullResolver};
use crate::error::{Error, ErrorView};
use crate::name::Name;

verus! {

/// `suffix` is the whole of `name`, or a suffix preceded by a dot.
pub open spec fn label_suffix_match(name: Seq<char>, suffix: Seq<char>) -> bool {
    name == suffix || (name.len() > suffix.len() && name[name.len() - suffix.len() - 1] == '.'
        && name.skip(name.len() - suffix.len()) == suffix)
}

/// Some bound suffix matches `name`.
pub open spec fn has_suffix_key(cfg: ConfigView, name: Seq<char>) -> bool {
    exists|k: Seq<char>| #[trigger] cfg.suffixes.contains_key(k) && label_suffix_match(name, k)
}

/// The longest bound suffix matching `name`.
pub open spec fn best_suffix_key(cfg: ConfigView, name: Seq<char>) -> Seq<char> {
    choose|k: Seq<char>|
        #[trigger] cfg.suffixes.contains_key(k) && label_suffix_match(name, k) && (forall|
            k2: Seq<char>,
        |
            #[trigger] cfg.suffixes.contains_key(k2) && label_suffix_match(name, k2)
                ==> k2.len() <= k.len())
}

/// The back-end a name is dispatched to: the longest matching bound suffix,
/// or the fallthrough.
pub open spec fn route_backend(cfg: ConfigView, name: Seq<char>) -> Backend {
    if has_suffix_key(cfg, name) {
        cfg.suffixes[best_suffix_key(cfg, name)]
    } else {
        cfg.root
    }
}

/// A matching suffix is determined by its length.
pub proof fn lemma_match_determined(name: Seq<char>, k1: Seq<char>, k2: Seq<char>)
    requires
        label_suffix_match(name, k1),
        label_suffix_match(name, k2),
        k1.len() == k2.len(),
    ensures
        k1 == k2,
{
    assert(k1 =~= name.skip(name.len() - k1.len()));
    assert(k2 =~= name.skip(name.len() - k2.len()));
}

/// If `k` is a matching bound suffix and no longer bound suffix matches,
/// then the route goes to `k`'s back-end.
pub proof fn lemma_route_found(cfg: ConfigView, name: Seq<char>, k: Seq<char>)
    requires
        cfg.suffixes.contains_key(k),
        label_suffix_match(name, k),
        forall|k2: Seq<char>|
            #[trigger] cfg.suffixes.contains_key(k2) && label_suffix_match(name, k2)
                ==> k2.len() <= k.len(),
    ensures
        has_suffix_key(cfg, name),
        route_backend(cfg, name) == cfg.suffixes[k],
{
    assert(has_suffix_key(cfg, name));
    let b = best_suffix_key(cfg, name);
    assert(cfg.suffixes.contains_key(b) && label_suffix_match(name, b) && (forall|k2: Seq<char>|
        #[trigger] cfg.suffixes.contains_key(k2) && label_suffix_match(name, k2) ==> k2.len()
            <= b.len())) by {
        assert(cfg.suffixes.contains_key(k) && label_suffix_match(name, k) && (forall|
            k2: Seq<char>,
        |
            #[trigger] cfg.suffixes.contains_key(k2) && label_suffix_match(name, k2) ==> k2.len()
                <= k.len()));
    }
    assert(b.len() <= k.len());
    assert(k.len() <= b.len());
    lemma_match_determined(name, k, b);
}

/// Law: a name ending in a bound suffix at a label boundary — the name
/// itself included — is dispatched to that suffix's back-end, provided no
/// longer bound suffix also matches.
pub proof fn lemma_suffix_dispatch(cfg: ConfigView, name: Seq<char>, s: Seq<char>)
    requires
        cfg.suffixes.contains_key(s),
        label_suffix_match(name, s),
        forall|k: Seq<char>|
            #[trigger] cfg.suffixes.contains_key(k) && label_suffix_match(name, k) ==> k.len()
                <= s.len(),
    ensures
        route_backend(cfg, name) == cfg.suffixes[s],
{
    lemma_route_found(cfg, name, s);
}

/// Law: with two bound suffixes where one is a strict suffix of the other, a
/// name ending in the longer one dispatches to the longer one's back-end.
pub proof fn lemma_longest_suffix_wins(
    cfg: ConfigView,
    name: Seq<char>,
    s1: Seq<char>,
    s2: Seq<char>,
)
    requires
        cfg.suffixes.contains_key(s1),
        cfg.suffixes.contains_key(s2),
        label_suffix_match(s2, s1),
        s1.len() < s2.len(),
        label_suffix_match(name, s2),
        forall|k: Seq<char>|
            #[trigger] cfg.suffixes.contains_key(k) && label_suffix_match(name, k) ==> k == s1
                || k == s2,
    ensures
        route_backend(cfg, name) == cfg.suffixes[s2],
{
    assert forall|k: Seq<char>|
        #[trigger] cfg.suffixes.contains_key(k) && label_suffix_match(name, k) implies k.len()
        <= s2.len() by {
        assert(k == s1 || k == s2);
    }
    lemma_route_found(cfg, name, s2);
}

/// Find the back-end for `name`: the exact name as a suffix key first, then
/// every shorter suffix at a label boundary, then the fallthrough.
pub fn get_suffix<'x>(cfg: &'x Config, name: &str) -> (r: &'x Backend)
    requires
        cfg.wf(),
        name@.len() < usize::MAX,
    ensures
        *r == route_backend(cfg@, name@),
{
    match cfg.find_suffix(name) {
        Some(b) => {
            proof {
                assert(label_suffix_match(name@, name@));
                assert forall|k2: Seq<char>|
                    #[trigger] cfg@.suffixes.contains_key(k2) && label_suffix_match(name@, k2)
                    implies k2.len() <= name@.len() by {}
                lemma_route_found(cfg@, name@, name@);
            }
            return b;
        },
        None => {},
    }
    let n = name.unicode_len();
    let mut i: usize = 0;
    while i < n
        invariant
            0 <= i <= n,
            n == name@.len(),
            n < usize::MAX,
            cfg.wf(),
            forall|k: Seq<char>|
                #[trigger] cfg@.suffixes.contains_key(k) && label_suffix_match(name@, k)
                    ==> k.len() < n - i,
        decreases n - i,
    {
        if name.get_char(i) == '.' {
            let tail = name.substring_char(i + 1, n);
            proof {
                assert(tail@ =~= name@.skip(i + 1 as int));
            }
            match cfg.find_suffix(tail) {
                Some(b) => {
                    proof {
                        assert(label_suffix_match(name@, tail@)) by {
                            assert(name@[n - tail@.len() - 1] == name@[i as int]);
                        }
                        assert forall|k2: Seq<char>|
                            #[trigger] cfg@.suffixes.contains_key(k2) && label_suffix_match(
                            name@, k2) implies k2.len() <= tail@.len() by {}
                        lemma_route_found(cfg@, name@, tail@);
                    }
                    return b;
                },
                None => {
                    proof {
                        assert forall|k: Seq<char>|
                            #[trigger] cfg@.suffixes.contains_key(k) && label_suffix_match(
                            name@, k) implies k.len() < n - (i + 1) by {
                            if k.len() == n - i - 1 {
                                lemma_match_determined(name@, k, tail@);
                            }
                        }
                    }
                },
            }
        } else {
            proof {
                assert forall|k: Seq<char>|
                    #[trigger] cfg@.suffixes.contains_key(k) && label_suffix_match(name@, k)
                    implies k.len() < n - (i + 1) by {
                    if k.len() == n - i - 1 {
                        assert(name@[n - k.len() - 1] == '.');
                    }
                }
            }
        }
        i = i + 1;
    }
    proof {
        if has_suffix_key(cfg@, name@) {
            let k = choose|k: Seq<char>| #[trigger] cfg@.suffixes.contains_key(k)
                && label_suffix_match(name@, k);
            assert(k.len() < 0);
        }
    }
    cfg.fallthrough()
}

/// A request as it sits in the engine's inbox.  The reply and subscription
/// channels live with the caller; the engine's answer is an
/// [`EngineAction`].
#[derive(Debug)]
pub enum Request {
    /// Resolve a host to a list of IPs.
    ResolveHost(Name),
    /// Resolve a host and pair each IP with the port.
    ResolveHostPort(Name, u16),
    /// Resolve a service to an endpoint set.
    Resolve(Name),
    /// Subscribe to a host.
    HostSubscribe(Name),
    /// Subscribe to a service.
    Subscribe(Name),
}

impl Request {
    /// The carried name is small enough to index.
    pub open spec fn wf(&self) -> bool {
        match *self {
            Request::ResolveHost(ref n) => n@.len() < usize::MAX,
            Request::ResolveHostPort(ref n, _) => n@.len() < usize::MAX,
            Request::Resolve(ref n) => n@.len() < usize::MAX,
            Request::HostSubscribe(ref n) => n@.len() < usize::MAX,
            Request::Subscribe(ref n) => n@.len() < usize::MAX,
        }
    }
}

/// What the engine decides to do with one request.
#[derive(Debug)]
pub enum EngineAction {
    /// Reply at once with a static host list.
    ReplyHosts(IpList),
    /// Reply at once with a static endpoint set.
    ReplyAddr(Address),
    /// Forward a host query to this back-end.
    DelegateResolveHost(Backend),
    /// Forward a host query to this back-end, then attach the port.
    DelegateResolveHostPort(Backend),
    /// Forward a service query to this back-end.
    DelegateResolve(Backend),
    /// Write this static host list into the subscription slot and keep a
    /// no-op task so a later configuration can re-route the subscription.
    StaticHostValue(IpList),
    /// Same for a static endpoint set.
    StaticAddrValue(Address),
    /// Hand the subscription slot to this back-end.
    DelegateHostSubscribe(Backend),
    /// Same for a service subscription.
    DelegateSubscribe(Backend),
}

/// Route one request under an installed configuration.
///
/// Law: a name present in the static `hosts` table resolves to exactly its
/// table value, and no back-end is consulted; symmetrically for `services`.
pub fn on_request(cfg: &Config, req: &Request) -> (a: EngineAction)
    requires
        cfg.wf(),
        req.wf(),
    ensures
        req matches Request::ResolveHost(n) ==> (if cfg@.hosts.contains_key(n@) {
            a matches EngineAction::ReplyHosts(v) && v@ == cfg@.hosts[n@]
        } else {
            a == EngineAction::DelegateResolveHost(route_backend(cfg@, n@))
        }),
        req matches Request::ResolveHostPort(n, p) ==> (if cfg@.hosts.contains_key(n@) {
            a matches EngineAction::ReplyAddr(v) && v@ == spec_with_port(cfg@.hosts[n@], *p)
        } else {
            a == EngineAction::DelegateResolveHostPort(route_backend(cfg@, n@))
        }),
        req matches Request::Resolve(n) ==> (if cfg@.services.contains_key(n@) {
            a matches EngineAction::ReplyAddr(v) && v@ == cfg@.services[n@]
        } else {
            a == EngineAction::DelegateResolve(route_backend(cfg@, n@))
        }),
        req matches Request::HostSubscribe(n) ==> (if cfg@.hosts.contains_key(n@) {
            a matches EngineAction::StaticHostValue(v) && v@ == cfg@.hosts[n@]
        } else {
            a == EngineAction::DelegateHostSubscribe(route_backend(cfg@, n@))
        }),
        req matches Request::Subscribe(n) ==> (if cfg@.services.contains_key(n@) {
            a matches EngineAction::StaticAddrValue(v) && v@ == cfg@.services[n@]
        } else {
            a == EngineAction::DelegateSubscribe(route_backend(cfg@, n@))
        }),
{
    match req {
        Request::ResolveHost(n) => match cfg.find_host(n) {
            Some(v) => EngineAction::ReplyHosts(v.duplicate()),
            None => EngineAction::DelegateResolveHost(*get_suffix(cfg, n.as_str())),
        },
        Request::ResolveHostPort(n, p) => match cfg.find_host(n) {
            Some(v) => EngineAction::ReplyAddr(v.with_port(*p)),
            None => EngineAction::DelegateResolveHostPort(*get_suffix(cfg, n.as_str())),
        },
        Request::Resolve(n) => match cfg.find_service(n) {
            Some(v) => EngineAction::ReplyAddr(v.duplicate()),
            None => EngineAction::DelegateResolve(*get_suffix(cfg, n.as_str())),
        },
        Request::HostSubscribe(n) => match cfg.find_host(n) {
            Some(v) => EngineAction::StaticHostValue(v.duplicate()),
            None => EngineAction::DelegateHostSubscribe(*get_suffix(cfg, n.as_str())),
        },
        Request::Subscribe(n) => match cfg.find_service(n) {
            Some(v) => EngineAction::StaticAddrValue(v.duplicate()),
            None => EngineAction::DelegateSubscribe(*get_suffix(cfg, n.as_str())),
        },
    }
}

impl NullResolver {
    /// A one-shot host query against the null back-end.
    pub fn resolve_host(&self) -> (r: Result<IpList, Error>)
        ensures
            r matches Err(e) && e@ == ErrorView::NameNotFound,
    {
        Err(Error::NameNotFound)
    }

    /// A one-shot host-and-port query against the null back-end.
    pub fn resolve_host_port(&self) -> (r: Result<Address, Error>)
        ensures
            r matches Err(e) && e@ == ErrorView::NameNotFound,
    {
        Err(Error::NameNotFound)
    }

    /// A one-shot service query against the null back-end.
    pub fn resolve(&self) -> (r: Result<Address, Error>)
        ensures
            r matches Err(e) && e@ == ErrorView::NameNotFound,
    {
        Err(Error::NameNotFound)
    }
}

/// What a finished engine task reports.
#[derive(Debug)]
pub enum TaskOutcome {
    /// The task is finished; nothing to do.
    Done,
    /// The engine must terminate.
    Stop,
    /// A new configuration arrived.
    UpdateConfig(Config),
    /// A subscription task wants to be re-routed now.
    Restart,
    /// A subscription task wants to be re-routed after the restart delay.
    DelayRestart,
}

/// What the engine does in response to a task outcome.
#[derive(Debug, PartialEq, Eq, Structural)]
pub enum EngineStep {
    /// Keep polling.
    Continue,
    /// The engine terminates; consumers observe end-of-stream.
    Terminate,
    /// The new configuration is installed: signal the update notifier to
    /// every subscription task and schedule the next configuration read.
    ConfigInstalled,
    /// Run the task's `restart` under the current configuration.
    RunRestart,
    /// Produce a `Restart` after this many milliseconds.
    ScheduleRestart(u64),
}

/// The engine's own state: the configuration it currently owns.
#[derive(Debug)]
pub struct Engine {
    current: Option<Config>,
}

impl Engine {
    /// The held configuration is well formed.
    pub open spec fn wf(&self) -> bool {
        self.config_spec() matches Some(c) ==> c.wf()
    }

    /// The current configuration.
    pub closed spec fn config_spec(&self) -> Option<Config> {
        self.current
    }

    /// A fresh engine: no configuration yet, every request waits.
    pub fn new() -> (r: Engine)
        ensures
            r.config_spec() is None,
            r.wf(),
    {
        Engine { current: None }
    }

    /// The current configuration, if one has arrived.
    pub fn config(&self) -> (r: &Option<Config>)
        ensures
            *r == self.config_spec(),
    {
        &self.current
    }

    /// Apply one task outcome.
    pub fn on_task_outcome(&mut self, oc: TaskOutcome) -> (s: EngineStep)
        requires
            old(self).wf(),
            oc matches TaskOutcome::UpdateConfig(c) ==> c.wf(),
            oc matches TaskOutcome::DelayRestart ==> old(self).config_spec() is Some,
        ensures
            final(self).wf(),
            oc matches TaskOutcome::Done ==> s == EngineStep::Continue
                && final(self).config_spec() == old(self).config_spec(),
            oc matches TaskOutcome::Stop ==> s == EngineStep::Terminate
                && final(self).config_spec() == old(self).config_spec(),
            oc matches TaskOutcome::UpdateConfig(c) ==> s == EngineStep::ConfigInstalled
                && final(self).config_spec() == Some(c),
            oc matches TaskOutcome::Restart ==> s == EngineStep::RunRestart
                && final(self).config_spec() == old(self).config_spec(),
            oc matches TaskOutcome::DelayRestart ==> final(self).config_spec()
                == old(self).config_spec() && s == EngineStep::ScheduleRestart(
                old(self).config_spec()->Some_0@.restart_delay_ms),
    {
        match oc {
            TaskOutcome::Done => EngineStep::Continue,
            TaskOutcome::Stop => EngineStep::Terminate,
            TaskOutcome::UpdateConfig(c) => {
                self.current = Some(c);
                EngineStep::ConfigInstalled
            },
            TaskOutcome::Restart => EngineStep::RunRestart,
            TaskOutcome::DelayRestart => {
                let delay = match &self.current {
                    Some(c) => c.restart_delay_ms(),
                    None => 0,
                };
                EngineStep::ScheduleRestart(delay)
            },
        }
    }
}

impl Engine {
    /// The engine's second termination rule: once the request inbox has
    /// ended and no task remains in flight, there is nothing left to wait
    /// for and the engine terminates; otherwise it keeps polling.
    pub fn on_idle(&self, inbox_ended: bool, tasks_remaining: bool) -> (s: EngineStep)
        ensures
            inbox_ended && !tasks_remaining ==> s == EngineStep::Terminate,
            !(inbox_ended && !tasks_remaining) ==> s == EngineStep::Continue,
    {
        if inbox_ended && !tasks_remaining {
            EngineStep::Terminate
        } else {
            EngineStep::Continue
        }
    }
}

/// Turn one read of the configuration stream into a task outcome: a new
/// snapshot installs it, end-of-stream stops the engine.
pub fn on_config_event(ev: Option<Config>) -> (oc: TaskOutcome)
    ensures
        ev matches Some(c) ==> oc == TaskOutcome::UpdateConfig(c),
        ev is None ==> oc == TaskOutcome::Stop,
{
    match ev {
        Some(c) => TaskOutcome::UpdateConfig(c),
        None => TaskOutcome::Stop,
    }
}

} // verus!
