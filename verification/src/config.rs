//! Configuration snapshots: static tables, suffix routing, timing knobs.

use vstd::prelude::*;
use vstd::pervasive::VecAdditionalExecFns;

use crate::addr::{Address, Ip, IpList, SockAddr};
use crate::name::{str_eq, Name};
use crate::table::{assoc_map, keys_unique, lemma_assoc_map_get, lemma_assoc_map_mem};

verus! {

/// A handle to a back-end, with the capabilities it offers.
///
/// Two handles with the same identity stand for the same back-end instance;
/// the identity is what a subscription compares to notice that its back-end
/// was replaced by a configuration swap.
#[derive(Clone, Copy, Debug, PartialEq, Eq, Hash, Structural)]
pub struct Backend {
    /// Identity of the back-end instance.
    pub id: u64,
    /// Offers one-shot host resolution.
    pub can_resolve_host: bool,
    /// Offers one-shot service resolution.
    pub can_resolve: bool,
    /// Offers host subscriptions.
    pub can_host_subscribe: bool,
    /// Offers service subscriptions.
    pub can_subscribe: bool,
}

impl View for Backend {
    type V = Backend;

    open spec fn view(&self) -> Backend {
        *self
    }
}

/// The back-end that answers nothing: one-shot queries fail with
/// `NameNotFound`, subscriptions park until the next configuration.
#[derive(Debug)]
pub struct NullResolver;

impl NullResolver {
    /// The handle of the null back-end: no capability at all.
    pub fn backend() -> (r: Backend)
        ensures
            r == Backend::null(),
    {
        Backend {
            id: 0,
            can_resolve_host: false,
            can_resolve: false,
            can_host_subscribe: false,
            can_subscribe: false,
        }
    }
}

impl Backend {
    /// The handle of the null back-end.
    pub open spec fn null() -> Backend {
        Backend {
            id: 0,
            can_resolve_host: false,
            can_resolve: false,
            can_host_subscribe: false,
            can_subscribe: false,
        }
    }

    /// A full back-end under the given identity.
    pub fn full(id: u64) -> (r: Backend)
        ensures
            r.id == id,
            r.can_resolve_host && r.can_resolve && r.can_host_subscribe && r.can_subscribe,
    {
        Backend {
            id,
            can_resolve_host: true,
            can_resolve: true,
            can_host_subscribe: true,
            can_subscribe: true,
        }
    }
}

/// The ghost value of a [`Config`].
pub struct ConfigView {
    /// Delay before a failed or ended subscription is retried, milliseconds.
    pub restart_delay_ms: u64,
    /// Delay a multi-name subscription waits for all names, milliseconds.
    pub convergence_delay_ms: u64,
    /// Static host table.
    pub hosts: Map<Seq<char>, Seq<Ip>>,
    /// Static service table.
    pub services: Map<Seq<char>, Seq<SockAddr>>,
    /// Suffix routing table.
    pub suffixes: Map<Seq<char>, Backend>,
    /// Back-end used when no suffix matches.
    pub root: Backend,
}

/// An immutable routing configuration, built once and then installed.
///
/// Static `hosts` and `services` win over any back-end; `suffixes` routes by
/// longest matching suffix at label boundaries; `root` is the fallthrough.
#[derive(Debug)]
pub struct Config {
    restart_delay_ms: u64,
    convergence_delay_ms: u64,
    hosts: Vec<(Name, IpList)>,
    services: Vec<(Name, Address)>,
    suffixes: Vec<(String, Backend)>,
    root: Backend,
}

impl View for Config {
    type V = ConfigView;

    closed spec fn view(&self) -> ConfigView {
        ConfigView {
            restart_delay_ms: self.restart_delay_ms,
            convergence_delay_ms: self.convergence_delay_ms,
            hosts: assoc_map(self.hosts@),
            services: assoc_map(self.services@),
            suffixes: assoc_map(self.suffixes@),
            root: self.root,
        }
    }
}

impl Config {
    /// The tables hold each key at most once.
    pub closed spec fn wf(&self) -> bool {
        keys_unique(self.hosts@) && keys_unique(self.services@) && keys_unique(self.suffixes@)
    }

    /// A new, empty configuration: both delays 100 ms, no tables, null
    /// fallthrough.
    pub fn new() -> (r: Config)
        ensures
            r.wf(),
            r@.restart_delay_ms == 100,
            r@.convergence_delay_ms == 100,
            r@.hosts == Map::<Seq<char>, Seq<Ip>>::empty(),
            r@.services == Map::<Seq<char>, Seq<SockAddr>>::empty(),
            r@.suffixes == Map::<Seq<char>, Backend>::empty(),
            r@.root == Backend::null(),
    {
        Config {
            restart_delay_ms: 100,
            convergence_delay_ms: 100,
            hosts: Vec::new(),
            services: Vec::new(),
            suffixes: Vec::new(),
            root: NullResolver::backend(),
        }
    }

    /// Set the delay before restarting an ended or failed subscription.
    pub fn restart_delay(&mut self, delay_ms: u64)
        ensures
            final(self)@ == (ConfigView { restart_delay_ms: delay_ms, ..old(self)@ }),
            final(self).wf() == old(self).wf(),
    {
        self.restart_delay_ms = delay_ms;
    }

    /// Set the delay a multi-name subscription waits before a partial union.
    pub fn convergence_delay(&mut self, delay_ms: u64)
        ensures
            final(self)@ == (ConfigView { convergence_delay_ms: delay_ms, ..old(self)@ }),
            final(self).wf() == old(self).wf(),
    {
        self.convergence_delay_ms = delay_ms;
    }

    /// Add a static host entry; it overrides any back-end.
    pub fn add_host(&mut self, name: &Name, addr: IpList)
        requires
            old(self).wf(),
        ensures
            final(self).wf(),
            final(self)@ == (ConfigView {
                hosts: old(self)@.hosts.insert(name@, addr@),
                ..old(self)@
            }),
    {
        let ghost s1 = self.hosts@;
        let mut i: usize = 0;
        while i < self.hosts.len()
            invariant
                0 <= i <= self.hosts@.len(),
                *self == *old(self),
                old(self).wf(),
                s1 == self.hosts@,
                keys_unique(s1),
                forall|j: int| 0 <= j < i ==> (#[trigger] s1[j]).0@ != name@,
            decreases self.hosts.len() - i,
        {
            if self.hosts[i].0.same_as(name) {
                self.hosts.set(i, (name.clone(), addr));
                proof {
                    lemma_insert_at(s1, self.hosts@, i as int, name@);
                }
                return;
            }
            i = i + 1;
        }
        self.hosts.push((name.clone(), addr));
        proof {
            assert(self.hosts@.drop_last() =~= s1);
        }
    }

    /// Add a static service entry; it overrides any back-end.
    pub fn add_service(&mut self, name: &Name, addr: Address)
        requires
            old(self).wf(),
        ensures
            final(self).wf(),
            final(self)@ == (ConfigView {
                services: old(self)@.services.insert(name@, addr@),
                ..old(self)@
            }),
    {
        let ghost s1 = self.services@;
        let mut i: usize = 0;
        while i < self.services.len()
            invariant
                0 <= i <= self.services@.len(),
                *self == *old(self),
                old(self).wf(),
                s1 == self.services@,
                keys_unique(s1),
                forall|j: int| 0 <= j < i ==> (#[trigger] s1[j]).0@ != name@,
            decreases self.services.len() - i,
        {
            if self.services[i].0.same_as(name) {
                self.services.set(i, (name.clone(), addr));
                proof {
                    lemma_insert_at(s1, self.services@, i as int, name@);
                }
                return;
            }
            i = i + 1;
        }
        self.services.push((name.clone(), addr));
        proof {
            assert(self.services@.drop_last() =~= s1);
        }
    }

    /// Bind a suffix to a back-end.
    pub fn add_suffix(&mut self, suffix: &str, backend: Backend)
        requires
            old(self).wf(),
        ensures
            final(self).wf(),
            final(self)@ == (ConfigView {
                suffixes: old(self)@.suffixes.insert(suffix@, backend),
                ..old(self)@
            }),
    {
        let ghost s1 = self.suffixes@;
        let mut i: usize = 0;
        while i < self.suffixes.len()
            invariant
                0 <= i <= self.suffixes@.len(),
                *self == *old(self),
                old(self).wf(),
                s1 == self.suffixes@,
                keys_unique(s1),
                forall|j: int| 0 <= j < i ==> (#[trigger] s1[j]).0@ != suffix@,
            decreases self.suffixes.len() - i,
        {
            if str_eq(self.suffixes[i].0.as_str(), suffix) {
                self.suffixes.set(i, (suffix.to_owned(), backend));
                proof {
                    lemma_insert_at(s1, self.suffixes@, i as int, suffix@);
                }
                return;
            }
            i = i + 1;
        }
        self.suffixes.push((suffix.to_owned(), backend));
        proof {
            assert(self.suffixes@.drop_last() =~= s1);
        }
    }

    /// Remove a suffix binding, if present.
    pub fn remove_suffix(&mut self, suffix: &str)
        requires
            old(self).wf(),
        ensures
            final(self).wf(),
            final(self)@ == (ConfigView {
                suffixes: old(self)@.suffixes.remove(suffix@),
                ..old(self)@
            }),
    {
        let ghost s1 = self.suffixes@;
        let mut i: usize = 0;
        while i < self.suffixes.len()
            invariant
                0 <= i <= self.suffixes@.len(),
                *self == *old(self),
                old(self).wf(),
                s1 == self.suffixes@,
                keys_unique(s1),
                forall|j: int| 0 <= j < i ==> (#[trigger] s1[j]).0@ != suffix@,
            decreases self.suffixes.len() - i,
        {
            if str_eq(self.suffixes[i].0.as_str(), suffix) {
                self.suffixes.remove(i);
                proof {
                    lemma_remove_at(s1, self.suffixes@, i as int, suffix@);
                }
                return;
            }
            i = i + 1;
        }
        proof {
            lemma_assoc_map_mem::<String, Backend>(s1, suffix@);
            assert(!assoc_map(s1).contains_key(suffix@));
            assert(assoc_map(s1).remove(suffix@) =~= assoc_map(s1));
        }
    }

    /// Set the back-end used whenever no suffix matches.
    pub fn set_fallthrough(&mut self, backend: Backend)
        ensures
            final(self)@ == (ConfigView { root: backend, ..old(self)@ }),
            final(self).wf() == old(self).wf(),
    {
        self.root = backend;
    }

    /// A copy of this configuration, to be installed as a snapshot.
    pub fn done(&self) -> (r: Config)
        requires
            self.wf(),
        ensures
            r.wf(),
            r@ == self@,
    {
        self.duplicate()
    }

    /// Look up a static host entry.
    pub fn find_host<'a>(&'a self, name: &Name) -> (r: Option<&'a IpList>)
        requires
            self.wf(),
        ensures
            r matches Some(v) ==> self@.hosts.contains_key(name@) && self@.hosts[name@] == v@,
            r is None ==> !self@.hosts.contains_key(name@),
    {
        let mut i: usize = 0;
        while i < self.hosts.len()
            invariant
                0 <= i <= self.hosts@.len(),
                keys_unique(self.hosts@),
                forall|j: int| 0 <= j < i ==> (#[trigger] self.hosts@[j]).0@ != name@,
            decreases self.hosts.len() - i,
        {
            if self.hosts[i].0.same_as(name) {
                proof {
                    lemma_assoc_map_get(self.hosts@, i as int);
                }
                return Some(&self.hosts[i].1);
            }
            i = i + 1;
        }
        proof {
            lemma_assoc_map_mem::<Name, IpList>(self.hosts@, name@);
        }
        None
    }

    /// Look up a static service entry.
    pub fn find_service<'a>(&'a self, name: &Name) -> (r: Option<&'a Address>)
        requires
            self.wf(),
        ensures
            r matches Some(v) ==> self@.services.contains_key(name@) && self@.services[name@]
                == v@,
            r is None ==> !self@.services.contains_key(name@),
    {
        let mut i: usize = 0;
        while i < self.services.len()
            invariant
                0 <= i <= self.services@.len(),
                keys_unique(self.services@),
                forall|j: int| 0 <= j < i ==> (#[trigger] self.services@[j]).0@ != name@,
            decreases self.services.len() - i,
        {
            if self.services[i].0.same_as(name) {
                proof {
                    lemma_assoc_map_get(self.services@, i as int);
                }
                return Some(&self.services[i].1);
            }
            i = i + 1;
        }
        proof {
            lemma_assoc_map_mem::<Name, Address>(self.services@, name@);
        }
        None
    }

    /// Look up a suffix binding by exact key.
    pub fn find_suffix<'a>(&'a self, suffix: &str) -> (r: Option<&'a Backend>)
        requires
            self.wf(),
        ensures
            r matches Some(b) ==> self@.suffixes.contains_key(suffix@) && self@.suffixes[suffix@]
                == *b,
            r is None ==> !self@.suffixes.contains_key(suffix@),
    {
        let mut i: usize = 0;
        while i < self.suffixes.len()
            invariant
                0 <= i <= self.suffixes@.len(),
                keys_unique(self.suffixes@),
                forall|j: int| 0 <= j < i ==> (#[trigger] self.suffixes@[j]).0@ != suffix@,
            decreases self.suffixes.len() - i,
        {
            if str_eq(self.suffixes[i].0.as_str(), suffix) {
                proof {
                    lemma_assoc_map_get(self.suffixes@, i as int);
                }
                return Some(&self.suffixes[i].1);
            }
            i = i + 1;
        }
        proof {
            lemma_assoc_map_mem::<String, Backend>(self.suffixes@, suffix@);
        }
        None
    }

    /// The fallthrough back-end.
    pub fn fallthrough(&self) -> (r: &Backend)
        ensures
            *r == self@.root,
    {
        &self.root
    }

    /// The restart delay in milliseconds.
    pub fn restart_delay_ms(&self) -> (r: u64)
        ensures
            r == self@.restart_delay_ms,
    {
        self.restart_delay_ms
    }

    /// The convergence delay in milliseconds.
    pub fn convergence_delay_ms(&self) -> (r: u64)
        ensures
            r == self@.convergence_delay_ms,
    {
        self.convergence_delay_ms
    }

    fn duplicate(&self) -> (r: Config)
        ensures
            r.wf() == self.wf(),
            r@ == self@,
    {
        let mut hosts: Vec<(Name, IpList)> = Vec::new();
        let mut i: usize = 0;
        while i < self.hosts.len()
            invariant
                0 <= i <= self.hosts@.len(),
                hosts@.len() == i,
                forall|j: int|
                    0 <= j < i ==> (#[trigger] hosts@[j]).0@ == self.hosts@[j].0@ && hosts@[j].1@
                        == self.hosts@[j].1@,
            decreases self.hosts.len() - i,
        {
            hosts.push((self.hosts[i].0.clone(), self.hosts[i].1.duplicate()));
            i = i + 1;
        }
        let mut services: Vec<(Name, Address)> = Vec::new();
        let mut k: usize = 0;
        while k < self.services.len()
            invariant
                0 <= k <= self.services@.len(),
                services@.len() == k,
                forall|j: int|
                    0 <= j < k ==> (#[trigger] services@[j]).0@ == self.services@[j].0@
                        && services@[j].1@ == self.services@[j].1@,
            decreases self.services.len() - k,
        {
            services.push((self.services[k].0.clone(), self.services[k].1.duplicate()));
            k = k + 1;
        }
        let mut suffixes: Vec<(String, Backend)> = Vec::new();
        let mut m: usize = 0;
        while m < self.suffixes.len()
            invariant
                0 <= m <= self.suffixes@.len(),
                suffixes@.len() == m,
                forall|j: int|
                    0 <= j < m ==> (#[trigger] suffixes@[j]).0@ == self.suffixes@[j].0@
                        && suffixes@[j].1@ == self.suffixes@[j].1@,
            decreases self.suffixes.len() - m,
        {
            suffixes.push((self.suffixes[m].0.clone(), self.suffixes[m].1));
            m = m + 1;
        }
        proof {
            lemma_assoc_map_congruence(hosts@, self.hosts@);
            lemma_assoc_map_congruence(services@, self.services@);
            lemma_assoc_map_congruence(suffixes@, self.suffixes@);
        }
        Config {
            restart_delay_ms: self.restart_delay_ms,
            convergence_delay_ms: self.convergence_delay_ms,
            hosts,
            services,
            suffixes,
            root: self.root,
        }
    }
}

impl Clone for Config {
    fn clone(&self) -> (r: Config)
        ensures
            r.wf() == self.wf(),
            r@ == self@,
    {
        self.duplicate()
    }
}

/// Replacing the value at the one index carrying a key inserts into the map.
proof fn lemma_insert_at<K: View, V: View>(s1: Seq<(K, V)>, s2: Seq<(K, V)>, i: int, key: K::V)
    requires
        keys_unique(s1),
        0 <= i < s1.len(),
        s2.len() == s1.len(),
        s1[i].0@ == key,
        s2[i].0@ == key,
        forall|j: int| 0 <= j < s1.len() && j != i ==> s2[j] == s1[j],
    ensures
        keys_unique(s2),
        assoc_map(s2) == assoc_map(s1).insert(key, s2[i].1@),
{
    assert(keys_unique(s2)) by {
        assert(forall|a: int| 0 <= a < s2.len() ==> (#[trigger] s2[a]).0@ == s1[a].0@);
    }
    assert forall|k: <K as View>::V| #![auto]
        assoc_map(s2).contains_key(k) == assoc_map(s1).insert(key, s2[i].1@).contains_key(k) by {
        lemma_assoc_map_mem(s1, k);
        lemma_assoc_map_mem(s2, k);
        assert(forall|a: int| 0 <= a < s2.len() ==> (#[trigger] s2[a]).0@ == s1[a].0@);
    }
    assert forall|k: <K as View>::V| #![auto]
        assoc_map(s2).contains_key(k) implies assoc_map(s2)[k] == assoc_map(s1).insert(
        key,
        s2[i].1@,
    )[k] by {
        lemma_assoc_map_mem(s2, k);
        let a = choose|a: int| 0 <= a < s2.len() && (#[trigger] s2[a]).0@ == k;
        lemma_assoc_map_get(s2, a);
        if k == key {
            assert(a == i) by {
                if a != i {
                    assert(s1[a].0@ == k);
                }
            }
        } else {
            assert(a != i);
            lemma_assoc_map_get(s1, a);
        }
    }
    assert(assoc_map(s2) =~= assoc_map(s1).insert(key, s2[i].1@));
}

/// Removing the one index carrying a key removes it from the map.
proof fn lemma_remove_at<K: View, V: View>(s1: Seq<(K, V)>, s2: Seq<(K, V)>, i: int, key: K::V)
    requires
        keys_unique(s1),
        0 <= i < s1.len(),
        s1[i].0@ == key,
        s2 == s1.remove(i),
    ensures
        keys_unique(s2),
        assoc_map(s2) == assoc_map(s1).remove(key),
{
    assert(s2.len() == s1.len() - 1);
    assert(forall|j: int| 0 <= j < i ==> #[trigger] s2[j] == s1[j]);
    assert(forall|j: int| i <= j < s2.len() ==> #[trigger] s2[j] == s1[j + 1]);
    assert(keys_unique(s2)) by {
        assert forall|a: int, b: int| 0 <= a < b < s2.len() implies (#[trigger] s2[a]).0@ != (
        #[trigger] s2[b]).0@ by {
            let a1 = if a < i { a } else { a + 1 };
            let b1 = if b < i { b } else { b + 1 };
            assert(s2[a] == s1[a1]);
            assert(s2[b] == s1[b1]);
        }
    }
    assert forall|k: <K as View>::V| #![auto]
        assoc_map(s2).contains_key(k) == assoc_map(s1).remove(key).contains_key(k) by {
        lemma_assoc_map_mem(s1, k);
        lemma_assoc_map_mem(s2, k);
        if k == key {
            if assoc_map(s2).contains_key(k) {
                let a = choose|a: int| 0 <= a < s2.len() && (#[trigger] s2[a]).0@ == k;
                let a1 = if a < i { a } else { a + 1 };
                assert(s1[a1].0@ == k);
                assert(a1 != i ==> false);
            }
        } else {
            if assoc_map(s1).contains_key(k) {
                let a = choose|a: int| 0 <= a < s1.len() && (#[trigger] s1[a]).0@ == k;
                assert(a != i);
                let a2 = if a < i { a } else { a - 1 };
                assert(s2[a2].0@ == k);
            }
            if assoc_map(s2).contains_key(k) {
                let a = choose|a: int| 0 <= a < s2.len() && (#[trigger] s2[a]).0@ == k;
                let a1 = if a < i { a } else { a + 1 };
                assert(s1[a1].0@ == k);
            }
        }
    }
    assert forall|k: <K as View>::V| #![auto]
        assoc_map(s2).contains_key(k) implies assoc_map(s2)[k] == assoc_map(s1).remove(key)[k] by {
        lemma_assoc_map_mem(s2, k);
        let a = choose|a: int| 0 <= a < s2.len() && (#[trigger] s2[a]).0@ == k;
        lemma_assoc_map_get(s2, a);
        let a1 = if a < i { a } else { a + 1 };
        assert(s2[a] == s1[a1]);
        lemma_assoc_map_get(s1, a1);
        assert(k != key) by {
            if a1 != i {
                assert(s1[a1].0@ != s1[i].0@);
            }
        }
    }
    assert(assoc_map(s2) =~= assoc_map(s1).remove(key));
}

/// Entry-wise equal views give equal maps.
proof fn lemma_assoc_map_congruence<K: View, V: View>(s1: Seq<(K, V)>, s2: Seq<(K, V)>)
    requires
        s1.len() == s2.len(),
        forall|j: int|
            0 <= j < s1.len() ==> (#[trigger] s1[j]).0@ == s2[j].0@ && s1[j].1@ == s2[j].1@,
    ensures
        assoc_map(s1) == assoc_map(s2),
        keys_unique(s1) == keys_unique(s2),
    decreases s1.len(),
{
    if s1.len() > 0 {
        lemma_assoc_map_congruence(s1.drop_last(), s2.drop_last());
        assert(s1.last().0@ == s2.last().0@ && s1.last().1@ == s2.last().1@) by {
            assert(s1[s1.len() - 1].0@ == s2[s1.len() - 1].0@);
            assert(s1[s1.len() - 1].1@ == s2[s1.len() - 1].1@);
        }
    }
    assert(keys_unique(s1) == keys_unique(s2)) by {
        if keys_unique(s1) {
            assert forall|a: int, b: int| 0 <= a < b < s2.len() implies (#[trigger] s2[a]).0@ != (
            #[trigger] s2[b]).0@ by {
                assert(s1[a].0@ != s1[b].0@);
            }
        }
        if keys_unique(s2) {
            assert forall|a: int, b: int| 0 <= a < b < s1.len() implies (#[trigger] s1[a]).0@ != (
            #[trigger] s1[b]).0@ by {
                assert(s2[a].0@ != s2[b].0@);
            }
        }
    }
}

/// A cell holding the engine's current configuration once one has arrived.
#[derive(Debug)]
pub struct ConfigCell {
    current: Option<Config>,
}

impl ConfigCell {
    /// An empty cell: no configuration yet.
    pub fn new() -> (r: ConfigCell)
        ensures
            r.get_spec() is None,
    {
        ConfigCell { current: None }
    }

    /// The held configuration, if any.
    pub closed spec fn get_spec(&self) -> Option<Config> {
        self.current
    }

    /// Install a configuration, replacing any earlier one.
    pub fn put(&mut self, cfg: Config)
        ensures
            final(self).get_spec() == Some(cfg),
    {
        self.current = Some(cfg);
    }

    /// Read the held configuration.
    pub fn get(&self) -> (r: &Option<Config>)
        ensures
            *r == self.get_spec(),
    {
        &self.current
    }
}

} // verus!
