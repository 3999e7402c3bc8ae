//! The multi-name subscriber: aggregates a changing set of names into one
//! unioned endpoint set, delivered through a single consumer slot and gated
//! by the convergence delay.

use vstd::prelude::*;

use crate::addr::{spec_with_port, Address, Ip, IpList, SockAddr};
use crate::config::{Config, ConfigView};
use crate::engine::route_backend;
use crate::fuse::Poll;
use crate::name::{InternalName, InternalNameView, Name};
use crate::slot::Slot;
use crate::subscr::TaskResult;

verus! {

/// The state of one watched name.
#[derive(Debug)]
pub enum State {
    /// Answered by the static host table; always complete.
    StaticHost(IpList, u16),
    /// Answered by the static service table; always complete.
    StaticAddr(Address),
    /// Watched through a host subscription; complete once a value arrived.
    Host(Option<IpList>, u16),
    /// Watched through a service subscription; complete once a value
    /// arrived.
    Addr(Option<Address>),
}

/// The ghost value of a [`State`].
pub enum StateView {
    StaticHost(Seq<Ip>, u16),
    StaticAddr(Seq<SockAddr>),
    Host(Option<Seq<Ip>>, u16),
    Addr(Option<Seq<SockAddr>>),
}

impl View for State {
    type V = StateView;

    open spec fn view(&self) -> StateView {
        match *self {
            State::StaticHost(ref l, p) => StateView::StaticHost(l@, p),
            State::StaticAddr(ref a) => StateView::StaticAddr(a@),
            State::Host(ref v, p) => StateView::Host(
                match *v {
                    Some(ref l) => Some(l@),
                    None => None,
                },
                p,
            ),
            State::Addr(ref v) => StateView::Addr(
                match *v {
                    Some(ref a) => Some(a@),
                    None => None,
                },
            ),
        }
    }
}

/// The endpoint set an entry contributes, if it is complete.
pub open spec fn view_addr(sv: StateView) -> Option<Seq<SockAddr>> {
    match sv {
        StateView::StaticHost(l, p) => Some(spec_with_port(l, p)),
        StateView::StaticAddr(a) => Some(a),
        StateView::Host(Some(l), p) => Some(spec_with_port(l, p)),
        StateView::Host(None, _) => None,
        StateView::Addr(Some(a)) => Some(a),
        StateView::Addr(None) => None,
    }
}

/// Whether an entry comes from a static table.
pub open spec fn view_is_static(sv: StateView) -> bool {
    match sv {
        StateView::StaticHost(_, _) => true,
        StateView::StaticAddr(_) => true,
        StateView::Host(_, _) => false,
        StateView::Addr(_) => false,
    }
}

impl State {
    /// The endpoint set this entry contributes, if complete.
    pub fn addr(&self) -> (r: Option<Address>)
        ensures
            r is Some <==> view_addr(self@) is Some,
            r matches Some(a) ==> Some(a@) == view_addr(self@),
    {
        match self {
            State::StaticHost(l, p) => Some(l.with_port(*p)),
            State::StaticAddr(a) => Some(a.duplicate()),
            State::Host(Some(l), p) => Some(l.with_port(*p)),
            State::Host(None, _) => None,
            State::Addr(Some(a)) => Some(a.duplicate()),
            State::Addr(None) => None,
        }
    }

    /// Whether this entry comes from a static table.
    pub fn is_static(&self) -> (r: bool)
        ensures
            r == view_is_static(self@),
    {
        match self {
            State::StaticHost(_, _) => true,
            State::StaticAddr(_) => true,
            State::Host(_, _) => false,
            State::Addr(_) => false,
        }
    }

    /// Whether a value has been observed at least once.
    pub fn is_complete(&self) -> (r: bool)
        ensures
            r == (view_addr(self@) is Some),
    {
        match self {
            State::StaticHost(_, _) => true,
            State::StaticAddr(_) => true,
            State::Host(Some(_), _) => true,
            State::Host(None, _) => false,
            State::Addr(Some(_)) => true,
            State::Addr(None) => false,
        }
    }
}

/// A subscription the engine must open for a freshly classified entry.
#[derive(Debug)]
pub enum SubscribeOp {
    /// Open a host subscription for this name on this back-end; the port is
    /// the one the owning entry attaches to the resolved hosts.
    HostSub(Name, u16, crate::config::Backend),
    /// Open a service subscription for this name on this back-end.
    AddrSub(Name, crate::config::Backend),
}

/// The ghost value of a [`SubscribeOp`].
pub enum SubscribeOpView {
    HostSub(Seq<char>, u16, crate::config::Backend),
    AddrSub(Seq<char>, crate::config::Backend),
}

impl View for SubscribeOp {
    type V = SubscribeOpView;

    open spec fn view(&self) -> SubscribeOpView {
        match *self {
            SubscribeOp::HostSub(ref n, p, b) => SubscribeOpView::HostSub(n@, p, b),
            SubscribeOp::AddrSub(ref n, b) => SubscribeOpView::AddrSub(n@, b),
        }
    }
}

/// A value observed on one entry's watch slot.
#[derive(Debug)]
pub enum EntryValue {
    /// A host list arrived for this entry.
    Hosts(IpList),
    /// An endpoint set arrived for this entry.
    Addrs(Address),
}

/// The ghost value of an [`EntryValue`].
pub enum EntryValueView {
    Hosts(Seq<Ip>),
    Addrs(Seq<SockAddr>),
}

impl View for EntryValue {
    type V = EntryValueView;

    open spec fn view(&self) -> EntryValueView {
        match *self {
            EntryValue::Hosts(ref l) => EntryValueView::Hosts(l@),
            EntryValue::Addrs(ref a) => EntryValueView::Addrs(a@),
        }
    }
}

/// The items of a multi-name subscriber, at the ghost level.
pub type ItemsView = Seq<(InternalNameView, StateView)>;

/// The ghost value of an entry list.
pub open spec fn entries_view(s: Seq<(InternalName, State)>) -> ItemsView {
    s.map_values(|pr: (InternalName, State)| (pr.0@, pr.1@))
}

/// No two entries watch the same name.
pub open spec fn items_unique(s: ItemsView) -> bool {
    forall|i: int, j: int| 0 <= i < j < s.len() ==> (#[trigger] s[i]).0 != (#[trigger] s[j]).0
}

/// Some entry watches this name.
pub open spec fn items_has_key(s: ItemsView, k: InternalNameView) -> bool {
    exists|j: int| 0 <= j < s.len() && (#[trigger] s[j]).0 == k
}

/// The state of the entry watching this name.
pub open spec fn items_get(s: ItemsView, k: InternalNameView) -> StateView {
    s[choose|j: int| 0 <= j < s.len() && (#[trigger] s[j]).0 == k].1
}

/// With unique keys, the entry found at an index is the entry of its name.
pub proof fn lemma_items_get(s: ItemsView, j: int)
    requires
        items_unique(s),
        0 <= j < s.len(),
    ensures
        items_has_key(s, s[j].0),
        items_get(s, s[j].0) == s[j].1,
{
    assert(items_has_key(s, s[j].0));
    let j2 = choose|j2: int| 0 <= j2 < s.len() && (#[trigger] s[j2]).0 == s[j].0;
    assert(j2 == j);
}

/// Every entry is complete.
pub open spec fn all_complete(s: ItemsView) -> bool {
    forall|j: int| 0 <= j < s.len() ==> view_addr((#[trigger] s[j]).1) is Some
}

/// The union of the endpoint sets of the complete entries, in entry order.
pub open spec fn union_view(s: ItemsView) -> Seq<SockAddr>
    decreases s.len(),
{
    if s.len() == 0 {
        Seq::empty()
    } else {
        union_view(s.drop_last()) + (match view_addr(s.last().1) {
            Some(a) => a,
            None => Seq::empty(),
        })
    }
}

/// How a name is classified from scratch against a configuration: static
/// tables first, then a watch on the suffix back-end if it offers the
/// capability, a literal address as an always-complete entry, and otherwise
/// no entry at all (the name is retried on the next configuration).
pub open spec fn classify_fresh(n: InternalNameView, cfg: ConfigView) -> Option<StateView> {
    match n {
        InternalNameView::HostPort(h, p) => if cfg.hosts.contains_key(h) {
            Some(StateView::StaticHost(cfg.hosts[h], p))
        } else if route_backend(cfg, h).can_host_subscribe {
            Some(StateView::Host(None, p))
        } else {
            None
        },
        InternalNameView::Service(s) => if cfg.services.contains_key(s) {
            Some(StateView::StaticAddr(cfg.services[s]))
        } else if route_backend(cfg, s).can_subscribe {
            Some(StateView::Addr(None))
        } else {
            None
        },
        InternalNameView::Addr(sa) => Some(StateView::StaticAddr(seq![sa])),
    }
}

/// How a name is classified on a restart: a live (non-static) entry is
/// kept, its slot still being valid; everything else is classified from
/// scratch.
pub open spec fn classify(
    n: InternalNameView,
    old_items: ItemsView,
    cfg: ConfigView,
) -> Option<StateView> {
    if items_has_key(old_items, n) && !view_is_static(items_get(old_items, n)) {
        Some(items_get(old_items, n))
    } else {
        classify_fresh(n, cfg)
    }
}

/// The entries after a restart: each name of the list in order of first
/// occurrence, classified against the old entries and the configuration.
pub open spec fn restart_items(
    cur: Seq<InternalNameView>,
    old_items: ItemsView,
    cfg: ConfigView,
) -> ItemsView
    decreases cur.len(),
{
    if cur.len() == 0 {
        Seq::empty()
    } else {
        let prev = restart_items(cur.drop_last(), old_items, cfg);
        if items_has_key(prev, cur.last()) {
            prev
        } else {
            match classify(cur.last(), old_items, cfg) {
                Some(sv) => prev.push((cur.last(), sv)),
                None => prev,
            }
        }
    }
}

/// The subscriptions a restart opens: one for each freshly created watch
/// entry, in entry order.
pub open spec fn restart_ops(
    cur: Seq<InternalNameView>,
    old_items: ItemsView,
    cfg: ConfigView,
) -> Seq<SubscribeOpView>
    decreases cur.len(),
{
    if cur.len() == 0 {
        Seq::empty()
    } else {
        let prev_items = restart_items(cur.drop_last(), old_items, cfg);
        let prev_ops = restart_ops(cur.drop_last(), old_items, cfg);
        if items_has_key(prev_items, cur.last()) {
            prev_ops
        } else if items_has_key(old_items, cur.last()) && !view_is_static(
            items_get(old_items, cur.last()),
        ) {
            prev_ops
        } else {
            match cur.last() {
                InternalNameView::HostPort(h, p) => if !cfg.hosts.contains_key(h)
                    && route_backend(cfg, h).can_host_subscribe {
                    prev_ops.push(SubscribeOpView::HostSub(h, p, route_backend(cfg, h)))
                } else {
                    prev_ops
                },
                InternalNameView::Service(s) => if !cfg.services.contains_key(s)
                    && route_backend(cfg, s).can_subscribe {
                    prev_ops.push(SubscribeOpView::AddrSub(s, route_backend(cfg, s)))
                } else {
                    prev_ops
                },
                InternalNameView::Addr(_) => prev_ops,
            }
        }
    }
}

/// One watch value merged into the entry it belongs to.  A host list is
/// compared as a list; an endpoint set is compared by set contents, and an
/// arrival equal as a set keeps the stored value.
pub open spec fn merge_entry(sv: StateView, v: EntryValueView) -> StateView {
    match (sv, v) {
        (StateView::Host(_, p), EntryValueView::Hosts(l)) => StateView::Host(Some(l), p),
        (StateView::Addr(prev), EntryValueView::Addrs(a)) => match prev {
            Some(o) => if o.to_set() == a.to_set() {
                sv
            } else {
                StateView::Addr(Some(a))
            },
            None => StateView::Addr(Some(a)),
        },
        _ => sv,
    }
}

/// One watch observation applied to the entries.
pub open spec fn apply_one(s: ItemsView, n: InternalNameView, v: EntryValueView) -> ItemsView {
    s.map_values(
        |pr: (InternalNameView, StateView)|
            if pr.0 == n {
                (pr.0, merge_entry(pr.1, v))
            } else {
                pr
            },
    )
}

/// A batch of watch observations applied in order.
pub open spec fn apply_updates(s: ItemsView, ups: Seq<(InternalNameView, EntryValueView)>)
    -> ItemsView
    decreases ups.len(),
{
    if ups.len() == 0 {
        s
    } else {
        apply_updates(apply_one(s, ups[0].0, ups[0].1), ups.drop_first())
    }
}

/// Whether some observation of the batch changed the entry it hit.
pub open spec fn updates_changed(s: ItemsView, ups: Seq<(InternalNameView, EntryValueView)>)
    -> bool
    decreases ups.len(),
{
    if ups.len() == 0 {
        false
    } else {
        let s2 = apply_one(s, ups[0].0, ups[0].1);
        s2 != s || updates_changed(s2, ups.drop_first())
    }
}

/// Every name of the list is small enough to index.
pub open spec fn names_wf(cur: Seq<InternalNameView>) -> bool {
    forall|j: int|
        0 <= j < cur.len() ==> match #[trigger] cur[j] {
            InternalNameView::HostPort(h, _) => h.len() < usize::MAX,
            InternalNameView::Service(s) => s.len() < usize::MAX,
            InternalNameView::Addr(_) => true,
        }
}

/// The multi-name subscription task.
///
/// It consumes a stream of name lists, keeps one entry per distinct name,
/// and emits the union of the entries' endpoint sets to its consumer slot,
/// holding partial unions back while the convergence timer runs.
#[derive(Debug)]
pub struct MultiSubscr {
    current: Vec<InternalName>,
    items: Vec<(InternalName, State)>,
    timer_armed: bool,
}

impl MultiSubscr {
    /// The current name list.
    pub closed spec fn current_view(&self) -> Seq<InternalNameView> {
        self.current@.map_values(|n: InternalName| n@)
    }

    /// The entries.
    pub closed spec fn items_view(&self) -> ItemsView {
        entries_view(self.items@)
    }

    /// Whether the convergence timer is armed.
    pub closed spec fn timer_spec(&self) -> bool {
        self.timer_armed
    }

    /// The task's invariant: one entry per name.
    pub open spec fn wf(&self) -> bool {
        items_unique(self.items_view())
    }

    /// A fresh task: no names, no entries, no timer.
    pub fn new() -> (r: MultiSubscr)
        ensures
            r.current_view() == Seq::<InternalNameView>::empty(),
            r.items_view() == Seq::<(InternalNameView, StateView)>::empty(),
            !r.timer_spec(),
            r.wf(),
    {
        let r = MultiSubscr { current: Vec::new(), items: Vec::new(), timer_armed: false };
        proof {
            assert(r.current_view() =~= Seq::<InternalNameView>::empty());
            assert(r.items_view() =~= Seq::<(InternalNameView, StateView)>::empty());
        }
        r
    }

    /// The union of the complete entries, as an endpoint set.
    fn entries_union(&self) -> (r: Address)
        ensures
            r@ == union_view(self.items_view()),
    {
        let ghost iv = self.items_view();
        let mut out = Address::new();
        let mut i: usize = 0;
        while i < self.items.len()
            invariant
                0 <= i <= self.items@.len(),
                iv == self.items_view(),
                iv.len() == self.items@.len(),
                out@ == union_view(iv.take(i as int)),
            decreases self.items.len() - i,
        {
            proof {
                assert(iv[i as int] == (self.items@[i as int].0@, self.items@[i as int].1@));
            }
            match self.items[i].1.addr() {
                Some(a) => {
                    let alen = a.len();
                    let mut j: usize = 0;
                    while j < alen
                        invariant
                            alen == a@.len(),
                            0 <= j <= a@.len(),
                            i < iv.len(),
                            Some(a@) == view_addr(iv[i as int].1),
                            out@ == union_view(iv.take(i as int)) + a@.take(j as int),
                        decreases alen - j,
                    {
                        out.push(a.get(j));
                        proof {
                            assert(a@.take(j + 1 as int) =~= a@.take(j as int).push(
                                a@[j as int],
                            ));
                            assert(out@ =~= union_view(iv.take(i as int)) + a@.take(j + 1 as int));
                        }
                        j = j + 1;
                    }
                    proof {
                        assert(a@.take(a@.len() as int) =~= a@);
                        assert(iv.take(i + 1 as int).drop_last() =~= iv.take(i as int));
                        assert(out@ =~= union_view(iv.take(i + 1 as int)));
                    }
                },
                None => {
                    proof {
                        assert(iv.take(i + 1 as int).drop_last() =~= iv.take(i as int));
                        assert(union_view(iv.take(i as int)) + Seq::<SockAddr>::empty()
                            =~= union_view(iv.take(i as int)));
                        assert(out@ =~= union_view(iv.take(i + 1 as int)));
                    }
                },
            }
            i = i + 1;
        }
        proof {
            assert(iv.take(iv.len() as int) =~= iv);
        }
        out
    }

    /// Re-classify every current name after a configuration change or a new
    /// name list.
    ///
    /// Live watch entries are kept (their slots are still valid); all other
    /// names are classified from scratch against the configuration.  The
    /// returned subscriptions must be opened by the engine; the flag is
    /// false when the consumer is gone and the task should be dropped.
    ///
    /// Law: the convergence gate — the union is emitted at once exactly
    /// when every entry is complete (an empty name list counts as
    /// converged and yields the empty endpoint set), or the convergence
    /// delay is zero; otherwise nothing is emitted and the timer is
    /// armed.
    pub fn restart(&mut self, cfg: &Config, tx: &mut Slot<Address>) -> (r: (Vec<SubscribeOp>, bool))
        requires
            cfg.wf(),
            old(self).wf(),
            names_wf(old(self).current_view()),
            old(tx).sender_open_spec(),
        ensures
            final(self).wf(),
            final(self).current_view() == old(self).current_view(),
            final(self).items_view() == restart_items(
                old(self).current_view(),
                old(self).items_view(),
                cfg@,
            ),
            r.0@.map_values(|op: SubscribeOp| op@) == restart_ops(
                old(self).current_view(),
                old(self).items_view(),
                cfg@,
            ),
            final(tx).sender_open_spec(),
            final(tx).receiver_open_spec() == old(tx).receiver_open_spec(),
            ({
                let ni = restart_items(old(self).current_view(), old(self).items_view(), cfg@);
                let emit_now = all_complete(ni) || cfg@.convergence_delay_ms == 0;
                &&& emit_now && old(tx).receiver_open_spec() ==> (final(tx).value_spec() matches
                    Some(v) && v@ == union_view(ni)) && r.1 && !final(self).timer_spec()
                &&& emit_now && !old(tx).receiver_open_spec() ==> !r.1
                &&& !emit_now ==> final(tx).value_spec() == old(tx).value_spec() && r.1
                    && final(self).timer_spec()
            }),
    {
        let ghost cur_v = self.current_view();
        let ghost old_iv = self.items_view();
        let mut new_items: Vec<(InternalName, State)> = Vec::new();
        let mut ops: Vec<SubscribeOp> = Vec::new();
        proof {
            assert(cur_v.take(0) =~= Seq::<InternalNameView>::empty());
            assert(entries_view(new_items@) =~= Seq::<(InternalNameView, StateView)>::empty());
            assert(ops@.map_values(|op: SubscribeOp| op@) =~= Seq::<SubscribeOpView>::empty());
        }
        let mut idx: usize = 0;
        while idx < self.current.len()
            invariant
                0 <= idx <= self.current@.len(),
                cfg.wf(),
                self.current@ == old(self).current@,
                self.timer_armed == old(self).timer_armed,
                cur_v == old(self).current_view(),
                old_iv == old(self).items_view(),
                names_wf(cur_v),
                cur_v.len() == self.current@.len(),
                cur_v == self.current@.map_values(|n: InternalName| n@),
                items_unique(entries_view(self.items@)),
                items_unique(entries_view(new_items@)),
                forall|k: InternalNameView|
                    !items_has_key(entries_view(new_items@), k) && #[trigger] items_has_key(
                        entries_view(self.items@),
                        k,
                    ) ==> items_has_key(old_iv, k) && items_get(entries_view(self.items@), k)
                        == items_get(old_iv, k),
                forall|k: InternalNameView|
                    !items_has_key(entries_view(new_items@), k) && #[trigger] items_has_key(
                        old_iv,
                        k,
                    ) && !view_is_static(items_get(old_iv, k)) ==> items_has_key(
                        entries_view(self.items@),
                        k,
                    ),
                entries_view(new_items@) == restart_items(cur_v.take(idx as int), old_iv, cfg@),
                ops@.map_values(|op: SubscribeOp| op@) == restart_ops(
                    cur_v.take(idx as int),
                    old_iv,
                    cfg@,
                ),
            decreases self.current.len() - idx,
        {
            let ghost prev_items = entries_view(new_items@);
            let ghost prev_ops = ops@.map_values(|op: SubscribeOp| op@);
            let name = self.current[idx].clone();
            proof {
                assert(cur_v[idx as int] == self.current@[idx as int]@);
                assert(cur_v.take(idx + 1 as int).drop_last() =~= cur_v.take(idx as int));
                assert(cur_v.take(idx + 1 as int).last() == cur_v[idx as int]);
            }
            if !has_entry(&new_items, &name) {
                let ghost rem0 = entries_view(self.items@);
                let taken = take_entry(&mut self.items, &name);
                let ghost taken_live = items_has_key(old_iv, name@) && !view_is_static(
                    items_get(old_iv, name@),
                );
                proof {
                    // the remainder's entry for this name agrees with the
                    // entries as they stood before the restart
                    if items_has_key(rem0, name@) {
                        assert(items_has_key(old_iv, name@) && items_get(rem0, name@)
                            == items_get(old_iv, name@));
                    }
                    if taken_live {
                        assert(items_has_key(rem0, name@));
                    }
                }
                match taken {
                    Some(st) => {
                        if !st.is_static() {
                            proof {
                                assert(taken_live);
                            }
                            new_items.push((name, st));
                            proof {
                                assert(entries_view(new_items@).drop_last() =~= prev_items);
                                assert(entries_view(new_items@) =~= prev_items.push(
                                    (cur_v[idx as int], items_get(old_iv, cur_v[idx as int])),
                                ));
                                lemma_push_unique(
                                    prev_items,
                                    cur_v[idx as int],
                                    items_get(old_iv, cur_v[idx as int]),
                                );
                            }
                        } else {
                            proof {
                                assert(!taken_live);
                            }
                            Self::classify_push(cfg, name, &mut new_items, &mut ops);
                        }
                    },
                    None => {
                        proof {
                            assert(!taken_live);
                        }
                        Self::classify_push(cfg, name, &mut new_items, &mut ops);
                    },
                }
                proof {
                    let new1 = entries_view(new_items@);
                    let rem1 = entries_view(self.items@);
                    assert(!items_has_key(rem1, name@));
                    if new1 != prev_items {
                        lemma_push_has_key(prev_items, new1.last());
                        assert(new1 == prev_items.push(new1.last()));
                        assert(new1.last().0 == name@);
                    }
                    assert forall|k: InternalNameView|
                        !items_has_key(new1, k) && #[trigger] items_has_key(rem1, k) implies
                        items_has_key(old_iv, k) && items_get(rem1, k) == items_get(
                        old_iv, k) by {
                        assert(k != name@);
                        assert(!items_has_key(prev_items, k));
                        assert(items_has_key(rem0, k));
                    }
                    assert forall|k: InternalNameView|
                        !items_has_key(new1, k) && #[trigger] items_has_key(old_iv, k)
                            && !view_is_static(items_get(old_iv, k)) implies items_has_key(
                        rem1, k) by {
                        if k == name@ {
                            assert(taken_live);
                            assert(items_has_key(new1, name@));
                        } else {
                            assert(!items_has_key(prev_items, k));
                            assert(items_has_key(rem0, k));
                        }
                    }
                }
            }
            idx = idx + 1;
        }
        proof {
            assert(cur_v.take(cur_v.len() as int) =~= cur_v);
        }
        self.items = new_items;
        let complete = self.all_complete_exec();
        let emit = complete || cfg.convergence_delay_ms() == 0;
        if emit {
            self.timer_armed = false;
            let u = self.entries_union();
            match tx.swap(u) {
                Ok(_) => (ops, true),
                Err(_) => (ops, false),
            }
        } else {
            self.timer_armed = true;
            (ops, true)
        }
    }

    /// Classify one name from scratch and append its entry and, for a fresh
    /// watch, the subscription to open.
    fn classify_push(
        cfg: &Config,
        name: InternalName,
        new_items: &mut Vec<(InternalName, State)>,
        ops: &mut Vec<SubscribeOp>,
    )
        requires
            cfg.wf(),
            name@ matches InternalNameView::HostPort(h, _) ==> h.len() < usize::MAX,
            name@ matches InternalNameView::Service(s) ==> s.len() < usize::MAX,
            items_unique(entries_view(old(new_items)@)),
            !items_has_key(entries_view(old(new_items)@), name@),
        ensures
            items_unique(entries_view(final(new_items)@)),
            entries_view(final(new_items)@) == (match classify_fresh(name@, cfg@) {
                Some(sv) => entries_view(old(new_items)@).push((name@, sv)),
                None => entries_view(old(new_items)@),
            }),
            final(ops)@.map_values(|op: SubscribeOp| op@) == (match classify_fresh(name@, cfg@) {
                Some(StateView::Host(None, _)) => old(ops)@.map_values(
                    |op: SubscribeOp| op@,
                ).push(
                    SubscribeOpView::HostSub(
                        name@->HostPort_0,
                        name@->HostPort_1,
                        route_backend(cfg@, name@->HostPort_0),
                    ),
                ),
                Some(StateView::Addr(None)) => old(ops)@.map_values(|op: SubscribeOp| op@).push(
                    SubscribeOpView::AddrSub(
                        name@->Service_0,
                        route_backend(cfg@, name@->Service_0),
                    ),
                ),
                _ => old(ops)@.map_values(|op: SubscribeOp| op@),
            }),
    {
        let ghost prev_items = entries_view(new_items@);
        let ghost prev_ops = ops@.map_values(|op: SubscribeOp| op@);
        match name {
            InternalName::HostPort(h, p) => {
                match cfg.find_host(&h) {
                    Some(v) => {
                        let st = State::StaticHost(v.duplicate(), p);
                        new_items.push((InternalName::HostPort(h, p), st));
                        proof {
                            assert(entries_view(new_items@).drop_last() =~= prev_items);
                            lemma_push_unique(
                                prev_items,
                                InternalNameView::HostPort(h@, p),
                                classify_fresh(InternalNameView::HostPort(h@, p), cfg@)->Some_0,
                            );
                            assert(entries_view(new_items@) =~= prev_items.push(
                                (
                                    InternalNameView::HostPort(h@, p),
                                    classify_fresh(InternalNameView::HostPort(h@, p), cfg@)->Some_0,
                                ),
                            ));
                        }
                    },
                    None => {
                        let b = *crate::engine::get_suffix(cfg, h.as_str());
                        if b.can_host_subscribe {
                            ops.push(SubscribeOp::HostSub(h.clone(), p, b));
                            let st = State::Host(None, p);
                            new_items.push((InternalName::HostPort(h, p), st));
                            proof {
                                assert(entries_view(new_items@).drop_last() =~= prev_items);
                                lemma_push_unique(
                                    prev_items,
                                    InternalNameView::HostPort(h@, p),
                                    StateView::Host(None, p),
                                );
                                assert(entries_view(new_items@) =~= prev_items.push(
                                    (InternalNameView::HostPort(h@, p), StateView::Host(None, p)),
                                ));
                                assert(ops@.map_values(|op: SubscribeOp| op@) =~= prev_ops.push(
                                    SubscribeOpView::HostSub(h@, p, route_backend(cfg@, h@)),
                                ));
                            }
                        }
                    },
                }
            },
            InternalName::Service(sname) => {
                match cfg.find_service(&sname) {
                    Some(v) => {
                        let st = State::StaticAddr(v.duplicate());
                        new_items.push((InternalName::Service(sname), st));
                        proof {
                            assert(entries_view(new_items@).drop_last() =~= prev_items);
                            lemma_push_unique(
                                prev_items,
                                InternalNameView::Service(new_items@.last().0@->Service_0),
                                new_items@.last().1@,
                            );
                            assert(entries_view(new_items@) =~= prev_items.push(
                                (
                                    new_items@.last().0@,
                                    classify_fresh(new_items@.last().0@, cfg@)->Some_0,
                                ),
                            ));
                        }
                    },
                    None => {
                        let b = *crate::engine::get_suffix(cfg, sname.as_str());
                        if b.can_subscribe {
                            ops.push(SubscribeOp::AddrSub(sname.clone(), b));
                            let st = State::Addr(None);
                            new_items.push((InternalName::Service(sname), st));
                            proof {
                                assert(entries_view(new_items@).drop_last() =~= prev_items);
                                lemma_push_unique(
                                    prev_items,
                                    new_items@.last().0@,
                                    StateView::Addr(None),
                                );
                                assert(entries_view(new_items@) =~= prev_items.push(
                                    (new_items@.last().0@, StateView::Addr(None)),
                                ));
                                assert(ops@.map_values(|op: SubscribeOp| op@) =~= prev_ops.push(
                                    SubscribeOpView::AddrSub(
                                        new_items@.last().0@->Service_0,
                                        route_backend(cfg@, new_items@.last().0@->Service_0),
                                    ),
                                ));
                            }
                        }
                    },
                }
            },
            InternalName::Addr(sa) => {
                let mut one: Vec<SockAddr> = Vec::new();
                one.push(sa);
                let st = State::StaticAddr(Address::from_addrs(one));
                new_items.push((InternalName::Addr(sa), st));
                proof {
                    assert(entries_view(new_items@).drop_last() =~= prev_items);
                    lemma_push_unique(
                        prev_items,
                        InternalNameView::Addr(sa),
                        StateView::StaticAddr(seq![sa]),
                    );
                    assert(entries_view(new_items@) =~= prev_items.push(
                        (InternalNameView::Addr(sa), StateView::StaticAddr(seq![sa])),
                    ));
                }
            },
        }
    }

    /// One routine polling round.
    ///
    /// In order: a closed consumer stops the task; a fired convergence
    /// timer clears itself and counts as an update; an ended or failed name
    /// stream stops the task; a changed name list asks for a restart; watch
    /// values are merged into their entries, with unchanged values
    /// suppressed; finally, if anything changed and the timer is not
    /// holding the union back — the timer also yields once every entry is
    /// complete — the union of the entries is emitted.
    ///
    /// Law: every emission equals the union of the entries' endpoint sets
    /// as they stand at this poll; and no emission happens while the timer
    /// stays armed and some entry is incomplete.
    pub fn poll(
        &mut self,
        timer_fired: bool,
        input: Poll<Vec<InternalName>>,
        updates: Vec<(InternalName, EntryValue)>,
        tx: &mut Slot<Address>,
    ) -> (r: TaskResult)
        requires
            old(self).wf(),
            old(tx).sender_open_spec(),
        ensures
            final(self).wf(),
            final(tx).sender_open_spec(),
            final(tx).receiver_open_spec() == old(tx).receiver_open_spec(),
            !old(tx).receiver_open_spec() ==> r == TaskResult::Stop && final(self).items_view()
                == old(self).items_view() && final(self).current_view() == old(self).current_view() && final(self).timer_spec() == old(self).timer_spec() && final(tx).value_spec() == old(tx).value_spec(),
            ({
                let timer1 = old(self).timer_spec() && !timer_fired;
                let upd_v = updates@.map_values(
                    |pr: (InternalName, EntryValue)| (pr.0@, pr.1@),
                );
                let ni = apply_updates(old(self).items_view(), upd_v);
                let updated = (old(self).timer_spec() && timer_fired) || updates_changed(
                    old(self).items_view(),
                    upd_v,
                );
                let timer2 = if updated && timer1 && all_complete(ni) {
                    false
                } else {
                    timer1
                };
                let emit = updated && !timer2;
                old(tx).receiver_open_spec() ==> {
                    &&& (input is Failed || input is End) ==> r == TaskResult::Stop && final(self).items_view() == old(self).items_view() && final(self).current_view() == old(self).current_view() && final(self).timer_spec() == timer1 && final(tx).value_spec() == old(tx).value_spec()
                    &&& (input matches Poll::Ready(x) && x@.map_values(|n: InternalName| n@)
                        != old(self).current_view()) ==> r == TaskResult::Restart && final(self).current_view() == (input->Ready_0)@.map_values(|n: InternalName| n@)
                        && final(self).items_view() == old(self).items_view() && final(self).timer_spec() == timer1 && final(tx).value_spec() == old(tx).value_spec()
                    &&& (input is NotReady || (input matches Poll::Ready(x) && x@.map_values(
                        |n: InternalName| n@,
                    ) == old(self).current_view())) ==> {
                        &&& r == TaskResult::Continue
                        &&& final(self).current_view() == old(self).current_view()
                        &&& final(self).items_view() == ni
                        &&& final(self).timer_spec() == timer2
                        &&& emit ==> (final(tx).value_spec() matches Some(v) && v@ == union_view(
                            ni,
                        ))
                        &&& !emit ==> final(tx).value_spec() == old(tx).value_spec()
                    }
                }
            }),
            old(tx).receiver_open_spec() && old(self).timer_spec() && !timer_fired
                && !all_complete(
                apply_updates(
                    old(self).items_view(),
                    updates@.map_values(|pr: (InternalName, EntryValue)| (pr.0@, pr.1@)),
                ),
            ) ==> final(tx).value_spec() == old(tx).value_spec(),
    {
        let ghost upd_v = updates@.map_values(|pr: (InternalName, EntryValue)| (pr.0@, pr.1@));
        if tx.poll_cancel() {
            return TaskResult::Stop;
        }
        let was_armed = self.timer_armed;
        let fired = was_armed && timer_fired;
        if fired {
            self.timer_armed = false;
        }
        match input {
            Poll::Failed => {
                return TaskResult::Stop;
            },
            Poll::End => {
                return TaskResult::Stop;
            },
            Poll::Ready(x) => {
                if !names_equal(&self.current, &x) {
                    self.current = x;
                    return TaskResult::Restart;
                }
            },
            Poll::NotReady => {},
        }
        let ghost items0 = self.items_view();
        let ghost cur1 = self.current@;
        let ghost timer1 = self.timer_armed;
        let mut updates = updates;
        let mut changed = false;
        while updates.len() > 0
            invariant
                self.current@ == cur1,
                self.timer_armed == timer1,
                items_unique(self.items_view()),
                apply_updates(items0, upd_v) == apply_updates(
                    self.items_view(),
                    updates@.map_values(|pr: (InternalName, EntryValue)| (pr.0@, pr.1@)),
                ),
                updates_changed(items0, upd_v) == (changed || updates_changed(
                    self.items_view(),
                    updates@.map_values(|pr: (InternalName, EntryValue)| (pr.0@, pr.1@)),
                )),
            decreases updates@.len(),
        {
            let ghost rem_v = updates@.map_values(
                |pr: (InternalName, EntryValue)| (pr.0@, pr.1@),
            );
            let ghost before = self.items_view();
            let (n, v) = updates.remove(0);
            proof {
                assert(rem_v.drop_first() =~= updates@.map_values(
                    |pr: (InternalName, EntryValue)| (pr.0@, pr.1@),
                ));
                assert(rem_v[0] == (n@, v@));
            }
            let this_changed = self.apply_entry_value(n, v);
            proof {
                assert(self.items_view() == apply_one(before, rem_v[0].0, rem_v[0].1));
                assert(this_changed == (apply_one(before, rem_v[0].0, rem_v[0].1) != before));
            }
            if this_changed {
                changed = true;
            }
        }
        proof {
            assert(updates@.map_values(|pr: (InternalName, EntryValue)| (pr.0@, pr.1@))
                =~= Seq::<(InternalNameView, EntryValueView)>::empty());
        }
        if changed || fired {
            if self.timer_armed {
                if self.all_complete_exec() {
                    self.timer_armed = false;
                }
            }
            if !self.timer_armed {
                let u = self.entries_union();
                match tx.swap(u) {
                    Ok(_) => {},
                    Err(_) => {
                        return TaskResult::Stop;
                    },
                }
            }
        }
        TaskResult::Continue
    }

    /// Merge one watch value into the entry it belongs to; true when the
    /// entry actually changed.
    fn apply_entry_value(&mut self, n: InternalName, v: EntryValue) -> (r: bool)
        requires
            old(self).wf(),
        ensures
            final(self).wf(),
            final(self).current_view() == old(self).current_view(),
            final(self).current@ == old(self).current@,
            final(self).timer_spec() == old(self).timer_spec(),
            final(self).items_view() == apply_one(old(self).items_view(), n@, v@),
            r == (apply_one(old(self).items_view(), n@, v@) != old(self).items_view()),
    {
        let ghost iv = self.items_view();
        let ghost target = apply_one(iv, n@, v@);
        let mut i: usize = 0;
        while i < self.items.len()
            invariant
                0 <= i <= self.items@.len(),
                *self == *old(self),
                iv == self.items_view(),
                iv.len() == self.items@.len(),
                target == apply_one(iv, n@, v@),
                items_unique(iv),
                forall|m: int| 0 <= m < i ==> (#[trigger] iv[m]).0 != n@,
            decreases self.items.len() - i,
        {
            proof {
                assert(iv[i as int] == (self.items@[i as int].0@, self.items@[i as int].1@));
            }
            if &self.items[i].0 == &n {
                proof {
                    lemma_items_get(iv, i as int);
                }
                let differs: bool;
                let replacement: Option<State>;
                match (&self.items[i].1, &v) {
                    (State::Host(last, p), EntryValue::Hosts(l)) => {
                        let d = match last {
                            Some(o) => !o.same_as(l),
                            None => true,
                        };
                        differs = d;
                        if d {
                            replacement = Some(State::Host(Some(l.duplicate()), *p));
                        } else {
                            replacement = None;
                        }
                    },
                    (State::Addr(last), EntryValue::Addrs(a)) => {
                        let d = match last {
                            Some(o) => !o.same_set(a),
                            None => true,
                        };
                        differs = d;
                        if d {
                            replacement = Some(State::Addr(Some(a.duplicate())));
                        } else {
                            replacement = None;
                        }
                    },
                    _ => {
                        differs = false;
                        replacement = None;
                    },
                }
                match replacement {
                    Some(st) => {
                        self.items.set(i, (n, st));
                    },
                    None => {},
                }
                proof {
                    assert(iv[i as int].0 == n@);
                    assert forall|m: int| 0 <= m < iv.len() && m != i implies (#[trigger] iv[m]).0
                        != n@ by {
                        if m < i {
                            assert(iv[m].0 != iv[i as int].0);
                        } else {
                            assert(iv[i as int].0 != iv[m].0);
                        }
                    }
                    assert forall|m: int| 0 <= m < target.len() implies target[m]
                        == entries_view(self.items@)[m] by {
                        assert(target[m] == (if iv[m].0 == n@ {
                            (iv[m].0, merge_entry(iv[m].1, v@))
                        } else {
                            iv[m]
                        }));
                    }
                    assert(entries_view(self.items@) =~= target);
                    if differs {
                        assert(target[i as int].1 != iv[i as int].1);
                        assert(target != iv);
                    } else {
                        assert forall|m: int| 0 <= m < target.len() implies target[m] == iv[m] by {
                        }
                        assert(target =~= iv);
                    }
                    assert(items_unique(entries_view(self.items@))) by {
                        assert(forall|a: int|
                            0 <= a < target.len() ==> (#[trigger] target[a]).0 == iv[a].0);
                    }
                }
                return differs;
            }
            i = i + 1;
        }
        proof {
            if items_has_key(iv, n@) {
                let m = choose|m: int| 0 <= m < iv.len() && (#[trigger] iv[m]).0 == n@;
            }
            assert forall|m: int| 0 <= m < target.len() implies target[m] == iv[m] by {
                assert(iv[m].0 != n@);
            }
            assert(target =~= iv);
        }
        false
    }

    /// Whether every entry is complete.
    fn all_complete_exec(&self) -> (r: bool)
        ensures
            r == all_complete(self.items_view()),
    {
        let ghost iv = self.items_view();
        let mut i: usize = 0;
        while i < self.items.len()
            invariant
                0 <= i <= self.items@.len(),
                iv == self.items_view(),
                iv.len() == self.items@.len(),
                forall|j: int| 0 <= j < i ==> view_addr((#[trigger] iv[j]).1) is Some,
            decreases self.items.len() - i,
        {
            proof {
                assert(iv[i as int] == (self.items@[i as int].0@, self.items@[i as int].1@));
            }
            if !self.items[i].1.is_complete() {
                return false;
            }
            i = i + 1;
        }
        true
    }
}

/// Whether two name lists carry the same names in the same order.
fn names_equal(a: &Vec<InternalName>, b: &Vec<InternalName>) -> (r: bool)
    ensures
        r == (a@.map_values(|n: InternalName| n@) == b@.map_values(|n: InternalName| n@)),
{
    let ghost av = a@.map_values(|n: InternalName| n@);
    let ghost bv = b@.map_values(|n: InternalName| n@);
    if a.len() != b.len() {
        proof {
            assert(av.len() != bv.len());
        }
        return false;
    }
    let mut i: usize = 0;
    while i < a.len()
        invariant
            0 <= i <= a@.len(),
            a@.len() == b@.len(),
            av == a@.map_values(|n: InternalName| n@),
            bv == b@.map_values(|n: InternalName| n@),
            forall|j: int| 0 <= j < i ==> av[j] == bv[j],
        decreases a.len() - i,
    {
        proof {
            assert(av[i as int] == a@[i as int]@);
            assert(bv[i as int] == b@[i as int]@);
        }
        if !(&a[i] == &b[i]) {
            return false;
        }
        i = i + 1;
    }
    proof {
        assert(av =~= bv);
    }
    true
}

/// What appending an entry does to the name table.
proof fn lemma_push_has_key(s: ItemsView, pr: (InternalNameView, StateView))
    ensures
        forall|k: InternalNameView|
            #[trigger] items_has_key(s.push(pr), k) <==> (items_has_key(s, k) || pr.0 == k),
{
    assert forall|k: InternalNameView| #[trigger] items_has_key(s.push(pr), k) implies (
    items_has_key(s, k) || pr.0 == k) by {
        let j = choose|j: int| 0 <= j < s.push(pr).len() && (#[trigger] s.push(pr)[j]).0 == k;
        if j < s.len() {
            assert(s[j].0 == k);
        }
    }
    assert forall|k: InternalNameView| (items_has_key(s, k) || pr.0 == k) implies (
    #[trigger] items_has_key(s.push(pr), k)) by {
        if items_has_key(s, k) {
            let j = choose|j: int| 0 <= j < s.len() && (#[trigger] s[j]).0 == k;
            assert(s.push(pr)[j].0 == k);
        } else {
            assert(s.push(pr)[s.len() as int].0 == k);
        }
    }
}

/// Appending an entry under a new name keeps the names unique.
proof fn lemma_push_unique(s: ItemsView, k: InternalNameView, v: StateView)
    requires
        items_unique(s),
        !items_has_key(s, k),
    ensures
        items_unique(s.push((k, v))),
{
    let s2 = s.push((k, v));
    assert forall|a: int, b: int| 0 <= a < b < s2.len() implies (#[trigger] s2[a]).0 != (
    #[trigger] s2[b]).0 by {
        if b == s2.len() - 1 {
            assert(s2[a] == s[a]);
            if s[a].0 == k {
                assert(items_has_key(s, k));
            }
        } else {
            assert(s2[a] == s[a]);
            assert(s2[b] == s[b]);
        }
    }
}

/// Removing an entry takes its name out of the table and leaves every other
/// name's entry in place.
proof fn lemma_items_remove(s: ItemsView, i: int)
    requires
        items_unique(s),
        0 <= i < s.len(),
    ensures
        items_unique(s.remove(i)),
        !items_has_key(s.remove(i), s[i].0),
        forall|k: InternalNameView|
            k != s[i].0 ==> (items_has_key(s.remove(i), k) <==> #[trigger] items_has_key(s, k)),
        forall|k: InternalNameView|
            k != s[i].0 && items_has_key(s, k) ==> items_get(s.remove(i), k) == #[trigger] items_get(
                s,
                k,
            ),
{
    let s2 = s.remove(i);
    assert(forall|j: int| 0 <= j < i ==> #[trigger] s2[j] == s[j]);
    assert(forall|j: int| i <= j < s2.len() ==> #[trigger] s2[j] == s[j + 1]);
    assert(items_unique(s2)) by {
        assert forall|a: int, b: int| 0 <= a < b < s2.len() implies (#[trigger] s2[a]).0 != (
        #[trigger] s2[b]).0 by {
            let a1 = if a < i {
                a
            } else {
                a + 1
            };
            let b1 = if b < i {
                b
            } else {
                b + 1
            };
            assert(s2[a] == s[a1]);
            assert(s2[b] == s[b1]);
        }
    }
    assert(!items_has_key(s2, s[i].0)) by {
        if items_has_key(s2, s[i].0) {
            let a = choose|a: int| 0 <= a < s2.len() && (#[trigger] s2[a]).0 == s[i].0;
            let a1 = if a < i {
                a
            } else {
                a + 1
            };
            assert(s[a1].0 == s[i].0);
            assert(a1 != i ==> false);
        }
    }
    assert forall|k: InternalNameView| k != s[i].0 implies (items_has_key(s2, k)
        <==> #[trigger] items_has_key(s, k)) by {
        if items_has_key(s, k) {
            let a = choose|a: int| 0 <= a < s.len() && (#[trigger] s[a]).0 == k;
            assert(a != i);
            let a2 = if a < i {
                a
            } else {
                a - 1
            };
            assert(s2[a2].0 == k);
        }
        if items_has_key(s2, k) {
            let a = choose|a: int| 0 <= a < s2.len() && (#[trigger] s2[a]).0 == k;
            let a1 = if a < i {
                a
            } else {
                a + 1
            };
            assert(s[a1].0 == k);
        }
    }
    assert forall|k: InternalNameView| k != s[i].0 && items_has_key(s, k) implies items_get(
        s2,
        k,
    ) == #[trigger] items_get(s, k) by {
        let a = choose|a: int| 0 <= a < s2.len() && (#[trigger] s2[a]).0 == k;
        let a1 = if a < i {
            a
        } else {
            a + 1
        };
        assert(s2[a] == s[a1]);
        lemma_items_get(s2, a);
        lemma_items_get(s, a1);
    }
}

/// Whether an entry list holds this name.
fn has_entry(items: &Vec<(InternalName, State)>, name: &InternalName) -> (r: bool)
    ensures
        r == items_has_key(entries_view(items@), name@),
{
    let ghost iv = entries_view(items@);
    let mut j: usize = 0;
    while j < items.len()
        invariant
            0 <= j <= items@.len(),
            iv == entries_view(items@),
            iv.len() == items@.len(),
            forall|m: int| 0 <= m < j ==> (#[trigger] iv[m]).0 != name@,
        decreases items.len() - j,
    {
        proof {
            assert(iv[j as int] == (items@[j as int].0@, items@[j as int].1@));
        }
        if &items[j].0 == name {
            return true;
        }
        j = j + 1;
    }
    proof {
        if items_has_key(iv, name@) {
            let m = choose|m: int| 0 <= m < iv.len() && (#[trigger] iv[m]).0 == name@;
        }
    }
    false
}

/// Remove and return the entry watching this name, if there is one.
fn take_entry(items: &mut Vec<(InternalName, State)>, name: &InternalName) -> (r: Option<State>)
    requires
        items_unique(entries_view(old(items)@)),
    ensures
        items_unique(entries_view(final(items)@)),
        items_has_key(entries_view(old(items)@), name@) ==> (r matches Some(st) && st@
            == items_get(entries_view(old(items)@), name@)) && !items_has_key(
            entries_view(final(items)@),
            name@,
        ),
        !items_has_key(entries_view(old(items)@), name@) ==> r is None && final(items)@ == old(items)@,
        forall|k: InternalNameView|
            k != name@ ==> (items_has_key(entries_view(final(items)@), k)
                <==> #[trigger] items_has_key(entries_view(old(items)@), k)),
        forall|k: InternalNameView|
            k != name@ && items_has_key(entries_view(old(items)@), k) ==> items_get(
                entries_view(final(items)@),
                k,
            ) == #[trigger] items_get(entries_view(old(items)@), k),
{
    let ghost iv = entries_view(items@);
    let mut j: usize = 0;
    while j < items.len()
        invariant
            0 <= j <= items@.len(),
            *items == *old(items),
            iv == entries_view(items@),
            iv.len() == items@.len(),
            items_unique(iv),
            forall|m: int| 0 <= m < j ==> (#[trigger] iv[m]).0 != name@,
        decreases items.len() - j,
    {
        proof {
            assert(iv[j as int] == (items@[j as int].0@, items@[j as int].1@));
        }
        if &items[j].0 == name {
            let entry = items.remove(j);
            proof {
                lemma_items_get(iv, j as int);
                lemma_items_remove(iv, j as int);
                assert(entries_view(items@) =~= iv.remove(j as int));
            }
            return Some(entry.1);
        }
        j = j + 1;
    }
    proof {
        if items_has_key(iv, name@) {
            let m = choose|m: int| 0 <= m < iv.len() && (#[trigger] iv[m]).0 == name@;
        }
    }
    None
}

} // verus!
