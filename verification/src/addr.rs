//! Addresses: IP values, host lists, and host-port endpoint sets.

use vstd::prelude::*;

verus! {

/// An IP address: four octets, or eight 16-bit groups.
#[derive(Clone, Copy, Debug, PartialEq, Eq, Hash, Structural)]
pub enum Ip {
    V4(u8, u8, u8, u8),
    V6(u16, u16, u16, u16, u16, u16, u16, u16),
}

/// One host-port endpoint.
#[derive(Clone, Copy, Debug, PartialEq, Eq, Hash, Structural)]
pub struct SockAddr {
    pub ip: Ip,
    pub port: u16,
}

/// An ordered list of IP addresses, as a host resolves to.
#[derive(Debug)]
pub struct IpList {
    ips: Vec<Ip>,
}

/// A set of host-port endpoints, as a service resolves to.
///
/// Semantically an unordered set; the insertion order is kept only for
/// diagnostics.  Equality is by set contents.
#[derive(Debug)]
pub struct Address {
    addrs: Vec<SockAddr>,
}

impl View for IpList {
    type V = Seq<Ip>;

    closed spec fn view(&self) -> Seq<Ip> {
        self.ips@
    }
}

impl View for Address {
    type V = Seq<SockAddr>;

    closed spec fn view(&self) -> Seq<SockAddr> {
        self.addrs@
    }
}

/// The endpoint set obtained by pairing every IP of `ips` with `port`.
pub open spec fn spec_with_port(ips: Seq<Ip>, port: u16) -> Seq<SockAddr> {
    ips.map_values(|ip: Ip| SockAddr { ip, port })
}

impl IpList {
    pub fn new() -> (r: IpList)
        ensures
            r@ == Seq::<Ip>::empty(),
    {
        IpList { ips: Vec::new() }
    }

    pub fn from_ips(ips: Vec<Ip>) -> (r: IpList)
        ensures
            r@ == ips@,
    {
        IpList { ips }
    }

    pub fn len(&self) -> (n: usize)
        ensures
            n == self@.len(),
    {
        self.ips.len()
    }

    pub fn get(&self, i: usize) -> (ip: Ip)
        requires
            i < self@.len(),
        ensures
            ip == self@[i as int],
    {
        self.ips[i]
    }

    /// Lift the host list to an endpoint set by attaching `port` to every IP.
    pub fn with_port(&self, port: u16) -> (r: Address)
        ensures
            r@ == spec_with_port(self@, port),
    {
        let mut addrs: Vec<SockAddr> = Vec::new();
        let mut i: usize = 0;
        while i < self.ips.len()
            invariant
                i <= self.ips.len(),
                addrs@ == spec_with_port(self.ips@.take(i as int), port),
            decreases self.ips.len() - i,
        {
            addrs.push(SockAddr { ip: self.ips[i], port });
            proof {
                assert(self.ips@.take(i + 1 as int).drop_last() =~= self.ips@.take(i as int));
                assert(addrs@ =~= spec_with_port(self.ips@.take(i + 1 as int), port));
            }
            i = i + 1;
        }
        proof {
            assert(self.ips@.take(self.ips@.len() as int) =~= self.ips@);
        }
        Address { addrs }
    }

    pub fn same_as(&self, other: &IpList) -> (r: bool)
        ensures
            r == (self@ == other@),
    {
        if self.ips.len() != other.ips.len() {
            proof {
                assert(self@ != other@);
            }
            return false;
        }
        let mut i: usize = 0;
        while i < self.ips.len()
            invariant
                i <= self.ips.len(),
                self.ips@.len() == other.ips@.len(),
                forall|j: int| 0 <= j < i ==> self.ips@[j] == other.ips@[j],
            decreases self.ips.len() - i,
        {
            if self.ips[i] != other.ips[i] {
                return false;
            }
            i = i + 1;
        }
        proof {
            assert(self@ =~= other@);
        }
        true
    }

    pub fn duplicate(&self) -> (r: IpList)
        ensures
            r@ == self@,
    {
        let mut ips: Vec<Ip> = Vec::new();
        let mut i: usize = 0;
        while i < self.ips.len()
            invariant
                i <= self.ips.len(),
                ips@ == self.ips@.take(i as int),
            decreases self.ips.len() - i,
        {
            ips.push(self.ips[i]);
            proof {
                assert(ips@ =~= self.ips@.take(i + 1 as int));
            }
            i = i + 1;
        }
        proof {
            assert(self.ips@.take(self.ips@.len() as int) =~= self.ips@);
        }
        IpList { ips }
    }
}

impl Address {
    pub fn new() -> (r: Address)
        ensures
            r@ == Seq::<SockAddr>::empty(),
    {
        Address { addrs: Vec::new() }
    }

    pub fn from_addrs(addrs: Vec<SockAddr>) -> (r: Address)
        ensures
            r@ == addrs@,
    {
        Address { addrs }
    }

    pub fn len(&self) -> (n: usize)
        ensures
            n == self@.len(),
    {
        self.addrs.len()
    }

    pub fn get(&self, i: usize) -> (a: SockAddr)
        requires
            i < self@.len(),
        ensures
            a == self@[i as int],
    {
        self.addrs[i]
    }

    pub fn push(&mut self, a: SockAddr)
        ensures
            final(self)@ == old(self)@.push(a),
    {
        self.addrs.push(a);
    }

    pub fn contains(&self, a: SockAddr) -> (r: bool)
        ensures
            r == self@.contains(a),
    {
        let mut i: usize = 0;
        while i < self.addrs.len()
            invariant
                i <= self.addrs.len(),
                forall|j: int| 0 <= j < i ==> self.addrs@[j] != a,
            decreases self.addrs.len() - i,
        {
            if self.addrs[i] == a {
                return true;
            }
            i = i + 1;
        }
        false
    }

    /// Set equality: every endpoint of one occurs in the other.
    pub fn same_set(&self, other: &Address) -> (r: bool)
        ensures
            r == (self@.to_set() == other@.to_set()),
    {
        let mut i: usize = 0;
        while i < self.addrs.len()
            invariant
                i <= self.addrs.len(),
                forall|j: int| 0 <= j < i ==> other@.contains(#[trigger] self.addrs@[j]),
            decreases self.addrs.len() - i,
        {
            if !other.contains(self.addrs[i]) {
                proof {
                    assert(self@.to_set().contains(self.addrs@[i as int]));
                    assert(!other@.to_set().contains(self.addrs@[i as int]));
                }
                return false;
            }
            i = i + 1;
        }
        let mut k: usize = 0;
        while k < other.addrs.len()
            invariant
                k <= other.addrs.len(),
                forall|j: int| 0 <= j < self.addrs@.len()
                    ==> other@.contains(#[trigger] self.addrs@[j]),
                forall|j: int| 0 <= j < k ==> self@.contains(#[trigger] other.addrs@[j]),
            decreases other.addrs.len() - k,
        {
            if !self.contains(other.addrs[k]) {
                proof {
                    assert(other@.to_set().contains(other.addrs@[k as int]));
                    assert(!self@.to_set().contains(other.addrs@[k as int]));
                }
                return false;
            }
            k = k + 1;
        }
        proof {
            assert forall|a: SockAddr| self@.to_set().contains(a)
                implies other@.to_set().contains(a) by {
                let j = choose|j: int| 0 <= j < self@.len() && self@[j] == a;
                assert(other@.contains(self.addrs@[j]));
            }
            assert forall|a: SockAddr| other@.to_set().contains(a)
                implies self@.to_set().contains(a) by {
                let j = choose|j: int| 0 <= j < other@.len() && other@[j] == a;
                assert(self@.contains(other.addrs@[j]));
            }
            assert(self@.to_set() =~= other@.to_set());
        }
        true
    }

    pub fn duplicate(&self) -> (r: Address)
        ensures
            r@ == self@,
    {
        let mut addrs: Vec<SockAddr> = Vec::new();
        let mut i: usize = 0;
        while i < self.addrs.len()
            invariant
                i <= self.addrs.len(),
                addrs@ == self.addrs@.take(i as int),
            decreases self.addrs.len() - i,
        {
            addrs.push(self.addrs[i]);
            proof {
                assert(addrs@ =~= self.addrs@.take(i + 1 as int));
            }
            i = i + 1;
        }
        proof {
            assert(self.addrs@.take(self.addrs@.len() as int) =~= self.addrs@);
        }
        Address { addrs }
    }
}

/// The concatenation of the endpoint sequences of `parts`.
pub open spec fn spec_union(parts: Seq<Seq<SockAddr>>) -> Seq<SockAddr>
    decreases parts.len(),
{
    if parts.len() == 0 {
        Seq::empty()
    } else {
        spec_union(parts.drop_last()) + parts.last()
    }
}

/// The union of a list of endpoint sets, in the order given.
pub fn union(parts: &Vec<Address>) -> (r: Address)
    ensures
        r@ == spec_union(parts@.map_values(|a: Address| a@)),
{
    let ghost views = parts@.map_values(|a: Address| a@);
    let mut addrs: Vec<SockAddr> = Vec::new();
    let mut i: usize = 0;
    while i < parts.len()
        invariant
            i <= parts.len(),
            views == parts@.map_values(|a: Address| a@),
            addrs@ == spec_union(views.take(i as int)),
        decreases parts.len() - i,
    {
        let part = &parts[i];
        let mut j: usize = 0;
        while j < part.addrs.len()
            invariant
                j <= part.addrs.len(),
                part == &parts@[i as int],
                i < parts@.len(),
                views == parts@.map_values(|a: Address| a@),
                addrs@ == spec_union(views.take(i as int)) + part.addrs@.take(j as int),
            decreases part.addrs.len() - j,
        {
            addrs.push(part.addrs[j]);
            proof {
                assert(part.addrs@.take(j + 1 as int) =~= part.addrs@.take(j as int).push(
                    part.addrs@[j as int],
                ));
                assert(addrs@ =~= spec_union(views.take(i as int)) + part.addrs@.take(
                    j + 1 as int,
                ));
            }
            j = j + 1;
        }
        proof {
            assert(views.take(i + 1 as int).drop_last() =~= views.take(i as int));
            assert(views.take(i + 1 as int).last() == views[i as int]);
            assert(part.addrs@.take(part.addrs@.len() as int) =~= part.addrs@);
            assert(addrs@ =~= spec_union(views.take(i + 1 as int)));
        }
        i = i + 1;
    }
    proof {
        assert(views.take(views.len() as int) =~= views);
    }
    Address { addrs }
}

} // verus!
