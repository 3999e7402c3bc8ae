//! The router façade's decisions.
//!
//! The façade itself hands requests to the engine over a queue and builds
//! reply channels; what it decides — how a free-form name is turned into a
//! request or answered on the spot, and which names of a list survive
//! parsing — is here.

use vstd::prelude::*;

use crate::addr::{Address, SockAddr};
use crate::error::{Error, ErrorView};
use crate::name::{
    spec_parse, AutoName, ErrorView as NameErrorView, InternalName, InternalNameView, Name,
};

verus! {

/// What `resolve_auto` does with a parsed name: submit a request to the
/// engine, or answer on the spot.
#[derive(Debug)]
pub enum AutoAction {
    /// Ask the engine to resolve the host, then attach the port.
    SubmitHostPort(Name, u16),
    /// Ask the engine to resolve the service.
    SubmitService(Name),
    /// A literal address: reply immediately, no back-end involved.
    Immediate(Address),
    /// The name did not parse: reply immediately with the error.
    Fail(Error),
}

/// The error a failed parse surfaces to the caller.
pub open spec fn parse_fail_view(e: NameErrorView) -> ErrorView {
    match e {
        NameErrorView::Name(raw, _) => ErrorView::InvalidName(raw, "bad name"@),
        NameErrorView::Port(raw) => ErrorView::InvalidName(raw, "bad port number"@),
    }
}

/// Decide what to do with one free-form name.
///
/// A literal address is answered immediately without any back-end call; a
/// host or service name becomes the corresponding engine request; a parse
/// failure is surfaced as `InvalidName`.
pub fn resolve_auto_action(name: &AutoName, default_port: u16) -> (a: AutoAction)
    requires
        name.wf(),
    ensures
        ({
            match spec_parse(name@, default_port) {
                Ok(InternalNameView::HostPort(h, p)) => a matches AutoAction::SubmitHostPort(n, q)
                    && n@ == h && q == p,
                Ok(InternalNameView::Service(s)) => a matches AutoAction::SubmitService(n) && n@
                    == s,
                Ok(InternalNameView::Addr(sa)) => a matches AutoAction::Immediate(v) && v@ == seq![
                    sa,
                ],
                Err(e) => a matches AutoAction::Fail(err) && err@ == parse_fail_view(e),
            }
        }),
{
    match name.parse(default_port) {
        Ok(InternalName::HostPort(n, p)) => AutoAction::SubmitHostPort(n, p),
        Ok(InternalName::Service(n)) => AutoAction::SubmitService(n),
        Ok(InternalName::Addr(sa)) => {
            let mut one: Vec<SockAddr> = Vec::new();
            one.push(sa);
            proof {
                assert(one@ =~= seq![sa]);
            }
            AutoAction::Immediate(Address::from_addrs(one))
        },
        Err(e) => AutoAction::Fail(e.into_error()),
    }
}

/// The names of a list that parse, in order; the rest are dropped.
pub open spec fn parse_list(s: Seq<crate::name::AutoNameView>, default_port: u16) -> Seq<
    InternalNameView,
>
    decreases s.len(),
{
    if s.len() == 0 {
        Seq::empty()
    } else {
        let prev = parse_list(s.drop_last(), default_port);
        match spec_parse(s.last(), default_port) {
            Ok(v) => prev.push(v),
            Err(_) => prev,
        }
    }
}

/// Parse a list of free-form names for a multi-name subscription, keeping
/// the names that parse and dropping the rest.
pub fn parse_names(names: &Vec<AutoName>, default_port: u16) -> (r: Vec<InternalName>)
    requires
        forall|i: int| 0 <= i < names@.len() ==> (#[trigger] names@[i]).wf(),
    ensures
        r@.map_values(|n: InternalName| n@) == parse_list(
            names@.map_values(|a: AutoName| a@),
            default_port,
        ),
{
    let ghost av = names@.map_values(|a: AutoName| a@);
    let mut out: Vec<InternalName> = Vec::new();
    proof {
        assert(av.take(0) =~= Seq::<crate::name::AutoNameView>::empty());
        assert(out@.map_values(|n: InternalName| n@) =~= Seq::<InternalNameView>::empty());
    }
    let mut i: usize = 0;
    while i < names.len()
        invariant
            0 <= i <= names@.len(),
            av == names@.map_values(|a: AutoName| a@),
            av.len() == names@.len(),
            forall|j: int| 0 <= j < names@.len() ==> (#[trigger] names@[j]).wf(),
            out@.map_values(|n: InternalName| n@) == parse_list(av.take(i as int), default_port),
        decreases names.len() - i,
    {
        let ghost prev = out@.map_values(|n: InternalName| n@);
        proof {
            assert(av[i as int] == names@[i as int]@);
            assert(av.take(i + 1 as int).drop_last() =~= av.take(i as int));
            assert(av.take(i + 1 as int).last() == av[i as int]);
        }
        match names[i].parse(default_port) {
            Ok(n) => {
                out.push(n);
                proof {
                    assert(out@.map_values(|n: InternalName| n@) =~= prev.push(
                        out@.last()@,
                    ));
                }
            },
            Err(_) => {},
        }
        i = i + 1;
    }
    proof {
        assert(av.take(av.len() as int) =~= av);
    }
    out
}

} // verus!
