//! Validated domain-style names.
//!
//! A name is a dot-separated sequence of labels.  A single trailing dot is
//! allowed (it means "do not add a search domain") and is kept in the stored
//! text.  Each label must be non-empty, consist only of ASCII lower-case
//! letters, digits, dash and underscore, and must not start or end with a
//! dash.

use vstd::prelude::*;

use crate::addr::{Ip, SockAddr};
use crate::chars::{first_occ, lemma_first_occ, lemma_first_occ_at};
use crate::literal::{spec_ip, spec_sockaddr, spec_u16_str};

verus! {

/// Why a string is not a valid name.
#[derive(Clone, Copy, Debug, PartialEq, Eq, Structural)]
pub enum NameError {
    /// A name cannot start with a dot or contain consecutive dots.
    DotError,
    /// Only ASCII lower-case letters, digits, dash and underscore are
    /// supported.
    InvalidChar,
    /// No label may start or end with a dash.
    InvalidPrefixSuffix,
}

/// Characters allowed inside a label.
pub open spec fn allowed_char(c: char) -> bool {
    ('a' as u32 <= c as u32 && c as u32 <= 'z' as u32) || ('0' as u32 <= c as u32 && c as u32
        <= '9' as u32) || c == '-' || c == '_'
}

/// The error a single label produces, if any.
pub open spec fn piece_err(p: Seq<char>) -> Option<NameError> {
    if p.len() == 0 {
        Some(NameError::DotError)
    } else if exists|j: int| 0 <= j < p.len() && !allowed_char(p[j]) {
        Some(NameError::InvalidChar)
    } else if p[0] == '-' || p[p.len() - 1] == '-' {
        Some(NameError::InvalidPrefixSuffix)
    } else {
        None
    }
}

/// The error raised by checking the labels of `t` left to right, if any.
pub open spec fn namecheck_err(t: Seq<char>) -> Option<NameError>
    decreases t.len(),
    via namecheck_err_decreases
{
    let k = first_occ(t, '.');
    let piece = t.take(k);
    if piece_err(piece) is Some {
        piece_err(piece)
    } else if k == t.len() {
        None
    } else {
        namecheck_err(t.skip(k + 1))
    }
}

#[via_fn]
proof fn namecheck_err_decreases(t: Seq<char>) {
    lemma_first_occ(t, '.');
}

/// `s` with a single trailing dot removed.
pub open spec fn strip_root_dot(s: Seq<char>) -> Seq<char> {
    if s.len() > 0 && s[s.len() - 1] == '.' {
        s.drop_last()
    } else {
        s
    }
}

/// Whether `s` is a valid name.
pub open spec fn valid_name(s: Seq<char>) -> bool {
    namecheck_err(strip_root_dot(s)) is None
}

fn allowed_char_exec(c: char) -> (r: bool)
    ensures
        r == allowed_char(c),
{
    let u = c as u32;
    ('a' as u32 <= u && u <= 'z' as u32) || ('0' as u32 <= u && u <= '9' as u32) || c == '-' || c
        == '_'
}

/// Check the labels of `s` starting at `start`, mirroring `namecheck_err`.
fn namecheck_from(s: &str, start: usize) -> (r: Option<NameError>)
    requires
        start <= s@.len(),
        s@.len() < usize::MAX,
    ensures
        r == namecheck_err(s@.skip(start as int)),
    decreases s@.len() - start,
{
    let ghost t = s@.skip(start as int);
    let n = s.unicode_len();
    let mut i: usize = start;
    while i < n && s.get_char(i) != '.'
        invariant
            start <= i <= n,
            n == s@.len(),
            start <= s@.len(),
            t == s@.skip(start as int),
            forall|j: int| start <= j < i ==> s@[j] != '.',
        decreases n - i,
    {
        i = i + 1;
    }
    proof {
        assert forall|j: int| 0 <= j < i - start implies t[j] != '.' by {
            assert(t[j] == s@[start + j]);
        }
        if i < n {
            assert(t[i - start] == s@[i as int]);
        }
        lemma_first_occ_at(t, '.', i - start as int);
    }
    let ghost piece = t.take(i - start as int);
    // check the label s[start..i]
    if i == start {
        proof {
            assert(piece.len() == 0);
        }
        return Some(NameError::DotError);
    }
    let mut j: usize = start;
    while j < i
        invariant
            start < i <= s@.len(),
            start <= j <= i,
            t == s@.skip(start as int),
            piece == t.take(i - start as int),
            first_occ(t, '.') == i - start,
            forall|m: int| 0 <= m < j - start ==> allowed_char(piece[m]),
        decreases i - j,
    {
        let c = s.get_char(j);
        proof {
            assert(piece[j - start] == s@[j as int]);
        }
        if !allowed_char_exec(c) {
            proof {
                assert(0 <= j - start < piece.len() && !allowed_char(piece[j - start]));
                assert(piece_err(piece) == Some(NameError::InvalidChar));
            }
            return Some(NameError::InvalidChar);
        }
        j = j + 1;
    }
    proof {
        assert(piece.len() > 0);
        assert(forall|m: int| 0 <= m < piece.len() ==> allowed_char(piece[m]));
    }
    if s.get_char(start) == '-' || s.get_char(i - 1) == '-' {
        proof {
            assert(piece[0] == s@[start as int]);
            assert(piece[piece.len() - 1] == s@[i - 1 as int]);
        }
        return Some(NameError::InvalidPrefixSuffix);
    }
    proof {
        assert(piece[0] == s@[start as int]);
        assert(piece[piece.len() - 1] == s@[i - 1 as int]);
        assert(piece_err(piece) is None);
    }
    if i == n {
        None
    } else {
        proof {
            assert(t.skip(i - start + 1) =~= s@.skip(i + 1 as int));
        }
        namecheck_from(s, i + 1)
    }
}

/// Check a whole name string: the error of the first bad label, if any.
pub fn namecheck(s: &str) -> (r: Option<NameError>)
    requires
        s@.len() < usize::MAX,
    ensures
        r == namecheck_err(strip_root_dot(s@)),
        r is None <==> valid_name(s@),
{
    let n = s.unicode_len();
    if n > 0 && s.get_char(n - 1) == '.' {
        let stripped = s.substring_char(0, n - 1);
        proof {
            assert(stripped@ =~= strip_root_dot(s@));
            assert(stripped@.skip(0) =~= stripped@);
        }
        namecheck_from(stripped, 0)
    } else {
        proof {
            assert(strip_root_dot(s@) =~= s@);
            assert(s@.skip(0) =~= s@);
        }
        namecheck_from(s, 0)
    }
}

/// A validated name.  Immutable and cheaply cloneable.
#[derive(Debug)]
pub struct Name {
    text: String,
}

impl View for Name {
    type V = Seq<char>;

    closed spec fn view(&self) -> Seq<char> {
        self.text@
    }
}

impl Name {
    /// A name is well formed when its text passes the label checks.
    pub open spec fn wf(&self) -> bool {
        valid_name(self@)
    }

    /// Parse and validate a name.
    pub fn from_str(s: &str) -> (r: Result<Name, NameError>)
        requires
            s@.len() < usize::MAX,
        ensures
            r is Ok <==> valid_name(s@),
            r matches Ok(n) ==> n@ == s@ && n.wf(),
            r matches Err(e) ==> Some(e) == namecheck_err(strip_root_dot(s@)),
    {
        match namecheck(s) {
            None => Ok(Name { text: s.to_owned() }),
            Some(e) => Err(e),
        }
    }

    pub fn as_str(&self) -> (r: &str)
        ensures
            r@ == self@,
    {
        self.text.as_str()
    }

    /// Name equality is equality of the underlying text.
    pub fn same_as(&self, other: &Name) -> (r: bool)
        ensures
            r == (self@ == other@),
    {
        self.text == other.text
    }
}

impl Clone for Name {
    fn clone(&self) -> (r: Name)
        ensures
            r@ == self@,
    {
        Name { text: self.text.clone() }
    }
}

impl PartialEq for Name {
    fn eq(&self, other: &Name) -> (r: bool)
        ensures
            r == (self@ == other@),
    {
        self.text == other.text
    }
}

impl Eq for Name {

}

impl vstd::std_specs::cmp::PartialEqSpecImpl for Name {
    open spec fn obeys_eq_spec() -> bool {
        true
    }

    open spec fn eq_spec(&self, other: &Name) -> bool {
        self@ == other@
    }
}

/// A name as it comes from configuration, together with how it should be
/// treated.
///
/// `Auto` strings are classified by the grammar: an IP literal resolves
/// directly with the default port, a socket-address literal resolves
/// directly, a leading underscore selects a service (SRV-style) query, a
/// `host:port` form carries its own port, and a bare host gets the default
/// port.
#[derive(Debug)]
pub enum AutoName<'a> {
    /// Determine the treatment from the string itself.
    Auto(&'a str),
    /// Resolve a host and attach the given port.
    HostPort(&'a str, u16),
    /// Resolve a host and attach the default port.
    HostDefaultPort(&'a str),
    /// Resolve a service name via SRV-style records.
    Service(&'a str),
    /// A bare IP used directly as a host.
    IpAddr(Ip),
    /// A socket address used directly as a service address.
    SocketAddr(SockAddr),
}

/// The ghost value of an [`AutoName`].
pub enum AutoNameView {
    Auto(Seq<char>),
    HostPort(Seq<char>, u16),
    HostDefaultPort(Seq<char>),
    Service(Seq<char>),
    IpAddr(Ip),
    SocketAddr(SockAddr),
}

impl<'a> View for AutoName<'a> {
    type V = AutoNameView;

    open spec fn view(&self) -> AutoNameView {
        match *self {
            AutoName::Auto(s) => AutoNameView::Auto(s@),
            AutoName::HostPort(s, p) => AutoNameView::HostPort(s@, p),
            AutoName::HostDefaultPort(s) => AutoNameView::HostDefaultPort(s@),
            AutoName::Service(s) => AutoNameView::Service(s@),
            AutoName::IpAddr(ip) => AutoNameView::IpAddr(ip),
            AutoName::SocketAddr(sa) => AutoNameView::SocketAddr(sa),
        }
    }
}

/// A parsed name: what the router actually resolves.
#[derive(Debug)]
pub enum InternalName {
    /// Resolve a host, then attach the port.
    HostPort(Name, u16),
    /// Resolve a service name.
    Service(Name),
    /// A literal endpoint needing no resolution.
    Addr(SockAddr),
}

/// The ghost value of an [`InternalName`].
pub enum InternalNameView {
    HostPort(Seq<char>, u16),
    Service(Seq<char>),
    Addr(SockAddr),
}

impl View for InternalName {
    type V = InternalNameView;

    open spec fn view(&self) -> InternalNameView {
        match *self {
            InternalName::HostPort(ref n, p) => InternalNameView::HostPort(n@, p),
            InternalName::Service(ref n) => InternalNameView::Service(n@),
            InternalName::Addr(sa) => InternalNameView::Addr(sa),
        }
    }
}

impl Clone for InternalName {
    fn clone(&self) -> (r: InternalName)
        ensures
            r@ == self@,
    {
        match *self {
            InternalName::HostPort(ref n, p) => InternalName::HostPort(n.clone(), p),
            InternalName::Service(ref n) => InternalName::Service(n.clone()),
            InternalName::Addr(sa) => InternalName::Addr(sa),
        }
    }
}

impl PartialEq for InternalName {
    fn eq(&self, other: &InternalName) -> (r: bool)
        ensures
            r == (self@ == other@),
    {
        match (self, other) {
            (InternalName::HostPort(a, p), InternalName::HostPort(b, q)) => a.same_as(b) && *p
                == *q,
            (InternalName::Service(a), InternalName::Service(b)) => a.same_as(b),
            (InternalName::Addr(a), InternalName::Addr(b)) => *a == *b,
            _ => false,
        }
    }
}

impl Eq for InternalName {

}

impl vstd::std_specs::cmp::PartialEqSpecImpl for InternalName {
    open spec fn obeys_eq_spec() -> bool {
        true
    }

    open spec fn eq_spec(&self, other: &InternalName) -> bool {
        self@ == other@
    }
}

/// Why a configuration string could not be parsed into a name.
#[derive(Debug)]
pub enum Error {
    /// The host or service part is not a valid name.
    Name(String, NameError),
    /// The port part is not a valid port number.
    Port(String),
}

/// The ghost value of a parse [`Error`].
pub enum ErrorView {
    Name(Seq<char>, NameError),
    Port(Seq<char>),
}

impl View for Error {
    type V = ErrorView;

    open spec fn view(&self) -> ErrorView {
        match *self {
            Error::Name(ref s, e) => ErrorView::Name(s@, e),
            Error::Port(ref s) => ErrorView::Port(s@),
        }
    }
}

impl Error {
    /// The resolution error this parse failure surfaces: an invalid name or
    /// an invalid port number, carrying the raw input.
    pub fn into_error(self) -> (r: crate::error::Error)
        ensures
            self@ matches ErrorView::Name(raw, _) ==> r@ == crate::error::ErrorView::InvalidName(
                raw,
                "bad name"@,
            ),
            self@ matches ErrorView::Port(raw) ==> r@ == crate::error::ErrorView::InvalidName(
                raw,
                "bad port number"@,
            ),
    {
        match self {
            Error::Name(raw, _) => crate::error::Error::InvalidName(
                raw,
                String::from_str("bad name"),
            ),
            Error::Port(raw) => crate::error::Error::InvalidName(
                raw,
                String::from_str("bad port number"),
            ),
        }
    }
}

/// The classification of an `Auto` string under the name grammar.
pub open spec fn spec_parse_auto(s: Seq<char>, default_port: u16) -> Result<
    InternalNameView,
    ErrorView,
> {
    if spec_ip(s) is Some {
        Ok(InternalNameView::Addr(SockAddr { ip: spec_ip(s)->Some_0, port: default_port }))
    } else if spec_sockaddr(s) is Some {
        Ok(InternalNameView::Addr(spec_sockaddr(s)->Some_0))
    } else if s.len() > 0 && s[0] == '_' {
        if valid_name(s) {
            Ok(InternalNameView::Service(s))
        } else {
            Err(ErrorView::Name(s, namecheck_err(strip_root_dot(s))->Some_0))
        }
    } else if first_occ(s, ':') < s.len() {
        let k = first_occ(s, ':');
        let head = s.take(k);
        let tail = s.skip(k + 1);
        if !valid_name(head) {
            Err(ErrorView::Name(s, namecheck_err(strip_root_dot(head))->Some_0))
        } else {
            match spec_u16_str(tail) {
                Some(p) => Ok(InternalNameView::HostPort(head, p)),
                None => Err(ErrorView::Port(s)),
            }
        }
    } else {
        if valid_name(s) {
            Ok(InternalNameView::HostPort(s, default_port))
        } else {
            Err(ErrorView::Name(s, namecheck_err(strip_root_dot(s))->Some_0))
        }
    }
}

/// The result of parsing any [`AutoName`].
pub open spec fn spec_parse(a: AutoNameView, default_port: u16) -> Result<
    InternalNameView,
    ErrorView,
> {
    match a {
        AutoNameView::Auto(s) => spec_parse_auto(s, default_port),
        AutoNameView::HostPort(s, p) => if valid_name(s) {
            Ok(InternalNameView::HostPort(s, p))
        } else {
            Err(ErrorView::Name(s, namecheck_err(strip_root_dot(s))->Some_0))
        },
        AutoNameView::HostDefaultPort(s) => if valid_name(s) {
            Ok(InternalNameView::HostPort(s, default_port))
        } else {
            Err(ErrorView::Name(s, namecheck_err(strip_root_dot(s))->Some_0))
        },
        AutoNameView::Service(s) => if valid_name(s) {
            Ok(InternalNameView::Service(s))
        } else {
            Err(ErrorView::Name(s, namecheck_err(strip_root_dot(s))->Some_0))
        },
        AutoNameView::IpAddr(ip) => Ok(
            InternalNameView::Addr(SockAddr { ip, port: default_port }),
        ),
        AutoNameView::SocketAddr(sa) => Ok(InternalNameView::Addr(sa)),
    }
}

impl<'a> AutoName<'a> {
    /// Whether the borrowed string is small enough to index.
    pub open spec fn wf(&self) -> bool {
        match *self {
            AutoName::Auto(s) => s@.len() < usize::MAX,
            AutoName::HostPort(s, _) => s@.len() < usize::MAX,
            AutoName::HostDefaultPort(s) => s@.len() < usize::MAX,
            AutoName::Service(s) => s@.len() < usize::MAX,
            AutoName::IpAddr(_) => true,
            AutoName::SocketAddr(_) => true,
        }
    }

    /// Parse this name under the grammar, with `default_port` filling in a
    /// missing port.
    pub fn parse(&self, default_port: u16) -> (r: Result<InternalName, Error>)
        requires
            self.wf(),
        ensures
            r matches Ok(n) ==> spec_parse(self@, default_port) matches Ok(v) && n@ == v,
            r matches Err(e) ==> spec_parse(self@, default_port) matches Err(v) && e@ == v,
    {
        match *self {
            AutoName::Auto(s) => {
                match crate::literal::parse_ip(s) {
                    Some(ip) => {
                        return Ok(InternalName::Addr(SockAddr { ip, port: default_port }));
                    },
                    None => {},
                }
                match crate::literal::parse_sockaddr(s) {
                    Some(sa) => {
                        return Ok(InternalName::Addr(sa));
                    },
                    None => {},
                }
                let n = s.unicode_len();
                if n > 0 && s.get_char(0) == '_' {
                    match Name::from_str(s) {
                        Ok(nm) => Ok(InternalName::Service(nm)),
                        Err(e) => Err(Error::Name(s.to_owned(), e)),
                    }
                } else {
                    match crate::literal::find_char(s, ':') {
                        Some(k) => {
                            let head = s.substring_char(0, k);
                            proof {
                                assert(head@ =~= s@.take(k as int));
                            }
                            match Name::from_str(head) {
                                Err(e) => Err(Error::Name(s.to_owned(), e)),
                                Ok(nm) => {
                                    let tail = s.substring_char(k + 1, n);
                                    proof {
                                        assert(tail@ =~= s@.skip(k + 1 as int));
                                    }
                                    match crate::literal::parse_u16_str(tail) {
                                        Some(p) => Ok(InternalName::HostPort(nm, p)),
                                        None => Err(Error::Port(s.to_owned())),
                                    }
                                },
                            }
                        },
                        None => match Name::from_str(s) {
                            Ok(nm) => Ok(InternalName::HostPort(nm, default_port)),
                            Err(e) => Err(Error::Name(s.to_owned(), e)),
                        },
                    }
                }
            },
            AutoName::HostPort(s, p) => match Name::from_str(s) {
                Ok(nm) => Ok(InternalName::HostPort(nm, p)),
                Err(e) => Err(Error::Name(s.to_owned(), e)),
            },
            AutoName::HostDefaultPort(s) => match Name::from_str(s) {
                Ok(nm) => Ok(InternalName::HostPort(nm, default_port)),
                Err(e) => Err(Error::Name(s.to_owned(), e)),
            },
            AutoName::Service(s) => match Name::from_str(s) {
                Ok(nm) => Ok(InternalName::Service(nm)),
                Err(e) => Err(Error::Name(s.to_owned(), e)),
            },
            AutoName::IpAddr(ip) => Ok(InternalName::Addr(SockAddr { ip, port: default_port })),
            AutoName::SocketAddr(sa) => Ok(InternalName::Addr(sa)),
        }
    }
}

/// String equality by contents.
pub fn str_eq(a: &str, b: &str) -> (r: bool)
    ensures
        r == (a@ == b@),
{
    let sa = String::from_str(a);
    let sb = String::from_str(b);
    sa == sb
}

} // verus!
