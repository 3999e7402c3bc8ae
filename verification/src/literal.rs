//! The grammar of literal addresses: IPv4 and IPv6 addresses, ports, and
//! socket addresses such as `127.0.0.1:8080` or `[2001:db8::2:1]:443`.

use vstd::prelude::*;

use crate::addr::{Ip, SockAddr};
use crate::chars::{
    all_digits, all_hex, dec_value, digit_val_exec, first_occ, hex_val_exec, hex_value, is_digit,
    is_digit_exec, is_hex_digit, is_hex_digit_exec, lemma_dec_value_prefix, lemma_first_occ,
    lemma_first_occ_at,
};

verus! {

/// A valid dotted-quad octet: one to three digits, no leading zero, at most
/// 255.
pub open spec fn octet_ok(p: Seq<char>) -> bool {
    1 <= p.len() <= 3 && all_digits(p) && (p.len() > 1 ==> p[0] != '0') && dec_value(p) <= 255
}

/// The values of the dot-separated octets of `t`, if every octet is valid.
pub open spec fn octets_of(t: Seq<char>) -> Option<Seq<int>>
    decreases t.len(),
    via octets_of_decreases
{
    let k = first_occ(t, '.');
    let p = t.take(k);
    if !octet_ok(p) {
        None
    } else if k == t.len() {
        Some(seq![dec_value(p)])
    } else {
        match octets_of(t.skip(k + 1)) {
            None => None,
            Some(rest) => Some(seq![dec_value(p)] + rest),
        }
    }
}

#[via_fn]
proof fn octets_of_decreases(t: Seq<char>) {
    lemma_first_occ(t, '.');
}

/// An IPv4 literal: exactly four valid octets.
pub open spec fn spec_ipv4(s: Seq<char>) -> Option<Ip> {
    match octets_of(s) {
        Some(vs) => if vs.len() == 4 {
            Some(Ip::V4(vs[0] as u8, vs[1] as u8, vs[2] as u8, vs[3] as u8))
        } else {
            None
        },
        None => None,
    }
}

proof fn lemma_dec_value_small(p: Seq<char>)
    requires
        all_digits(p),
    ensures
        dec_value(p) >= 0,
        p.len() <= 1 ==> dec_value(p) <= 9,
        p.len() <= 2 ==> dec_value(p) <= 99,
        p.len() <= 3 ==> dec_value(p) <= 999,
    decreases p.len(),
{
    if p.len() > 0 {
        assert(all_digits(p.drop_last())) by {
            assert(forall|j: int| 0 <= j < p.len() - 1 ==> is_digit(#[trigger] p.drop_last()[j]));
        }
        lemma_dec_value_small(p.drop_last());
        assert(is_digit(p.last()));
    }
}

/// Parse the dot-separated octets of `s` starting at `start`.
fn octets_from(s: &str, start: usize) -> (r: Option<Vec<u8>>)
    requires
        start <= s@.len(),
        s@.len() < usize::MAX,
    ensures
        r is Some <==> octets_of(s@.skip(start as int)) is Some,
        r matches Some(v) ==> {
            &&& octets_of(s@.skip(start as int)) matches Some(vs)
            &&& v@.len() == vs.len()
            &&& forall|i: int| 0 <= i < vs.len() ==> v@[i] as int == vs[i]
        },
    decreases s@.len() - start,
{
    let ghost t = s@.skip(start as int);
    let n = s.unicode_len();
    let mut i: usize = start;
    while i < n && s.get_char(i) != '.'
        invariant
            start <= i <= n,
            n == s@.len(),
            t == s@.skip(start as int),
            forall|j: int| start <= j < i ==> s@[j] != '.',
        decreases n - i,
    {
        i = i + 1;
    }
    proof {
        assert forall|j: int| 0 <= j < i - start implies t[j] != '.' by {
            assert(t[j] == s@[start + j]);
        }
        if i < n {
            assert(t[i - start] == s@[i as int]);
        }
        lemma_first_occ_at(t, '.', i - start as int);
    }
    let ghost p = t.take(i - start as int);
    // the octet must be one to three digits
    if i - start < 1 || i - start > 3 {
        return None;
    }
    let mut v: u32 = 0;
    let mut j: usize = start;
    while j < i
        invariant
            start <= j <= i <= s@.len(),
            i - start <= 3,
            t == s@.skip(start as int),
            p == t.take(i - start as int),
            first_occ(t, '.') == i - start,
            forall|m: int| 0 <= m < j - start ==> is_digit(#[trigger] p[m]),
            v == dec_value(p.take(j - start as int)),
            v <= 999,
        decreases i - j,
    {
        let c = s.get_char(j);
        proof {
            assert(p[j - start] == s@[j as int]);
        }
        if !is_digit_exec(c) {
            proof {
                assert(0 <= j - start < p.len() && !is_digit(p[j - start]));
                assert(!octet_ok(p));
            }
            return None;
        }
        let d = digit_val_exec(c);
        proof {
            assert(p.take(j - start + 1).drop_last() =~= p.take(j - start as int));
            assert(p.take(j - start + 1).last() == p[j - start]);
            let ghost q = p.take(j - start + 1);
            assert(all_digits(q)) by {
                assert(forall|m: int| 0 <= m < q.len() ==> is_digit(#[trigger] q[m]));
            }
            lemma_dec_value_small(q);
        }
        v = v * 10 + d;
        j = j + 1;
    }
    proof {
        assert(p.take(i - start as int) =~= p);
        assert(all_digits(p));
    }
    if i - start > 1 && s.get_char(start) == '0' {
        proof {
            assert(p[0] == s@[start as int]);
            assert(!octet_ok(p));
        }
        return None;
    }
    if v > 255 {
        return None;
    }
    proof {
        assert(p[0] == s@[start as int]);
        assert(octet_ok(p));
    }
    if i == n {
        let mut out: Vec<u8> = Vec::new();
        out.push(v as u8);
        return Some(out);
    }
    proof {
        assert(t.skip(i - start + 1) =~= s@.skip(i + 1 as int));
    }
    match octets_from(s, i + 1) {
        None => None,
        Some(mut rest) => {
            rest.insert(0, v as u8);
            Some(rest)
        },
    }
}

/// Parse an IPv4 literal such as `127.0.0.1`.
pub fn parse_ipv4(s: &str) -> (r: Option<Ip>)
    requires
        s@.len() < usize::MAX,
    ensures
        r == spec_ipv4(s@),
{
    proof {
        assert(s@.skip(0) =~= s@);
    }
    match octets_from(s, 0) {
        None => None,
        Some(v) => {
            if v.len() == 4 {
                Some(Ip::V4(v[0], v[1], v[2], v[3]))
            } else {
                None
            }
        },
    }
}

/// A valid port string: one or more digits, value at most 65535.  Leading
/// zeros are allowed.
pub open spec fn port_ok(p: Seq<char>) -> bool {
    p.len() >= 1 && all_digits(p) && dec_value(p) <= 65535
}

/// Parse the digits of `s` as a port number.
pub fn parse_port(s: &str) -> (r: Option<u16>)
    requires
        s@.len() < usize::MAX,
    ensures
        port_ok(s@) ==> r == Some((dec_value(s@) as u16)),
        !port_ok(s@) ==> r is None,
{
    let n = s.unicode_len();
    if n == 0 {
        return None;
    }
    let mut v: u32 = 0;
    let mut j: usize = 0;
    while j < n
        invariant
            0 <= j <= n,
            n == s@.len(),
            forall|m: int| 0 <= m < j ==> is_digit(#[trigger] s@[m]),
            v == dec_value(s@.take(j as int)),
            v <= 65535,
        decreases n - j,
    {
        let c = s.get_char(j);
        if !is_digit_exec(c) {
            proof {
                assert(!all_digits(s@));
            }
            return None;
        }
        let d = digit_val_exec(c);
        proof {
            assert(s@.take(j + 1).drop_last() =~= s@.take(j as int));
            assert(s@.take(j + 1).last() == s@[j as int]);
        }
        v = v * 10 + d;
        if v > 65535 {
            proof {
                if all_digits(s@) {
                    lemma_dec_value_prefix(s@, j + 1);
                }
            }
            return None;
        }
        j = j + 1;
    }
    proof {
        assert(s@.take(n as int) =~= s@);
    }
    Some(v as u16)
}

/// The value of a port string in the form accepted for `host:port` names: an
/// optional leading `+`, then digits.
pub open spec fn spec_u16_str(p: Seq<char>) -> Option<u16> {
    let q = if p.len() > 0 && p[0] == '+' {
        p.drop_first()
    } else {
        p
    };
    if port_ok(q) {
        Some(dec_value(q) as u16)
    } else {
        None
    }
}

/// Parse a number as written after `host:`, allowing a leading `+`.
pub fn parse_u16_str(s: &str) -> (r: Option<u16>)
    requires
        s@.len() < usize::MAX,
    ensures
        r == spec_u16_str(s@),
{
    let n = s.unicode_len();
    if n > 0 && s.get_char(0) == '+' {
        let rest = s.substring_char(1, n);
        proof {
            assert(rest@ =~= s@.drop_first());
        }
        parse_port(rest)
    } else {
        parse_port(s)
    }
}

/// A valid IPv6 group: one to four hex digits.
pub open spec fn group_ok(p: Seq<char>) -> bool {
    1 <= p.len() <= 4 && all_hex(p)
}

/// The values of the colon-separated groups of `t`, if every group is valid.
pub open spec fn groups_vals(t: Seq<char>) -> Option<Seq<int>>
    decreases t.len(),
    via groups_vals_decreases
{
    let k = first_occ(t, ':');
    let p = t.take(k);
    if !group_ok(p) {
        None
    } else if k == t.len() {
        Some(seq![hex_value(p)])
    } else {
        match groups_vals(t.skip(k + 1)) {
            None => None,
            Some(rest) => Some(seq![hex_value(p)] + rest),
        }
    }
}

#[via_fn]
proof fn groups_vals_decreases(t: Seq<char>) {
    lemma_first_occ(t, ':');
}

/// As `groups_vals`, but an empty string stands for zero groups.
pub open spec fn groups_of(t: Seq<char>) -> Option<Seq<int>> {
    if t.len() == 0 {
        Some(Seq::empty())
    } else {
        groups_vals(t)
    }
}

/// The two groups an embedded dotted quad stands for.
pub open spec fn v4_group_pair(ip: Ip) -> Seq<int> {
    match ip {
        Ip::V4(a, b, c, d) => seq![a as int * 256 + b as int, c as int * 256 + d as int],
        _ => Seq::empty(),
    }
}

/// As `groups_vals`, but the final piece may be an embedded dotted quad,
/// which stands for the last two groups.
pub open spec fn groups_vals_v4(t: Seq<char>) -> Option<Seq<int>>
    decreases t.len(),
    via groups_vals_v4_decreases
{
    let k = first_occ(t, ':');
    let p = t.take(k);
    if k == t.len() {
        if group_ok(p) {
            Some(seq![hex_value(p)])
        } else {
            match spec_ipv4(p) {
                Some(ip) => Some(v4_group_pair(ip)),
                None => None,
            }
        }
    } else if !group_ok(p) {
        None
    } else {
        match groups_vals_v4(t.skip(k + 1)) {
            None => None,
            Some(rest) => Some(seq![hex_value(p)] + rest),
        }
    }
}

#[via_fn]
proof fn groups_vals_v4_decreases(t: Seq<char>) {
    lemma_first_occ(t, ':');
}

/// As `groups_vals_v4`, but an empty string stands for zero groups.
pub open spec fn groups_of_v4(t: Seq<char>) -> Option<Seq<int>> {
    if t.len() == 0 {
        Some(Seq::empty())
    } else {
        groups_vals_v4(t)
    }
}

/// Index of the first `::` of `t`, or a value `d` with `d + 2 > t.len()` if
/// there is none.
pub open spec fn first_dc(t: Seq<char>) -> int
    decreases t.len(),
{
    if t.len() < 2 {
        t.len() as int
    } else if t[0] == ':' && t[1] == ':' {
        0
    } else {
        1 + first_dc(t.drop_first())
    }
}

pub proof fn lemma_first_dc(t: Seq<char>)
    ensures
        0 <= first_dc(t) <= t.len(),
        first_dc(t) + 2 <= t.len() ==> t[first_dc(t)] == ':' && t[first_dc(t) + 1] == ':',
        forall|j: int|
            0 <= j < first_dc(t) && j + 1 < t.len() ==> !(#[trigger] t[j] == ':' && t[j + 1] == ':'),
    decreases t.len(),
{
    if t.len() < 2 {
    } else if t[0] == ':' && t[1] == ':' {
    } else {
        lemma_first_dc(t.drop_first());
        assert forall|j: int|
            0 <= j < first_dc(t) && j + 1 < t.len() implies !(#[trigger] t[j] == ':' && t[j + 1] == ':') by {
            if j > 0 {
                assert(!(t.drop_first()[j - 1] == ':' && t.drop_first()[j] == ':'));
            }
        }
        if first_dc(t) + 2 <= t.len() {
            let d = first_dc(t.drop_first());
            assert(t[first_dc(t)] == t.drop_first()[d]);
            assert(t[first_dc(t) + 1] == t.drop_first()[d + 1]);
        }
    }
}

pub proof fn lemma_first_dc_found(t: Seq<char>, k: int)
    requires
        0 <= k,
        k + 2 <= t.len(),
        t[k] == ':' && t[k + 1] == ':',
        forall|j: int| 0 <= j < k ==> !(#[trigger] t[j] == ':' && t[j + 1] == ':'),
    ensures
        first_dc(t) == k,
    decreases t.len(),
{
    if k == 0 {
    } else {
        assert(!(t[0] == ':' && t[1] == ':'));
        assert forall|j: int| 0 <= j < k - 1 implies !(#[trigger] t.drop_first()[j] == ':'
            && t.drop_first()[j + 1] == ':') by {
            assert(!(t[j + 1] == ':' && t[j + 2] == ':'));
        }
        lemma_first_dc_found(t.drop_first(), k - 1);
    }
}

/// The eight groups of an IPv6 literal, if `s` is one: either eight explicit
/// groups, or head and tail groups around one `::` standing for the missing
/// zero groups.  The final piece may be an embedded dotted quad, standing
/// for the last two groups.
pub open spec fn ipv6_groups(s: Seq<char>) -> Option<Seq<int>> {
    let d = first_dc(s);
    if d + 2 <= s.len() {
        let head = s.take(d);
        let tail = s.skip(d + 2);
        match (groups_of(head), groups_of_v4(tail)) {
            (Some(h), Some(t)) => if h.len() + t.len() <= 7 {
                Some(h + Seq::new((8 - h.len() - t.len()) as nat, |i: int| 0int) + t)
            } else {
                None
            },
            _ => None,
        }
    } else {
        match groups_of_v4(s) {
            Some(g) => if g.len() == 8 {
                Some(g)
            } else {
                None
            },
            None => None,
        }
    }
}

/// The address eight group values stand for.
pub open spec fn ipv6_of(g: Seq<int>) -> Ip {
    Ip::V6(
        g[0] as u16,
        g[1] as u16,
        g[2] as u16,
        g[3] as u16,
        g[4] as u16,
        g[5] as u16,
        g[6] as u16,
        g[7] as u16,
    )
}

/// An IPv6 literal such as `2001:db8::2:1`.
pub open spec fn spec_ipv6(s: Seq<char>) -> Option<Ip> {
    match ipv6_groups(s) {
        Some(g) => Some(ipv6_of(g)),
        None => None,
    }
}

proof fn lemma_hex_value_small(p: Seq<char>)
    requires
        all_hex(p),
    ensures
        hex_value(p) >= 0,
        p.len() <= 1 ==> hex_value(p) <= 15,
        p.len() <= 2 ==> hex_value(p) <= 255,
        p.len() <= 3 ==> hex_value(p) <= 4095,
        p.len() <= 4 ==> hex_value(p) <= 65535,
    decreases p.len(),
{
    if p.len() > 0 {
        assert(all_hex(p.drop_last())) by {
            assert(forall|j: int|
                0 <= j < p.len() - 1 ==> is_hex_digit(#[trigger] p.drop_last()[j]));
        }
        lemma_hex_value_small(p.drop_last());
        assert(is_hex_digit(p.last()));
    }
}

/// Parse the colon-separated groups of `s` starting at `start`.
fn groups_from(s: &str, start: usize) -> (r: Option<Vec<u16>>)
    requires
        start <= s@.len(),
        s@.len() < usize::MAX,
    ensures
        r is Some <==> groups_vals(s@.skip(start as int)) is Some,
        r matches Some(v) ==> {
            &&& groups_vals(s@.skip(start as int)) matches Some(vs)
            &&& v@.len() == vs.len()
            &&& forall|i: int| 0 <= i < vs.len() ==> v@[i] as int == vs[i]
        },
    decreases s@.len() - start,
{
    let ghost t = s@.skip(start as int);
    let n = s.unicode_len();
    let mut i: usize = start;
    while i < n && s.get_char(i) != ':'
        invariant
            start <= i <= n,
            n == s@.len(),
            t == s@.skip(start as int),
            forall|j: int| start <= j < i ==> s@[j] != ':',
        decreases n - i,
    {
        i = i + 1;
    }
    proof {
        assert forall|j: int| 0 <= j < i - start implies t[j] != ':' by {
            assert(t[j] == s@[start + j]);
        }
        if i < n {
            assert(t[i - start] == s@[i as int]);
        }
        lemma_first_occ_at(t, ':', i - start as int);
    }
    let ghost p = t.take(i - start as int);
    // the group must be one to four hex digits
    if i - start < 1 || i - start > 4 {
        return None;
    }
    let mut v: u32 = 0;
    let mut j: usize = start;
    while j < i
        invariant
            start <= j <= i <= s@.len(),
            i - start <= 4,
            t == s@.skip(start as int),
            p == t.take(i - start as int),
            first_occ(t, ':') == i - start,
            forall|m: int| 0 <= m < j - start ==> is_hex_digit(#[trigger] p[m]),
            v == hex_value(p.take(j - start as int)),
            v <= 65535,
        decreases i - j,
    {
        let c = s.get_char(j);
        proof {
            assert(p[j - start] == s@[j as int]);
        }
        if !is_hex_digit_exec(c) {
            proof {
                assert(0 <= j - start < p.len() && !is_hex_digit(p[j - start]));
                assert(!group_ok(p));
            }
            return None;
        }
        let d = hex_val_exec(c);
        proof {
            assert(p.take(j - start + 1).drop_last() =~= p.take(j - start as int));
            assert(p.take(j - start + 1).last() == p[j - start]);
            let ghost q = p.take(j - start + 1);
            assert(all_hex(q)) by {
                assert(forall|m: int| 0 <= m < q.len() ==> is_hex_digit(#[trigger] q[m]));
            }
            lemma_hex_value_small(q);
        }
        v = v * 16 + d;
        j = j + 1;
    }
    proof {
        assert(p.take(i - start as int) =~= p);
        assert(all_hex(p));
        assert(group_ok(p));
    }
    if i == n {
        let mut out: Vec<u16> = Vec::new();
        out.push(v as u16);
        return Some(out);
    }
    proof {
        assert(t.skip(i - start + 1) =~= s@.skip(i + 1 as int));
    }
    match groups_from(s, i + 1) {
        None => None,
        Some(mut rest) => {
            rest.insert(0, v as u16);
            Some(rest)
        },
    }
}

/// Parse a colon-separated group list, where the empty string stands for
/// zero groups.
fn parse_groups(s: &str) -> (r: Option<Vec<u16>>)
    requires
        s@.len() < usize::MAX,
    ensures
        r is Some <==> groups_of(s@) is Some,
        r matches Some(v) ==> {
            &&& groups_of(s@) matches Some(vs)
            &&& v@.len() == vs.len()
            &&& forall|i: int| 0 <= i < vs.len() ==> v@[i] as int == vs[i]
        },
{
    if s.unicode_len() == 0 {
        let out: Vec<u16> = Vec::new();
        Some(out)
    } else {
        proof {
            assert(s@.skip(0) =~= s@);
        }
        groups_from(s, 0)
    }
}

/// Parse one colon-free piece as a hexadecimal group.
fn parse_group(s: &str) -> (r: Option<u16>)
    requires
        s@.len() < usize::MAX,
    ensures
        group_ok(s@) ==> r == Some((hex_value(s@) as u16)),
        !group_ok(s@) ==> r is None,
{
    let n = s.unicode_len();
    if n < 1 || n > 4 {
        return None;
    }
    let mut v: u32 = 0;
    let mut j: usize = 0;
    while j < n
        invariant
            0 <= j <= n,
            n == s@.len(),
            n <= 4,
            forall|m: int| 0 <= m < j ==> is_hex_digit(#[trigger] s@[m]),
            v == hex_value(s@.take(j as int)),
            v <= 65535,
        decreases n - j,
    {
        let c = s.get_char(j);
        if !is_hex_digit_exec(c) {
            proof {
                assert(!all_hex(s@));
            }
            return None;
        }
        let d = hex_val_exec(c);
        proof {
            assert(s@.take(j + 1).drop_last() =~= s@.take(j as int));
            assert(s@.take(j + 1).last() == s@[j as int]);
            let ghost q = s@.take(j + 1);
            assert(all_hex(q)) by {
                assert(forall|m: int| 0 <= m < q.len() ==> is_hex_digit(#[trigger] q[m]));
            }
            lemma_hex_value_small(q);
        }
        v = v * 16 + d;
        j = j + 1;
    }
    proof {
        assert(s@.take(n as int) =~= s@);
    }
    Some(v as u16)
}

/// Parse the colon-separated groups of `s` starting at `start`, allowing an
/// embedded dotted quad as the final piece.
fn groups_from_v4(s: &str, start: usize) -> (r: Option<Vec<u16>>)
    requires
        start <= s@.len(),
        s@.len() < usize::MAX,
    ensures
        r is Some <==> groups_vals_v4(s@.skip(start as int)) is Some,
        r matches Some(v) ==> {
            &&& groups_vals_v4(s@.skip(start as int)) matches Some(vs)
            &&& v@.len() == vs.len()
            &&& forall|i: int| 0 <= i < vs.len() ==> v@[i] as int == vs[i]
        },
    decreases s@.len() - start,
{
    let ghost t = s@.skip(start as int);
    let n = s.unicode_len();
    let mut i: usize = start;
    while i < n && s.get_char(i) != ':'
        invariant
            start <= i <= n,
            n == s@.len(),
            t == s@.skip(start as int),
            forall|j: int| start <= j < i ==> s@[j] != ':',
        decreases n - i,
    {
        i = i + 1;
    }
    proof {
        assert forall|j: int| 0 <= j < i - start implies t[j] != ':' by {
            assert(t[j] == s@[start + j]);
        }
        if i < n {
            assert(t[i - start] == s@[i as int]);
        }
        lemma_first_occ_at(t, ':', i - start as int);
    }
    let piece = s.substring_char(start, i);
    proof {
        assert(piece@ =~= t.take(i - start as int));
    }
    if i == n {
        proof {
            assert(piece@ =~= t);
        }
        // the final piece: a group, or an embedded dotted quad
        match parse_group(piece) {
            Some(v) => {
                let mut out: Vec<u16> = Vec::new();
                out.push(v);
                proof {
                    assert(out@ =~= seq![v]);
                    lemma_hex_value_small(piece@);
                }
                Some(out)
            },
            None => match parse_ipv4(piece) {
                Some(Ip::V4(a, b, c, d)) => {
                    let hi: u16 = (a as u16) * 256 + (b as u16);
                    let lo: u16 = (c as u16) * 256 + (d as u16);
                    let mut out: Vec<u16> = Vec::new();
                    out.push(hi);
                    out.push(lo);
                    proof {
                        assert(out@ =~= seq![hi, lo]);
                        assert(groups_vals_v4(t) == Some(
                            v4_group_pair(Ip::V4(a, b, c, d)),
                        ));
                        assert(v4_group_pair(Ip::V4(a, b, c, d)) == seq![
                            a as int * 256 + b as int,
                            c as int * 256 + d as int,
                        ]);
                    }
                    Some(out)
                },
                Some(_) => {
                    proof {
                        assert(false);
                    }
                    None
                },
                None => None,
            },
        }
    } else {
        match parse_group(piece) {
            None => None,
            Some(v) => {
                proof {
                    assert(t.skip(i - start + 1) =~= s@.skip(i + 1 as int));
                    lemma_hex_value_small(piece@);
                }
                match groups_from_v4(s, i + 1) {
                    None => None,
                    Some(mut rest) => {
                        rest.insert(0, v);
                        Some(rest)
                    },
                }
            },
        }
    }
}

/// Parse a colon-separated group list with an optional embedded dotted
/// quad, where the empty string stands for zero groups.
fn parse_groups_v4(s: &str) -> (r: Option<Vec<u16>>)
    requires
        s@.len() < usize::MAX,
    ensures
        r is Some <==> groups_of_v4(s@) is Some,
        r matches Some(v) ==> {
            &&& groups_of_v4(s@) matches Some(vs)
            &&& v@.len() == vs.len()
            &&& forall|i: int| 0 <= i < vs.len() ==> v@[i] as int == vs[i]
        },
{
    if s.unicode_len() == 0 {
        let out: Vec<u16> = Vec::new();
        Some(out)
    } else {
        proof {
            assert(s@.skip(0) =~= s@);
        }
        groups_from_v4(s, 0)
    }
}

/// Find the first `::` of `s`, if any.
fn find_dc(s: &str) -> (r: Option<usize>)
    requires
        s@.len() < usize::MAX,
    ensures
        r matches Some(i) ==> i == first_dc(s@) && i + 2 <= s@.len(),
        r is None ==> first_dc(s@) + 2 > s@.len(),
{
    let n = s.unicode_len();
    if n < 2 {
        proof {
            lemma_first_dc(s@);
        }
        return None;
    }
    let mut j: usize = 0;
    while j + 1 < n
        invariant
            0 <= j <= n,
            n == s@.len(),
            n < usize::MAX,
            2 <= n,
            forall|m: int| 0 <= m < j ==> !(#[trigger] s@[m] == ':' && s@[m + 1] == ':'),
        decreases n - j,
    {
        if s.get_char(j) == ':' && s.get_char(j + 1) == ':' {
            proof {
                lemma_first_dc_found(s@, j as int);
            }
            return Some(j);
        }
        j = j + 1;
    }
    proof {
        lemma_first_dc(s@);
        if first_dc(s@) + 2 <= s@.len() {
            assert(!(s@[first_dc(s@)] == ':' && s@[first_dc(s@) + 1] == ':'));
        }
    }
    None
}

/// Parse an IPv6 literal.
pub fn parse_ipv6(s: &str) -> (r: Option<Ip>)
    requires
        s@.len() < usize::MAX,
    ensures
        r == spec_ipv6(s@),
{
    let n = s.unicode_len();
    match find_dc(s) {
        Some(d) => {
            let head = s.substring_char(0, d);
            let tail = s.substring_char(d + 2, n);
            proof {
                assert(head@ =~= s@.take(d as int));
                assert(tail@ =~= s@.skip(d + 2 as int));
            }
            let gh = match parse_groups(head) {
                Some(v) => v,
                None => {
                    return None;
                },
            };
            let gt = match parse_groups_v4(tail) {
                Some(v) => v,
                None => {
                    return None;
                },
            };
            if gh.len() > 7 || gt.len() > 7 - gh.len() {
                return None;
            }
            let ghost hs = groups_of(head@)->Some_0;
            let ghost ts = groups_of_v4(tail@)->Some_0;
            let ghost full = hs + Seq::new((8 - hs.len() - ts.len()) as nat, |i: int| 0int) + ts;
            let mut out: Vec<u16> = Vec::new();
            let mut i: usize = 0;
            while i < gh.len()
                invariant
                    0 <= i <= gh.len(),
                    forall|m: int| 0 <= m < hs.len() ==> gh@[m] as int == hs[m],
                    gh@.len() == hs.len(),
                    out@.len() == i,
                    forall|m: int| 0 <= m < i ==> out@[m] == gh@[m],
                decreases gh.len() - i,
            {
                out.push(gh[i]);
                i = i + 1;
            }
            let zeros: usize = 8 - gh.len() - gt.len();
            let mut z: usize = 0;
            while z < zeros
                invariant
                    0 <= z <= zeros,
                    out@.len() == gh@.len() + z,
                    forall|m: int| 0 <= m < gh@.len() ==> out@[m] == gh@[m],
                    forall|m: int| gh@.len() <= m < out@.len() ==> out@[m] == 0u16,
                decreases zeros - z,
            {
                out.push(0u16);
                z = z + 1;
            }
            let mut k: usize = 0;
            while k < gt.len()
                invariant
                    0 <= k <= gt.len(),
                    out@.len() == gh@.len() + zeros + k,
                    zeros == 8 - gh@.len() - gt.len(),
                    gh@.len() + gt.len() <= 7,
                    forall|m: int| 0 <= m < gh@.len() ==> out@[m] == gh@[m],
                    forall|m: int| gh@.len() <= m < gh@.len() + zeros ==> out@[m] == 0u16,
                    forall|m: int|
                        gh@.len() + zeros <= m < out@.len() ==> out@[m] == gt@[
                            m - gh@.len() - zeros
                        ],
                decreases gt.len() - k,
            {
                out.push(gt[k]);
                k = k + 1;
            }
            proof {
                assert(out@.len() == 8);
                assert(full.len() == 8);
                assert forall|m: int| 0 <= m < 8 implies out@[m] as int == full[m] by {
                    if m < hs.len() {
                    } else if m < hs.len() + (8 - hs.len() - ts.len()) {
                        assert(full[m] == 0int);
                    } else {
                        assert(full[m] == ts[m - hs.len() - (8 - hs.len() - ts.len())]);
                    }
                }
            }
            Some(
                Ip::V6(
                    out[0],
                    out[1],
                    out[2],
                    out[3],
                    out[4],
                    out[5],
                    out[6],
                    out[7],
                ),
            )
        },
        None => {
            if n == 0 {
                return None;
            }
            proof {
                assert(s@.skip(0) =~= s@);
            }
            match groups_from_v4(s, 0) {
                Some(g) => {
                    if g.len() == 8 {
                        Some(
                            Ip::V6(
                                g[0],
                                g[1],
                                g[2],
                                g[3],
                                g[4],
                                g[5],
                                g[6],
                                g[7],
                            ),
                        )
                    } else {
                        None
                    }
                },
                None => None,
            }
        },
    }
}

/// An IP literal: IPv4 first, then IPv6.
pub open spec fn spec_ip(s: Seq<char>) -> Option<Ip> {
    if spec_ipv4(s) is Some {
        spec_ipv4(s)
    } else {
        spec_ipv6(s)
    }
}

/// Parse an IP literal of either family.
pub fn parse_ip(s: &str) -> (r: Option<Ip>)
    requires
        s@.len() < usize::MAX,
    ensures
        r == spec_ip(s@),
{
    match parse_ipv4(s) {
        Some(ip) => Some(ip),
        None => parse_ipv6(s),
    }
}

/// A socket-address literal: `v4:port`, or `[v6]:port`.
pub open spec fn spec_sockaddr(s: Seq<char>) -> Option<SockAddr> {
    let k = first_occ(s, ':');
    if k < s.len() && spec_ipv4(s.take(k)) is Some && port_ok(s.skip(k + 1)) {
        Some(
            SockAddr {
                ip: spec_ipv4(s.take(k))->Some_0,
                port: dec_value(s.skip(k + 1)) as u16,
            },
        )
    } else if s.len() > 0 && s[0] == '[' {
        let j = first_occ(s, ']');
        if j + 1 < s.len() && s[j + 1] == ':' && spec_ipv6(s.subrange(1, j)) is Some && port_ok(
            s.skip(j + 2),
        ) {
            Some(
                SockAddr {
                    ip: spec_ipv6(s.subrange(1, j))->Some_0,
                    port: dec_value(s.skip(j + 2)) as u16,
                },
            )
        } else {
            None
        }
    } else {
        None
    }
}

/// Find the first occurrence of `c` in `s`, if any.
pub fn find_char(s: &str, c: char) -> (r: Option<usize>)
    requires
        s@.len() < usize::MAX,
    ensures
        r matches Some(i) ==> i == first_occ(s@, c) && i < s@.len(),
        r is None ==> first_occ(s@, c) == s@.len(),
{
    let n = s.unicode_len();
    let mut j: usize = 0;
    while j < n
        invariant
            0 <= j <= n,
            n == s@.len(),
            forall|m: int| 0 <= m < j ==> s@[m] != c,
        decreases n - j,
    {
        if s.get_char(j) == c {
            proof {
                lemma_first_occ_at(s@, c, j as int);
            }
            return Some(j);
        }
        j = j + 1;
    }
    proof {
        lemma_first_occ_at(s@, c, n as int);
    }
    None
}

/// Parse a socket-address literal.
pub fn parse_sockaddr(s: &str) -> (r: Option<SockAddr>)
    requires
        s@.len() < usize::MAX,
    ensures
        r == spec_sockaddr(s@),
{
    let n = s.unicode_len();
    match find_char(s, ':') {
        Some(k) => {
            let head = s.substring_char(0, k);
            proof {
                assert(head@ =~= s@.take(k as int));
            }
            match parse_ipv4(head) {
                Some(ip) => {
                    let tail = s.substring_char(k + 1, n);
                    proof {
                        assert(tail@ =~= s@.skip(k + 1 as int));
                    }
                    match parse_port(tail) {
                        Some(port) => {
                            proof {
                                if !port_ok(tail@) {
                                    assert(false);
                                }
                            }
                            return Some(SockAddr { ip, port });
                        },
                        None => {
                            return parse_sockaddr_bracket(s);
                        },
                    }
                },
                None => {
                    return parse_sockaddr_bracket(s);
                },
            }
        },
        None => {
            return parse_sockaddr_bracket(s);
        },
    }
}

/// The bracketed `[v6]:port` form.
fn parse_sockaddr_bracket(s: &str) -> (r: Option<SockAddr>)
    requires
        s@.len() < usize::MAX,
        !(first_occ(s@, ':') < s@.len() && spec_ipv4(s@.take(first_occ(s@, ':'))) is Some
            && port_ok(s@.skip(first_occ(s@, ':') + 1))),
    ensures
        r == spec_sockaddr(s@),
{
    let n = s.unicode_len();
    if n == 0 || s.get_char(0) != '[' {
        return None;
    }
    match find_char(s, ']') {
        Some(j) => {
            proof {
                lemma_first_occ(s@, ']');
                assert(s@[j as int] == ']');
                assert(j >= 1);
            }
            if j + 1 < n && s.get_char(j + 1) == ':' {
                let inner = s.substring_char(1, j);
                proof {
                    assert(inner@ =~= s@.subrange(1, j as int));
                }
                match parse_ipv6(inner) {
                    Some(ip) => {
                        let tail = s.substring_char(j + 2, n);
                        proof {
                            assert(tail@ =~= s@.skip(j + 2 as int));
                        }
                        match parse_port(tail) {
                            Some(port) => Some(SockAddr { ip, port }),
                            None => None,
                        }
                    },
                    None => None,
                }
            } else {
                None
            }
        },
        None => None,
    }
}

} // verus!
