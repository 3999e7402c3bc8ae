//! Laws of the name grammar: a name rendered in the `Auto` form parses back
//! to itself — for service names, bare hosts, `host:port`, and IP literals
//! of both families.

use vstd::prelude::*;

use crate::addr::{Ip, SockAddr};
use crate::chars::{
    all_digits, all_hex, dec_value, digit_val, first_occ, hex_val, hex_value, is_digit,
    is_hex_digit, lemma_first_occ, lemma_first_occ_at,
};
use crate::literal::{
    first_dc, group_ok, groups_vals, groups_vals_v4, ipv6_groups, ipv6_of, lemma_first_dc,
    lemma_first_dc_found, octet_ok, octets_of, port_ok, spec_ipv4, spec_ipv6, spec_sockaddr,
    spec_u16_str, v4_group_pair,
};
use crate::name::{
    allowed_char, namecheck_err, piece_err, spec_parse_auto, strip_root_dot, valid_name,
    InternalNameView,
};

verus! {

/// Every character of a checked label string is a dot or a label character.
proof fn lemma_namecheck_chars(t: Seq<char>)
    requires
        namecheck_err(t) is None,
    ensures
        forall|i: int| 0 <= i < t.len() ==> t[i] == '.' || allowed_char(#[trigger] t[i]),
    decreases t.len(),
{
    lemma_first_occ(t, '.');
    let k = first_occ(t, '.');
    let piece = t.take(k);
    assert(piece_err(piece) is None);
    assert(forall|i: int| 0 <= i < k ==> allowed_char(#[trigger] piece[i]));
    if k < t.len() {
        lemma_namecheck_chars(t.skip(k + 1));
        assert forall|i: int| 0 <= i < t.len() implies t[i] == '.' || allowed_char(
            #[trigger] t[i],
        ) by {
            if i < k {
                assert(t[i] == piece[i]);
            } else if i == k {
            } else {
                assert(t[i] == t.skip(k + 1)[i - k - 1]);
            }
        }
    } else {
        assert forall|i: int| 0 <= i < t.len() implies t[i] == '.' || allowed_char(
            #[trigger] t[i],
        ) by {
            assert(t[i] == piece[i]);
        }
    }
}

/// Every character of a valid name is a dot or a label character.
pub proof fn lemma_valid_name_chars(s: Seq<char>)
    requires
        valid_name(s),
    ensures
        forall|i: int| 0 <= i < s.len() ==> s[i] == '.' || allowed_char(#[trigger] s[i]),
{
    lemma_namecheck_chars(strip_root_dot(s));
    assert forall|i: int| 0 <= i < s.len() implies s[i] == '.' || allowed_char(
        #[trigger] s[i],
    ) by {
        if s.len() > 0 && s[s.len() - 1] == '.' {
            if i < s.len() - 1 {
                assert(s[i] == strip_root_dot(s)[i]);
            }
        } else {
            assert(s[i] == strip_root_dot(s)[i]);
        }
    }
}

/// A valid name never contains a character that is neither a dot nor a
/// label character — a colon or a bracket, for instance.
pub proof fn lemma_valid_name_free_of(s: Seq<char>, c: char)
    requires
        valid_name(s),
        c != '.',
        !allowed_char(c),
    ensures
        first_occ(s, c) == s.len(),
        forall|i: int| 0 <= i < s.len() ==> s[i] != c,
{
    lemma_valid_name_chars(s);
    assert forall|i: int| 0 <= i < s.len() implies s[i] != c by {
        assert(s[i] == '.' || allowed_char(s[i]));
    }
    lemma_first_occ_at(s, c, s.len() as int);
}

/// A string whose octets parse consists of digits and dots only.
proof fn lemma_octets_chars(t: Seq<char>)
    requires
        octets_of(t) is Some,
    ensures
        forall|i: int| 0 <= i < t.len() ==> t[i] == '.' || is_digit(#[trigger] t[i]),
    decreases t.len(),
{
    lemma_first_occ(t, '.');
    let k = first_occ(t, '.');
    let piece = t.take(k);
    assert(octet_ok(piece));
    if k < t.len() {
        lemma_octets_chars(t.skip(k + 1));
        assert forall|i: int| 0 <= i < t.len() implies t[i] == '.' || is_digit(
            #[trigger] t[i],
        ) by {
            if i < k {
                assert(t[i] == piece[i]);
                assert(is_digit(piece[i]));
            } else if i == k {
            } else {
                assert(t[i] == t.skip(k + 1)[i - k - 1]);
            }
        }
    } else {
        assert forall|i: int| 0 <= i < t.len() implies t[i] == '.' || is_digit(
            #[trigger] t[i],
        ) by {
            assert(t[i] == piece[i]);
            assert(is_digit(piece[i]));
        }
    }
}

/// A string containing a character that is neither a digit nor a dot is no
/// IPv4 literal.
proof fn lemma_not_ipv4(s: Seq<char>, i: int)
    requires
        0 <= i < s.len(),
        s[i] != '.',
        !is_digit(s[i]),
    ensures
        spec_ipv4(s) is None,
{
    if octets_of(s) is Some {
        lemma_octets_chars(s);
    }
}

/// A string without adjacent colons and with fewer than seven single colons
/// is no IPv6 literal; here specialized: no colon at all, or exactly one.
proof fn lemma_not_ipv6_few_colons(s: Seq<char>, colon_at: Option<int>)
    requires
        match colon_at {
            None => forall|i: int| 0 <= i < s.len() ==> s[i] != ':',
            Some(p) => 0 <= p < s.len() && s[p] == ':' && (forall|i: int|
                0 <= i < s.len() && i != p ==> s[i] != ':'),
        },
    ensures
        spec_ipv6(s) is None,
{
    lemma_first_dc(s);
    let d = first_dc(s);
    if d + 2 <= s.len() {
        assert(s[d] == ':' && s[d + 1] == ':');
        match colon_at {
            None => {
                assert(false);
            },
            Some(p) => {
                assert(d == p && d + 1 == p);
                assert(false);
            },
        }
    }
    // no double colon: the eight-group reading applies, and one colon
    // yields at most three groups even with an embedded dotted quad
    match colon_at {
        None => {
            if s.len() == 0 {
                assert(ipv6_groups(s) is None);
            } else {
                lemma_first_occ_at(s, ':', s.len() as int);
                assert(s.take(s.len() as int) =~= s);
                if group_ok(s) {
                    assert(groups_vals_v4(s) == Some(seq![hex_value(s)]));
                } else {
                    match spec_ipv4(s) {
                        Some(ip) => {
                            assert(groups_vals_v4(s) == Some(v4_group_pair(ip)));
                            assert(v4_group_pair(ip).len() <= 2);
                        },
                        None => {
                            assert(groups_vals_v4(s) is None);
                        },
                    }
                }
                assert(ipv6_groups(s) is None);
            }
        },
        Some(p) => {
            assert(s.len() > 0);
            lemma_first_occ_at(s, ':', p);
            let head = s.take(p);
            let tail = s.skip(p + 1);
            if group_ok(head) {
                assert(forall|i: int| 0 <= i < tail.len() ==> tail[i] != ':') by {
                    assert(forall|i: int|
                        0 <= i < tail.len() ==> tail[i] == s[p + 1 + i] && p + 1 + i != p);
                }
                lemma_first_occ_at(tail, ':', tail.len() as int);
                assert(tail.take(tail.len() as int) =~= tail);
                if group_ok(tail) {
                    assert(groups_vals_v4(tail) == Some(seq![hex_value(tail)]));
                    assert(groups_vals_v4(s)->Some_0.len() == 2);
                } else {
                    match spec_ipv4(tail) {
                        Some(ip) => {
                            assert(groups_vals_v4(tail) == Some(v4_group_pair(ip)));
                            assert(v4_group_pair(ip).len() <= 2);
                            assert(groups_vals_v4(s)->Some_0.len() <= 3);
                        },
                        None => {
                            assert(groups_vals_v4(tail) is None);
                        },
                    }
                }
            }
            assert(ipv6_groups(s) is None);
        },
    }
}

/// Law: a valid service name — one that starts with an underscore — parses
/// back to a service query, whatever the default port.
pub proof fn lemma_roundtrip_service(s: Seq<char>, default_port: u16)
    requires
        valid_name(s),
        s.len() > 0,
        s[0] == '_',
    ensures
        spec_parse_auto(s, default_port) == Ok::<_, crate::name::ErrorView>(
            InternalNameView::Service(s),
        ),
{
    lemma_valid_name_free_of(s, ':');
    lemma_valid_name_free_of(s, '[');
    lemma_not_ipv4(s, 0);
    lemma_not_ipv6_few_colons(s, None);
    assert(spec_sockaddr(s) is None) by {
        lemma_first_occ(s, ':');
    }
}

/// Law: a valid bare host name that is not an IP literal parses back to a
/// host query carrying the default port.
pub proof fn lemma_roundtrip_bare_host(s: Seq<char>, default_port: u16)
    requires
        valid_name(s),
        s.len() > 0,
        s[0] != '_',
        spec_ipv4(s) is None,
    ensures
        spec_parse_auto(s, default_port) == Ok::<_, crate::name::ErrorView>(
            InternalNameView::HostPort(s, default_port),
        ),
{
    lemma_valid_name_free_of(s, ':');
    lemma_valid_name_free_of(s, '[');
    lemma_not_ipv6_few_colons(s, None);
    assert(spec_sockaddr(s) is None) by {
        lemma_first_occ(s, ':');
    }
}

/// Law: a valid host name that is not an IPv4 literal, joined with a colon
/// and a port written in decimal, parses back to the host and that port.
pub proof fn lemma_roundtrip_host_port(h: Seq<char>, ds: Seq<char>, default_port: u16)
    requires
        valid_name(h),
        h.len() > 0,
        h[0] != '_',
        spec_ipv4(h) is None,
        ds.len() >= 1,
        all_digits(ds),
        dec_value(ds) <= 65535,
    ensures
        spec_parse_auto(h + seq![':'] + ds, default_port) == Ok::<_, crate::name::ErrorView>(
            InternalNameView::HostPort(h, dec_value(ds) as u16),
        ),
{
    let s = h + seq![':'] + ds;
    lemma_valid_name_free_of(h, ':');
    lemma_valid_name_free_of(h, '[');
    assert(forall|i: int| 0 <= i < h.len() ==> s[i] == h[i]);
    assert(s[h.len() as int] == ':');
    assert(forall|j: int| 0 <= j < ds.len() ==> s[h.len() + 1 + j] == ds[j]);
    // the single colon sits at the end of the host part
    assert forall|i: int| 0 <= i < s.len() && i != h.len() implies s[i] != ':' by {
        if i < h.len() {
            assert(s[i] == h[i]);
        } else {
            assert(s[i] == ds[i - h.len() - 1]);
            assert(is_digit(ds[i - h.len() - 1]));
        }
    }
    lemma_first_occ_at(s, ':', h.len() as int);
    // not an IP literal of either family
    lemma_not_ipv4(s, h.len() as int);
    lemma_not_ipv6_few_colons(s, Some(h.len() as int));
    // not a socket address: the host part is no IPv4 literal and the first
    // character is no bracket
    assert(s.take(h.len() as int) =~= h);
    assert(s[0] == h[0]);
    assert(s[0] != '[');
    // the host:port reading applies
    assert(s.skip(h.len() as int + 1) =~= ds);
    assert(spec_u16_str(ds) == Some((dec_value(ds) as u16))) by {
        assert(ds[0] != '+');
        assert(port_ok(ds));
    }
    assert(s.len() > 0 && s[0] != '_');
}

/// The character of one decimal digit.
pub open spec fn digit_char(d: int) -> char {
    if d == 0 {
        '0'
    } else if d == 1 {
        '1'
    } else if d == 2 {
        '2'
    } else if d == 3 {
        '3'
    } else if d == 4 {
        '4'
    } else if d == 5 {
        '5'
    } else if d == 6 {
        '6'
    } else if d == 7 {
        '7'
    } else if d == 8 {
        '8'
    } else {
        '9'
    }
}

/// The canonical decimal rendering of a non-negative number: no sign, no
/// leading zero.
pub open spec fn dec_str(n: int) -> Seq<char>
    decreases n,
{
    if n < 10 {
        seq![digit_char(n)]
    } else {
        dec_str(n / 10).push(digit_char(n % 10))
    }
}

/// The decimal rendering reads back to the number it renders.
pub proof fn lemma_dec_str(n: int)
    requires
        0 <= n,
    ensures
        dec_str(n).len() >= 1,
        all_digits(dec_str(n)),
        dec_value(dec_str(n)) == n,
        n >= 1 ==> dec_str(n)[0] != '0',
        n < 10 ==> dec_str(n).len() == 1,
        n < 100 ==> dec_str(n).len() <= 2,
        n < 1000 ==> dec_str(n).len() <= 3,
    decreases n,
{
    if n < 10 {
        let s = seq![digit_char(n)];
        assert(is_digit(s[0]));
        assert(dec_value(Seq::<char>::empty()) == 0);
        assert(s.drop_last() =~= Seq::<char>::empty());
        assert(s.last() == digit_char(n));
        assert(digit_val(digit_char(n)) == n);
        assert(dec_value(s) == dec_value(s.drop_last()) * 10 + digit_val(s.last()));
    } else {
        lemma_dec_str(n / 10);
        let s = dec_str(n / 10).push(digit_char(n % 10));
        assert(s.drop_last() =~= dec_str(n / 10));
        assert(s.last() == digit_char(n % 10));
        assert(is_digit(digit_char(n % 10)));
        assert(all_digits(s)) by {
            assert forall|i: int| 0 <= i < s.len() implies is_digit(#[trigger] s[i]) by {
                if i < s.len() - 1 {
                    assert(s[i] == dec_str(n / 10)[i]);
                }
            }
        }
        assert(digit_val(digit_char(n % 10)) == n % 10);
        assert(dec_value(s) == (n / 10) * 10 + n % 10);
        assert((n / 10) * 10 + n % 10 == n);
        assert(s[0] == dec_str(n / 10)[0]);
    }
}

/// The digits of a rendering followed by a dot and more octets read as that
/// octet in front of the rest.
proof fn lemma_octets_cons(x: int, rest: Seq<char>)
    requires
        0 <= x <= 255,
        octets_of(rest) is Some,
    ensures
        octets_of(dec_str(x) + seq!['.'] + rest) == Some(
            seq![x] + octets_of(rest)->Some_0,
        ),
{
    lemma_dec_str(x);
    let p = dec_str(x);
    let t = p + seq!['.'] + rest;
    assert(forall|i: int| 0 <= i < p.len() ==> t[i] == p[i]);
    assert(t[p.len() as int] == '.');
    assert forall|i: int| 0 <= i < p.len() implies t[i] != '.' by {
        assert(t[i] == p[i] && is_digit(p[i]));
    }
    lemma_first_occ_at(t, '.', p.len() as int);
    assert(t.take(p.len() as int) =~= p);
    assert(octet_ok(p));
    assert(t.skip(p.len() as int + 1) =~= rest);
}

/// A bare octet rendering reads as one octet.
proof fn lemma_octets_single(x: int)
    requires
        0 <= x <= 255,
    ensures
        octets_of(dec_str(x)) == Some(seq![x]),
{
    lemma_dec_str(x);
    let p = dec_str(x);
    assert forall|i: int| 0 <= i < p.len() implies p[i] != '.' by {
        assert(is_digit(p[i]));
    }
    lemma_first_occ_at(p, '.', p.len() as int);
    assert(p.take(p.len() as int) =~= p);
    assert(octet_ok(p));
}

/// The dotted-quad rendering of an IPv4 address.
pub open spec fn render_ipv4(a: u8, b: u8, c: u8, d: u8) -> Seq<char> {
    dec_str(a as int) + seq!['.'] + (dec_str(b as int) + seq!['.'] + (dec_str(c as int)
        + seq!['.'] + dec_str(d as int)))
}

/// The rendering reads back as the four octets.
proof fn lemma_ipv4_render(a: u8, b: u8, c: u8, d: u8)
    ensures
        spec_ipv4(render_ipv4(a, b, c, d)) == Some(Ip::V4(a, b, c, d)),
{
    lemma_octets_single(d as int);
    lemma_octets_cons(c as int, dec_str(d as int));
    lemma_octets_cons(
        b as int,
        dec_str(c as int) + seq!['.'] + dec_str(d as int),
    );
    lemma_octets_cons(
        a as int,
        dec_str(b as int) + seq!['.'] + (dec_str(c as int) + seq!['.'] + dec_str(d as int)),
    );
    let vs = octets_of(render_ipv4(a, b, c, d))->Some_0;
    assert(vs =~= seq![a as int, b as int, c as int, d as int]);
}

/// Law: an IPv4 literal in dotted-quad form parses to the literal endpoint
/// carrying the default port; no back-end and no static table is involved.
pub proof fn lemma_roundtrip_ipv4(a: u8, b: u8, c: u8, d: u8, default_port: u16)
    ensures
        spec_parse_auto(render_ipv4(a, b, c, d), default_port) == Ok::<
            _,
            crate::name::ErrorView,
        >(InternalNameView::Addr(SockAddr { ip: Ip::V4(a, b, c, d), port: default_port })),
{
    lemma_ipv4_render(a, b, c, d);
}

/// The character of one hexadecimal digit, lower case.
pub open spec fn hex_char(d: int) -> char {
    if d < 10 {
        digit_char(d)
    } else if d == 10 {
        'a'
    } else if d == 11 {
        'b'
    } else if d == 12 {
        'c'
    } else if d == 13 {
        'd'
    } else if d == 14 {
        'e'
    } else {
        'f'
    }
}

/// The canonical hexadecimal rendering of a non-negative number.
pub open spec fn hex_str(n: int) -> Seq<char>
    decreases n,
{
    if n < 16 {
        seq![hex_char(n)]
    } else {
        hex_str(n / 16).push(hex_char(n % 16))
    }
}

/// The hexadecimal rendering reads back to the number it renders.
pub proof fn lemma_hex_str(n: int)
    requires
        0 <= n,
    ensures
        hex_str(n).len() >= 1,
        all_hex(hex_str(n)),
        hex_value(hex_str(n)) == n,
        n < 16 ==> hex_str(n).len() == 1,
        n < 256 ==> hex_str(n).len() <= 2,
        n < 4096 ==> hex_str(n).len() <= 3,
        n < 65536 ==> hex_str(n).len() <= 4,
    decreases n,
{
    if n < 16 {
        let s = seq![hex_char(n)];
        assert(is_hex_digit(s[0]));
        assert(hex_value(Seq::<char>::empty()) == 0);
        assert(s.drop_last() =~= Seq::<char>::empty());
        assert(s.last() == hex_char(n));
        assert(hex_val(hex_char(n)) == n);
        assert(hex_value(s) == hex_value(s.drop_last()) * 16 + hex_val(s.last()));
    } else {
        lemma_hex_str(n / 16);
        let s = hex_str(n / 16).push(hex_char(n % 16));
        assert(s.drop_last() =~= hex_str(n / 16));
        assert(s.last() == hex_char(n % 16));
        assert(is_hex_digit(hex_char(n % 16)));
        assert(all_hex(s)) by {
            assert forall|i: int| 0 <= i < s.len() implies is_hex_digit(#[trigger] s[i]) by {
                if i < s.len() - 1 {
                    assert(s[i] == hex_str(n / 16)[i]);
                }
            }
        }
        assert(hex_val(hex_char(n % 16)) == n % 16);
        assert(hex_value(s) == (n / 16) * 16 + n % 16);
        assert((n / 16) * 16 + n % 16 == n);
    }
}

/// No two adjacent colons anywhere.
pub open spec fn no_adjacent_colons(s: Seq<char>) -> bool {
    forall|j: int| 0 <= j && j + 1 < s.len() ==> !(#[trigger] s[j] == ':' && s[j + 1] == ':')
}

/// A rendered group in front of a colon and more groups reads as that group
/// in front of the rest, under either reading.
proof fn lemma_groups_cons(x: int, rest: Seq<char>)
    requires
        0 <= x <= 0xffff,
        groups_vals(rest) is Some,
        groups_vals_v4(rest) == groups_vals(rest),
        rest.len() >= 1,
        is_hex_digit(rest[0]),
        no_adjacent_colons(rest),
        forall|i: int| 0 <= i < rest.len() ==> is_hex_digit(#[trigger] rest[i]) || rest[i] == ':',
    ensures
        groups_vals(hex_str(x) + seq![':'] + rest) == Some(
            seq![x] + groups_vals(rest)->Some_0,
        ),
        groups_vals_v4(hex_str(x) + seq![':'] + rest) == groups_vals(
            hex_str(x) + seq![':'] + rest,
        ),
        (hex_str(x) + seq![':'] + rest).len() >= 1,
        is_hex_digit((hex_str(x) + seq![':'] + rest)[0]),
        no_adjacent_colons(hex_str(x) + seq![':'] + rest),
        forall|i: int|
            0 <= i < (hex_str(x) + seq![':'] + rest).len() ==> is_hex_digit(
                #[trigger] (hex_str(x) + seq![':'] + rest)[i],
            ) || (hex_str(x) + seq![':'] + rest)[i] == ':',
{
    lemma_hex_str(x);
    let p = hex_str(x);
    let t = p + seq![':'] + rest;
    assert(forall|i: int| 0 <= i < p.len() ==> t[i] == p[i]);
    assert(t[p.len() as int] == ':');
    assert(forall|j: int| 0 <= j < rest.len() ==> t[p.len() + 1 + j] == rest[j]);
    assert forall|i: int| 0 <= i < p.len() implies t[i] != ':' by {
        assert(t[i] == p[i] && is_hex_digit(p[i]));
    }
    lemma_first_occ_at(t, ':', p.len() as int);
    assert(t.take(p.len() as int) =~= p);
    assert(group_ok(p));
    assert(t.skip(p.len() as int + 1) =~= rest);
    assert(t[0] == p[0]);
    assert(no_adjacent_colons(t)) by {
        assert forall|j: int| 0 <= j && j + 1 < t.len() implies !(#[trigger] t[j] == ':' && t[j
            + 1] == ':') by {
            if j + 1 < p.len() {
                assert(t[j] == p[j] && is_hex_digit(p[j]));
            } else if j + 1 == p.len() {
                assert(t[j] == p[j] && is_hex_digit(p[j]));
            } else if j == p.len() {
                assert(t[j + 1] == rest[0]);
            } else {
                assert(t[j] == rest[j - p.len() - 1]);
                assert(t[j + 1] == rest[j - p.len()]);
            }
        }
    }
    assert forall|i: int| 0 <= i < t.len() implies is_hex_digit(#[trigger] t[i]) || t[i]
        == ':' by {
        if i < p.len() {
            assert(t[i] == p[i]);
        } else if i > p.len() {
            assert(t[i] == rest[i - p.len() - 1]);
        }
    }
}

/// A bare rendered group reads as one group, under either reading.
proof fn lemma_groups_single(x: int)
    requires
        0 <= x <= 0xffff,
    ensures
        groups_vals(hex_str(x)) == Some(seq![x]),
        groups_vals_v4(hex_str(x)) == Some(seq![x]),
        hex_str(x).len() >= 1,
        is_hex_digit(hex_str(x)[0]),
        no_adjacent_colons(hex_str(x)),
        forall|i: int| 0 <= i < hex_str(x).len() ==> is_hex_digit(#[trigger] hex_str(x)[i]),
{
    lemma_hex_str(x);
    let p = hex_str(x);
    assert forall|i: int| 0 <= i < p.len() implies p[i] != ':' by {
        assert(is_hex_digit(p[i]));
    }
    lemma_first_occ_at(p, ':', p.len() as int);
    assert(p.take(p.len() as int) =~= p);
    assert(group_ok(p));
    assert forall|j: int| 0 <= j && j + 1 < p.len() implies !(#[trigger] p[j] == ':' && p[j + 1]
        == ':') by {
        assert(is_hex_digit(p[j]));
    }
}

/// The full eight-group rendering of an IPv6 address, no elision.
pub open spec fn render_ipv6(
    a: u16,
    b: u16,
    c: u16,
    d: u16,
    e: u16,
    f: u16,
    g: u16,
    h: u16,
) -> Seq<char> {
    hex_str(a as int) + seq![':'] + (hex_str(b as int) + seq![':'] + (hex_str(c as int)
        + seq![':'] + (hex_str(d as int) + seq![':'] + (hex_str(e as int) + seq![':'] + (hex_str(
        f as int,
    ) + seq![':'] + (hex_str(g as int) + seq![':'] + hex_str(h as int)))))))
}

/// Law: an IPv6 literal written as eight explicit groups parses to the
/// literal endpoint carrying the default port.
#[verifier::rlimit(60)]
pub proof fn lemma_roundtrip_ipv6(
    a: u16,
    b: u16,
    c: u16,
    d: u16,
    e: u16,
    f: u16,
    g: u16,
    h: u16,
    default_port: u16,
)
    ensures
        spec_parse_auto(render_ipv6(a, b, c, d, e, f, g, h), default_port) == Ok::<
            _,
            crate::name::ErrorView,
        >(
            InternalNameView::Addr(
                SockAddr { ip: Ip::V6(a, b, c, d, e, f, g, h), port: default_port },
            ),
        ),
{
    let s = render_ipv6(a, b, c, d, e, f, g, h);
    lemma_groups_single(h as int);
    let t7 = hex_str(h as int);
    lemma_groups_cons(g as int, t7);
    let t6 = hex_str(g as int) + seq![':'] + t7;
    lemma_groups_cons(f as int, t6);
    let t5 = hex_str(f as int) + seq![':'] + t6;
    lemma_groups_cons(e as int, t5);
    let t4 = hex_str(e as int) + seq![':'] + t5;
    lemma_groups_cons(d as int, t4);
    let t3 = hex_str(d as int) + seq![':'] + t4;
    lemma_groups_cons(c as int, t3);
    let t2 = hex_str(c as int) + seq![':'] + t3;
    lemma_groups_cons(b as int, t2);
    let t1 = hex_str(b as int) + seq![':'] + t2;
    lemma_groups_cons(a as int, t1);
    assert(s == hex_str(a as int) + seq![':'] + t1);
    let gs = groups_vals(s)->Some_0;
    assert(gs =~= seq![
        a as int,
        b as int,
        c as int,
        d as int,
        e as int,
        f as int,
        g as int,
        h as int,
    ]);
    // no double colon appears, so the eight-group reading applies
    lemma_first_dc(s);
    if first_dc(s) + 2 <= s.len() {
        assert(s[first_dc(s)] == ':' && s[first_dc(s) + 1] == ':');
        assert(false);
    }
    assert(ipv6_groups(s) == Some(gs));
    assert(spec_ipv6(s) == Some(Ip::V6(a, b, c, d, e, f, g, h)));
    // the string is no IPv4 literal: its first colon is no digit and no dot
    lemma_first_occ(s, ':');
    let k = first_occ(s, ':');
    assert(k < s.len()) by {
        assert(s[hex_str(a as int).len() as int] == ':');
        if k == s.len() {
            assert(s[hex_str(a as int).len() as int] != ':');
        }
    }
    lemma_not_ipv4(s, k);
}

/// A string whose groups parse consists of hex digits and colons only.
proof fn lemma_groups_vals_chars(t: Seq<char>)
    requires
        groups_vals(t) is Some,
    ensures
        forall|i: int| 0 <= i < t.len() ==> is_hex_digit(#[trigger] t[i]) || t[i] == ':',
    decreases t.len(),
{
    lemma_first_occ(t, ':');
    let k = first_occ(t, ':');
    let piece = t.take(k);
    assert(group_ok(piece));
    if k < t.len() {
        lemma_groups_vals_chars(t.skip(k + 1));
        assert forall|i: int| 0 <= i < t.len() implies is_hex_digit(#[trigger] t[i]) || t[i]
            == ':' by {
            if i < k {
                assert(t[i] == piece[i]);
                assert(is_hex_digit(piece[i]));
            } else if i > k {
                assert(t[i] == t.skip(k + 1)[i - k - 1]);
            }
        }
    } else {
        assert forall|i: int| 0 <= i < t.len() implies is_hex_digit(#[trigger] t[i]) || t[i]
            == ':' by {
            assert(t[i] == piece[i]);
            assert(is_hex_digit(piece[i]));
        }
    }
}

/// Under the dotted-quad-tolerant reading, dots may appear as well.
proof fn lemma_groups_vals_v4_chars(t: Seq<char>)
    requires
        groups_vals_v4(t) is Some,
    ensures
        forall|i: int|
            0 <= i < t.len() ==> is_hex_digit(#[trigger] t[i]) || t[i] == ':' || t[i] == '.',
    decreases t.len(),
{
    lemma_first_occ(t, ':');
    let k = first_occ(t, ':');
    let piece = t.take(k);
    if k == t.len() {
        if group_ok(piece) {
            assert forall|i: int| 0 <= i < t.len() implies is_hex_digit(#[trigger] t[i]) || t[i]
                == ':' || t[i] == '.' by {
                assert(t[i] == piece[i]);
                assert(is_hex_digit(piece[i]));
            }
        } else {
            assert(spec_ipv4(piece) is Some);
            lemma_octets_chars(piece);
            assert forall|i: int| 0 <= i < t.len() implies is_hex_digit(#[trigger] t[i]) || t[i]
                == ':' || t[i] == '.' by {
                assert(t[i] == piece[i]);
                assert(piece[i] == '.' || is_digit(piece[i]));
            }
        }
    } else {
        assert(group_ok(piece));
        lemma_groups_vals_v4_chars(t.skip(k + 1));
        assert forall|i: int| 0 <= i < t.len() implies is_hex_digit(#[trigger] t[i]) || t[i]
            == ':' || t[i] == '.' by {
            if i < k {
                assert(t[i] == piece[i]);
                assert(is_hex_digit(piece[i]));
            } else if i > k {
                assert(t[i] == t.skip(k + 1)[i - k - 1]);
            }
        }
    }
}

/// An IPv6 literal consists of hex digits, colons and dots only; anything
/// holding another character — a bracket, say — is no IPv6 literal.
proof fn lemma_not_ipv6_char(s: Seq<char>, i: int)
    requires
        0 <= i < s.len(),
        !is_hex_digit(s[i]),
        s[i] != ':',
        s[i] != '.',
    ensures
        spec_ipv6(s) is None,
{
    if ipv6_groups(s) is Some {
        let d = first_dc(s);
        lemma_first_dc(s);
        if d + 2 <= s.len() {
            let head = s.take(d);
            let tail = s.skip(d + 2);
            if head.len() > 0 {
                lemma_groups_vals_chars(head);
            }
            if tail.len() > 0 {
                lemma_groups_vals_v4_chars(tail);
            }
            if i < d {
                assert(s[i] == head[i]);
            } else if i <= d + 1 {
                assert(s[i] == ':');
            } else {
                assert(s[i] == tail[i - d - 2]);
            }
        } else {
            lemma_groups_vals_v4_chars(s);
        }
    }
}

/// The colon-joined rendering of a list of group values.
pub open spec fn render_groups(gs: Seq<int>) -> Seq<char>
    decreases gs.len(),
{
    if gs.len() == 0 {
        Seq::empty()
    } else if gs.len() == 1 {
        hex_str(gs[0])
    } else {
        hex_str(gs[0]) + seq![':'] + render_groups(gs.drop_first())
    }
}

/// Every group value fits in sixteen bits.
pub open spec fn groups_in_range(gs: Seq<int>) -> bool {
    forall|i: int| 0 <= i < gs.len() ==> 0 <= #[trigger] gs[i] <= 0xffff
}

/// A rendered group list reads back to its values, under either reading.
proof fn lemma_render_groups(gs: Seq<int>)
    requires
        gs.len() >= 1,
        groups_in_range(gs),
    ensures
        groups_vals(render_groups(gs)) == Some(gs),
        groups_vals_v4(render_groups(gs)) == Some(gs),
        render_groups(gs).len() >= 1,
        is_hex_digit(render_groups(gs)[0]),
        is_hex_digit(render_groups(gs)[render_groups(gs).len() - 1]),
        no_adjacent_colons(render_groups(gs)),
        forall|i: int|
            0 <= i < render_groups(gs).len() ==> is_hex_digit(#[trigger] render_groups(gs)[i])
                || render_groups(gs)[i] == ':',
    decreases gs.len(),
{
    if gs.len() == 1 {
        lemma_groups_single(gs[0]);
        lemma_hex_str(gs[0]);
        assert(seq![gs[0]] =~= gs);
    } else {
        let rest = gs.drop_first();
        assert(groups_in_range(rest)) by {
            assert(forall|i: int| 0 <= i < rest.len() ==> #[trigger] rest[i] == gs[i + 1]);
        }
        lemma_render_groups(rest);
        lemma_groups_cons(gs[0], render_groups(rest));
        assert(seq![gs[0]] + rest =~= gs);
        let t = hex_str(gs[0]) + seq![':'] + render_groups(rest);
        assert(t[t.len() - 1] == render_groups(rest)[render_groups(rest).len() - 1]);
    }
}

/// The `::`-elided rendering: the explicit head groups, the elision, the
/// explicit tail groups.
pub open spec fn render_ipv6_elided(h: Seq<int>, t: Seq<int>) -> Seq<char> {
    render_groups(h) + seq![':', ':'] + render_groups(t)
}

/// Law: an IPv6 literal written with one `::` eliding the missing zero
/// groups parses to the literal endpoint carrying the default port — for
/// every split, so in particular for the compressed form an address prints
/// as.
pub proof fn lemma_roundtrip_ipv6_elided(h: Seq<int>, t: Seq<int>, default_port: u16)
    requires
        groups_in_range(h),
        groups_in_range(t),
        h.len() + t.len() <= 7,
    ensures
        ({
            let gs = h + Seq::new((8 - h.len() - t.len()) as nat, |i: int| 0int) + t;
            spec_parse_auto(render_ipv6_elided(h, t), default_port) == Ok::<
                _,
                crate::name::ErrorView,
            >(InternalNameView::Addr(SockAddr { ip: ipv6_of(gs), port: default_port }))
        }),
{
    let hs = render_groups(h);
    let ts = render_groups(t);
    let s = hs + seq![':', ':'] + ts;
    if h.len() > 0 {
        lemma_render_groups(h);
    } else {
        assert(hs =~= Seq::<char>::empty());
    }
    if t.len() > 0 {
        lemma_render_groups(t);
    } else {
        assert(ts =~= Seq::<char>::empty());
    }
    assert(forall|i: int| 0 <= i < hs.len() ==> s[i] == hs[i]);
    assert(s[hs.len() as int] == ':' && s[hs.len() as int + 1] == ':');
    assert(forall|j: int| 0 <= j < ts.len() ==> s[hs.len() + 2 + j] == ts[j]);
    // the elision is the first double colon
    assert forall|j: int| 0 <= j < hs.len() implies !(#[trigger] s[j] == ':' && s[j + 1]
        == ':') by {
        if j + 1 < hs.len() {
            assert(s[j] == hs[j] && s[j + 1] == hs[j + 1]);
        } else {
            assert(j == hs.len() - 1);
            assert(s[j] == hs[j]);
            assert(is_hex_digit(hs[j]));
        }
    }
    lemma_first_dc_found(s, hs.len() as int);
    assert(s.take(hs.len() as int) =~= hs);
    assert(s.skip(hs.len() as int + 2) =~= ts);
    let gs = h + Seq::new((8 - h.len() - t.len()) as nat, |i: int| 0int) + t;
    assert(ipv6_groups(s) == Some(gs));
    assert(spec_ipv6(s) == Some(ipv6_of(gs)));
    // not an IPv4 literal: it holds a colon
    lemma_not_ipv4(s, hs.len() as int);
}

/// Law: a bracketed IPv6 socket-address literal `[v6]:port` parses to
/// exactly that endpoint, for any IPv6 literal between the brackets.
pub proof fn lemma_roundtrip_sockaddr_v6(r6: Seq<char>, ds: Seq<char>, default_port: u16)
    requires
        spec_ipv6(r6) is Some,
        r6.len() >= 1,
        forall|i: int|
            0 <= i < r6.len() ==> is_hex_digit(#[trigger] r6[i]) || r6[i] == ':' || r6[i] == '.',
        ds.len() >= 1,
        all_digits(ds),
        dec_value(ds) <= 65535,
    ensures
        spec_parse_auto(seq!['['] + r6 + seq![']', ':'] + ds, default_port) == Ok::<
            _,
            crate::name::ErrorView,
        >(
            InternalNameView::Addr(
                SockAddr { ip: spec_ipv6(r6)->Some_0, port: dec_value(ds) as u16 },
            ),
        ),
{
    let s = seq!['['] + r6 + seq![']', ':'] + ds;
    assert(s[0] == '[');
    assert(forall|i: int| 0 <= i < r6.len() ==> s[1 + i] == r6[i]);
    assert(s[r6.len() as int + 1] == ']' && s[r6.len() as int + 2] == ':');
    assert(forall|j: int| 0 <= j < ds.len() ==> s[r6.len() + 3 + j] == ds[j]);
    // the whole string is no IP literal of either family
    lemma_not_ipv4(s, 0);
    lemma_not_ipv6_char(s, 0);
    // the closing bracket is the first one
    assert forall|i: int| 0 <= i < r6.len() + 1 implies s[i] != ']' by {
        if i >= 1 {
            assert(s[i] == r6[i - 1]);
        }
    }
    lemma_first_occ_at(s, ']', r6.len() as int + 1);
    // the head up to any colon is no IPv4 literal: it starts with a bracket
    lemma_first_occ(s, ':');
    let k = first_occ(s, ':');
    if k < s.len() {
        assert(k >= 1) by {
            assert(s[0] != ':');
        }
        assert(s.take(k)[0] == '[');
        lemma_not_ipv4(s.take(k), 0);
    }
    // the bracketed reading applies
    assert(s.subrange(1, r6.len() as int + 1) =~= r6);
    assert(s.skip(r6.len() as int + 3) =~= ds);
    assert(port_ok(ds));
    assert(spec_sockaddr(s) == Some(
        SockAddr { ip: spec_ipv6(r6)->Some_0, port: dec_value(ds) as u16 },
    ));
}

/// Law: an IPv4 socket-address literal `a.b.c.d:port` parses to exactly
/// that endpoint.
pub proof fn lemma_roundtrip_sockaddr_v4(a: u8, b: u8, c: u8, d: u8, ds: Seq<char>, dp: u16)
    requires
        ds.len() >= 1,
        all_digits(ds),
        dec_value(ds) <= 65535,
    ensures
        spec_parse_auto(render_ipv4(a, b, c, d) + seq![':'] + ds, dp) == Ok::<
            _,
            crate::name::ErrorView,
        >(InternalNameView::Addr(SockAddr { ip: Ip::V4(a, b, c, d), port: dec_value(ds) as u16 })),
{
    let h = render_ipv4(a, b, c, d);
    let s = h + seq![':'] + ds;
    lemma_ipv4_render(a, b, c, d);
    lemma_dec_str(a as int);
    lemma_dec_str(b as int);
    lemma_dec_str(c as int);
    lemma_dec_str(d as int);
    assert(forall|i: int| 0 <= i < h.len() ==> s[i] == h[i]);
    assert(s[h.len() as int] == ':');
    assert(forall|j: int| 0 <= j < ds.len() ==> s[h.len() + 1 + j] == ds[j]);
    assert forall|i: int| 0 <= i < h.len() implies h[i] == '.' || is_digit(#[trigger] h[i]) by {
        lemma_octets_chars(h);
    }
    assert forall|i: int| 0 <= i < s.len() && i != h.len() implies s[i] != ':' by {
        if i < h.len() {
            assert(s[i] == h[i]);
            assert(h[i] == '.' || is_digit(h[i]));
        } else {
            assert(s[i] == ds[i - h.len() - 1]);
            assert(is_digit(ds[i - h.len() - 1]));
        }
    }
    lemma_first_occ_at(s, ':', h.len() as int);
    // the whole string is no IP literal
    lemma_not_ipv4(s, h.len() as int);
    lemma_not_ipv6_few_colons(s, Some(h.len() as int));
    // the socket-address reading applies
    assert(s.take(h.len() as int) =~= h);
    assert(s.skip(h.len() as int + 1) =~= ds);
    assert(port_ok(ds));
}

} // verus!
