//! Character-level helpers shared by the name and address grammars.

use vstd::prelude::*;

verus! {

/// Index of the first occurrence of `c` in `t`, or `t.len()` if there is
/// none.
pub open spec fn first_occ(t: Seq<char>, c: char) -> int
    decreases t.len(),
{
    if t.len() == 0 {
        0
    } else if t[0] == c {
        0
    } else {
        1 + first_occ(t.drop_first(), c)
    }
}

pub proof fn lemma_first_occ(t: Seq<char>, c: char)
    ensures
        0 <= first_occ(t, c) <= t.len(),
        forall|j: int| 0 <= j < first_occ(t, c) ==> t[j] != c,
        first_occ(t, c) < t.len() ==> t[first_occ(t, c)] == c,
    decreases t.len(),
{
    if t.len() == 0 {
    } else if t[0] == c {
    } else {
        lemma_first_occ(t.drop_first(), c);
        assert forall|j: int| 0 <= j < first_occ(t, c) implies t[j] != c by {
            if j > 0 {
                assert(t.drop_first()[j - 1] != c);
            }
        }
        if first_occ(t, c) < t.len() {
            assert(t[first_occ(t, c)] == t.drop_first()[first_occ(t.drop_first(), c)]);
        }
    }
}

pub proof fn lemma_first_occ_at(t: Seq<char>, c: char, k: int)
    requires
        0 <= k <= t.len(),
        forall|j: int| 0 <= j < k ==> t[j] != c,
        k < t.len() ==> t[k] == c,
    ensures
        first_occ(t, c) == k,
    decreases t.len(),
{
    if t.len() == 0 {
    } else if t[0] == c {
    } else {
        lemma_first_occ_at(t.drop_first(), c, k - 1);
    }
}

pub open spec fn is_digit(c: char) -> bool {
    '0' as u32 <= c as u32 && c as u32 <= '9' as u32
}

pub open spec fn digit_val(c: char) -> int {
    c as u32 - '0' as u32
}

pub open spec fn all_digits(t: Seq<char>) -> bool {
    forall|j: int| 0 <= j < t.len() ==> is_digit(#[trigger] t[j])
}

/// The decimal value of a digit string.
pub open spec fn dec_value(t: Seq<char>) -> int
    decreases t.len(),
{
    if t.len() == 0 {
        0
    } else {
        dec_value(t.drop_last()) * 10 + digit_val(t.last())
    }
}

pub proof fn lemma_dec_value_nonneg(t: Seq<char>)
    requires
        all_digits(t),
    ensures
        dec_value(t) >= 0,
    decreases t.len(),
{
    if t.len() > 0 {
        assert(all_digits(t.drop_last())) by {
            assert(forall|j: int| 0 <= j < t.len() - 1 ==> is_digit(#[trigger] t.drop_last()[j]));
        }
        lemma_dec_value_nonneg(t.drop_last());
    }
}

/// Reading more digits never decreases the value.
pub proof fn lemma_dec_value_prefix(t: Seq<char>, m: int)
    requires
        all_digits(t),
        0 <= m <= t.len(),
    ensures
        dec_value(t.take(m)) <= dec_value(t),
    decreases t.len() - m,
{
    if m < t.len() {
        lemma_dec_value_prefix(t, m + 1);
        assert(t.take(m + 1).drop_last() =~= t.take(m));
        assert(is_digit(t[m]));
        lemma_dec_value_nonneg(t.take(m));
        assert(dec_value(t.take(m + 1)) == dec_value(t.take(m)) * 10 + digit_val(t.take(m + 1).last()));
        assert(t.take(m + 1).last() == t[m]);
    } else {
        assert(t.take(m) =~= t);
    }
}

pub open spec fn is_hex_digit(c: char) -> bool {
    is_digit(c) || ('a' as u32 <= c as u32 && c as u32 <= 'f' as u32) || ('A' as u32 <= c as u32
        && c as u32 <= 'F' as u32)
}

pub open spec fn hex_val(c: char) -> int {
    if is_digit(c) {
        digit_val(c)
    } else if 'a' as u32 <= c as u32 && c as u32 <= 'f' as u32 {
        c as u32 - 'a' as u32 + 10
    } else {
        c as u32 - 'A' as u32 + 10
    }
}

pub open spec fn all_hex(t: Seq<char>) -> bool {
    forall|j: int| 0 <= j < t.len() ==> is_hex_digit(#[trigger] t[j])
}

/// The hexadecimal value of a hex-digit string.
pub open spec fn hex_value(t: Seq<char>) -> int
    decreases t.len(),
{
    if t.len() == 0 {
        0
    } else {
        hex_value(t.drop_last()) * 16 + hex_val(t.last())
    }
}

pub fn is_digit_exec(c: char) -> (r: bool)
    ensures
        r == is_digit(c),
{
    let u = c as u32;
    '0' as u32 <= u && u <= '9' as u32
}

pub fn digit_val_exec(c: char) -> (r: u32)
    requires
        is_digit(c),
    ensures
        r == digit_val(c),
{
    c as u32 - '0' as u32
}

pub fn is_hex_digit_exec(c: char) -> (r: bool)
    ensures
        r == is_hex_digit(c),
{
    let u = c as u32;
    ('0' as u32 <= u && u <= '9' as u32) || ('a' as u32 <= u && u <= 'f' as u32) || ('A' as u32
        <= u && u <= 'F' as u32)
}

pub fn hex_val_exec(c: char) -> (r: u32)
    requires
        is_hex_digit(c),
    ensures
        r == hex_val(c),
{
    let u = c as u32;
    if '0' as u32 <= u && u <= '9' as u32 {
        u - '0' as u32
    } else if 'a' as u32 <= u && u <= 'f' as u32 {
        u - 'a' as u32 + 10
    } else {
        u - 'A' as u32 + 10
    }
}

} // verus!
