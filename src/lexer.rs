use vstd::prelude::*;
use vstd::string::StrSliceExecFns;

use crate::text::{dec, digit_char};

verus! {

/// A decimal digit `0`..`9`.
pub open spec fn is_digit(c: char) -> bool {
    '0' <= c && c <= '9'
}

/// Whitespace as the grammar knows it: space, tab, newline, carriage return.
pub open spec fn is_space(c: char) -> bool {
    c == ' ' || c == '\t' || c == '\n' || c == '\r'
}

pub open spec fn digit_value(c: char) -> nat {
    (c as int - '0' as int) as nat
}

/// The number written by a run of decimal digits.
pub open spec fn digits_value(d: Seq<char>) -> nat
    decreases d.len(),
{
    if d.len() == 0 {
        0
    } else {
        digits_value(d.drop_last()) * 10 + digit_value(d.last())
    }
}

/// How many digits follow position `i` of `s` before anything else.
pub open spec fn digit_run(s: Seq<char>, i: int) -> nat
    decreases s.len() - i,
{
    if 0 <= i < s.len() && is_digit(s[i]) {
        1 + digit_run(s, i + 1)
    } else {
        0
    }
}

/// How many whitespace characters follow position `i` of `s`.
pub open spec fn space_run(s: Seq<char>, i: int) -> nat
    decreases s.len() - i,
{
    if 0 <= i < s.len() && is_space(s[i]) {
        1 + space_run(s, i + 1)
    } else {
        0
    }
}

/// An unsigned integer at position `i`: the number of characters it takes and its value.
/// There is none where no digit stands there or where the digits exceed the `u128` range.
pub open spec fn uint_at(s: Seq<char>, i: int) -> Option<(nat, nat)> {
    let n = digit_run(s, i);
    let v = digits_value(s.subrange(i, i + n));
    if n > 0 && v <= u128::MAX {
        Some((n, v))
    } else {
        None
    }
}

/// The input could not be read as a command; `position` is the index of the
/// character at which parsing failed.
#[derive(Debug, Clone, Copy, PartialEq, Eq)]
pub struct ParseError {
    pub position: usize,
}

pub proof fn lemma_digit_run_bounds(s: Seq<char>, i: int)
    requires
        0 <= i <= s.len(),
    ensures
        i + digit_run(s, i) <= s.len(),
        forall|k: int| i <= k < i + digit_run(s, i) ==> is_digit(#[trigger] s[k]),
        i + digit_run(s, i) < s.len() ==> !is_digit(s[i + digit_run(s, i)]),
    decreases s.len() - i,
{
    if i < s.len() && is_digit(s[i]) {
        lemma_digit_run_bounds(s, i + 1);
    }
}

pub proof fn lemma_space_run_bounds(s: Seq<char>, i: int)
    requires
        0 <= i <= s.len(),
    ensures
        i + space_run(s, i) <= s.len(),
        forall|k: int| i <= k < i + space_run(s, i) ==> is_space(#[trigger] s[k]),
        i + space_run(s, i) < s.len() ==> !is_space(s[i + space_run(s, i)]),
    decreases s.len() - i,
{
    if i < s.len() && is_space(s[i]) {
        lemma_space_run_bounds(s, i + 1);
    }
}

/// A run of digits is worth at least as much as any run it starts with.
pub proof fn lemma_digits_value_prefix(d: Seq<char>, k: int)
    requires
        0 <= k <= d.len(),
    ensures
        digits_value(d.subrange(0, k)) <= digits_value(d),
    decreases d.len(),
{
    if k < d.len() {
        lemma_digits_value_prefix(d.drop_last(), k);
        assert(d.drop_last().subrange(0, k) =~= d.subrange(0, k));
    } else {
        assert(d.subrange(0, k) =~= d);
    }
}

pub proof fn lemma_digit_char(d: nat)
    requires
        d < 10,
    ensures
        is_digit(digit_char(d)),
        digit_value(digit_char(d)) == d,
{
}

/// A numeral is made of digits and is worth the number it was written from.
pub proof fn lemma_dec_digits(n: nat)
    ensures
        forall|i: int| 0 <= i < dec(n).len() ==> is_digit(#[trigger] dec(n)[i]),
        digits_value(dec(n)) == n,
        dec(n).len() >= 1,
    decreases n,
{
    lemma_digit_char(n % 10);
    if n >= 10 {
        lemma_dec_digits(n / 10);
        assert(dec(n).drop_last() =~= dec(n / 10));
    } else {
        assert(dec(n).drop_last() =~= Seq::<char>::empty());
        assert(digits_value(Seq::<char>::empty()) == 0);
    }
}

pub proof fn lemma_digit_run_exact(s: Seq<char>, i: int, k: int)
    requires
        0 <= i,
        0 <= k,
        i + k <= s.len(),
        forall|j: int| i <= j < i + k ==> is_digit(#[trigger] s[j]),
        i + k == s.len() || !is_digit(s[i + k]),
    ensures
        digit_run(s, i) == k,
    decreases k,
{
    if k > 0 {
        lemma_digit_run_exact(s, i + 1, k - 1);
    }
}

/// Writing a number in decimal and reading it back gives the number, and the
/// reading takes exactly the numeral, whatever non-digit follows.
pub proof fn law_uint_round_trip(n: u128, rest: Seq<char>)
    requires
        rest.len() == 0 || !is_digit(rest[0]),
    ensures
        uint_at(dec(n as nat) + rest, 0) == Some((dec(n as nat).len(), n as nat)),
{
    let d = dec(n as nat);
    let s = d + rest;
    lemma_dec_digits(n as nat);
    assert forall|j: int| 0 <= j < d.len() implies is_digit(#[trigger] s[j]) by {
        assert(s[j] == d[j]);
    }
    if rest.len() > 0 {
        assert(s[d.len() as int] == rest[0]);
    }
    lemma_digit_run_exact(s, 0, d.len() as int);
    assert(s.subrange(0, d.len() as int) =~= d);
}

pub fn is_digit_char(c: char) -> (r: bool)
    ensures
        r == is_digit(c),
{
    '0' <= c && c <= '9'
}

pub fn is_space_char(c: char) -> (r: bool)
    ensures
        r == is_space(c),
{
    c == ' ' || c == '\t' || c == '\n' || c == '\r'
}

/// Reads an unsigned integer at position `pos`: the characters it takes and its value.
pub fn uint_at_pos(s: &str, pos: usize, len: usize) -> (r: Option<(usize, u128)>)
    requires
        len == s@.len(),
        pos <= len,
    ensures
        match uint_at(s@, pos as int) {
            Some((n, v)) => r == Some((n as usize, v as u128)),
            None => r is None,
        },
{
    proof {
        lemma_digit_run_bounds(s@, pos as int);
    }
    let mut j: usize = pos;
    let mut v: u128 = 0;
    let mut overflow = false;
    while j < len && is_digit_char(s.get_char(j))
        invariant
            len == s@.len(),
            pos <= j <= len,
            pos + digit_run(s@, pos as int) <= len,
            digit_run(s@, pos as int) == (j - pos) + digit_run(s@, j as int),
            !overflow ==> v == digits_value(s@.subrange(pos as int, j as int)),
            overflow ==> digits_value(s@.subrange(pos as int, j as int)) > u128::MAX,
        decreases len - j,
    {
        let c = s.get_char(j);
        let d = (c as u32 - '0' as u32) as u128;
        let ghost prev = s@.subrange(pos as int, j as int);
        let ghost next = s@.subrange(pos as int, j + 1);
        assert(next.drop_last() =~= prev);
        if !overflow {
            if v > (u128::MAX - d) / 10 {
                overflow = true;
            } else {
                v = v * 10 + d;
            }
        } else {
            proof {
                lemma_digits_value_prefix(next, prev.len() as int);
                assert(next.subrange(0, prev.len() as int) =~= prev);
            }
        }
        j = j + 1;
    }
    proof {
        lemma_digit_run_bounds(s@, j as int);
    }
    if j == pos || overflow {
        None
    } else {
        Some((j - pos, v))
    }
}

/// Counts the whitespace characters from position `pos` on.
pub fn space_at_pos(s: &str, pos: usize, len: usize) -> (r: usize)
    requires
        len == s@.len(),
        pos <= len,
    ensures
        r == space_run(s@, pos as int),
        pos + r <= len,
{
    proof {
        lemma_space_run_bounds(s@, pos as int);
    }
    let mut j: usize = pos;
    while j < len && is_space_char(s.get_char(j))
        invariant
            len == s@.len(),
            pos <= j <= len,
            space_run(s@, pos as int) == (j - pos) + space_run(s@, j as int),
        decreases len - j,
    {
        j = j + 1;
    }
    j - pos
}

/// Parses an unsigned decimal integer at the start of `input`, returning what is
/// left after its digits and its value.
pub fn p_u128(input: &str) -> (r: Result<(&str, u128), ParseError>)
    ensures
        match uint_at(input@, 0) {
            Some((n, v)) => r is Ok && r->Ok_0.1 == v && r->Ok_0.0@ == input@.subrange(
                n as int,
                input@.len() as int,
            ),
            None => r == Err::<(&str, u128), ParseError>(ParseError { position: 0 }),
        },
{
    let len = input.unicode_len();
    match uint_at_pos(input, 0, len) {
        Some((n, v)) => {
            proof {
                lemma_digit_run_bounds(input@, 0);
            }
            Ok((input.substring_char(n, len), v))
        },
        None => Err(ParseError { position: 0 }),
    }
}

/// Skips the whitespace at the start of `input` only, returning what follows it.
/// To trim a token on both sides, call it before the token and again on what the
/// token leaves.
pub fn ws(input: &str) -> (r: &str)
    ensures
        r@ == input@.subrange(space_run(input@, 0) as int, input@.len() as int),
{
    let len = input.unicode_len();
    let n = space_at_pos(input, 0, len);
    input.substring_char(n, len)
}

} // verus!
