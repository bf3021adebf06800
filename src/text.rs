use vstd::prelude::*;

verus! {

/// The character of a decimal digit `d` (`d < 10`).
pub open spec fn digit_char(d: nat) -> char {
    ((48 + d) as u8) as char
}

/// The decimal numeral of `n`, most significant digit first, with no leading zeros.
pub open spec fn dec(n: nat) -> Seq<char>
    decreases n,
{
    if n < 10 {
        seq![digit_char(n)]
    } else {
        dec(n / 10).push(digit_char(n % 10))
    }
}

/// The decimal numeral of a signed integer, with a leading `-` when it is negative.
pub open spec fn signed_dec(n: int) -> Seq<char> {
    if n < 0 {
        seq!['-'] + dec((-n) as nat)
    } else {
        dec(n as nat)
    }
}

/// Relies on `String::push` (std): appends the one character to the end.
#[verifier::external_body]
pub(crate) fn push_char(s: &mut String, c: char)
    ensures
        final(s)@ == old(s)@.push(c),
{
    s.push(c);
}

pub fn digit_to_char(d: u128) -> (c: char)
    requires
        d < 10,
    ensures
        c == digit_char(d as nat),
{
    ((48 + d) as u8) as char
}

/// Appends the decimal numeral of `n` to `out`.
pub fn push_decimal(out: &mut String, n: u128)
    ensures
        final(out)@ == old(out)@ + dec(n as nat),
    decreases n,
{
    if n >= 10 {
        push_decimal(out, n / 10);
    }
    let c = digit_to_char(n % 10);
    push_char(out, c);
    proof {
        if n >= 10 {
            assert(dec(n as nat) == dec((n / 10) as nat).push(digit_char((n % 10) as nat)));
        }
    }
    assert(final(out)@ =~= old(out)@ + dec(n as nat));
}

/// Appends the decimal numeral of the signed `n` to `out`.
pub fn push_signed_decimal(out: &mut String, n: i128)
    ensures
        final(out)@ == old(out)@ + signed_dec(n as int),
{
    if n < 0 {
        push_char(out, '-');
        let m: u128 = ((-(n + 1)) as u128) + 1;
        push_decimal(out, m);
        assert(final(out)@ =~= old(out)@ + signed_dec(n as int));
    } else {
        push_decimal(out, n as u128);
    }
}

} // verus!
