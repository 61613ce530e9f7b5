use vstd::prelude::*;

verus! {

/// The digit character for `d`, which is below ten.
pub open spec fn digit_char(d: nat) -> char {
    (48 + d) as char
}

/// The decimal digits of `n`, most significant first.
pub open spec fn digits(n: nat) -> Seq<char>
    decreases n,
{
    if n < 10 {
        seq![digit_char(n)]
    } else {
        digits(n / 10) + seq![digit_char(n % 10)]
    }
}

/// How a number is written: a minus sign when it is negative, then its
/// decimal digits.
pub open spec fn number_text(v: i8) -> Seq<char> {
    if v < 0 {
        seq!['-'] + digits((0 - v) as nat)
    } else {
        digits(v as nat)
    }
}

/// Appends `c` to `s`: `String::push`.
#[verifier::external_body]
pub(crate) fn push_char(s: &mut String, c: char)
    ensures
        final(s)@ == old(s)@.push(c),
{
    s.push(c);
}

/// Appends the decimal digits of `n` to `s`.
fn push_digits(s: &mut String, n: u8)
    ensures
        final(s)@ == old(s)@ + digits(n as nat),
    decreases n,
{
    if n >= 10 {
        push_digits(s, n / 10);
    }
    let d: u8 = n % 10;
    let c = (48u8 + d) as char;
    push_char(s, c);
    proof {
        if n >= 10 {
            assert(digits(n as nat) == digits((n / 10) as nat) + seq![digit_char((n % 10) as nat)]);
        }
    }
    assert(s@ =~= old(s)@ + digits(n as nat));
}

/// Appends the text of `v` to `s`.
pub(crate) fn push_number(s: &mut String, v: i8)
    ensures
        final(s)@ == old(s)@ + number_text(v),
{
    if v < 0 {
        push_char(s, '-');
        let m: u8 = if v == -128 {
            128
        } else {
            (-v) as u8
        };
        push_digits(s, m);
        assert(s@ =~= old(s)@ + number_text(v));
    } else {
        push_digits(s, v as u8);
    }
}

} // verus!
