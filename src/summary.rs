//! A short textual summary of a vector.

use vstd::prelude::*;

verus! {

/// Relies on `String::push`: appends one character.
pub assume_specification[ String::push ](s: &mut String, ch: char)
    ensures
        final(s)@ == old(s)@.push(ch),
;

/// The decimal digit `d`.
pub open spec fn digit_char(d: nat) -> char {
    seq!['0', '1', '2', '3', '4', '5', '6', '7', '8', '9'][d as int]
}

/// The decimal numeral of `n`, without leading zeros.
pub open spec fn decimal(n: nat) -> Seq<char>
    decreases n,
{
    if n < 10 {
        seq![digit_char(n)]
    } else {
        decimal(n / 10).push(digit_char(n % 10))
    }
}

fn digit(d: usize) -> (c: char)
    requires
        d < 10,
    ensures
        c == digit_char(d as nat),
{
    let digits = ['0', '1', '2', '3', '4', '5', '6', '7', '8', '9'];
    assert(digits@ =~= seq!['0', '1', '2', '3', '4', '5', '6', '7', '8', '9']);
    digits[d]
}

/// Appends the decimal numeral of `n` to `s`.
fn push_decimal(s: &mut String, n: usize)
    ensures
        final(s)@ == old(s)@ + decimal(n as nat),
    decreases n,
{
    if n >= 10 {
        push_decimal(s, n / 10);
    }
    s.push(digit(n % 10));
    assert(n < 10 ==> old(s)@ + decimal(n as nat) =~= old(s)@.push(digit_char(n as nat)));
    assert(n >= 10 ==> old(s)@ + decimal(n as nat) =~= (old(s)@ + decimal((n / 10) as nat)).push(
        digit_char((n % 10) as nat),
    ));
}

/// `[vec/` followed by the length of `v` in decimal, then `]`.
pub fn to_string<T>(v: &Vec<T>) -> (r: String)
    ensures
        r@ == seq!['[', 'v', 'e', 'c', '/'] + decimal(v@.len()) + seq![']'],
{
    let mut result = String::new();
    result.push('[');
    result.push('v');
    result.push('e');
    result.push('c');
    result.push('/');
    push_decimal(&mut result, v.len());
    result.push(']');
    assert(result@ =~= seq!['[', 'v', 'e', 'c', '/'] + decimal(v@.len()) + seq![']']);
    result
}

} // verus!
