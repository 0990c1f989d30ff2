//! Small text-building helpers: appending single characters, runs of
//! spaces, and decimal renderings of numbers.

use vstd::prelude::*;

verus! {

/// Relies on String::push: appends one character.
#[verifier::external_body]
pub(crate) fn push_char(s: &mut String, c: char)
    ensures
        final (s)@ == old(s)@.push(c),
{
    s.push(c);
}

/// A run of `n` spaces (none when `n` is not positive).
pub open spec fn spaces(n: int) -> Seq<char>
    decreases n,
{
    if n <= 0 {
        Seq::empty()
    } else {
        spaces(n - 1).push(' ')
    }
}

/// Appends a run of `n` spaces.
pub(crate) fn push_spaces(s: &mut String, n: u128)
    ensures
        final (s)@ == old(s)@ + spaces(n as int),
{
    let mut i: u128 = 0;
    proof {
        assert(old(s)@ + spaces(0int) =~= old(s)@);
    }
    while i < n
        invariant
            0 <= i <= n,
            s@ == old(s)@ + spaces(i as int),
        decreases n - i,
    {
        push_char(s, ' ');
        proof {
            assert(old(s)@ + spaces(i as int + 1) =~= (old(s)@ + spaces(i as int)).push(' '));
        }
        i += 1;
    }
}

/// The character of a decimal digit.
pub open spec fn digit_char(d: int) -> char {
    if d == 0 {
        '0'
    } else if d == 1 {
        '1'
    } else if d == 2 {
        '2'
    } else if d == 3 {
        '3'
    } else if d == 4 {
        '4'
    } else if d == 5 {
        '5'
    } else if d == 6 {
        '6'
    } else if d == 7 {
        '7'
    } else if d == 8 {
        '8'
    } else {
        '9'
    }
}

/// The decimal rendering of a non-negative number, most significant
/// digit first, with no leading zeros (zero renders as `0`).
pub open spec fn dec_str(n: int) -> Seq<char>
    decreases n,
{
    if n < 10 {
        seq![digit_char(n)]
    } else {
        dec_str(n / 10).push(digit_char(n % 10))
    }
}

fn digit_of(d: u64) -> (c: char)
    requires
        d < 10,
    ensures
        c == digit_char(d as int),
{
    if d == 0 {
        '0'
    } else if d == 1 {
        '1'
    } else if d == 2 {
        '2'
    } else if d == 3 {
        '3'
    } else if d == 4 {
        '4'
    } else if d == 5 {
        '5'
    } else if d == 6 {
        '6'
    } else if d == 7 {
        '7'
    } else if d == 8 {
        '8'
    } else {
        '9'
    }
}

/// Appends the decimal rendering of `n`.
pub(crate) fn push_decimal(s: &mut String, n: u64)
    ensures
        final (s)@ == old(s)@ + dec_str(n as int),
    decreases n,
{
    if n < 10 {
        push_char(s, digit_of(n));
        proof {
            assert(old(s)@ + dec_str(n as int) =~= old(s)@.push(digit_char(n as int)));
        }
    } else {
        proof {
            assert(n / 10 < n && n / 10 >= 1) by (nonlinear_arith)
                requires
                    n >= 10,
            ;
            assert(n % 10 < 10) by (nonlinear_arith);
        }
        push_decimal(s, n / 10);
        push_char(s, digit_of(n % 10));
        proof {
            assert(old(s)@ + dec_str(n as int) =~= (old(s)@ + dec_str(n as int / 10)).push(
                digit_char(n as int % 10),
            ));
        }
    }
}

} // verus!
