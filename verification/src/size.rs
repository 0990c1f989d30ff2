//! Human-readable size formatting: fixed base-1000 unit tiers with a
//! single truncated tenths digit, never rounded.

use vstd::prelude::*;

verus! {

use crate::text::{dec_str, push_char, push_decimal};

pub const KILOBYTE: u64 = 1000;

pub const GIGABYTE: u64 = 1000000;

pub const TERABYTE: u64 = 1000000000000;

/// The human-readable form of a byte count: below one kilobyte the
/// plain count and `B`; below one gigabyte whole kilobytes, a dot and
/// the truncated tenths digit, and `K`; below one terabyte the same
/// against gigabytes with `G`; otherwise against terabytes with `T`.
/// All digits come from truncating division, never from rounding.
pub open spec fn size_str(b: int) -> Seq<char> {
    if b < KILOBYTE as int {
        dec_str(b) + seq!['B']
    } else if b < GIGABYTE as int {
        dec_str(b / (KILOBYTE as int)) + seq!['.'] + dec_str(
            (b % (KILOBYTE as int)) / (KILOBYTE as int / 10),
        ) + seq!['K']
    } else if b < TERABYTE as int {
        dec_str(b / (GIGABYTE as int)) + seq!['.'] + dec_str(
            (b % (GIGABYTE as int)) / (GIGABYTE as int / 10),
        ) + seq!['G']
    } else {
        dec_str(b / (TERABYTE as int)) + seq!['.'] + dec_str(
            (b % (TERABYTE as int)) / (TERABYTE as int / 10),
        ) + seq!['T']
    }
}

/// Formats a byte count as its human-readable size string.
pub fn format_size(bytes: u64) -> (r: String)
    ensures
        r@ == size_str(bytes as int),
{
    let mut s = String::new();
    if bytes < KILOBYTE {
        push_decimal(&mut s, bytes);
        push_char(&mut s, 'B');
        proof {
            assert(s@ =~= size_str(bytes as int));
        }
    } else if bytes < GIGABYTE {
        push_scaled(&mut s, bytes, KILOBYTE, 'K');
        proof {
            assert(s@ =~= size_str(bytes as int));
        }
    } else if bytes < TERABYTE {
        push_scaled(&mut s, bytes, GIGABYTE, 'G');
        proof {
            assert(s@ =~= size_str(bytes as int));
        }
    } else {
        push_scaled(&mut s, bytes, TERABYTE, 'T');
        proof {
            assert(s@ =~= size_str(bytes as int));
        }
    }
    s
}

/// Appends `bytes` scaled against `unit_size`: the whole units, a dot,
/// the truncated tenths digit, and the unit letter.
fn push_scaled(s: &mut String, bytes: u64, unit_size: u64, unit: char)
    requires
        unit_size >= 10,
    ensures
        final (s)@ == old(s)@ + dec_str(bytes as int / unit_size as int) + seq!['.'] + dec_str(
            (bytes as int % unit_size as int) / (unit_size as int / 10),
        ) + seq![unit],
{
    proof {
        assert(bytes % unit_size < unit_size && bytes % unit_size >= 0) by (nonlinear_arith)
            requires
                unit_size >= 10,
        ;
        assert(unit_size / 10 >= 1) by (nonlinear_arith)
            requires
                unit_size >= 10,
        ;
    }
    push_decimal(s, bytes / unit_size);
    push_char(s, '.');
    push_decimal(s, (bytes % unit_size) / (unit_size / 10));
    push_char(s, unit);
    proof {
        assert(s@ =~= old(s)@ + dec_str(bytes as int / unit_size as int) + seq!['.'] + dec_str(
            (bytes as int % unit_size as int) / (unit_size as int / 10),
        ) + seq![unit]);
    }
}

} // verus!
