//! Digit-string values and decimal rendering for the season/episode tag.

use vstd::prelude::*;

use crate::chars::{digit_val, is_digit};

verus! {

/// Every character of `s` in `[from, to)` is an ASCII digit.
pub open spec fn all_digits_in(s: Seq<char>, from: int, to: int) -> bool {
    forall|k: int| from <= k < to ==> is_digit(s[k])
}

/// The numeric value of a digit string (leading zeros allowed; empty is 0).
pub open spec fn digits_val(ds: Seq<char>) -> nat
    decreases ds.len(),
{
    if ds.len() == 0 {
        0
    } else {
        digits_val(ds.drop_last()) * 10 + digit_val(ds.last())
    }
}

/// The value of a digit string, or `dflt` where it does not fit in a `u32`.
pub open spec fn digits_val_or(ds: Seq<char>, dflt: nat) -> nat {
    if digits_val(ds) <= u32::MAX {
        digits_val(ds)
    } else {
        dflt
    }
}

/// Extending a digit string on the right never shrinks its value.
proof fn lemma_digits_val_prefix_le(ds: Seq<char>, n: int)
    requires
        0 <= n <= ds.len(),
    ensures
        digits_val(ds.take(n)) <= digits_val(ds),
    decreases ds.len() - n,
{
    if n < ds.len() {
        assert(ds.take(n + 1).drop_last() =~= ds.take(n));
        assert(digits_val(ds.take(n)) <= digits_val(ds.take(n + 1)));
        lemma_digits_val_prefix_le(ds, n + 1);
    } else {
        assert(ds.take(n) =~= ds);
    }
}

/// Reads the value of `s[from..to]`, all digits, refusing values that do not
/// fit in a `u32`.
pub fn parse_digits(s: &Vec<char>, from: usize, to: usize) -> (r: Option<u32>)
    requires
        from <= to <= s@.len(),
        all_digits_in(s@, from as int, to as int),
    ensures
        digits_val(s@.subrange(from as int, to as int)) <= u32::MAX ==> r == Some(
            digits_val(s@.subrange(from as int, to as int)) as u32,
        ),
        digits_val(s@.subrange(from as int, to as int)) > u32::MAX ==> r.is_none(),
{
    let ghost ds = s@.subrange(from as int, to as int);
    let mut acc: u64 = 0;
    let mut i: usize = from;
    while i < to
        invariant
            from <= i <= to <= s@.len(),
            all_digits_in(s@, from as int, to as int),
            ds == s@.subrange(from as int, to as int),
            acc == digits_val(ds.take(i - from)),
            acc <= u32::MAX,
        decreases to - i,
    {
        let c = s[i];
        assert(is_digit(c));
        let d: u64 = (c as u32 - '0' as u32) as u64;
        acc = acc * 10 + d;
        i = i + 1;
        proof {
            assert(ds.take(i - from).drop_last() =~= ds.take(i - from - 1));
            assert(ds.take(i - from).last() == c);
        }
        if acc > u32::MAX as u64 {
            proof {
                lemma_digits_val_prefix_le(ds, i - from);
            }
            return None;
        }
    }
    proof {
        assert(ds.take(to - from) =~= ds);
    }
    Some(acc as u32)
}

/// Reads the value of `s[from..to]`, falling back to `dflt` where the digits
/// overflow a `u32`.
pub fn parse_digits_or(s: &Vec<char>, from: usize, to: usize, dflt: u32) -> (r: u32)
    requires
        from <= to <= s@.len(),
        all_digits_in(s@, from as int, to as int),
    ensures
        r == digits_val_or(s@.subrange(from as int, to as int), dflt as nat),
{
    match parse_digits(s, from, to) {
        Some(v) => v,
        None => dflt,
    }
}

/// The character for a single decimal digit value.
pub open spec fn digit_char(d: nat) -> char
    recommends
        d < 10,
{
    (('0' as u32) + d) as char
}

/// The decimal rendering of `n`, without leading zeros.
pub open spec fn dec_str(n: nat) -> Seq<char>
    decreases n,
{
    if n < 10 {
        seq![digit_char(n)]
    } else {
        dec_str(n / 10) + seq![digit_char(n % 10)]
    }
}

/// Zero-pads a rendering on the left to a minimum width of two.
pub open spec fn pad2(ds: Seq<char>) -> Seq<char> {
    if ds.len() >= 2 {
        ds
    } else if ds.len() == 1 {
        seq!['0'] + ds
    } else {
        seq!['0', '0']
    }
}

/// Appends the decimal rendering of `n` to `out`.
pub fn push_dec(n: u32, out: &mut Vec<char>)
    ensures
        final(out)@ == old(out)@ + dec_str(n as nat),
    decreases n,
{
    if n < 10 {
        out.push((('0' as u32 + n) as u8) as char);
    } else {
        push_dec(n / 10, out);
        out.push((('0' as u32 + n % 10) as u8) as char);
        proof {
            assert(out@ =~= old(out)@ + dec_str(n as nat));
        }
    }
}

/// A decimal rendering is never empty.
pub proof fn lemma_dec_str_len(n: nat)
    ensures
        dec_str(n).len() >= 1,
    decreases n,
{
    if n >= 10 {
        lemma_dec_str_len(n / 10);
    }
}

/// Appends the decimal rendering of `n`, zero-padded to width two.
pub fn push_dec_pad2(n: u32, out: &mut Vec<char>)
    ensures
        final(out)@ == old(out)@ + pad2(dec_str(n as nat)),
{
    if n < 10 {
        out.push('0');
        proof {
            lemma_dec_str_len(n as nat);
        }
    }
    push_dec(n, out);
    proof {
        if n < 10 {
            assert(out@ =~= old(out)@ + pad2(dec_str(n as nat)));
        } else {
            lemma_dec_str_ge10_len(n as nat);
        }
    }
}

/// Values of ten or more render to at least two digits.
proof fn lemma_dec_str_ge10_len(n: nat)
    requires
        n >= 10,
    ensures
        dec_str(n).len() >= 2,
{
    lemma_dec_str_len(n / 10);
}

} // verus!
