//! Decimal renderings of the engine's numbers: plain integers, signed
//! integers, and fixed-point micro-unit values with two or six decimal
//! places.

use vstd::prelude::*;
use vstd::string::StringExecFns;
use crate::fixed::SCALE;

verus! {

/// The decimal digit character for a value below ten.
pub open spec fn digit_char(d: int) -> char {
    if d == 0 {
        '0'
    } else if d == 1 {
        '1'
    } else if d == 2 {
        '2'
    } else if d == 3 {
        '3'
    } else if d == 4 {
        '4'
    } else if d == 5 {
        '5'
    } else if d == 6 {
        '6'
    } else if d == 7 {
        '7'
    } else if d == 8 {
        '8'
    } else {
        '9'
    }
}

/// The decimal rendering of a non-negative integer, most significant digit
/// first, without leading zeros (zero itself is "0").
pub open spec fn dec_digits(n: int) -> Seq<char>
    decreases n,
{
    if n < 10 {
        seq![digit_char(n)]
    } else {
        dec_digits(n / 10).push(digit_char(n % 10))
    }
}

/// The rendering of a signed integer: a minus sign before the magnitude.
pub open spec fn dec_signed(v: int) -> Seq<char> {
    if v < 0 {
        seq!['-'] + dec_digits(-v)
    } else {
        dec_digits(v)
    }
}

/// A micro-unit value rendered with six decimal places ("0.729000").
pub open spec fn micro_fixed6(v: int) -> Seq<char> {
    let whole = v / (SCALE as int);
    let frac = v % (SCALE as int);
    dec_digits(whole) + seq!['.'] + seq![
        digit_char(frac / 100_000),
        digit_char(frac / 10_000 % 10),
        digit_char(frac / 1_000 % 10),
        digit_char(frac / 100 % 10),
        digit_char(frac / 10 % 10),
        digit_char(frac % 10),
    ]
}

/// A non-negative micro-unit value rendered with two decimal places,
/// rounded half up ("0.73").
pub open spec fn micro_fixed2(v: int) -> Seq<char> {
    let h = (v + 5_000) / 10_000;
    dec_digits(h / 100) + seq!['.'] + seq![digit_char(h / 10 % 10), digit_char(h % 10)]
}

/// A signed micro-unit value with two decimal places.
pub open spec fn micro_signed2(v: int) -> Seq<char> {
    if v < 0 {
        seq!['-'] + micro_fixed2(-v)
    } else {
        micro_fixed2(v)
    }
}

/// Appends one decimal digit character.
pub fn push_digit(s: &mut String, d: u128)
    requires
        d < 10,
    ensures
        final(s)@ == old(s)@ + seq![digit_char(d as int)],
{
    proof {
        reveal_strlit("0");
        reveal_strlit("1");
        reveal_strlit("2");
        reveal_strlit("3");
        reveal_strlit("4");
        reveal_strlit("5");
        reveal_strlit("6");
        reveal_strlit("7");
        reveal_strlit("8");
        reveal_strlit("9");
    }
    if d == 0 {
        s.append("0");
    } else if d == 1 {
        s.append("1");
    } else if d == 2 {
        s.append("2");
    } else if d == 3 {
        s.append("3");
    } else if d == 4 {
        s.append("4");
    } else if d == 5 {
        s.append("5");
    } else if d == 6 {
        s.append("6");
    } else if d == 7 {
        s.append("7");
    } else if d == 8 {
        s.append("8");
    } else {
        s.append("9");
    }
    proof {
        assert(s@ =~= old(s)@ + seq![digit_char(d as int)]);
    }
}

/// The digits of `rev` read back to front.
pub open spec fn rev_digit_chars(rev: Seq<u128>) -> Seq<char> {
    Seq::new(rev.len(), |i: int| digit_char(rev[rev.len() - 1 - i] as int))
}

/// Appends the decimal rendering of a non-negative integer.
pub fn append_decimal(s: &mut String, n: u128)
    ensures
        final(s)@ == old(s)@ + dec_digits(n as int),
{
    let mut rev: Vec<u128> = Vec::new();
    let mut m: u128 = n;
    proof {
        assert(rev_digit_chars(rev@) =~= Seq::<char>::empty());
        assert(dec_digits(n as int) =~= dec_digits(n as int) + rev_digit_chars(rev@));
    }
    while m >= 10
        invariant
            dec_digits(n as int) == dec_digits(m as int) + rev_digit_chars(rev@),
            forall|q: int| 0 <= q < rev@.len() ==> rev@[q] < 10,
        decreases m,
    {
        let ghost prev = rev@;
        rev.push(m % 10);
        proof {
            assert(dec_digits(m as int) == dec_digits(m as int / 10).push(
                digit_char(m as int % 10),
            ));
            assert(rev_digit_chars(rev@) =~= seq![digit_char(m as int % 10)] + rev_digit_chars(
                prev,
            ));
            assert(dec_digits(m as int / 10) + rev_digit_chars(rev@) =~= dec_digits(m as int)
                + rev_digit_chars(prev));
        }
        m = m / 10;
    }
    let ghost prev = rev@;
    rev.push(m);
    proof {
        assert(rev_digit_chars(rev@) =~= seq![digit_char(m as int)] + rev_digit_chars(prev));
        assert(dec_digits(n as int) =~= rev_digit_chars(rev@));
    }
    let total: usize = rev.len();
    let mut k: usize = 0;
    proof {
        assert(s@ =~= old(s)@ + dec_digits(n as int).subrange(0, 0));
    }
    while k < total
        invariant
            total == rev@.len(),
            k <= total,
            dec_digits(n as int) == rev_digit_chars(rev@),
            forall|q: int| 0 <= q < rev@.len() ==> rev@[q] < 10,
            s@ == old(s)@ + dec_digits(n as int).subrange(0, k as int),
        decreases total - k,
    {
        let d = rev[total - 1 - k];
        proof {
            assert(rev_digit_chars(rev@)[k as int] == digit_char(rev@[total - 1 - k] as int));
        }
        push_digit(s, d);
        proof {
            assert(s@ =~= old(s)@ + dec_digits(n as int).subrange(0, k as int + 1));
        }
        k = k + 1;
    }
    proof {
        assert(dec_digits(n as int).subrange(0, total as int) =~= dec_digits(n as int));
        assert(s@ =~= old(s)@ + dec_digits(n as int));
    }
}

/// Appends the decimal rendering of a signed integer.
pub fn append_signed(s: &mut String, v: i64)
    ensures
        final(s)@ == old(s)@ + dec_signed(v as int),
{
    proof {
        reveal_strlit("-");
    }
    if v < 0 {
        s.append("-");
        let mag: u128 = (-(v as i128)) as u128;
        append_decimal(s, mag);
        proof {
            assert("-"@ =~= seq!['-']);
            assert(s@ =~= old(s)@ + dec_signed(v as int));
        }
    } else {
        append_decimal(s, v as u128);
    }
}

/// Appends a micro-unit value with six decimal places.
pub fn append_micro6(s: &mut String, v: u64)
    ensures
        final(s)@ == old(s)@ + micro_fixed6(v as int),
{
    proof {
        reveal_strlit(".");
    }
    append_decimal(s, (v / SCALE) as u128);
    s.append(".");
    let frac = v % SCALE;
    push_digit(s, (frac / 100_000) as u128);
    push_digit(s, (frac / 10_000 % 10) as u128);
    push_digit(s, (frac / 1_000 % 10) as u128);
    push_digit(s, (frac / 100 % 10) as u128);
    push_digit(s, (frac / 10 % 10) as u128);
    push_digit(s, (frac % 10) as u128);
    proof {
        assert("."@ =~= seq!['.']);
        assert(s@ =~= old(s)@ + micro_fixed6(v as int));
    }
}

/// Appends a non-negative micro-unit value with two decimal places, rounded
/// half up.
pub fn append_micro2(s: &mut String, v: u64)
    ensures
        final(s)@ == old(s)@ + micro_fixed2(v as int),
{
    proof {
        reveal_strlit(".");
    }
    let h: u128 = ((v as u128) + 5_000) / 10_000;
    append_decimal(s, h / 100);
    s.append(".");
    push_digit(s, h / 10 % 10);
    push_digit(s, h % 10);
    proof {
        assert("."@ =~= seq!['.']);
        assert(s@ =~= old(s)@ + micro_fixed2(v as int));
    }
}

/// Appends a signed micro-unit value with two decimal places.
pub fn append_micro_signed2(s: &mut String, v: i64)
    ensures
        final(s)@ == old(s)@ + micro_signed2(v as int),
{
    proof {
        reveal_strlit("-");
    }
    if v < 0 {
        s.append("-");
        let mag: u64 = if v == i64::MIN {
            9_223_372_036_854_775_808u64
        } else {
            (-v) as u64
        };
        append_micro2(s, mag);
        proof {
            assert("-"@ =~= seq!['-']);
            assert(s@ =~= old(s)@ + micro_signed2(v as int));
        }
    } else {
        append_micro2(s, v as u64);
    }
}

} // verus!
