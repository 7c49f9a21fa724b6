//! Decimal text for the display: integer, one-decimal and two-decimal
//! renderings of fixed-point quantities, rounding to nearest with ties
//! away from zero.
use vstd::prelude::*;

use vstd::string::StringExecFns;

verus! {

pub open spec fn digit_char(d: int) -> char {
    if d == 0 {
        '0'
    } else if d == 1 {
        '1'
    } else if d == 2 {
        '2'
    } else if d == 3 {
        '3'
    } else if d == 4 {
        '4'
    } else if d == 5 {
        '5'
    } else if d == 6 {
        '6'
    } else if d == 7 {
        '7'
    } else if d == 8 {
        '8'
    } else {
        '9'
    }
}

/// Decimal digit characters of `n`, most significant first.
pub open spec fn nat_chars(n: nat) -> Seq<char>
    decreases n,
{
    if n < 10 {
        seq![digit_char(n as int)]
    } else {
        nat_chars(n / 10).push(digit_char((n % 10) as int))
    }
}

/// Signed decimal text of `v`.
pub open spec fn int_chars(v: int) -> Seq<char> {
    if v < 0 {
        seq!['-'] + nat_chars((-v) as nat)
    } else {
        nat_chars(v as nat)
    }
}

/// `h / 100` rounded to the nearest integer, ties away from zero.
pub open spec fn round_div100(h: int) -> int {
    if h >= 0 {
        (h + 50) / 100
    } else {
        -(((-h) + 50) / 100)
    }
}

/// One-decimal kilowatt text for a watt count: the watts divided by one
/// thousand, rounded to one decimal place.
pub open spec fn kw_chars(w: int) -> Seq<char> {
    (if round_div100(w) < 0 {
        seq!['-']
    } else {
        Seq::<char>::empty()
    }) + nat_chars((abs1(round_div100(w)) / 10) as nat) + seq!['.'] + seq![
        digit_char(abs1(round_div100(w)) % 10),
    ]
}

/// Two-decimal currency text for a count of hundredths.
pub open spec fn money_chars(c: int) -> Seq<char> {
    (if c < 0 {
        seq!['-']
    } else {
        Seq::<char>::empty()
    }) + nat_chars((abs1(c) / 100) as nat) + seq!['.'] + seq![
        digit_char((abs1(c) % 100) / 10),
        digit_char(abs1(c) % 10),
    ]
}

pub open spec fn abs1(v: int) -> int {
    if v < 0 {
        -v
    } else {
        v
    }
}

fn push_digit_char(out: &mut String, d: u64)
    requires
        d < 10,
    ensures
        final(out)@ == old(out)@ + seq![digit_char(d as int)],
{
    proof {
        reveal_strlit("0");
        reveal_strlit("1");
        reveal_strlit("2");
        reveal_strlit("3");
        reveal_strlit("4");
        reveal_strlit("5");
        reveal_strlit("6");
        reveal_strlit("7");
        reveal_strlit("8");
        reveal_strlit("9");
    }
    match d {
        0 => out.append("0"),
        1 => out.append("1"),
        2 => out.append("2"),
        3 => out.append("3"),
        4 => out.append("4"),
        5 => out.append("5"),
        6 => out.append("6"),
        7 => out.append("7"),
        8 => out.append("8"),
        _ => out.append("9"),
    }
    proof {
        assert(final(out)@ =~= old(out)@ + seq![digit_char(d as int)]);
    }
}

fn push_nat_chars(out: &mut String, n: u64)
    ensures
        final(out)@ == old(out)@ + nat_chars(n as nat),
    decreases n,
{
    if n < 10 {
        push_digit_char(out, n);
    } else {
        push_nat_chars(out, n / 10);
        push_digit_char(out, n % 10);
        proof {
            assert((n as nat) / 10 == (n / 10) as nat);
            assert((n as nat) % 10 == (n % 10) as nat);
            assert(final(out)@ =~= old(out)@ + nat_chars(n as nat));
        }
    }
}

fn push_minus(out: &mut String)
    ensures
        final(out)@ == old(out)@ + seq!['-'],
{
    proof {
        reveal_strlit("-");
    }
    out.append("-");
    proof {
        assert(final(out)@ =~= old(out)@ + seq!['-']);
    }
}

fn push_dot(out: &mut String)
    ensures
        final(out)@ == old(out)@ + seq!['.'],
{
    proof {
        reveal_strlit(".");
    }
    out.append(".");
    proof {
        assert(final(out)@ =~= old(out)@ + seq!['.']);
    }
}

/// Signed decimal text of `v`.
pub fn fmt_int(v: i64) -> (r: String)
    requires
        v > i64::MIN,
    ensures
        r@ == int_chars(v as int),
{
    let mut out = String::new();
    if v < 0 {
        push_minus(&mut out);
        push_nat_chars(&mut out, (-v) as u64);
        proof {
            assert(out@ =~= int_chars(v as int));
        }
    } else {
        push_nat_chars(&mut out, v as u64);
        proof {
            assert(out@ =~= int_chars(v as int));
        }
    }
    out
}

/// `h / 100` rounded to nearest, ties away from zero.
pub fn round100(h: i64) -> (r: i64)
    requires
        -(crate::json::DEC_LIMIT as int) < h < (crate::json::DEC_LIMIT as int),
    ensures
        r == round_div100(h as int),
{
    if h >= 0 {
        (h + 50) / 100
    } else {
        let r = -((-h + 50) / 100);
        proof {
            assert((-(h as int) + 50) / 100 == ((-h + 50) as i64) / 100);
        }
        r
    }
}

/// One-decimal kilowatt text for a watt count.
pub fn fmt_kw(w: i32) -> (r: String)
    ensures
        r@ == kw_chars(w as int),
{
    let t = round100(w as i64);
    let mut out = String::new();
    if t < 0 {
        push_minus(&mut out);
    }
    let m = if t < 0 {
        -t
    } else {
        t
    };
    push_nat_chars(&mut out, (m / 10) as u64);
    push_dot(&mut out);
    proof {
        assert((m % 10) < 10) by (nonlinear_arith)
            requires
                m >= 0,
        ;
        assert((m % 10) >= 0);
    }
    push_digit_char(&mut out, (m % 10) as u64);
    proof {
        assert(m == abs1(round_div100(w as int)));
        assert(((m / 10) as u64) as nat == (abs1(round_div100(w as int)) / 10) as nat);
        assert(((m % 10) as u64) as int == abs1(round_div100(w as int)) % 10);
        assert(out@ =~= kw_chars(w as int));
    }
    out
}

/// Two-decimal currency text for a count of hundredths.
pub fn fmt_money(c: i64) -> (r: String)
    requires
        -(crate::json::DEC_LIMIT as int) < c < (crate::json::DEC_LIMIT as int),
    ensures
        r@ == money_chars(c as int),
{
    let mut out = String::new();
    if c < 0 {
        push_minus(&mut out);
    }
    let m = if c < 0 {
        -c
    } else {
        c
    };
    push_nat_chars(&mut out, (m / 100) as u64);
    push_dot(&mut out);
    let f = m % 100;
    proof {
        assert(0 <= f < 100) by (nonlinear_arith)
            requires
                f == m % 100,
                m >= 0,
        ;
        assert(f / 10 < 10 && f % 10 < 10) by (nonlinear_arith)
            requires
                0 <= f < 100,
        ;
    }
    push_digit_char(&mut out, (f / 10) as u64);
    push_digit_char(&mut out, (f % 10) as u64);
    proof {
        assert(m == abs1(c as int));
        assert((f / 10) as int == (abs1(c as int) % 100) / 10 && (f % 10) as int == abs1(
            c as int,
        ) % 10) by (nonlinear_arith)
            requires
                f == m % 100,
                m == abs1(c as int),
                m >= 0,
        ;
        assert(out@ =~= money_chars(c as int));
    }
    out
}

} // verus!
