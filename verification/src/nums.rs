//! Decimal rendering of drawn values and parsing of declaration bounds.
//!
//! An `int` variable renders as its plain decimal form. A `real` variable
//! is a whole part plus a fraction in thousandths; it renders as the exact
//! decimal of `whole + frac/1000` with trailing fraction zeros dropped and
//! no decimal point when the fraction is zero.
use vstd::prelude::*;

verus! {

use crate::chars::is_digit_char;

/// The decimal digit character for `d` in `[0, 9]`.
pub open spec fn digit_char(d: int) -> char {
    if d == 0 {
        '0'
    } else if d == 1 {
        '1'
    } else if d == 2 {
        '2'
    } else if d == 3 {
        '3'
    } else if d == 4 {
        '4'
    } else if d == 5 {
        '5'
    } else if d == 6 {
        '6'
    } else if d == 7 {
        '7'
    } else if d == 8 {
        '8'
    } else {
        '9'
    }
}

/// The numeric value of a decimal digit character.
pub open spec fn digit_val(c: char) -> int {
    c as u32 - 48
}

/// The decimal digits of `n`, most significant first, no sign.
pub open spec fn dec_digits(n: nat) -> Seq<char>
    decreases n,
{
    if n < 10 {
        seq![digit_char(n as int)]
    } else {
        dec_digits(n / 10) + seq![digit_char((n % 10) as int)]
    }
}

/// The decimal rendering of a (possibly negative) integer value.
pub open spec fn render_int(v: int) -> Seq<char> {
    if v < 0 {
        seq!['-'] + dec_digits((-v) as nat)
    } else {
        dec_digits(v as nat)
    }
}

/// The fraction digits of `fp` thousandths, `1 <= fp <= 999`, with
/// trailing zeros dropped.
pub open spec fn frac_digits(fp: nat) -> Seq<char> {
    let d1 = (fp / 100) as int;
    let d2 = ((fp / 10) % 10) as int;
    let d3 = (fp % 10) as int;
    if d3 != 0 {
        seq![digit_char(d1), digit_char(d2), digit_char(d3)]
    } else if d2 != 0 {
        seq![digit_char(d1), digit_char(d2)]
    } else {
        seq![digit_char(d1)]
    }
}

/// The decimal rendering of a magnitude of `m` thousandths.
pub open spec fn render_real_mag(m: nat) -> Seq<char> {
    let ip = m / 1000;
    let fp = m % 1000;
    if fp == 0 {
        dec_digits(ip)
    } else {
        dec_digits(ip) + seq!['.'] + frac_digits(fp)
    }
}

/// The decimal rendering of the real value `whole + frac/1000`.
pub open spec fn render_real(whole: int, frac: int) -> Seq<char> {
    let t = whole * 1000 + frac;
    if t < 0 {
        seq!['-'] + render_real_mag((-t) as nat)
    } else {
        render_real_mag(t as nat)
    }
}

/// A one-character string for the decimal digit `d`.
pub fn digit_str(d: u64) -> (r: &'static str)
    requires
        d <= 9,
    ensures
        r@ == seq![digit_char(d as int)],
{
    let r: &'static str = match d {
        0 => "0",
        1 => "1",
        2 => "2",
        3 => "3",
        4 => "4",
        5 => "5",
        6 => "6",
        7 => "7",
        8 => "8",
        _ => "9",
    };
    proof {
        reveal_strlit("0");
        reveal_strlit("1");
        reveal_strlit("2");
        reveal_strlit("3");
        reveal_strlit("4");
        reveal_strlit("5");
        reveal_strlit("6");
        reveal_strlit("7");
        reveal_strlit("8");
        reveal_strlit("9");
        assert(r@ =~= seq![digit_char(d as int)]);
    }
    r
}

/// Appends the decimal digits of `n` to `out`.
pub fn push_dec(out: &mut String, n: u128)
    ensures
        final(out)@ == old(out)@ + dec_digits(n as nat),
    decreases n,
{
    if n < 10 {
        let s = digit_str(n as u64);
        out.append(s);
    } else {
        proof {
            assert(n / 10 < n) by (nonlinear_arith)
                requires
                    n >= 10,
            ;
        }
        push_dec(out, n / 10);
        let s = digit_str((n % 10) as u64);
        out.append(s);
        proof {
            assert(old(out)@ + (dec_digits((n / 10) as nat) + seq![
                digit_char((n % 10) as int),
            ]) =~= old(out)@ + dec_digits((n / 10) as nat) + seq![digit_char((n % 10) as int)]);
        }
    }
}

/// The decimal string of a signed integer value.
pub fn int_to_string(v: i64) -> (r: String)
    ensures
        r@ == render_int(v as int),
{
    let mut out = String::new();
    if v < 0 {
        let minus: &'static str = "-";
        proof {
            reveal_strlit("-");
            assert(minus@ =~= seq!['-']);
        }
        out.append(minus);
        let m: u128 = (-(v as i128)) as u128;
        push_dec(&mut out, m);
        proof {
            assert(out@ =~= seq!['-'] + dec_digits((-(v as int)) as nat));
        }
    } else {
        push_dec(&mut out, v as u128);
    }
    out
}

/// The decimal string of the real value `whole + frac/1000`.
pub fn real_to_string(whole: i64, frac: i64) -> (r: String)
    requires
        0 <= frac < 1000,
    ensures
        r@ == render_real(whole as int, frac as int),
{
    let t: i128 = (whole as i128) * 1000 + (frac as i128);
    proof {
        assert((whole as i128) * 1000 == (whole as int) * 1000) by (nonlinear_arith);
    }
    let mut out = String::new();
    let m: u128 = if t < 0 {
        let minus: &'static str = "-";
        proof {
            reveal_strlit("-");
            assert(minus@ =~= seq!['-']);
        }
        out.append(minus);
        (-t) as u128
    } else {
        t as u128
    };
    let ip: u128 = m / 1000;
    let fp: u64 = (m % 1000) as u64;
    push_dec(&mut out, ip);
    if fp != 0 {
        let dot: &'static str = ".";
        proof {
            reveal_strlit(".");
            assert(dot@ =~= seq!['.']);
        }
        out.append(dot);
        let d1: u64 = fp / 100;
        let d2: u64 = (fp / 10) % 10;
        let d3: u64 = fp % 10;
        out.append(digit_str(d1));
        if d3 != 0 {
            out.append(digit_str(d2));
            out.append(digit_str(d3));
        } else if d2 != 0 {
            out.append(digit_str(d2));
        }
    }
    proof {
        let mm = m as nat;
        assert(out@ =~= (if t < 0 {
            seq!['-'] + render_real_mag(mm)
        } else {
            render_real_mag(mm)
        }));
    }
    out
}

/// The value of a string of decimal digit characters.
pub open spec fn digits_val(s: Seq<char>) -> int
    decreases s.len(),
{
    if s.len() == 0 {
        0
    } else {
        digits_val(s.drop_last()) * 10 + digit_val(s.last())
    }
}

pub proof fn lemma_digits_val_bounds(s: Seq<char>)
    requires
        forall|k: int| 0 <= k < s.len() ==> is_digit_char(s[k]),
    ensures
        digits_val(s) >= 0,
        s.len() > 0 ==> digits_val(s) >= digits_val(s.drop_last()),
    decreases s.len(),
{
    if s.len() > 0 {
        lemma_digits_val_bounds(s.drop_last());
        assert(is_digit_char(s.last()));
        assert(digit_val(s.last()) >= 0);
    }
}

/// A partial digit string never exceeds the value of the whole.
pub proof fn lemma_digits_val_prefix(s: Seq<char>, k: int)
    requires
        0 <= k <= s.len(),
        forall|m: int| 0 <= m < s.len() ==> is_digit_char(s[m]),
    ensures
        digits_val(s) >= digits_val(s.take(k)),
    decreases s.len() - k,
{
    if k < s.len() {
        lemma_digits_val_prefix(s, k + 1);
        assert(s.take(k + 1).drop_last() =~= s.take(k));
        assert(s.take(k + 1).last() == s[k]);
        lemma_digits_val_bounds(s.take(k + 1));
        assert(forall|m: int| 0 <= m < s.take(k).len() ==> is_digit_char(s.take(k)[m]));
        lemma_digits_val_bounds(s.take(k));
        assert(digits_val(s.take(k + 1)) >= digits_val(s.take(k)));
    } else {
        assert(s.take(k) =~= s);
    }
}

/// The numeric value of the digit character `c`.
pub fn digit_of(c: char) -> (d: u64)
    requires
        is_digit_char(c),
    ensures
        d == digit_val(c),
        d <= 9,
{
    let u: u32 = c as u32;
    (u - 48) as u64
}

/// Reads the digit characters of `text` in `[i, j)` as an unsigned value;
/// fails when the value does not fit the machine word.
pub fn parse_digits(text: &str, i: usize, j: usize) -> (r: Option<u64>)
    requires
        i <= j <= text@.len(),
        forall|k: int| i <= k < j ==> is_digit_char(text@[k]),
    ensures
        match r {
            Some(v) => v == digits_val(text@.subrange(i as int, j as int)),
            None => digits_val(text@.subrange(i as int, j as int)) > u64::MAX,
        },
{
    let ghost s = text@.subrange(i as int, j as int);
    proof {
        assert(forall|m: int| 0 <= m < s.len() ==> is_digit_char(s[m]));
    }
    let mut acc: u64 = 0;
    let mut k: usize = i;
    while k < j
        invariant
            i <= k <= j <= text@.len(),
            s == text@.subrange(i as int, j as int),
            forall|m: int| 0 <= m < s.len() ==> is_digit_char(s[m]),
            acc == digits_val(s.take(k - i)),
        decreases j - k,
    {
        proof {
            assert(text@[k as int] == s[k - i]);
            assert(is_digit_char(s[k - i]));
        }
        let d = digit_of(text.get_char(k));
        proof {
            assert(s.take(k - i + 1).drop_last() =~= s.take(k - i));
            assert(s.take(k - i + 1).last() == s[k - i]);
            assert(s[k - i] == text@[k as int]);
        }
        let step = match acc.checked_mul(10) {
            Some(t) => t.checked_add(d),
            None => None,
        };
        match step {
            Some(v) => {
                acc = v;
            },
            None => {
                proof {
                    lemma_digits_val_bounds(s.take(k - i + 1));
                    assert(digits_val(s.take(k - i + 1)) == acc * 10 + digit_val(s[k - i]));
                    assert(acc * 10 + digit_val(s[k - i]) > u64::MAX);
                    lemma_digits_val_prefix(s, k - i + 1);
                    assert(s.take(s.len() as int) =~= s);
                }
                return None;
            },
        }
        k = k + 1;
    }
    proof {
        assert(s.take(s.len() as int) =~= s);
        assert(s.take(k - i) =~= s);
    }
    Some(acc)
}

} // verus!
