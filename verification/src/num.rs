//! Decimal rendering of the small numbers the store puts into text:
//! section counters, calendar fields and document numbers.

use vstd::prelude::*;

verus! {

/// A decimal digit character.
pub open spec fn is_digit(c: char) -> bool {
    48 <= c as u32 <= 57
}

/// The value of a decimal digit character.
pub open spec fn digit_val(c: char) -> int {
    c as u32 - 48
}

/// The value of a run of decimal digit characters, most significant
/// first.
pub open spec fn digits_val(s: Seq<char>) -> int
    decreases s.len(),
{
    if s.len() == 0 {
        0
    } else {
        digits_val(s.drop_last()) * 10 + digit_val(s.last())
    }
}

/// The decimal digit character for a value below ten.
pub open spec fn digit_char(d: int) -> char {
    if d == 0 {
        '0'
    } else if d == 1 {
        '1'
    } else if d == 2 {
        '2'
    } else if d == 3 {
        '3'
    } else if d == 4 {
        '4'
    } else if d == 5 {
        '5'
    } else if d == 6 {
        '6'
    } else if d == 7 {
        '7'
    } else if d == 8 {
        '8'
    } else {
        '9'
    }
}

/// The decimal digits of `n`, most significant first, with no sign and no
/// leading zero (except for zero itself).
pub open spec fn dec_digits(n: int) -> Seq<char>
    decreases n,
{
    if n < 10 {
        seq![digit_char(n)]
    } else {
        dec_digits(n / 10).push(digit_char(n % 10))
    }
}

/// The decimal digits of `n`, left-padded with zeros to at least `w`
/// characters.
pub open spec fn dec_digits_padded(n: int, w: int) -> Seq<char>
    decreases w,
{
    if dec_digits(n).len() >= w {
        dec_digits(n)
    } else {
        seq!['0'] + dec_digits_padded(n, w - 1)
    }
}

fn digit_str(d: u32) -> (r: &'static str)
    requires
        d < 10,
    ensures
        r@ == seq![digit_char(d as int)],
{
    proof {
        reveal_strlit("0");
        reveal_strlit("1");
        reveal_strlit("2");
        reveal_strlit("3");
        reveal_strlit("4");
        reveal_strlit("5");
        reveal_strlit("6");
        reveal_strlit("7");
        reveal_strlit("8");
        reveal_strlit("9");
        assert("0"@ =~= seq![digit_char(0)]);
        assert("1"@ =~= seq![digit_char(1)]);
        assert("2"@ =~= seq![digit_char(2)]);
        assert("3"@ =~= seq![digit_char(3)]);
        assert("4"@ =~= seq![digit_char(4)]);
        assert("5"@ =~= seq![digit_char(5)]);
        assert("6"@ =~= seq![digit_char(6)]);
        assert("7"@ =~= seq![digit_char(7)]);
        assert("8"@ =~= seq![digit_char(8)]);
        assert("9"@ =~= seq![digit_char(9)]);
    }
    if d == 0 {
        "0"
    } else if d == 1 {
        "1"
    } else if d == 2 {
        "2"
    } else if d == 3 {
        "3"
    } else if d == 4 {
        "4"
    } else if d == 5 {
        "5"
    } else if d == 6 {
        "6"
    } else if d == 7 {
        "7"
    } else if d == 8 {
        "8"
    } else {
        "9"
    }
}

/// Append the decimal digits of `n` to `out`.
pub fn push_decimal(out: &mut String, n: u32)
    ensures
        final(out)@ == old(out)@ + dec_digits(n as int),
    decreases n,
{
    if n >= 10 {
        push_decimal(out, n / 10);
        out.append(digit_str(n % 10));
        proof {
            assert(old(out)@ + dec_digits((n / 10) as int) + seq![
                digit_char((n % 10) as int),
            ] =~= old(out)@ + dec_digits(n as int));
        }
    } else {
        out.append(digit_str(n));
        proof {
            assert(old(out)@ + seq![digit_char(n as int)] =~= old(out)@ + dec_digits(n as int));
        }
    }
}

/// The decimal digits of `n` as a string.
pub fn decimal_string(n: u32) -> (r: String)
    ensures
        r@ == dec_digits(n as int),
{
    let mut out = String::new();
    push_decimal(&mut out, n);
    proof {
        assert(Seq::<char>::empty() + dec_digits(n as int) =~= dec_digits(n as int));
    }
    out
}

/// `dec_digits` of a number below ten raised to `k` has at most `k`
/// digits.
pub proof fn lemma_dec_digits_len(n: int, k: int)
    requires
        k >= 1,
        0 <= n < pow10(k),
    ensures
        1 <= dec_digits(n).len() <= k,
    decreases k,
{
    if n >= 10 {
        lemma_pow10_pos(k - 1);
        assert(pow10(k) == 10 * pow10(k - 1));
        assert(n / 10 < pow10(k - 1));
        assert(k >= 2);
        lemma_dec_digits_len(n / 10, k - 1);
    }
}

pub proof fn lemma_pow10_mono(a: int, b: int)
    requires
        a <= b,
    ensures
        pow10(a) <= pow10(b),
    decreases b - a,
{
    if a < b {
        lemma_pow10_mono(a, b - 1);
        lemma_pow10_pos(b - 1);
    }
}

pub proof fn lemma_pow10_pos(k: int)
    ensures
        pow10(k) >= 1,
    decreases k,
{
    if k > 0 {
        lemma_pow10_pos(k - 1);
    }
}

/// Ten raised to `k`.
pub open spec fn pow10(k: int) -> int
    decreases k,
{
    if k <= 0 {
        1
    } else {
        10 * pow10(k - 1)
    }
}

/// Append the decimal digits of `n`, left-padded with zeros to at least
/// four characters.
pub fn push_decimal_padded4(out: &mut String, n: u32)
    ensures
        final(out)@ == old(out)@ + dec_digits_padded(n as int, 4),
{
    proof {
        lemma_dec_digits_len_low(n as int);
    }
    if n < 10 {
        out.append("000");
        proof {
            reveal_strlit("000");
        }
    } else if n < 100 {
        out.append("00");
        proof {
            reveal_strlit("00");
        }
    } else if n < 1000 {
        out.append("0");
        proof {
            reveal_strlit("0");
        }
    }
    push_decimal(out, n);
    proof {
        reveal_strlit("000");
        reveal_strlit("00");
        reveal_strlit("0");
        reveal_with_fuel(dec_digits_padded, 5);
        if n < 10 {
            assert("000"@ =~= seq!['0', '0', '0']);
            assert(dec_digits_padded(n as int, 4) =~= seq!['0', '0', '0'] + dec_digits(n as int));
            assert(old(out)@ + "000"@ + dec_digits(n as int) =~= old(out)@ + dec_digits_padded(
                n as int,
                4,
            ));
        } else if n < 100 {
            assert("00"@ =~= seq!['0', '0']);
            assert(dec_digits_padded(n as int, 4) =~= seq!['0', '0'] + dec_digits(n as int));
            assert(old(out)@ + "00"@ + dec_digits(n as int) =~= old(out)@ + dec_digits_padded(
                n as int,
                4,
            ));
        } else if n < 1000 {
            assert("0"@ =~= seq!['0']);
            assert(dec_digits_padded(n as int, 4) =~= seq!['0'] + dec_digits(n as int));
            assert(old(out)@ + "0"@ + dec_digits(n as int) =~= old(out)@ + dec_digits_padded(
                n as int,
                4,
            ));
        } else {
            assert(dec_digits_padded(n as int, 4) =~= dec_digits(n as int));
        }
    }
}

/// Append the decimal digits of `n`, left-padded with zeros to at least
/// two characters.
pub fn push_decimal_padded2(out: &mut String, n: u32)
    ensures
        final(out)@ == old(out)@ + dec_digits_padded(n as int, 2),
{
    proof {
        lemma_dec_digits_len_low(n as int);
    }
    if n < 10 {
        out.append("0");
        proof {
            reveal_strlit("0");
        }
    }
    push_decimal(out, n);
    proof {
        reveal_strlit("0");
        reveal_with_fuel(dec_digits_padded, 3);
        if n < 10 {
            assert("0"@ =~= seq!['0']);
            assert(dec_digits_padded(n as int, 2) =~= seq!['0'] + dec_digits(n as int));
            assert(old(out)@ + "0"@ + dec_digits(n as int) =~= old(out)@ + dec_digits_padded(
                n as int,
                2,
            ));
        } else {
            assert(dec_digits_padded(n as int, 2) =~= dec_digits(n as int));
        }
    }
}

/// How many digits small numbers have: one below ten, two below one
/// hundred, three below one thousand, four below ten thousand.
pub proof fn lemma_dec_digits_len_low(n: int)
    requires
        0 <= n,
    ensures
        n < 10 ==> dec_digits(n).len() == 1,
        10 <= n < 100 ==> dec_digits(n).len() == 2,
        100 <= n < 1000 ==> dec_digits(n).len() == 3,
        1000 <= n < 10000 ==> dec_digits(n).len() == 4,
        10000 <= n ==> dec_digits(n).len() >= 5,
    decreases n,
{
    if n >= 10 {
        lemma_dec_digits_len_low(n / 10);
    }
}

} // verus!
