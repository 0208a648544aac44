//! Decimal text for the integers that event records carry: unsigned 128-bit
//! identifiers and signed 64-bit values, written as the usual digit strings
//! and read back tolerantly (anything that is not a number comes back `None`).

use vstd::prelude::*;

verus! {

/// The numeric value of a decimal digit character, or 10 for any other char.
pub open spec fn digit_val(c: char) -> u128 {
    if c == '0' {
        0
    } else if c == '1' {
        1
    } else if c == '2' {
        2
    } else if c == '3' {
        3
    } else if c == '4' {
        4
    } else if c == '5' {
        5
    } else if c == '6' {
        6
    } else if c == '7' {
        7
    } else if c == '8' {
        8
    } else if c == '9' {
        9
    } else {
        10
    }
}

pub open spec fn is_digit(c: char) -> bool {
    digit_val(c) < 10
}

/// The character for a digit below ten.
pub open spec fn digit_char(d: u128) -> char {
    if d == 0 {
        '0'
    } else if d == 1 {
        '1'
    } else if d == 2 {
        '2'
    } else if d == 3 {
        '3'
    } else if d == 4 {
        '4'
    } else if d == 5 {
        '5'
    } else if d == 6 {
        '6'
    } else if d == 7 {
        '7'
    } else if d == 8 {
        '8'
    } else {
        '9'
    }
}

/// The usual decimal writing of `n`: most significant digit first, no sign,
/// no leading zeros (except for the single digit of zero itself).
pub open spec fn u128_digits(n: u128) -> Seq<char>
    decreases n,
{
    if n < 10 {
        seq![digit_char(n)]
    } else {
        u128_digits(n / 10).push(digit_char((n % 10) as u128))
    }
}

/// The number a digit string denotes, if it is a nonempty all-digit string
/// whose value fits in a `u128`.
pub open spec fn digits_value(s: Seq<char>) -> Option<u128>
    decreases s.len(),
{
    if s.len() == 0 {
        None
    } else if s.len() == 1 {
        if is_digit(s[0]) {
            Some(digit_val(s[0]))
        } else {
            None
        }
    } else {
        match digits_value(s.drop_last()) {
            Option::None => None,
            Option::Some(v) => {
                let d = digit_val(s.last());
                if !is_digit(s.last()) {
                    None
                } else if v > (u128::MAX - d) / 10 {
                    None
                } else {
                    Some(((v * 10 + d) as u128))
                }
            },
        }
    }
}

pub proof fn lemma_u128_digits_len(n: u128)
    ensures
        u128_digits(n).len() >= 1,
    decreases n,
{
    if n >= 10 {
        lemma_u128_digits_len(n / 10);
    }
}

/// Every character of a decimal writing is a digit.
pub proof fn lemma_u128_digits_are_digits(n: u128)
    ensures
        forall|i: int| 0 <= i < u128_digits(n).len() ==> is_digit(#[trigger] u128_digits(n)[i]),
    decreases n,
{
    if n >= 10 {
        lemma_u128_digits_are_digits(n / 10);
        let rest = u128_digits(n / 10);
        assert forall|i: int| 0 <= i < u128_digits(n).len() implies is_digit(
            #[trigger] u128_digits(n)[i],
        ) by {
            if i < rest.len() {
                assert(u128_digits(n)[i] == rest[i]);
            } else {
                assert(u128_digits(n)[i] == digit_char((n % 10) as u128));
            }
        };
    }
}

/// Reading back the decimal writing of `n` gives `n`.
pub proof fn lemma_digits_round_trip(n: u128)
    ensures
        digits_value(u128_digits(n)) == Some(n),
    decreases n,
{
    if n < 10 {
    } else {
        lemma_digits_round_trip(n / 10);
        lemma_u128_digits_len(n / 10);
        let s = u128_digits(n);
        let d = (n % 10) as u128;
        assert(s.drop_last() == u128_digits(n / 10));
        assert(s.last() == digit_char(d));
        assert(digit_val(digit_char(d)) == d);
        assert(n / 10 <= (u128::MAX - d) / 10) by {
            assert(n / 10 * 10 + d <= u128::MAX);
        };
    }
}

/// Once a prefix of `s` fails to read as a number, every longer prefix fails.
pub proof fn lemma_digits_value_none_extends(s: Seq<char>, j: int, k: int)
    requires
        1 <= j <= k <= s.len(),
        digits_value(s.take(j)) is None,
    ensures
        digits_value(s.take(k)) is None,
    decreases k - j,
{
    if j < k {
        assert(s.take(j + 1).drop_last() =~= s.take(j));
        lemma_digits_value_none_extends(s, j + 1, k);
    }
}

/// The digit character for `d`.
fn digit_char_exec(d: u128) -> (c: char)
    requires
        d < 10,
    ensures
        c == digit_char(d),
{
    if d == 0 {
        '0'
    } else if d == 1 {
        '1'
    } else if d == 2 {
        '2'
    } else if d == 3 {
        '3'
    } else if d == 4 {
        '4'
    } else if d == 5 {
        '5'
    } else if d == 6 {
        '6'
    } else if d == 7 {
        '7'
    } else if d == 8 {
        '8'
    } else {
        '9'
    }
}

/// The value of a digit character, or 10 when `c` is not a digit.
fn digit_val_exec(c: char) -> (d: u128)
    ensures
        d == digit_val(c),
{
    if c == '0' {
        0
    } else if c == '1' {
        1
    } else if c == '2' {
        2
    } else if c == '3' {
        3
    } else if c == '4' {
        4
    } else if c == '5' {
        5
    } else if c == '6' {
        6
    } else if c == '7' {
        7
    } else if c == '8' {
        8
    } else if c == '9' {
        9
    } else {
        10
    }
}

/// Append the decimal writing of `n` to `out`.
pub fn push_u128_chars(n: u128, out: &mut Vec<char>)
    ensures
        final(out)@ == old(out)@ + u128_digits(n),
    decreases n,
{
    if n < 10 {
        out.push(digit_char_exec(n));
    } else {
        push_u128_chars(n / 10, out);
        out.push(digit_char_exec(n % 10));
        proof {
            assert(out@ == old(out)@ + u128_digits(n));
        }
    }
}

/// Read the characters of `s` from position `from` on as a decimal number.
pub fn parse_u128_from(s: &Vec<char>, from: usize) -> (r: Option<u128>)
    requires
        from <= s@.len(),
    ensures
        r == digits_value(s@.skip(from as int)),
{
    let ghost t = s@.skip(from as int);
    if from == s.len() {
        return None;
    }
    let d0 = digit_val_exec(s[from]);
    assert(t[0] == s@[from as int]);
    if d0 >= 10 {
        proof {
            assert(t.take(1).drop_last() =~= t.take(0));
            assert(t.take(1)[0] == t[0]);
            assert(digits_value(t.take(1)) is None);
            lemma_digits_value_none_extends(t, 1, t.len() as int);
            assert(t.take(t.len() as int) =~= t);
        }
        return None;
    }
    let mut acc: u128 = d0;
    let mut i: usize = 1;
    proof {
        assert(t.take(1) =~= seq![t[0]]);
    }
    while i < s.len() - from
        invariant
            from < s@.len(),
            1 <= i <= t.len(),
            t == s@.skip(from as int),
            digits_value(t.take(i as int)) == Some(acc),
        decreases t.len() - i,
    {
        let d = digit_val_exec(s[from + i]);
        assert(t[i as int] == s@[from + i]);
        proof {
            assert(t.take(i + 1).drop_last() =~= t.take(i as int));
            assert(t.take(i + 1).last() == t[i as int]);
        }
        if d >= 10 {
            proof {
                lemma_digits_value_none_extends(t, i + 1, t.len() as int);
                assert(t.take(t.len() as int) =~= t);
            }
            return None;
        }
        if acc > (u128::MAX - d) / 10 {
            proof {
                lemma_digits_value_none_extends(t, i + 1, t.len() as int);
                assert(t.take(t.len() as int) =~= t);
            }
            return None;
        }
        assert(acc * 10 + d <= u128::MAX) by {
            assert(acc <= (u128::MAX - d) / 10);
            assert((u128::MAX - d) / 10 * 10 <= u128::MAX - d);
        };
        acc = acc * 10 + d;
        i = i + 1;
    }
    proof {
        assert(t.take(t.len() as int) =~= t);
    }
    Some(acc)
}

/// Read a whole character list as a decimal number.
pub fn parse_u128(s: &Vec<char>) -> (r: Option<u128>)
    ensures
        r == digits_value(s@),
{
    let r = parse_u128_from(s, 0);
    proof {
        assert(s@.skip(0) =~= s@);
    }
    r
}

/// The decimal writing of a signed value: a leading minus sign for negatives,
/// then the digits of the magnitude.
pub open spec fn i64_chars(v: i64) -> Seq<char> {
    if v >= 0 {
        u128_digits(v as u128)
    } else {
        seq!['-'] + u128_digits((-(v as int)) as u128)
    }
}

/// The signed number a character string denotes, if any: an optional minus
/// sign, then digits whose value fits in an `i64`.
pub open spec fn i64_value(s: Seq<char>) -> Option<i64> {
    if s.len() > 0 && s[0] == '-' {
        match digits_value(s.skip(1)) {
            Option::None => None,
            Option::Some(m) => if m <= 0x8000_0000_0000_0000u128 {
                Some(((-(m as int)) as i64))
            } else {
                None
            },
        }
    } else {
        match digits_value(s) {
            Option::None => None,
            Option::Some(m) => if m <= i64::MAX as u128 {
                Some((m as i64))
            } else {
                None
            },
        }
    }
}

/// Reading back the decimal writing of `v` gives `v`.
pub proof fn lemma_i64_round_trip(v: i64)
    ensures
        i64_value(i64_chars(v)) == Some(v),
{
    if v >= 0 {
        lemma_digits_round_trip(v as u128);
        lemma_u128_digits_len(v as u128);
        lemma_u128_digits_are_digits(v as u128);
        let s = i64_chars(v);
        assert(s[0] != '-');
    } else {
        let m = (-(v as int)) as u128;
        lemma_digits_round_trip(m);
        lemma_u128_digits_len(m);
        let s = i64_chars(v);
        assert(s[0] == '-');
        assert(s.skip(1) =~= u128_digits(m));
    }
}

/// Every character of the signed writing is a digit or the minus sign.
pub proof fn lemma_i64_chars_plain(v: i64)
    ensures
        forall|i: int|
            0 <= i < i64_chars(v).len() ==> (is_digit(#[trigger] i64_chars(v)[i]) || i64_chars(
                v,
            )[i] == '-'),
{
    if v >= 0 {
        lemma_u128_digits_are_digits(v as u128);
    } else {
        let m = (-(v as int)) as u128;
        lemma_u128_digits_are_digits(m);
        assert(forall|i: int|
            1 <= i < i64_chars(v).len() ==> #[trigger] i64_chars(v)[i] == u128_digits(m)[i - 1]);
    }
}

/// Append the decimal writing of `v` to `out`.
pub fn push_i64_chars(v: i64, out: &mut Vec<char>)
    ensures
        final(out)@ == old(out)@ + i64_chars(v),
{
    if v >= 0 {
        push_u128_chars(v as u128, out);
    } else {
        out.push('-');
        let m = (-(v as i128)) as u128;
        push_u128_chars(m, out);
        proof {
            assert(out@ == old(out)@ + i64_chars(v));
        }
    }
}

/// The decimal writing of `n` as a string.
pub fn u128_to_string(n: u128) -> (s: String)
    ensures
        s@ == u128_digits(n),
{
    let mut out: Vec<char> = Vec::new();
    push_u128_chars(n, &mut out);
    crate::text::chars_to_string(&out)
}

/// Read a whole character list as a signed decimal number.
pub fn parse_i64(s: &Vec<char>) -> (r: Option<i64>)
    ensures
        r == i64_value(s@),
{
    if s.len() > 0 && s[0] == '-' {
        match parse_u128_from(s, 1) {
            Option::None => None,
            Option::Some(m) => {
                if m > 0x8000_0000_0000_0000u128 {
                    None
                } else if m == 0x8000_0000_0000_0000u128 {
                    Some(i64::MIN)
                } else {
                    Some(-(m as i64))
                }
            },
        }
    } else {
        match parse_u128(s) {
            Option::None => None,
            Option::Some(m) => {
                if m <= i64::MAX as u128 {
                    Some(m as i64)
                } else {
                    None
                }
            },
        }
    }
}

} // verus!
