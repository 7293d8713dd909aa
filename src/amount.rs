//! Money amounts, held as a signed number of hundredths, and their decimal text. An amount
//! text has at most two decimals; one with more (such as `1.234`) is refused, and so is a
//! record file that holds one.

use vstd::prelude::*;
use crate::error::LedgerError;
use crate::text::{
    all_digits, chars_of, decimal, digit_value, digits_value, is_digit, lemma_decimal_digits,
    lemma_two_digits, parse_digits, push_char, push_decimal, push_two_digits, two_digits,
};

verus! {

/// The largest whole part that an amount text may have.
pub const MAX_UNITS: u64 = 999_999_999_999_999;

/// The largest magnitude of an amount, in hundredths.
pub const MAX_CENTS: i64 = 99_999_999_999_999_999;

/// The hundredths that an unsigned amount text denotes: a whole part of one or more
/// digits, optionally followed by a point and one or two digits.
pub open spec fn unsigned_cents(b: Seq<char>) -> Option<int> {
    let n = b.len() as int;
    if n >= 1 && all_digits(b) && digits_value(b) <= MAX_UNITS {
        Some(digits_value(b) * 100)
    } else if n >= 3 && b[n - 2] == '.' && all_digits(b.subrange(0, n - 2)) && digits_value(
        b.subrange(0, n - 2),
    ) <= MAX_UNITS && is_digit(b[n - 1]) {
        Some(digits_value(b.subrange(0, n - 2)) * 100 + digit_value(b[n - 1]) * 10)
    } else if n >= 4 && b[n - 3] == '.' && all_digits(b.subrange(0, n - 3)) && digits_value(
        b.subrange(0, n - 3),
    ) <= MAX_UNITS && is_digit(b[n - 2]) && is_digit(b[n - 1]) {
        Some(
            digits_value(b.subrange(0, n - 3)) * 100 + digit_value(b[n - 2]) * 10 + digit_value(
                b[n - 1],
            ),
        )
    } else {
        None
    }
}

/// The hundredths that an amount text denotes: an unsigned amount, optionally signed.
pub open spec fn amount_from_text(s: Seq<char>) -> Option<int> {
    if s.len() > 0 && s[0] == '-' {
        match unsigned_cents(s.drop_first()) {
            Some(v) => Some(-v),
            None => None,
        }
    } else if s.len() > 0 && s[0] == '+' {
        unsigned_cents(s.drop_first())
    } else {
        unsigned_cents(s)
    }
}

/// An amount of hundredths written with two decimals, and a minus sign when negative.
pub open spec fn amount_text(c: int) -> Seq<char> {
    let m = if c < 0 {
        -c
    } else {
        c
    };
    let digits = decimal((m / 100) as nat) + seq!['.'] + two_digits((m % 100) as nat);
    if c < 0 {
        seq!['-'] + digits
    } else {
        digits
    }
}

/// Whether `c` hundredths is an amount that a text can denote.
pub open spec fn amount_in_range(c: int) -> bool {
    -MAX_CENTS <= c <= MAX_CENTS
}

proof fn lemma_unsigned_cents_range(b: Seq<char>)
    ensures
        unsigned_cents(b) matches Some(v) ==> 0 <= v <= MAX_CENTS,
{
    let n = b.len() as int;
    if n >= 1 && all_digits(b) && digits_value(b) <= MAX_UNITS {
        lemma_digits_nonneg(b);
    } else if n >= 3 && b[n - 2] == '.' && all_digits(b.subrange(0, n - 2)) && digits_value(
        b.subrange(0, n - 2),
    ) <= MAX_UNITS && is_digit(b[n - 1]) {
        lemma_digits_nonneg(b.subrange(0, n - 2));
    } else if n >= 4 && b[n - 3] == '.' && all_digits(b.subrange(0, n - 3)) && digits_value(
        b.subrange(0, n - 3),
    ) <= MAX_UNITS && is_digit(b[n - 2]) && is_digit(b[n - 1]) {
        lemma_digits_nonneg(b.subrange(0, n - 3));
    }
}

proof fn lemma_digits_nonneg(s: Seq<char>)
    requires
        all_digits(s),
    ensures
        digits_value(s) >= 0,
    decreases s.len(),
{
    if s.len() > 0 {
        let t = s.drop_last();
        assert(all_digits(t)) by {
            assert forall|j: int| 0 <= j < t.len() implies is_digit(#[trigger] t[j]) by {
                assert(t[j] == s[j]);
            }
        }
        lemma_digits_nonneg(t);
        assert(is_digit(s[s.len() - 1]));
    }
}

/// Every amount that a text denotes is in range.
pub proof fn lemma_amount_from_text_range(s: Seq<char>)
    ensures
        amount_from_text(s) matches Some(v) ==> amount_in_range(v),
{
    if s.len() > 0 {
        lemma_unsigned_cents_range(s.drop_first());
    }
    lemma_unsigned_cents_range(s);
}

/// An amount in range, written as text, reads back as the same amount.
pub proof fn lemma_amount_text_round_trip(c: int)
    requires
        amount_in_range(c),
    ensures
        amount_from_text(amount_text(c)) == Some(c),
        amount_text(c).len() >= 4,
        is_digit(amount_text(c).last()),
        is_digit(amount_text(c)[0]) || amount_text(c)[0] == '-',
        forall|i: int|
            0 <= i < amount_text(c).len() ==> is_digit(#[trigger] amount_text(c)[i]) || amount_text(
                c,
            )[i] == '-' || amount_text(c)[i] == '.',
{
    let m = if c < 0 {
        -c
    } else {
        c
    };
    let w = decimal((m / 100) as nat);
    let f = two_digits((m % 100) as nat);
    let b = w + seq!['.'] + f;
    lemma_decimal_digits((m / 100) as nat);
    lemma_two_digits((m % 100) as nat);
    let n = b.len() as int;
    assert(b.subrange(0, n - 3) =~= w);
    assert(b[n - 3] == '.');
    assert(b[n - 2] == f[0]);
    assert(b[n - 1] == f[1]);
    assert(is_digit(f[0]) && is_digit(f[1]));
    assert(!all_digits(b)) by {
        assert(!is_digit(b[n - 3]));
    }
    assert(b[n - 2] != '.');
    assert(digits_value(f) == digit_value(f[0]) * 10 + digit_value(f[1])) by {
        assert(f.drop_last() =~= seq![f[0]]);
        assert(seq![f[0]].drop_last() =~= Seq::<char>::empty());
        assert(digits_value(Seq::<char>::empty()) == 0);
    }
    assert(m / 100 <= MAX_UNITS);
    assert(unsigned_cents(b) == Some(m));
    assert(is_digit(w[0]));
    assert forall|i: int| 0 <= i < b.len() implies is_digit(#[trigger] b[i]) || b[i] == '.' by {
        if i < w.len() {
            assert(b[i] == w[i]);
        } else if i > w.len() {
            assert(b[i] == f[i - w.len() - 1]);
        }
    }
    if c < 0 {
        let s = seq!['-'] + b;
        assert(s.drop_first() =~= b);
        assert(s[0] == '-');
        assert forall|i: int| 0 <= i < s.len() implies is_digit(#[trigger] s[i]) || s[i] == '-'
            || s[i] == '.' by {
            if i > 0 {
                assert(s[i] == b[i - 1]);
            }
        }
    } else {
        assert(b[0] == w[0]);
    }
}

/// Reads an amount text: a whole part, optionally a point and one or two decimals, and
/// optionally a sign in front.
pub fn parse_amount(s: &str) -> (r: Result<i64, LedgerError>)
    ensures
        r matches Ok(v) ==> amount_from_text(s@) == Some(v as int),
        r is Err <==> amount_from_text(s@) is None,
        r matches Err(e) ==> e == LedgerError::ParseFailure,
{
    let cs = chars_of(s);
    assert(cs@.subrange(0, cs@.len() as int) =~= s@);
    parse_amount_in(&cs, 0, cs.len())
}

/// Reads the amount text `cs[from..to]`.
pub fn parse_amount_in(cs: &Vec<char>, from: usize, to: usize) -> (r: Result<i64, LedgerError>)
    requires
        from <= to <= cs@.len(),
    ensures
        r matches Ok(v) ==> amount_from_text(cs@.subrange(from as int, to as int)) == Some(
            v as int,
        ),
        r is Err <==> amount_from_text(cs@.subrange(from as int, to as int)) is None,
        r matches Err(e) ==> e == LedgerError::ParseFailure,
{
    let ghost s = cs@.subrange(from as int, to as int);
    proof {
        lemma_amount_from_text_range(s);
    }
    if from < to && (cs[from] == '-' || cs[from] == '+') {
        let negative = cs[from] == '-';
        assert(cs@.subrange(from + 1, to as int) =~= s.drop_first());
        match unsigned_in(cs, from + 1, to) {
            Some(v) => {
                proof {
                    lemma_unsigned_cents_range(s.drop_first());
                }
                if negative {
                    Ok(-(v as i64))
                } else {
                    Ok(v as i64)
                }
            },
            None => Err(LedgerError::ParseFailure),
        }
    } else {
        match unsigned_in(cs, from, to) {
            Some(v) => {
                proof {
                    lemma_unsigned_cents_range(s);
                }
                Ok(v as i64)
            },
            None => Err(LedgerError::ParseFailure),
        }
    }
}

fn unsigned_in(cs: &Vec<char>, from: usize, to: usize) -> (r: Option<u64>)
    requires
        from <= to <= cs@.len(),
    ensures
        r matches Some(v) ==> unsigned_cents(cs@.subrange(from as int, to as int)) == Some(
            v as int,
        ),
        r is None <==> unsigned_cents(cs@.subrange(from as int, to as int)) is None,
{
    let ghost b = cs@.subrange(from as int, to as int);
    let n = to - from;
    assert(b.len() == n);
    let whole = parse_digits(cs, from, to, MAX_UNITS);
    if n >= 1 {
        if let Some(w) = whole {
            return Some(w * 100);
        }
    }
    if n >= 3 && cs[to - 2] == '.' && '0' <= cs[to - 1] && cs[to - 1] <= '9' {
        assert(cs@.subrange(from as int, to - 2) =~= b.subrange(0, n - 2));
        if let Some(w) = parse_digits(cs, from, to - 2, MAX_UNITS) {
            let d = (cs[to - 1] as u32 - '0' as u32) as u64;
            return Some(w * 100 + d * 10);
        }
    }
    if n >= 4 && cs[to - 3] == '.' && '0' <= cs[to - 2] && cs[to - 2] <= '9' && '0' <= cs[to - 1]
        && cs[to - 1] <= '9' {
        assert(cs@.subrange(from as int, to - 3) =~= b.subrange(0, n - 3));
        if let Some(w) = parse_digits(cs, from, to - 3, MAX_UNITS) {
            let d1 = (cs[to - 2] as u32 - '0' as u32) as u64;
            let d2 = (cs[to - 1] as u32 - '0' as u32) as u64;
            return Some(w * 100 + d1 * 10 + d2);
        }
    }
    None
}

/// The text of an amount of hundredths, with two decimals.
pub fn format_amount(c: i128) -> (r: String)
    ensures
        r@ == amount_text(c as int),
{
    let mut s = String::new();
    let m: u128 = if c < 0 {
        (-(c + 1)) as u128 + 1
    } else {
        c as u128
    };
    if c < 0 {
        push_char(&mut s, '-');
    }
    push_decimal(&mut s, m / 100);
    push_char(&mut s, '.');
    push_two_digits(&mut s, (m % 100) as u32);
    assert(s@ =~= amount_text(c as int));
    s
}

} // verus!
