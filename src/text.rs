//! Character-level helpers: building strings, splitting, trimming and decimal digits.

use vstd::prelude::*;
use vstd::string::*;

verus! {

/// Relies on `String::push`: the character is appended at the end.
#[verifier::external_body]
pub(crate) fn push_char(s: &mut String, c: char)
    ensures
        final(s)@ == old(s)@.push(c),
{
    s.push(c)
}

/// Relies on `String::pop`: the last character is removed and returned, if there is one.
#[verifier::external_body]
pub(crate) fn pop_char(s: &mut String) -> (r: Option<char>)
    ensures
        old(s)@.len() == 0 ==> r is None && final(s)@ == old(s)@,
        old(s)@.len() > 0 ==> r == Some(old(s)@.last()) && final(s)@ == old(s)@.drop_last(),
{
    s.pop()
}

/// The characters of `s`, in order.
pub fn chars_of(s: &str) -> (r: Vec<char>)
    ensures
        r@ == s@,
{
    let n = s.unicode_len();
    let mut v: Vec<char> = Vec::new();
    let mut i: usize = 0;
    while i < n
        invariant
            n == s@.len(),
            i <= n,
            v@ == s@.subrange(0, i as int),
        decreases n - i,
    {
        v.push(s.get_char(i));
        i += 1;
        assert(v@ =~= s@.subrange(0, i as int));
    }
    assert(v@ =~= s@);
    v
}

/// Appends the characters `cs[from..to]` to `s`.
pub fn push_chars(s: &mut String, cs: &Vec<char>, from: usize, to: usize)
    requires
        from <= to <= cs@.len(),
    ensures
        final(s)@ == old(s)@ + cs@.subrange(from as int, to as int),
{
    let mut i: usize = from;
    while i < to
        invariant
            from <= i <= to <= cs@.len(),
            s@ == old(s)@ + cs@.subrange(from as int, i as int),
        decreases to - i,
    {
        push_char(s, cs[i]);
        i += 1;
        assert(s@ =~= old(s)@ + cs@.subrange(from as int, i as int));
    }
}

/// A string holding exactly the characters `cs[from..to]`.
pub fn string_of(cs: &Vec<char>, from: usize, to: usize) -> (r: String)
    requires
        from <= to <= cs@.len(),
    ensures
        r@ == cs@.subrange(from as int, to as int),
{
    let mut s = String::new();
    push_chars(&mut s, cs, from, to);
    assert(s@ =~= cs@.subrange(from as int, to as int));
    s
}

/// Appends every character of `t` to `s`.
pub fn push_str(s: &mut String, t: &str)
    ensures
        final(s)@ == old(s)@ + t@,
{
    let cs = chars_of(t);
    push_chars(s, &cs, 0, cs.len());
    assert(cs@.subrange(0, cs@.len() as int) =~= t@);
}

/// Blanks that are trimmed around a field: space and tab.
pub open spec fn is_blank(c: char) -> bool {
    c == ' ' || c == '\t'
}

/// `s` without its leading blanks.
pub open spec fn trim_start(s: Seq<char>) -> Seq<char>
    decreases s.len(),
{
    if s.len() > 0 && is_blank(s[0]) {
        trim_start(s.drop_first())
    } else {
        s
    }
}

/// `s` without its trailing blanks.
pub open spec fn trim_end(s: Seq<char>) -> Seq<char>
    decreases s.len(),
{
    if s.len() > 0 && is_blank(s.last()) {
        trim_end(s.drop_last())
    } else {
        s
    }
}

/// `s` without blanks at either end.
pub open spec fn trim(s: Seq<char>) -> Seq<char> {
    trim_end(trim_start(s))
}

/// A text that trimming leaves as it is: empty, or neither starting nor ending with a blank.
pub open spec fn is_trimmed(s: Seq<char>) -> bool {
    s.len() > 0 ==> !is_blank(s[0]) && !is_blank(s.last())
}

proof fn lemma_trim_start_suffix(s: Seq<char>, i: int)
    requires
        0 <= i <= s.len(),
        forall|j: int| 0 <= j < i ==> is_blank(#[trigger] s[j]),
    ensures
        trim_start(s) == trim_start(s.subrange(i, s.len() as int)),
    decreases i,
{
    if i > 0 {
        assert(is_blank(s[0]));
        assert(trim_start(s) == trim_start(s.drop_first()));
        assert(s.subrange(1, s.len() as int) =~= s.drop_first());
        let t = s.drop_first();
        assert forall|j: int| 0 <= j < i - 1 implies is_blank(#[trigger] t[j]) by {
            assert(t[j] == s[j + 1]);
        }
        lemma_trim_start_suffix(t, i - 1);
        assert(t.subrange(i - 1, t.len() as int) =~= s.subrange(i, s.len() as int));
    } else {
        assert(s.subrange(0, s.len() as int) =~= s);
    }
}

proof fn lemma_trim_end_prefix(s: Seq<char>, k: int)
    requires
        0 <= k <= s.len(),
        forall|j: int| k <= j < s.len() ==> is_blank(#[trigger] s[j]),
    ensures
        trim_end(s) == trim_end(s.subrange(0, k)),
    decreases s.len() - k,
{
    if k < s.len() {
        let t = s.drop_last();
        assert forall|j: int| k <= j < t.len() implies is_blank(#[trigger] t[j]) by {
            assert(t[j] == s[j]);
        }
        lemma_trim_end_prefix(t, k);
        assert(t.subrange(0, k) =~= s.subrange(0, k));
    } else {
        assert(s.subrange(0, k) =~= s);
    }
}

/// The bounds `(a, b)` of `trim(cs[from..to])` inside `cs`.
pub fn trim_bounds(cs: &Vec<char>, from: usize, to: usize) -> (r: (usize, usize))
    requires
        from <= to <= cs@.len(),
    ensures
        from <= r.0 <= r.1 <= to,
        cs@.subrange(r.0 as int, r.1 as int) == trim(cs@.subrange(from as int, to as int)),
{
    let ghost s = cs@.subrange(from as int, to as int);
    let mut a: usize = from;
    while a < to && (cs[a] == ' ' || cs[a] == '\t')
        invariant
            from <= a <= to <= cs@.len(),
            forall|j: int| from <= j < a ==> is_blank(#[trigger] cs@[j]),
        decreases to - a,
    {
        a += 1;
    }
    proof {
        assert forall|j: int| 0 <= j < a - from implies is_blank(#[trigger] s[j]) by {
            assert(s[j] == cs@[from + j]);
        }
        lemma_trim_start_suffix(s, a - from);
        assert(s.subrange(a - from, s.len() as int) =~= cs@.subrange(a as int, to as int));
        if a < to {
            assert(!is_blank(cs@[a as int]));
        }
    }
    let ghost u = cs@.subrange(a as int, to as int);
    assert(trim_start(u) == u);
    let mut b: usize = to;
    while b > a && (cs[b - 1] == ' ' || cs[b - 1] == '\t')
        invariant
            from <= a <= b <= to <= cs@.len(),
            forall|j: int| b <= j < to ==> is_blank(#[trigger] cs@[j]),
        decreases b - a,
    {
        b -= 1;
    }
    proof {
        assert forall|j: int| b - a <= j < u.len() implies is_blank(#[trigger] u[j]) by {
            assert(u[j] == cs@[a + j]);
        }
        lemma_trim_end_prefix(u, b - a);
        assert(u.subrange(0, b - a) =~= cs@.subrange(a as int, b as int));
        let w = cs@.subrange(a as int, b as int);
        if b > a {
            assert(w.last() == cs@[b - 1]);
        }
        assert(trim_end(w) == w);
    }
    (a, b)
}

/// The pieces of `s` between occurrences of `sep`; an `s` without `sep` is one piece.
pub open spec fn split(s: Seq<char>, sep: char) -> Seq<Seq<char>>
    decreases s.len(),
{
    if s.len() == 0 {
        seq![Seq::empty()]
    } else {
        let rest = split(s.drop_last(), sep);
        if s.last() == sep {
            rest.push(Seq::empty())
        } else {
            rest.update(rest.len() - 1, rest.last().push(s.last()))
        }
    }
}

pub proof fn lemma_split_len(s: Seq<char>, sep: char)
    ensures
        split(s, sep).len() >= 1,
    decreases s.len(),
{
    if s.len() > 0 {
        lemma_split_len(s.drop_last(), sep);
    }
}

/// A text without `sep` is a single piece.
pub proof fn lemma_split_none(s: Seq<char>, sep: char)
    requires
        !s.contains(sep),
    ensures
        split(s, sep) == seq![s],
    decreases s.len(),
{
    if s.len() > 0 {
        let t = s.drop_last();
        assert(!t.contains(sep)) by {
            if t.contains(sep) {
                let j = choose|j: int| 0 <= j < t.len() && t[j] == sep;
                assert(s[j] == sep);
            }
        }
        lemma_split_none(t, sep);
        assert(s.last() != sep) by {
            assert(s[s.len() - 1] == s.last());
        }
        assert(t.push(s.last()) =~= s);
        assert(split(s, sep) =~= seq![s]);
    } else {
        assert(s =~= Seq::<char>::empty());
    }
}

/// Splitting `x`, `sep`, `y` gives the pieces of `x` followed by those of `y`.
pub proof fn lemma_split_join(x: Seq<char>, y: Seq<char>, sep: char)
    ensures
        split(x + seq![sep] + y, sep) == split(x, sep) + split(y, sep),
    decreases y.len(),
{
    lemma_split_len(x, sep);
    if y.len() == 0 {
        assert(x + seq![sep] + y =~= x.push(sep));
        assert((x + seq![sep] + y).drop_last() =~= x);
        assert(split(x, sep) + split(y, sep) =~= split(x, sep).push(Seq::empty()));
    } else {
        let y0 = y.drop_last();
        let z = x + seq![sep] + y;
        assert(z.drop_last() =~= x + seq![sep] + y0);
        assert(z.last() == y.last());
        lemma_split_join(x, y0, sep);
        lemma_split_len(y0, sep);
        let a = split(x, sep);
        let b0 = split(y0, sep);
        if y.last() == sep {
            assert((a + b0).push(Seq::empty()) =~= a + b0.push(Seq::empty()));
        } else {
            let ab = a + b0;
            assert(ab.last() == b0.last());
            assert(ab.update(ab.len() - 1, ab.last().push(y.last())) =~= a + b0.update(
                b0.len() - 1,
                b0.last().push(y.last()),
            ));
        }
    }
}

/// Splits `cs` at every `sep`: the pieces are given by their bounds in `cs`.
pub fn split_bounds(cs: &Vec<char>, sep: char) -> (r: Vec<(usize, usize)>)
    ensures
        r@.len() == split(cs@, sep).len(),
        forall|i: int| 0 <= i < r@.len() ==> (#[trigger] r@[i]).0 <= r@[i].1 <= cs@.len(),
        forall|i: int|
            0 <= i < r@.len() ==> #[trigger] cs@.subrange(r@[i].0 as int, r@[i].1 as int) == split(
                cs@,
                sep,
            )[i],
        r@[0].0 == 0,
        r@[r@.len() - 1].1 == cs@.len(),
        forall|i: int| 0 <= i < r@.len() - 1 ==> (#[trigger] r@[i + 1]).0 == r@[i].1 + 1,
{
    let mut r: Vec<(usize, usize)> = Vec::new();
    let mut start: usize = 0;
    let mut i: usize = 0;
    let ghost mut pieces: Seq<Seq<char>> = seq![Seq::empty()];
    assert(cs@.subrange(0, 0) =~= Seq::<char>::empty());
    while i < cs.len()
        invariant
            start <= i <= cs@.len(),
            pieces == split(cs@.subrange(0, i as int), sep),
            r@.len() + 1 == pieces.len(),
            forall|k: int| 0 <= k < r@.len() ==> (#[trigger] r@[k]).0 <= r@[k].1 <= i,
            forall|k: int|
                0 <= k < r@.len() ==> #[trigger] cs@.subrange(r@[k].0 as int, r@[k].1 as int)
                    == pieces[k],
            cs@.subrange(start as int, i as int) == pieces.last(),
            r@.len() == 0 ==> start == 0,
            r@.len() > 0 ==> r@[0].0 == 0 && start == r@[r@.len() - 1].1 + 1,
            forall|k: int| 0 <= k < r@.len() - 1 ==> (#[trigger] r@[k + 1]).0 == r@[k].1 + 1,
        decreases cs@.len() - i,
    {
        let ghost after = cs@.subrange(0, i + 1);
        assert(after.drop_last() =~= cs@.subrange(0, i as int));
        assert(after.last() == cs@[i as int]);
        let ghost old_pieces = pieces;
        let ghost old_r = r@;
        if cs[i] == sep {
            proof {
                pieces = old_pieces.push(Seq::empty());
            }
            r.push((start, i));
            start = i + 1;
            assert(cs@.subrange(start as int, i + 1) =~= Seq::<char>::empty());
            assert forall|k: int| 0 <= k < r@.len() - 1 implies (#[trigger] r@[k + 1]).0 == r@[k].1
                + 1 by {
                if k + 1 < old_r.len() {
                    assert(r@[k + 1] == old_r[k + 1] && r@[k] == old_r[k]);
                } else {
                    assert(r@[k] == old_r[k]);
                }
            }
            assert forall|k: int| 0 <= k < r@.len() implies #[trigger] cs@.subrange(
                r@[k].0 as int,
                r@[k].1 as int,
            ) == pieces[k] by {
                if k < old_r.len() {
                    assert(r@[k] == old_r[k]);
                    assert(pieces[k] == old_pieces[k]);
                    assert(old_r[k].0 <= old_r[k].1 <= i);
                    assert(cs@.subrange(old_r[k].0 as int, old_r[k].1 as int) == old_pieces[k]);
                }
            }
        } else {
            proof {
                pieces = old_pieces.update(
                    old_pieces.len() - 1,
                    old_pieces.last().push(cs@[i as int]),
                );
            }
            assert(cs@.subrange(start as int, i + 1) =~= cs@.subrange(start as int, i as int).push(
                cs@[i as int],
            ));
            assert forall|k: int| 0 <= k < r@.len() implies #[trigger] cs@.subrange(
                r@[k].0 as int,
                r@[k].1 as int,
            ) == pieces[k] by {
                assert(pieces[k] == old_pieces[k]);
            }
            assert(r@ == old_r);
        }
        assert forall|k: int| 0 <= k < r@.len() implies (#[trigger] r@[k]).0 <= r@[k].1 <= i + 1 by {
            if k < old_r.len() {
                assert(r@[k] == old_r[k]);
                assert(old_r[k].0 <= old_r[k].1 <= i);
            }
        }
        i += 1;
    }
    assert(cs@.subrange(0, i as int) =~= cs@);
    assert(pieces == split(cs@, sep));
    let ghost old_r = r@;
    r.push((start, i));
    assert forall|k: int| 0 <= k < r@.len() - 1 implies (#[trigger] r@[k + 1]).0 == r@[k].1 + 1 by {
        if k + 1 < old_r.len() {
            assert(r@[k + 1] == old_r[k + 1] && r@[k] == old_r[k]);
        } else {
            assert(r@[k] == old_r[k]);
        }
    }
    assert forall|k: int| 0 <= k < r@.len() implies #[trigger] cs@.subrange(
        r@[k].0 as int,
        r@[k].1 as int,
    ) == split(cs@, sep)[k] by {
        if k < old_r.len() {
            assert(r@[k] == old_r[k]);
        }
    }
    r
}

/// The decimal digit characters.
pub open spec fn is_digit(c: char) -> bool {
    '0' <= c <= '9'
}

/// The value of a digit character.
pub open spec fn digit_value(c: char) -> int {
    c as int - '0' as int
}

/// The character of a digit `d < 10`.
pub open spec fn digit_char(d: int) -> char {
    (d + '0' as int) as char
}

pub open spec fn all_digits(s: Seq<char>) -> bool {
    forall|i: int| 0 <= i < s.len() ==> is_digit(#[trigger] s[i])
}

/// The number that a string of digits denotes.
pub open spec fn digits_value(s: Seq<char>) -> int
    decreases s.len(),
{
    if s.len() == 0 {
        0
    } else {
        digits_value(s.drop_last()) * 10 + digit_value(s.last())
    }
}

/// The decimal notation of `n`, without leading zeros (`0` is written `0`).
pub open spec fn decimal(n: nat) -> Seq<char>
    decreases n,
{
    if n < 10 {
        seq![digit_char(n as int)]
    } else {
        decimal(n / 10).push(digit_char((n % 10) as int))
    }
}

/// The decimal notation of `n < 100` in exactly two digits.
pub open spec fn two_digits(n: nat) -> Seq<char> {
    seq![digit_char((n / 10) as int), digit_char((n % 10) as int)]
}

/// The decimal notation of `n < 10000` in exactly four digits.
pub open spec fn four_digits(n: nat) -> Seq<char> {
    seq![
        digit_char((n / 1000) as int),
        digit_char((n / 100 % 10) as int),
        digit_char((n / 10 % 10) as int),
        digit_char((n % 10) as int),
    ]
}

proof fn lemma_digit_char(d: int)
    requires
        0 <= d < 10,
    ensures
        is_digit(digit_char(d)),
        digit_value(digit_char(d)) == d,
{
}

pub proof fn lemma_decimal_digits(n: nat)
    ensures
        all_digits(decimal(n)),
        digits_value(decimal(n)) == n,
        decimal(n).len() >= 1,
    decreases n,
{
    lemma_digit_char((n % 10) as int);
    if n >= 10 {
        lemma_decimal_digits(n / 10);
        assert(decimal(n).drop_last() =~= decimal(n / 10));
        assert(decimal(n).last() == digit_char((n % 10) as int));
    } else {
        assert(decimal(n).drop_last() =~= Seq::<char>::empty());
        assert(digits_value(Seq::<char>::empty()) == 0);
    }
}

pub proof fn lemma_two_digits(n: nat)
    requires
        n < 100,
    ensures
        all_digits(two_digits(n)),
        digits_value(two_digits(n)) == n,
        two_digits(n).len() == 2,
{
    let s = two_digits(n);
    lemma_digit_char((n / 10) as int);
    lemma_digit_char((n % 10) as int);
    assert(s.drop_last().drop_last() =~= Seq::<char>::empty());
    assert(digits_value(Seq::<char>::empty()) == 0);
    assert(s.drop_last() =~= seq![s[0]]);
    assert(digits_value(seq![s[0]]) == digit_value(s[0]));
}

pub proof fn lemma_four_digits(n: nat)
    requires
        n < 10000,
    ensures
        all_digits(four_digits(n)),
        digits_value(four_digits(n)) == n,
        four_digits(n).len() == 4,
{
    let s = four_digits(n);
    lemma_digit_char((n / 1000) as int);
    lemma_digit_char((n / 100 % 10) as int);
    lemma_digit_char((n / 10 % 10) as int);
    lemma_digit_char((n % 10) as int);
    let e = Seq::<char>::empty();
    assert(seq![s[0]].drop_last() =~= e);
    assert(seq![s[0], s[1]].drop_last() =~= seq![s[0]]);
    assert(seq![s[0], s[1], s[2]].drop_last() =~= seq![s[0], s[1]]);
    assert(s.drop_last() =~= seq![s[0], s[1], s[2]]);
    assert(digits_value(e) == 0);
    assert(digits_value(seq![s[0]]) == digit_value(s[0]));
    assert(digits_value(seq![s[0], s[1]]) == digit_value(s[0]) * 10 + digit_value(s[1]));
    assert(digits_value(seq![s[0], s[1], s[2]]) == (digit_value(s[0]) * 10 + digit_value(s[1])) * 10
        + digit_value(s[2]));
}

/// The character of the digit `d`.
pub fn digit_to_char(d: u32) -> (c: char)
    requires
        d < 10,
    ensures
        c == digit_char(d as int),
{
    if d == 0 { '0' }
    else if d == 1 { '1' }
    else if d == 2 { '2' }
    else if d == 3 { '3' }
    else if d == 4 { '4' }
    else if d == 5 { '5' }
    else if d == 6 { '6' }
    else if d == 7 { '7' }
    else if d == 8 { '8' }
    else { '9' }
}

/// Appends the decimal notation of `n`.
pub fn push_decimal(s: &mut String, n: u128)
    ensures
        final(s)@ == old(s)@ + decimal(n as nat),
    decreases n,
{
    if n >= 10 {
        push_decimal(s, n / 10);
    }
    push_char(s, digit_to_char((n % 10) as u32));
    assert(s@ =~= old(s)@ + decimal(n as nat));
}

/// Appends `n < 100` in exactly two digits.
pub fn push_two_digits(s: &mut String, n: u32)
    requires
        n < 100,
    ensures
        final(s)@ == old(s)@ + two_digits(n as nat),
{
    push_char(s, digit_to_char(n / 10));
    push_char(s, digit_to_char(n % 10));
    assert(s@ =~= old(s)@ + two_digits(n as nat));
}

proof fn lemma_four_as_two(n: nat)
    requires
        n < 10000,
    ensures
        four_digits(n) == two_digits(n / 100) + two_digits(n % 100),
{
    assert(n / 1000 == n / 100 / 10) by (nonlinear_arith);
    assert(n / 10 % 10 == n % 100 / 10) by (nonlinear_arith);
    assert(n % 10 == n % 100 % 10) by (nonlinear_arith);
    assert(four_digits(n) =~= two_digits(n / 100) + two_digits(n % 100));
}

/// Appends `n < 10000` in exactly four digits.
pub fn push_four_digits(s: &mut String, n: u32)
    requires
        n < 10000,
    ensures
        final(s)@ == old(s)@ + four_digits(n as nat),
{
    push_two_digits(s, n / 100);
    push_two_digits(s, n % 100);
    proof {
        lemma_four_as_two(n as nat);
    }
    assert(s@ =~= old(s)@ + four_digits(n as nat));
}

/// The value of the digits `cs[from..to]`, provided they are all digits and their
/// value is at most `limit`.
pub fn parse_digits(cs: &Vec<char>, from: usize, to: usize, limit: u64) -> (r: Option<u64>)
    requires
        from <= to <= cs@.len(),
        limit <= 0x00ff_ffff_ffff_ffff,
    ensures
        r matches Some(v) ==> all_digits(cs@.subrange(from as int, to as int)) && v as int
            == digits_value(cs@.subrange(from as int, to as int)) && v <= limit,
        r is None <==> !(all_digits(cs@.subrange(from as int, to as int)) && digits_value(
            cs@.subrange(from as int, to as int),
        ) <= limit),
{
    let ghost s = cs@.subrange(from as int, to as int);
    let mut acc: u64 = 0;
    let mut i: usize = from;
    while i < to
        invariant
            from <= i <= to <= cs@.len(),
            s == cs@.subrange(from as int, to as int),
            limit <= 0x00ff_ffff_ffff_ffff,
            all_digits(cs@.subrange(from as int, i as int)),
            acc == digits_value(cs@.subrange(from as int, i as int)),
            acc <= limit,
        decreases to - i,
    {
        let ghost pre = cs@.subrange(from as int, i as int);
        let ghost next = cs@.subrange(from as int, i + 1);
        assert(next.drop_last() =~= pre);
        let c = cs[i];
        if !('0' <= c && c <= '9') {
            assert(!all_digits(s)) by {
                assert(s[(i - from) as int] == cs@[i as int]);
            }
            return None;
        }
        let d = (c as u32 - '0' as u32) as u64;
        acc = acc * 10 + d;
        assert(digits_value(next) == acc);
        assert(all_digits(next)) by {
            assert forall|j: int| 0 <= j < next.len() implies is_digit(#[trigger] next[j]) by {
                if j < pre.len() {
                    assert(next[j] == pre[j]);
                }
            }
        }
        i += 1;
        if acc > limit {
            proof {
                assert(s.subrange(0, i - from) =~= next);
                lemma_digits_prefix_bound(s, i - from);
            }
            return None;
        }
    }
    assert(cs@.subrange(from as int, i as int) =~= s);
    Some(acc)
}

proof fn lemma_digits_value_nonneg(s: Seq<char>)
    requires
        all_digits(s),
    ensures
        digits_value(s) >= 0,
    decreases s.len(),
{
    if s.len() > 0 {
        lemma_digits_value_nonneg(s.drop_last());
    }
}

/// A string of digits has a value at least that of any of its prefixes.
proof fn lemma_digits_prefix_bound(s: Seq<char>, k: int)
    requires
        0 <= k <= s.len(),
        all_digits(s.subrange(0, k)),
    ensures
        all_digits(s) ==> digits_value(s) >= digits_value(s.subrange(0, k)),
    decreases s.len() - k,
{
    if k < s.len() && all_digits(s) {
        let t = s.drop_last();
        assert(t.subrange(0, k) =~= s.subrange(0, k));
        lemma_digits_prefix_bound(t, k);
        lemma_digits_value_nonneg(t);
    } else if k == s.len() {
        assert(s.subrange(0, k) =~= s);
    }
}

} // verus!
