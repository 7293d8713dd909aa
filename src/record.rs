//! Transactions and the text of a month's record file: one header line, then one
//! line per transaction, `date, amount, description, repeat`.

use vstd::prelude::*;
use vstd::string::StringExecFns;
use crate::amount::{
    amount_from_text, amount_in_range, amount_text, format_amount, lemma_amount_from_text_range,
    lemma_amount_text_round_trip, parse_amount_in,
};
use crate::date::{date_from_text, date_text, lemma_date_text_round_trip, parse_date, Date};
use crate::error::LedgerError;
use crate::text::{
    all_digits, chars_of, decimal, digits_value, is_blank, is_digit, is_trimmed,
    lemma_decimal_digits, lemma_split_join, lemma_split_len, lemma_split_none, parse_digits,
    push_char, push_chars, push_decimal, push_str, split, split_bounds, string_of, trim,
    trim_bounds, trim_end, trim_start,
};

verus! {

/// How often a transaction recurs. It is recorded but never expanded.
#[derive(Debug, Clone, Copy, PartialEq, Eq, Structural)]
pub enum Repeat {
    Day(u32),
    Week(u32),
    Month(u32),
    Year(u32),
    Never,
}

/// One dated ledger entry; `amount` counts hundredths.
#[derive(Debug, Clone)]
pub struct Transaction {
    pub date: Date,
    pub amount: i64,
    pub description: String,
    pub repeat: Repeat,
}

/// What a transaction holds, as mathematical values.
pub struct Entry {
    pub date: Date,
    pub amount: i64,
    pub description: Seq<char>,
    pub repeat: Repeat,
}

impl View for Transaction {
    type V = Entry;

    open spec fn view(&self) -> Entry {
        Entry {
            date: self.date,
            amount: self.amount,
            description: self.description@,
            repeat: self.repeat,
        }
    }
}

/// The entries of a sequence of transactions.
pub open spec fn entries(v: Seq<Transaction>) -> Seq<Entry> {
    v.map_values(|t: Transaction| t@)
}

/// A description that a record line can hold: one without line breaks.
pub open spec fn is_plain_description(s: Seq<char>) -> bool {
    !s.contains('\n')
}

/// An entry that a record line can hold and read back unchanged.
pub open spec fn storable(e: Entry) -> bool {
    e.date.wf() && amount_in_range(e.amount as int) && is_plain_description(e.description)
}

pub open spec fn all_storable(es: Seq<Entry>) -> bool {
    forall|i: int| 0 <= i < es.len() ==> storable(#[trigger] es[i])
}

/// Two transactions are the same entry when they have the same date and description.
impl PartialEq for Transaction {
    fn eq(&self, other: &Transaction) -> (r: bool) {
        self.date == other.date && self.description == other.description
    }
}

impl vstd::std_specs::cmp::PartialEqSpecImpl for Transaction {
    open spec fn obeys_eq_spec() -> bool {
        true
    }

    open spec fn eq_spec(&self, other: &Transaction) -> bool {
        self.date == other.date && self.description@ == other.description@
    }
}

impl Transaction {
    /// A copy of `self`.
    pub fn duplicate(&self) -> (r: Transaction)
        ensures
            r == *self,
    {
        Transaction {
            date: self.date,
            amount: self.amount,
            description: self.description.clone(),
            repeat: self.repeat,
        }
    }
}

/// The text of a repeat tag: a count and a unit letter, or `none`.
pub open spec fn repeat_text(r: Repeat) -> Seq<char> {
    match r {
        Repeat::Day(n) => decimal(n as nat).push('d'),
        Repeat::Week(n) => decimal(n as nat).push('w'),
        Repeat::Month(n) => decimal(n as nat).push('m'),
        Repeat::Year(n) => decimal(n as nat).push('y'),
        Repeat::Never => seq!['n', 'o', 'n', 'e'],
    }
}

/// The count of a repeat tag, read as an unsigned 32-bit number with an optional `+`.
pub open spec fn count_from_text(s: Seq<char>) -> Option<u32> {
    let b = if s.len() > 0 && s[0] == '+' {
        s.drop_first()
    } else {
        s
    };
    if b.len() >= 1 && all_digits(b) && digits_value(b) <= u32::MAX {
        Some(digits_value(b) as u32)
    } else {
        None
    }
}

/// The repeat tag that a text denotes: the last character picks the unit, the rest is
/// the count; an empty text or an unknown unit means no repeat.
pub open spec fn repeat_from_text(s: Seq<char>) -> Result<Repeat, LedgerError> {
    if s.len() == 0 {
        Ok(Repeat::Never)
    } else {
        let u = s.last();
        let n = count_from_text(s.drop_last());
        if u == 'd' || u == 'w' || u == 'm' || u == 'y' {
            match n {
                Some(k) => Ok(
                    if u == 'd' {
                        Repeat::Day(k)
                    } else if u == 'w' {
                        Repeat::Week(k)
                    } else if u == 'm' {
                        Repeat::Month(k)
                    } else {
                        Repeat::Year(k)
                    },
                ),
                None => Err(LedgerError::ParseFailure),
            }
        } else {
            Ok(Repeat::Never)
        }
    }
}

/// Reads the count of a repeat tag `repeat`, whose last character is its unit.
pub fn get_amount_from_repeat_str(repeat: &str) -> (r: Result<u32, LedgerError>)
    requires
        repeat@.len() >= 1,
    ensures
        r == (match count_from_text(repeat@.drop_last()) {
            Some(k) => Ok(k),
            None => Err(LedgerError::ParseFailure),
        }),
{
    let cs = chars_of(repeat);
    assert(cs@.subrange(0, cs@.len() - 1) =~= repeat@.drop_last());
    count_in(&cs, 0, cs.len() - 1)
}

fn count_in(cs: &Vec<char>, from: usize, to: usize) -> (r: Result<u32, LedgerError>)
    requires
        from <= to <= cs@.len(),
    ensures
        r == (match count_from_text(cs@.subrange(from as int, to as int)) {
            Some(k) => Ok(k),
            None => Err(LedgerError::ParseFailure),
        }),
{
    let ghost s = cs@.subrange(from as int, to as int);
    let start = if from < to && cs[from] == '+' {
        from + 1
    } else {
        from
    };
    assert(cs@.subrange(start as int, to as int) =~= (if s.len() > 0 && s[0] == '+' {
        s.drop_first()
    } else {
        s
    }));
    if start == to {
        return Err(LedgerError::ParseFailure);
    }
    match parse_digits(cs, start, to, 0xffff_ffff) {
        Some(v) => Ok(v as u32),
        None => Err(LedgerError::ParseFailure),
    }
}

/// Reads a repeat tag.
pub fn get_repeat_from_str(repeat: &str) -> (r: Result<Repeat, LedgerError>)
    ensures
        r == repeat_from_text(repeat@),
{
    let cs = chars_of(repeat);
    assert(cs@.subrange(0, cs@.len() as int) =~= repeat@);
    repeat_in(&cs, 0, cs.len())
}

fn repeat_in(cs: &Vec<char>, from: usize, to: usize) -> (r: Result<Repeat, LedgerError>)
    requires
        from <= to <= cs@.len(),
    ensures
        r == repeat_from_text(cs@.subrange(from as int, to as int)),
{
    let ghost s = cs@.subrange(from as int, to as int);
    if from == to {
        return Ok(Repeat::Never);
    }
    let u = cs[to - 1];
    assert(s.last() == u);
    assert(cs@.subrange(from as int, to - 1) =~= s.drop_last());
    if u == 'd' || u == 'w' || u == 'm' || u == 'y' {
        match count_in(cs, from, to - 1) {
            Ok(k) => Ok(
                if u == 'd' {
                    Repeat::Day(k)
                } else if u == 'w' {
                    Repeat::Week(k)
                } else if u == 'm' {
                    Repeat::Month(k)
                } else {
                    Repeat::Year(k)
                },
            ),
            Err(e) => Err(e),
        }
    } else {
        Ok(Repeat::Never)
    }
}

/// Appends the text of a repeat tag.
fn push_repeat(s: &mut String, r: Repeat)
    ensures
        final(s)@ == old(s)@ + repeat_text(r),
{
    match r {
        Repeat::Day(n) => {
            push_decimal(s, n as u128);
            push_char(s, 'd');
        },
        Repeat::Week(n) => {
            push_decimal(s, n as u128);
            push_char(s, 'w');
        },
        Repeat::Month(n) => {
            push_decimal(s, n as u128);
            push_char(s, 'm');
        },
        Repeat::Year(n) => {
            push_decimal(s, n as u128);
            push_char(s, 'y');
        },
        Repeat::Never => {
            push_char(s, 'n');
            push_char(s, 'o');
            push_char(s, 'n');
            push_char(s, 'e');
        },
    }
    assert(s@ =~= old(s)@ + repeat_text(r));
}

proof fn lemma_count_round_trip(n: u32)
    ensures
        count_from_text(decimal(n as nat)) == Some(n),
{
    lemma_decimal_digits(n as nat);
    assert(decimal(n as nat)[0] != '+') by {
        assert(is_digit(decimal(n as nat)[0]));
    }
}

proof fn lemma_repeat_round_trip(r: Repeat)
    ensures
        repeat_from_text(repeat_text(r)) == Ok::<Repeat, LedgerError>(r),
        repeat_text(r).len() >= 2,
        !repeat_text(r).contains(','),
        !repeat_text(r).contains('\n'),
        !is_blank(repeat_text(r).last()),
        repeat_text(r).last() != '\r',
{
    let t = repeat_text(r);
    match r {
        Repeat::Day(n) => lemma_unit_tag(n, 'd'),
        Repeat::Week(n) => lemma_unit_tag(n, 'w'),
        Repeat::Month(n) => lemma_unit_tag(n, 'm'),
        Repeat::Year(n) => lemma_unit_tag(n, 'y'),
        Repeat::Never => {
            assert(t.last() == 'e');
            assert(!t.contains(',')) by {
                if t.contains(',') {
                    let j = choose|j: int| 0 <= j < t.len() && t[j] == ',';
                }
            }
            assert(!t.contains('\n')) by {
                if t.contains('\n') {
                    let j = choose|j: int| 0 <= j < t.len() && t[j] == '\n';
                }
            }
        },
    }
}

proof fn lemma_unit_tag(n: u32, u: char)
    requires
        u == 'd' || u == 'w' || u == 'm' || u == 'y',
    ensures
        decimal(n as nat).push(u).drop_last() == decimal(n as nat),
        decimal(n as nat).push(u).last() == u,
        count_from_text(decimal(n as nat)) == Some(n),
        decimal(n as nat).push(u).len() >= 2,
        !decimal(n as nat).push(u).contains(','),
        !decimal(n as nat).push(u).contains('\n'),
{
    let d = decimal(n as nat);
    let t = d.push(u);
    lemma_count_round_trip(n);
    lemma_decimal_digits(n as nat);
    assert(t.drop_last() =~= d);
    assert forall|j: int| 0 <= j < t.len() implies #[trigger] t[j] != ',' && t[j] != '\n' by {
        if j < d.len() {
            assert(t[j] == d[j]);
            assert(is_digit(d[j]));
        }
    }
}

/// The description with each `"` doubled.
pub open spec fn escape(s: Seq<char>) -> Seq<char>
    decreases s.len(),
{
    if s.len() == 0 {
        s
    } else {
        (if s[0] == '"' {
            seq!['"', '"']
        } else {
            seq![s[0]]
        }) + escape(s.drop_first())
    }
}

/// The inside of a quoted field with each `""` read as one `"`.
pub open spec fn unescape(s: Seq<char>) -> Seq<char>
    decreases s.len(),
{
    if s.len() == 0 {
        s
    } else if s.len() >= 2 && s[0] == '"' && s[1] == '"' {
        seq!['"'] + unescape(s.subrange(2, s.len() as int))
    } else {
        seq![s[0]] + unescape(s.drop_first())
    }
}

/// Whether a description is written as a quoted field: it holds a comma or a quote, or
/// starts or ends with a blank.
pub open spec fn needs_quotes(d: Seq<char>) -> bool {
    d.contains(',') || d.contains('"') || (d.len() > 0 && (is_blank(d[0]) || is_blank(d.last())))
}

/// How a description is written in its field.
pub open spec fn field_text(d: Seq<char>) -> Seq<char> {
    if needs_quotes(d) {
        seq!['"'] + escape(d) + seq!['"']
    } else {
        d
    }
}

/// The description that a trimmed field holds: a quoted field is unquoted.
pub open spec fn description_from_field(f: Seq<char>) -> Seq<char> {
    if f.len() >= 2 && f[0] == '"' && f.last() == '"' {
        unescape(f.subrange(1, f.len() - 1))
    } else {
        f
    }
}

proof fn lemma_unescape_escape(d: Seq<char>)
    ensures
        unescape(escape(d)) == d,
        !d.contains('\n') ==> !escape(d).contains('\n'),
    decreases d.len(),
{
    if d.len() > 0 {
        let t = d.drop_first();
        lemma_unescape_escape(t);
        let e = escape(d);
        if d[0] == '"' {
            assert(e.subrange(2, e.len() as int) =~= escape(t));
        } else {
            assert(e.drop_first() =~= escape(t));
        }
        assert(seq![d[0]] + t =~= d);
        if !d.contains('\n') {
            assert(!t.contains('\n')) by {
                if t.contains('\n') {
                    let j = choose|j: int| 0 <= j < t.len() && t[j] == '\n';
                    assert(d[j + 1] == '\n');
                }
            }
            assert(!e.contains('\n')) by {
                if e.contains('\n') {
                    let j = choose|j: int| 0 <= j < e.len() && e[j] == '\n';
                    if d[0] == '"' {
                        if j >= 2 {
                            assert(escape(t)[j - 2] == '\n');
                        }
                    } else if j >= 1 {
                        assert(escape(t)[j - 1] == '\n');
                    } else {
                        assert(d[0] == '\n');
                    }
                }
            }
        }
    } else {
        assert(escape(d) =~= d);
    }
}

proof fn lemma_unescape_no_break(s: Seq<char>)
    requires
        !s.contains('\n'),
    ensures
        !unescape(s).contains('\n'),
    decreases s.len(),
{
    if s.len() > 0 {
        let t = if s.len() >= 2 && s[0] == '"' && s[1] == '"' {
            s.subrange(2, s.len() as int)
        } else {
            s.drop_first()
        };
        let k = if s.len() >= 2 && s[0] == '"' && s[1] == '"' { 2int } else { 1int };
        assert(!t.contains('\n')) by {
            if t.contains('\n') {
                let j = choose|j: int| 0 <= j < t.len() && t[j] == '\n';
                assert(s[j + k] == '\n');
            }
        }
        lemma_unescape_no_break(t);
        let u = unescape(s);
        assert(!u.contains('\n')) by {
            if u.contains('\n') {
                let j = choose|j: int| 0 <= j < u.len() && u[j] == '\n';
                if j >= 1 {
                    assert(unescape(t)[j - 1] == '\n');
                } else {
                    assert(s[0] == '\n');
                }
            }
        }
    }
}

/// A description without line breaks, written in its field, reads back unchanged, and
/// the field is trimmed and without line breaks.
pub proof fn lemma_field_round_trip(d: Seq<char>)
    requires
        !d.contains('\n'),
    ensures
        description_from_field(field_text(d)) == d,
        is_trimmed(field_text(d)),
        !field_text(d).contains('\n'),
{
    lemma_unescape_escape(d);
    let f = field_text(d);
    if needs_quotes(d) {
        let e = escape(d);
        assert(f.subrange(1, f.len() - 1) =~= e);
        assert(f[0] == '"' && f.last() == '"');
        lemma_no_sep_concat(seq!['"'], e, '\n');
        lemma_no_sep_concat(seq!['"'] + e, seq!['"'], '\n');
    } else {
        if d.len() >= 2 && d[0] == '"' {
            assert(d.contains('"'));
        }
    }
}

/// A trimmed field without line breaks holds a description without line breaks.
proof fn lemma_field_no_break(f: Seq<char>)
    requires
        !f.contains('\n'),
    ensures
        !description_from_field(f).contains('\n'),
{
    if f.len() >= 2 && f[0] == '"' && f.last() == '"' {
        let m = f.subrange(1, f.len() - 1);
        assert(!m.contains('\n')) by {
            if m.contains('\n') {
                let j = choose|j: int| 0 <= j < m.len() && m[j] == '\n';
                assert(f[j + 1] == '\n');
            }
        }
        lemma_unescape_no_break(m);
    }
}

/// Appends a description as its field.
fn push_field(s: &mut String, d: &String)
    ensures
        final(s)@ == old(s)@ + field_text(d@),
{
    let cs = chars_of(d.as_str());
    let n = cs.len();
    let mut special = n > 0 && (cs[0] == ' ' || cs[0] == '\t' || cs[n - 1] == ' ' || cs[n - 1] == '\t');
    let mut i: usize = 0;
    while i < n
        invariant
            n == cs@.len(),
            cs@ == d@,
            i <= n,
            special == ((n > 0 && (is_blank(cs@[0]) || is_blank(cs@[n - 1]))) || exists|j: int|
                0 <= j < i && (cs@[j] == ',' || cs@[j] == '"')),
        decreases n - i,
    {
        if cs[i] == ',' || cs[i] == '"' {
            special = true;
        }
        i += 1;
    }
    proof {
        if n > 0 {
            assert(d@.last() == cs@[n - 1]);
        }
        if special != needs_quotes(d@) {
            if d@.contains(',') {
                let j = choose|j: int| 0 <= j < d@.len() && d@[j] == ',';
            }
            if d@.contains('"') {
                let j = choose|j: int| 0 <= j < d@.len() && d@[j] == '"';
            }
            if exists|j: int| 0 <= j < n && (cs@[j] == ',' || cs@[j] == '"') {
                let j = choose|j: int| 0 <= j < n && (cs@[j] == ',' || cs@[j] == '"');
                assert(d@.contains(cs@[j]));
            }
        }
    }
    if !special {
        push_chars(s, &cs, 0, n);
        assert(cs@.subrange(0, n as int) =~= d@);
        return;
    }
    push_char(s, '"');
    let ghost start = s@;
    let mut k: usize = 0;
    assert(cs@.subrange(0, n as int) =~= d@);
    while k < n
        invariant
            n == cs@.len(),
            cs@ == d@,
            k <= n,
            s@ + escape(cs@.subrange(k as int, n as int)) == start + escape(d@),
        decreases n - k,
    {
        let ghost rest = cs@.subrange(k as int, n as int);
        assert(rest.drop_first() =~= cs@.subrange(k + 1, n as int));
        assert(rest[0] == cs@[k as int]);
        if cs[k] == '"' {
            push_char(s, '"');
            push_char(s, '"');
        } else {
            push_char(s, cs[k]);
        }
        k += 1;
        assert(s@ + escape(cs@.subrange(k as int, n as int)) =~= start + escape(d@));
    }
    assert(cs@.subrange(n as int, n as int) =~= Seq::<char>::empty());
    push_char(s, '"');
    assert(s@ =~= old(s)@ + field_text(d@));
}

/// The description held by the trimmed field `cs[from..to]`.
fn read_field(cs: &Vec<char>, from: usize, to: usize) -> (r: String)
    requires
        from <= to <= cs@.len(),
    ensures
        r@ == description_from_field(cs@.subrange(from as int, to as int)),
{
    let ghost f = cs@.subrange(from as int, to as int);
    if !(to - from >= 2 && cs[from] == '"' && cs[to - 1] == '"') {
        return string_of(cs, from, to);
    }
    assert(f[0] == cs@[from as int] && f.last() == cs@[to - 1]);
    let hi = to - 1;
    assert(f.subrange(1, f.len() - 1) =~= cs@.subrange(from + 1, hi as int));
    let mut out = String::new();
    let mut i: usize = from + 1;
    while i < hi
        invariant
            from + 1 <= i <= hi,
            hi < cs@.len(),
            out@ + unescape(cs@.subrange(i as int, hi as int)) == unescape(cs@.subrange(from + 1, hi as int)),
        decreases hi - i,
    {
        let ghost rest = cs@.subrange(i as int, hi as int);
        if cs[i] == '"' && i + 1 < hi && cs[i + 1] == '"' {
            assert(rest[0] == '"' && rest[1] == '"');
            assert(rest.subrange(2, rest.len() as int) =~= cs@.subrange(i + 2, hi as int));
            push_char(&mut out, '"');
            i += 2;
        } else {
            assert(rest[0] == cs@[i as int]);
            assert(rest.drop_first() =~= cs@.subrange(i + 1, hi as int));
            push_char(&mut out, cs[i]);
            i += 1;
        }
        assert(out@ + unescape(cs@.subrange(i as int, hi as int)) =~= unescape(cs@.subrange(from + 1, hi as int)));
    }
    assert(cs@.subrange(i as int, hi as int) =~= Seq::<char>::empty());
    assert(out@ =~= description_from_field(f));
    out
}

/// The record line of an entry: date, amount, description and repeat tag, separated by
/// commas, with the description quoted where it needs to be.
pub open spec fn record_text(e: Entry) -> Seq<char> {
    date_text(e.date) + seq![','] + amount_text(e.amount as int) + seq![','] + field_text(
        e.description,
    ) + seq![','] + repeat_text(e.repeat)
}

/// The entry that a record line denotes: date, amount, description and repeat tag, each
/// trimmed; the description is everything between the second comma and the last one, and
/// is unquoted when it is a quoted field.
pub open spec fn record_from_text(line: Seq<char>) -> Result<Entry, LedgerError> {
    let f = split(line, ',');
    let n = f.len() as int;
    if n < 4 {
        Err(LedgerError::ParseFailure)
    } else {
        match (
            date_from_text(trim(f[0])),
            amount_from_text(trim(f[1])),
            repeat_from_text(trim(f[n - 1])),
        ) {
            (Some(d), Some(a), Ok(r)) => Ok(
                Entry {
                    date: d,
                    amount: a as i64,
                    description: description_from_field(trim(middle_field(line))),
                    repeat: r,
                },
            ),
            _ => Err(LedgerError::ParseFailure),
        }
    }
}

/// The text of a record line between its second comma and its last one: the description,
/// which may itself hold commas.
pub open spec fn middle_field(line: Seq<char>) -> Seq<char> {
    let f = split(line, ',');
    let n = f.len() as int;
    line.subrange(f[0].len() + f[1].len() + 2 as int, line.len() - f[n - 1].len() - 1 as int)
}

proof fn lemma_no_sep_concat(a: Seq<char>, b: Seq<char>, c: char)
    requires
        !a.contains(c),
        !b.contains(c),
    ensures
        !(a + b).contains(c),
{
    if (a + b).contains(c) {
        let j = choose|j: int| 0 <= j < (a + b).len() && (a + b)[j] == c;
        if j < a.len() {
            assert(a[j] == c);
        } else {
            assert(b[j - a.len()] == c);
        }
    }
}

/// A storable entry, written as a record line, reads back as the same entry.
pub proof fn lemma_record_round_trip(e: Entry)
    requires
        storable(e),
    ensures
        record_from_text(record_text(e)) == Ok::<Entry, LedgerError>(e),
        !record_text(e).contains('\n'),
        is_trimmed(record_text(e)),
        record_text(e).len() > 0,
        record_text(e).last() != '\r',
{
    let d = date_text(e.date);
    let a = amount_text(e.amount as int);
    let s = field_text(e.description);
    let r = repeat_text(e.repeat);
    lemma_field_round_trip(e.description);
    lemma_date_text_round_trip(e.date);
    lemma_amount_text_round_trip(e.amount as int);
    lemma_repeat_round_trip(e.repeat);
    assert(!a.contains(',')) by {
        if a.contains(',') {
            let j = choose|j: int| 0 <= j < a.len() && a[j] == ',';
            assert(is_digit(a[j]) || a[j] == '-' || a[j] == '.');
        }
    }
    assert(!a.contains('\n')) by {
        if a.contains('\n') {
            let j = choose|j: int| 0 <= j < a.len() && a[j] == '\n';
            assert(is_digit(a[j]) || a[j] == '-' || a[j] == '.');
        }
    }
    lemma_split_none(d, ',');
    lemma_split_none(a, ',');
    lemma_split_none(r, ',');
    lemma_split_len(s, ',');
    lemma_split_join(d, a, ',');
    lemma_split_join(d + seq![','] + a, s, ',');
    lemma_split_join(d + seq![','] + a + seq![','] + s, r, ',');
    let line = record_text(e);
    assert(line == d + seq![','] + a + seq![','] + s + seq![','] + r);
    let f = split(line, ',');
    assert(f =~= seq![d, a] + split(s, ',') + seq![r]);
    let n = f.len() as int;
    assert(f[0] == d && f[1] == a && f[n - 1] == r);
    assert(middle_field(line) =~= s);
    assert(is_trimmed(a)) by {
        assert(is_digit(a[0]) || a[0] == '-');
    }
    assert(trim(d) == d);
    assert(trim(a) == a);
    assert(trim(s) == s);
    assert(is_trimmed(r)) by {
        assert(r.len() >= 2);
        lemma_repeat_first(e.repeat);
    }
    assert(trim(r) == r);
    assert(amount_from_text(a) == Some(e.amount as int));
    lemma_no_sep_concat(d, seq![','], '\n');
    lemma_no_sep_concat(d + seq![','], a, '\n');
    lemma_no_sep_concat(d + seq![','] + a, seq![','], '\n');
    lemma_no_sep_concat(d + seq![','] + a + seq![','], s, '\n');
    lemma_no_sep_concat(d + seq![','] + a + seq![','] + s, seq![','], '\n');
    lemma_no_sep_concat(d + seq![','] + a + seq![','] + s + seq![','], r, '\n');
    assert(line[0] == d[0]);
    assert(line.last() == r.last());
}

proof fn lemma_repeat_first(r: Repeat)
    ensures
        !is_blank(repeat_text(r)[0]),
{
    match r {
        Repeat::Day(n) => lemma_first_digit(n, 'd'),
        Repeat::Week(n) => lemma_first_digit(n, 'w'),
        Repeat::Month(n) => lemma_first_digit(n, 'm'),
        Repeat::Year(n) => lemma_first_digit(n, 'y'),
        Repeat::Never => {},
    }
}

proof fn lemma_first_digit(n: u32, u: char)
    ensures
        is_digit(decimal(n as nat).push(u)[0]),
{
    lemma_decimal_digits(n as nat);
    assert(decimal(n as nat).push(u)[0] == decimal(n as nat)[0]);
}

/// Every entry that a record line denotes is storable.
pub proof fn lemma_record_from_text_storable(line: Seq<char>)
    requires
        !line.contains('\n'),
    ensures
        record_from_text(line) matches Ok(e) ==> storable(e),
{
    let f = split(line, ',');
    let n = f.len() as int;
    if n >= 4 {
        lemma_amount_from_text_range(trim(f[1]));
        if record_from_text(line) is Ok {
            let m = middle_field(line);
            lemma_trim_sub(m);
            lemma_middle_in_line(line);
            let lo = f[0].len() + f[1].len() + 2;
            assert(!m.contains('\n')) by {
                if m.contains('\n') {
                    let j = choose|j: int| 0 <= j < m.len() && m[j] == '\n';
                    assert(m[j] == line[lo + j]);
                }
            }
            assert(!trim(m).contains('\n'));
            lemma_field_no_break(trim(m));
        }
    }
}

/// The middle field lies inside its line.
proof fn lemma_middle_in_line(line: Seq<char>)
    requires
        split(line, ',').len() >= 4,
    ensures
        ({
            let f = split(line, ',');
            let n = f.len() as int;
            0 <= f[0].len() + f[1].len() + 2 <= line.len() - f[n - 1].len() - 1 <= line.len()
        }),
{
    let f = split(line, ',');
    let n = f.len() as int;
    lemma_split_lengths(line, ',');
    lemma_prefix_lengths(f);
    lemma_prefix_mono(f, 3, n - 1);
}

/// The total length of the first `k` pieces, each followed by one separator.
pub open spec fn pieces_len(f: Seq<Seq<char>>, k: int) -> int
    decreases k,
{
    if k <= 0 {
        0
    } else {
        pieces_len(f, k - 1) + f[k - 1].len() + 1
    }
}

proof fn lemma_prefix_lengths(f: Seq<Seq<char>>)
    requires
        f.len() >= 3,
    ensures
        pieces_len(f, 3) >= f[0].len() + f[1].len() + 3,
{
    assert(pieces_len(f, 0) == 0);
    assert(pieces_len(f, 1) == f[0].len() + 1);
    assert(pieces_len(f, 2) == f[0].len() + f[1].len() + 2);
}

proof fn lemma_prefix_mono(f: Seq<Seq<char>>, i: int, j: int)
    requires
        0 <= i <= j,
    ensures
        pieces_len(f, i) <= pieces_len(f, j),
    decreases j - i,
{
    if i < j {
        lemma_prefix_mono(f, i, j - 1);
    }
}

/// A text is its pieces, each but the last followed by a separator.
proof fn lemma_split_lengths(s: Seq<char>, sep: char)
    ensures
        split(s, sep).len() >= 1,
        s.len() == pieces_len(split(s, sep), split(s, sep).len() - 1) + split(s, sep).last().len(),
    decreases s.len(),
{
    lemma_split_len(s, sep);
    if s.len() > 0 {
        let t = s.drop_last();
        lemma_split_lengths(t, sep);
        let ft = split(t, sep);
        let f = split(s, sep);
        if s.last() == sep {
            assert(f == ft.push(Seq::<char>::empty()));
            lemma_pieces_len_prefix(ft, f, ft.len() - 1);
            assert(pieces_len(f, ft.len() as int) == pieces_len(f, ft.len() - 1) + f[ft.len() - 1].len() + 1);
        } else {
            let q = ft.last().push(s.last());
            assert(f == ft.update(ft.len() - 1, q));
            lemma_pieces_len_prefix(ft, f, ft.len() - 1);
        }
    }
}

proof fn lemma_pieces_len_prefix(a: Seq<Seq<char>>, b: Seq<Seq<char>>, k: int)
    requires
        0 <= k <= a.len(),
        k <= b.len(),
        forall|i: int| 0 <= i < k ==> a[i] == b[i],
    ensures
        pieces_len(a, k) == pieces_len(b, k),
    decreases k,
{
    if k > 0 {
        lemma_pieces_len_prefix(a, b, k - 1);
    }
}

/// Every piece of a split holds no separator, and only characters of the text.
proof fn lemma_split_pieces(s: Seq<char>, sep: char)
    ensures
        forall|k: int|
            0 <= k < split(s, sep).len() ==> !(#[trigger] split(s, sep)[k]).contains(sep),
        forall|k: int, c: char|
            0 <= k < split(s, sep).len() && #[trigger] split(s, sep)[k].contains(c) ==> s.contains(
                c,
            ),
    decreases s.len(),
{
    if s.len() > 0 {
        let t = s.drop_last();
        lemma_split_pieces(t, sep);
        lemma_split_len(t, sep);
        let rest = split(t, sep);
        assert forall|c: char| t.contains(c) implies s.contains(c) by {
            let j = choose|j: int| 0 <= j < t.len() && t[j] == c;
            assert(s[j] == c);
        }
        assert(s.contains(s.last())) by {
            assert(s[s.len() - 1] == s.last());
        }
        if s.last() != sep {
            let q = rest.last().push(s.last());
            assert forall|k: int| 0 <= k < split(s, sep).len() implies !(#[trigger] split(
                s,
                sep,
            )[k]).contains(sep) by {
                if k == rest.len() - 1 {
                    assert(!rest[k].contains(sep));
                    if q.contains(sep) {
                        let j = choose|j: int| 0 <= j < q.len() && q[j] == sep;
                        if j < rest.last().len() {
                            assert(rest.last()[j] == sep);
                        }
                    }
                }
            }
            assert forall|k: int, c: char|
                0 <= k < split(s, sep).len() && #[trigger] split(s, sep)[k].contains(c) implies s.contains(
                    c,
                ) by {
                if k == rest.len() - 1 {
                    let j = choose|j: int| 0 <= j < q.len() && q[j] == c;
                    if j < rest.last().len() {
                        assert(rest.last()[j] == c);
                        assert(rest[k].contains(c));
                    }
                } else {
                    assert(rest[k].contains(c));
                }
            }
        } else {
            assert forall|k: int, c: char|
                0 <= k < split(s, sep).len() && #[trigger] split(s, sep)[k].contains(c) implies s.contains(
                    c,
                ) by {
                if k < rest.len() {
                    assert(split(s, sep)[k] == rest[k]);
                    assert(rest[k].contains(c));
                }
            }
        }
    }
}

/// Trimming leaves no blank at either end.
pub proof fn lemma_trim_is_trimmed(p: Seq<char>)
    ensures
        is_trimmed(trim(p)),
{
    lemma_trim_sub(p);
}

/// Trimming keeps a piece of the text, and leaves no blank at either end.
proof fn lemma_trim_sub(p: Seq<char>)
    ensures
        forall|c: char| trim(p).contains(c) ==> p.contains(c),
        is_trimmed(trim(p)),
{
    lemma_trim_start_sub(p);
    lemma_trim_end_sub(trim_start(p));
}

proof fn lemma_trim_start_sub(p: Seq<char>)
    ensures
        forall|c: char| trim_start(p).contains(c) ==> p.contains(c),
        trim_start(p).len() > 0 ==> !is_blank(trim_start(p)[0]),
    decreases p.len(),
{
    if p.len() > 0 && is_blank(p[0]) {
        let t = p.drop_first();
        lemma_trim_start_sub(t);
        assert forall|c: char| t.contains(c) implies p.contains(c) by {
            let j = choose|j: int| 0 <= j < t.len() && t[j] == c;
            assert(p[j + 1] == c);
        }
    }
}

proof fn lemma_trim_end_sub(p: Seq<char>)
    requires
        p.len() > 0 ==> !is_blank(p[0]),
    ensures
        forall|c: char| trim_end(p).contains(c) ==> p.contains(c),
        is_trimmed(trim_end(p)),
    decreases p.len(),
{
    if p.len() > 0 && is_blank(p.last()) {
        let t = p.drop_last();
        if t.len() > 0 {
            assert(t[0] == p[0]);
        }
        lemma_trim_end_sub(t);
        assert forall|c: char| t.contains(c) implies p.contains(c) by {
            let j = choose|j: int| 0 <= j < t.len() && t[j] == c;
            assert(p[j] == c);
        }
    }
}

/// The header line of a record file.
pub open spec fn header() -> Seq<char> {
    "date,amount,description,repeat"@
}

/// The text of a record file holding `es`, before its final line break: the header, and
/// each record on a line of its own.
pub open spec fn body_text(es: Seq<Entry>) -> Seq<char>
    decreases es.len(),
{
    if es.len() == 0 {
        header()
    } else {
        body_text(es.drop_last()) + seq!['\n'] + record_text(es.last())
    }
}

/// The text of a record file holding `es`, in that order.
pub open spec fn file_text(es: Seq<Entry>) -> Seq<char> {
    body_text(es) + seq!['\n']
}

/// A line without the carriage return that may end it.
pub open spec fn line_of(l: Seq<char>) -> Seq<char> {
    if l.len() > 0 && l.last() == '\r' {
        l.drop_last()
    } else {
        l
    }
}

/// The entries of record lines, in order; blank lines are skipped.
pub open spec fn entries_from_lines(ls: Seq<Seq<char>>) -> Result<Seq<Entry>, LedgerError>
    decreases ls.len(),
{
    if ls.len() == 0 {
        Ok(Seq::empty())
    } else {
        match entries_from_lines(ls.drop_last()) {
            Err(e) => Err(e),
            Ok(es) => {
                let l = trim(line_of(ls.last()));
                if l.len() == 0 {
                    Ok(es)
                } else {
                    match record_from_text(l) {
                        Ok(e) => Ok(es.push(e)),
                        Err(x) => Err(x),
                    }
                }
            },
        }
    }
}

/// The entries of a record file: its lines, after a header line if it has one.
pub open spec fn entries_from_text(s: Seq<char>) -> Result<Seq<Entry>, LedgerError> {
    let ls = split(s, '\n');
    if trim(line_of(ls[0])) == header() {
        entries_from_lines(ls.drop_first())
    } else {
        entries_from_lines(ls)
    }
}

/// The record lines of `es`.
pub open spec fn record_lines(es: Seq<Entry>) -> Seq<Seq<char>> {
    es.map_values(|e: Entry| record_text(e))
}

proof fn lemma_header_facts()
    ensures
        !header().contains('\n'),
        is_trimmed(header()),
        header().len() == 30,
        header().last() != '\r',
{
    reveal_strlit("date,amount,description,repeat");
    let h = header();
    assert(!h.contains('\n')) by {
        if h.contains('\n') {
            let j = choose|j: int| 0 <= j < h.len() && h[j] == '\n';
        }
    }
}

proof fn lemma_body_lines(es: Seq<Entry>)
    requires
        all_storable(es),
    ensures
        split(body_text(es), '\n') == seq![header()] + record_lines(es),
    decreases es.len(),
{
    lemma_header_facts();
    if es.len() == 0 {
        lemma_split_none(header(), '\n');
        assert(seq![header()] + record_lines(es) =~= seq![header()]);
    } else {
        let e0 = es.drop_last();
        assert(all_storable(e0)) by {
            assert forall|i: int| 0 <= i < e0.len() implies storable(#[trigger] e0[i]) by {
                assert(e0[i] == es[i]);
            }
        }
        lemma_body_lines(e0);
        assert(storable(es[es.len() - 1]));
        lemma_record_round_trip(es.last());
        lemma_split_none(record_text(es.last()), '\n');
        lemma_split_join(body_text(e0), record_text(es.last()), '\n');
        assert(seq![header()] + record_lines(es) =~= seq![header()] + record_lines(e0) + seq![
            record_text(es.last()),
        ]);
    }
}

proof fn lemma_lines_entries(es: Seq<Entry>)
    requires
        all_storable(es),
    ensures
        entries_from_lines(record_lines(es)) == Ok::<Seq<Entry>, LedgerError>(es),
    decreases es.len(),
{
    if es.len() == 0 {
        assert(record_lines(es) =~= Seq::<Seq<char>>::empty());
        assert(es =~= Seq::<Entry>::empty());
    } else {
        let e0 = es.drop_last();
        assert(all_storable(e0)) by {
            assert forall|i: int| 0 <= i < e0.len() implies storable(#[trigger] e0[i]) by {
                assert(e0[i] == es[i]);
            }
        }
        lemma_lines_entries(e0);
        assert(record_lines(es).drop_last() =~= record_lines(e0));
        assert(storable(es[es.len() - 1]));
        lemma_record_round_trip(es.last());
        let l = record_text(es.last());
        assert(line_of(l) == l);
        assert(trim(l) == l);
        assert(e0.push(es.last()) =~= es);
    }
}

/// The entries written to a record file read back from it, in the same order.
pub proof fn lemma_file_round_trip(es: Seq<Entry>)
    requires
        all_storable(es),
    ensures
        entries_from_text(file_text(es)) == Ok::<Seq<Entry>, LedgerError>(es),
{
    lemma_header_facts();
    lemma_body_lines(es);
    lemma_split_join(body_text(es), Seq::empty(), '\n');
    assert(body_text(es) + seq!['\n'] + Seq::<char>::empty() =~= file_text(es));
    assert(split(Seq::<char>::empty(), '\n') =~= seq![Seq::<char>::empty()]);
    let ls = split(file_text(es), '\n');
    assert(ls =~= seq![header()] + record_lines(es) + seq![Seq::<char>::empty()]);
    assert(ls[0] == header());
    assert(trim(line_of(header())) == header());
    let rest = ls.drop_first();
    assert(rest =~= record_lines(es).push(Seq::<char>::empty()));
    assert(rest.drop_last() =~= record_lines(es));
    lemma_lines_entries(es);
    assert(trim(line_of(rest.last())) =~= Seq::<char>::empty());
}

/// Every entry that record lines without line breaks denote is storable.
proof fn lemma_lines_storable(ls: Seq<Seq<char>>)
    requires
        forall|k: int| 0 <= k < ls.len() ==> !(#[trigger] ls[k]).contains('\n'),
    ensures
        entries_from_lines(ls) matches Ok(es) ==> all_storable(es),
    decreases ls.len(),
{
    if ls.len() > 0 {
        let l0 = ls.drop_last();
        assert forall|k: int| 0 <= k < l0.len() implies !(#[trigger] l0[k]).contains('\n') by {
            assert(l0[k] == ls[k]);
        }
        lemma_lines_storable(l0);
        let l = trim(line_of(ls.last()));
        assert(!ls[ls.len() - 1].contains('\n'));
        lemma_trim_sub(line_of(ls.last()));
        assert(!l.contains('\n')) by {
            if l.contains('\n') {
                assert(line_of(ls.last()).contains('\n'));
                let j = choose|j: int|
                    0 <= j < line_of(ls.last()).len() && line_of(ls.last())[j] == '\n';
                assert(ls.last()[j] == '\n');
            }
        }
        lemma_record_from_text_storable(l);
    }
}

/// Every entry that a record file denotes is storable.
pub proof fn lemma_entries_from_text_storable(s: Seq<char>)
    ensures
        entries_from_text(s) matches Ok(es) ==> all_storable(es),
{
    let ls = split(s, '\n');
    lemma_split_pieces(s, '\n');
    lemma_split_len(s, '\n');
    lemma_lines_storable(ls);
    let r = ls.drop_first();
    assert forall|k: int| 0 <= k < r.len() implies !(#[trigger] r[k]).contains('\n') by {
        assert(r[k] == ls[k + 1]);
    }
    lemma_lines_storable(r);
}

/// Appends the record line of `t`.
pub fn push_record(s: &mut String, t: &Transaction)
    requires
        t.date.wf(),
    ensures
        final(s)@ == old(s)@ + record_text(t@),
{
    let d = t.date.to_text();
    push_str(s, d.as_str());
    push_char(s, ',');
    let a = format_amount(t.amount as i128);
    push_str(s, a.as_str());
    push_char(s, ',');
    push_field(s, &t.description);
    push_char(s, ',');
    push_repeat(s, t.repeat);
    assert(s@ =~= old(s)@ + record_text(t@));
}

/// The text of a record file holding `ts`, in that order.
pub fn render_file(ts: &Vec<Transaction>) -> (r: String)
    requires
        forall|i: int| 0 <= i < ts@.len() ==> (#[trigger] ts@[i]).date.wf(),
    ensures
        r@ == file_text(entries(ts@)),
{
    let mut s = String::new();
    push_str(&mut s, "date,amount,description,repeat");
    let mut i: usize = 0;
    while i < ts.len()
        invariant
            i <= ts@.len(),
            forall|j: int| 0 <= j < ts@.len() ==> (#[trigger] ts@[j]).date.wf(),
            s@ == body_text(entries(ts@.subrange(0, i as int))),
        decreases ts@.len() - i,
    {
        let ghost before = entries(ts@.subrange(0, i as int));
        push_char(&mut s, '\n');
        push_record(&mut s, &ts[i]);
        let ghost after = entries(ts@.subrange(0, i + 1));
        assert(after.drop_last() =~= before);
        assert(after.last() == ts@[i as int]@);
        i += 1;
    }
    push_char(&mut s, '\n');
    assert(ts@.subrange(0, i as int) =~= ts@);
    s
}

/// A copy of `cs[from..to]`.
fn sub_vec(cs: &Vec<char>, from: usize, to: usize) -> (r: Vec<char>)
    requires
        from <= to <= cs@.len(),
    ensures
        r@ == cs@.subrange(from as int, to as int),
{
    let mut r: Vec<char> = Vec::new();
    let mut i: usize = from;
    while i < to
        invariant
            from <= i <= to <= cs@.len(),
            r@ == cs@.subrange(from as int, i as int),
        decreases to - i,
    {
        r.push(cs[i]);
        i += 1;
        assert(r@ =~= cs@.subrange(from as int, i as int));
    }
    r
}

/// Reads the record line `cs[from..to]`.
pub fn parse_record(cs: &Vec<char>, from: usize, to: usize) -> (r: Result<Transaction, LedgerError>)
    requires
        from <= to <= cs@.len(),
    ensures
        r matches Ok(t) ==> record_from_text(cs@.subrange(from as int, to as int)) == Ok::<
            Entry,
            LedgerError,
        >(t@),
        r matches Err(e) ==> record_from_text(cs@.subrange(from as int, to as int)) == Err::<
            Entry,
            LedgerError,
        >(e),
{
    let line = sub_vec(cs, from, to);
    let b = split_bounds(&line, ',');
    let n = b.len();
    if n < 4 {
        return Err(LedgerError::ParseFailure);
    }
    let ghost f = split(line@, ',');
    let (p0, q0) = b[0];
    let (p1, q1) = b[1];
    let (p3, q3) = b[n - 1];
    assert(line@.subrange(p0 as int, q0 as int) == f[0]);
    assert(line@.subrange(p1 as int, q1 as int) == f[1]);
    assert(line@.subrange(p3 as int, q3 as int) == f[n - 1]);
    assert(b@[0int + 1].0 == b@[0].1 + 1);
    assert(b@[(n - 2) + 1].0 == b@[n - 2].1 + 1);
    proof {
        lemma_middle_in_line(line@);
    }
    let lo = q1 + 1;
    let hi = p3 - 1;
    assert(line@.subrange(lo as int, hi as int) == middle_field(line@));
    let (a0, z0) = trim_bounds(&line, p0, q0);
    let (a1, z1) = trim_bounds(&line, p1, q1);
    let (a2, z2) = trim_bounds(&line, lo, hi);
    let (a3, z3) = trim_bounds(&line, p3, q3);
    let date = parse_date(&line, a0, z0);
    let amount = parse_amount_in(&line, a1, z1);
    let repeat = repeat_in(&line, a3, z3);
    match (date, amount, repeat) {
        (Some(d), Ok(a), Ok(rp)) => {
            let description = read_field(&line, a2, z2);
            Ok(Transaction { date: d, amount: a, description, repeat: rp })
        },
        _ => Err(LedgerError::ParseFailure),
    }
}

/// Whether `cs[from..to]` is the header line.
fn is_header(cs: &Vec<char>, from: usize, to: usize) -> (r: bool)
    requires
        from <= to <= cs@.len(),
    ensures
        r == (cs@.subrange(from as int, to as int) == header()),
{
    let h = chars_of("date,amount,description,repeat");
    if to - from != h.len() {
        return false;
    }
    let mut i: usize = 0;
    while i < h.len()
        invariant
            i <= h@.len(),
            h@ == header(),
            to - from == h@.len(),
            from <= to <= cs@.len(),
            forall|j: int| 0 <= j < i ==> cs@[from + j] == h@[j],
        decreases h@.len() - i,
    {
        if cs[from + i] != h[i] {
            assert(cs@.subrange(from as int, to as int)[i as int] != header()[i as int]);
            return false;
        }
        i += 1;
    }
    assert(cs@.subrange(from as int, to as int) =~= header());
    true
}

/// The bounds of `trim(line_of(cs[from..to]))`.
fn line_bounds(cs: &Vec<char>, from: usize, to: usize) -> (r: (usize, usize))
    requires
        from <= to <= cs@.len(),
    ensures
        r.0 <= r.1 <= cs@.len(),
        cs@.subrange(r.0 as int, r.1 as int) == trim(line_of(cs@.subrange(from as int, to as int))),
{
    let ghost l = cs@.subrange(from as int, to as int);
    let end = if to > from && cs[to - 1] == '\r' {
        to - 1
    } else {
        to
    };
    assert(cs@.subrange(from as int, end as int) =~= line_of(l));
    trim_bounds(cs, from, end)
}

/// A malformed line makes every longer run of lines malformed, with the same error.
proof fn lemma_lines_error_extends(ls: Seq<Seq<char>>, k: int)
    requires
        0 <= k <= ls.len(),
        entries_from_lines(ls.subrange(0, k)) is Err,
    ensures
        entries_from_lines(ls) == entries_from_lines(ls.subrange(0, k)),
    decreases ls.len() - k,
{
    if k == ls.len() {
        assert(ls.subrange(0, k) =~= ls);
    } else {
        let l0 = ls.drop_last();
        assert(l0.subrange(0, k) =~= ls.subrange(0, k));
        lemma_lines_error_extends(l0, k);
    }
}

/// Reads the transactions of a record file, in file order.
pub fn parse_file(text: &str) -> (r: Result<Vec<Transaction>, LedgerError>)
    ensures
        r matches Ok(v) ==> entries_from_text(text@) == Ok::<Seq<Entry>, LedgerError>(
            entries(v@),
        ),
        r matches Err(e) ==> entries_from_text(text@) == Err::<Seq<Entry>, LedgerError>(e),
{
    let cs = chars_of(text);
    let lines = split_bounds(&cs, '\n');
    let ghost ls = split(cs@, '\n');
    proof {
        lemma_split_len(cs@, '\n');
    }
    let (h0, h1) = lines[0];
    assert(cs@.subrange(h0 as int, h1 as int) == ls[0]);
    let (a, b) = line_bounds(&cs, h0, h1);
    let start: usize = if is_header(&cs, a, b) {
        1
    } else {
        0
    };
    let ghost rest = ls.subrange(start as int, ls.len() as int);
    assert(rest =~= if start == 1 {
        ls.drop_first()
    } else {
        ls
    });
    let mut v: Vec<Transaction> = Vec::new();
    assert(entries(v@) =~= Seq::<Entry>::empty());
    let mut k: usize = start;
    assert(ls.subrange(start as int, start as int) =~= Seq::<Seq<char>>::empty());
    assert(entries_from_text(text@) == entries_from_lines(rest));
    while k < lines.len()
        invariant
            start <= k <= lines@.len(),
            rest == ls.subrange(start as int, ls.len() as int),
            entries_from_text(text@) == entries_from_lines(rest),
            lines@.len() == ls.len(),
            ls == split(cs@, '\n'),
            forall|i: int| 0 <= i < lines@.len() ==> (#[trigger] lines@[i]).0 <= lines@[i].1 <= cs@.len(),
            forall|i: int|
                0 <= i < lines@.len() ==> #[trigger] cs@.subrange(lines@[i].0 as int, lines@[i].1 as int)
                    == ls[i],
            entries_from_lines(ls.subrange(start as int, k as int)) == Ok::<Seq<Entry>, LedgerError>(
                entries(v@),
            ),
        decreases lines@.len() - k,
    {
        let ghost pre = ls.subrange(start as int, k as int);
        let ghost next = ls.subrange(start as int, k + 1);
        assert(next.drop_last() =~= pre);
        assert(next.last() == ls[k as int]);
        let (p, q) = lines[k];
        assert(cs@.subrange(p as int, q as int) == ls[k as int]);
        let (a, b) = line_bounds(&cs, p, q);
        if a < b {
            match parse_record(&cs, a, b) {
                Ok(t) => {
                    let ghost old_v = v@;
                    v.push(t);
                    assert(entries(v@) =~= entries(old_v).push(t@));
                },
                Err(e) => {
                    proof {
                        assert(rest.subrange(0, k + 1 - start) =~= next);
                        lemma_lines_error_extends(rest, k + 1 - start);
                    }
                    return Err(e);
                },
            }
        } else {
            assert(cs@.subrange(a as int, b as int) =~= Seq::<char>::empty());
        }
        k += 1;
    }
    assert(ls.subrange(start as int, k as int) =~= rest);
    Ok(v)
}

/// A description typed by the user, trimmed, if a record can hold it.
pub open spec fn description_from_input(s: Seq<char>) -> Option<Seq<char>> {
    if is_plain_description(trim(s)) {
        Some(trim(s))
    } else {
        None
    }
}

/// Reads a typed description.
pub fn read_description(input: &String) -> (r: Option<String>)
    ensures
        r matches Some(d) ==> description_from_input(input@) == Some(d@),
        r is None ==> description_from_input(input@) is None,
{
    let cs = chars_of(input.as_str());
    let (a, b) = trim_bounds(&cs, 0, cs.len());
    assert(cs@.subrange(0, cs@.len() as int) =~= input@);
    let ghost t = cs@.subrange(a as int, b as int);
    assert(t == trim(input@));
    let mut i: usize = a;
    while i < b
        invariant
            a <= i <= b <= cs@.len(),
            t == cs@.subrange(a as int, b as int),
            t == trim(input@),
            forall|j: int| a <= j < i ==> cs@[j] != '\n',
        decreases b - i,
    {
        if cs[i] == '\n' {
            assert(t[(i - a) as int] == cs@[i as int]);
            assert(t.contains(cs@[i as int]));
            assert(t == trim(input@));
            assert(!is_plain_description(t));
            return None;
        }
        i += 1;
    }
    proof {
        lemma_trim_is_trimmed(cs@);
        assert(!t.contains('\n')) by {
            if t.contains('\n') {
                let j = choose|j: int| 0 <= j < t.len() && t[j] == '\n';
                assert(t[j] == cs@[a + j]);
            }
        }
    }
    Some(string_of(&cs, a, b))
}

/// The entry that the command line adds on `date`: the amount given is money spent, so it
/// is recorded negated.
pub fn add_date_entry(date: Date, amount: &str, description: &str, repeat: &Option<String>) -> (r:
    Result<Transaction, LedgerError>)
    requires
        date.wf(),
    ensures
        ({
            let tag = match repeat {
                Some(s) => s@,
                None => Seq::<char>::empty(),
            };
            match (amount_from_text(amount@), description_from_input(description@), repeat_from_text(tag)) {
                (Some(v), Some(d), Ok(rp)) => r matches Ok(t) && t@ == Entry {
                    date,
                    amount: (-v) as i64,
                    description: d,
                    repeat: rp,
                },
                _ => r == Err::<Transaction, LedgerError>(LedgerError::ParseFailure),
            }
        }),
        r matches Ok(t) ==> storable(t@),
{
    let v = match crate::amount::parse_amount(amount) {
        Ok(v) => v,
        Err(e) => return Err(e),
    };
    proof {
        lemma_amount_from_text_range(amount@);
    }
    let input = String::from_str(description);
    let d = match read_description(&input) {
        Some(d) => d,
        None => return Err(LedgerError::ParseFailure),
    };
    let rp = match repeat {
        Some(s) => get_repeat_from_str(s.as_str()),
        None => get_repeat_from_str(""),
    };
    proof {
        reveal_strlit("");
    }
    match rp {
        Ok(rp) => Ok(Transaction { date, amount: -v, description: d, repeat: rp }),
        Err(_) => Err(LedgerError::ParseFailure),
    }
}

} // verus!
