//! The ledger store: month keys and file locations, the month catalog, and what
//! loading, saving, adding and deleting do to a month's record file. Reading and
//! writing the files is left to the caller, who hands over their text.

use vstd::prelude::*;
use crate::amount::{amount_text, format_amount};
use crate::date::Date;
use crate::error::LedgerError;
use crate::record::{
    all_storable, entries, entries_from_text, file_text, lemma_entries_from_text_storable,
    lemma_file_round_trip, parse_file, render_file, storable, Entry, Transaction,
};
use crate::text::{four_digits, push_char, push_four_digits, push_str, push_two_digits, two_digits};

verus! {

broadcast use vstd::seq_lib::group_to_multiset_ensures;

/// Where an entry goes in a date-sorted sequence: after every entry of the same or an
/// earlier date.
pub open spec fn insert_pos(s: Seq<Entry>, e: Entry) -> int
    decreases s.len(),
{
    if s.len() == 0 {
        0
    } else if s.last().date.key() <= e.date.key() {
        s.len() as int
    } else {
        insert_pos(s.drop_last(), e)
    }
}

/// The entries of `s` sorted by date; entries of the same date keep their order.
pub open spec fn sort_by_date(s: Seq<Entry>) -> Seq<Entry>
    decreases s.len(),
{
    if s.len() == 0 {
        s
    } else {
        let t = sort_by_date(s.drop_last());
        t.insert(insert_pos(t, s.last()), s.last())
    }
}

pub open spec fn sorted_by_date(s: Seq<Entry>) -> bool {
    forall|i: int, j: int|
        0 <= i < j < s.len() ==> (#[trigger] s[i]).date.key() <= (#[trigger] s[j]).date.key()
}

/// Whether an entry is dated `k` (a date key).
pub open spec fn dated(k: int) -> spec_fn(Entry) -> bool {
    |e: Entry| e.date.key() == k
}

/// The entries of `s` dated `k` (a date key), in their order in `s`.
pub open spec fn on_day(s: Seq<Entry>, k: int) -> Seq<Entry> {
    s.filter(dated(k))
}

proof fn lemma_insert_pos(s: Seq<Entry>, e: Entry)
    requires
        sorted_by_date(s),
    ensures
        0 <= insert_pos(s, e) <= s.len(),
        forall|i: int| 0 <= i < insert_pos(s, e) ==> (#[trigger] s[i]).date.key() <= e.date.key(),
        forall|i: int| insert_pos(s, e) <= i < s.len() ==> (#[trigger] s[i]).date.key() > e.date.key(),
    decreases s.len(),
{
    if s.len() > 0 {
        let t = s.drop_last();
        if s.last().date.key() > e.date.key() {
            assert(sorted_by_date(t));
            lemma_insert_pos(t, e);
            assert forall|i: int| 0 <= i < insert_pos(s, e) implies (#[trigger] s[i]).date.key()
                <= e.date.key() by {
                assert(s[i] == t[i]);
            }
            assert forall|i: int| insert_pos(s, e) <= i < s.len() implies (#[trigger] s[i]).date.key()
                > e.date.key() by {
                if i < t.len() {
                    assert(s[i] == t[i]);
                }
            }
        } else {
            assert forall|i: int| 0 <= i < insert_pos(s, e) implies (#[trigger] s[i]).date.key()
                <= e.date.key() by {
                if i < s.len() - 1 {
                    assert(s[i].date.key() <= s[s.len() - 1].date.key());
                }
            }
        }
    }
}

/// Sorting by date gives a sorted permutation that keeps the order of entries of the same date.
pub proof fn lemma_sort_by_date(s: Seq<Entry>)
    ensures
        sorted_by_date(sort_by_date(s)),
        sort_by_date(s).to_multiset() == s.to_multiset(),
        sort_by_date(s).len() == s.len(),
        forall|k: int| #[trigger] on_day(sort_by_date(s), k) == on_day(s, k),
    decreases s.len(),
{
    if s.len() > 0 {
        let s0 = s.drop_last();
        let x = s.last();
        let t = sort_by_date(s0);
        lemma_sort_by_date(s0);
        lemma_insert_pos(t, x);
        let p = insert_pos(t, x);
        let r = t.insert(p, x);
        assert(r == sort_by_date(s));
        assert forall|i: int, j: int| 0 <= i < j < r.len() implies (#[trigger] r[i]).date.key()
            <= (#[trigger] r[j]).date.key() by {
            if j < p {
                assert(r[i] == t[i] && r[j] == t[j]);
            } else if j == p {
                assert(r[i] == t[i]);
            } else if i < p {
                assert(r[i] == t[i] && r[j] == t[j - 1]);
            } else if i == p {
                assert(r[j] == t[j - 1]);
            } else {
                assert(r[i] == t[i - 1] && r[j] == t[j - 1]);
            }
        }
        vstd::seq_lib::to_multiset_insert(t, p, x);
        assert(s0.push(x) =~= s);
        assert forall|k: int| #[trigger] on_day(r, k) == on_day(s, k) by {
            let f = dated(k);
            assert(on_day(t, k) == on_day(s0, k));
            let a = t.subrange(0, p);
            let b = t.subrange(p, t.len() as int);
            assert(t =~= a + b);
            assert(r =~= a.push(x) + b);
            Seq::filter_distributes_over_add(a, b, f);
            Seq::filter_distributes_over_add(a.push(x), b, f);
            a.lemma_filter_push(x, f);
            s0.lemma_filter_push(x, f);
            if x.date.key() == k {
                assert(b.filter(f) =~= Seq::<Entry>::empty()) by {
                    b.lemma_filter_len(f);
                    if b.filter(f).len() > 0 {
                        b.lemma_filter_pred(f, 0);
                        assert(b.filter(f).contains(b.filter(f)[0]));
                        b.lemma_filter_contains_rev(f, b.filter(f)[0]);
                        let j = choose|j: int| 0 <= j < b.len() && b[j] == b.filter(f)[0];
                        assert(b[j] == t[p + j]);
                    }
                }
                assert(on_day(r, k) =~= a.filter(f).push(x));
                assert(on_day(t, k) =~= a.filter(f));
                assert(on_day(s, k) == on_day(s0, k).push(x));
            } else {
                assert(on_day(r, k) =~= a.filter(f) + b.filter(f));
                assert(on_day(s, k) == on_day(s0, k));
            }
        }
    }
}

/// Sorting a sequence that is already sorted by date leaves it as it is.
pub proof fn lemma_sorted_is_fixed(s: Seq<Entry>)
    requires
        sorted_by_date(s),
    ensures
        sort_by_date(s) == s,
    decreases s.len(),
{
    if s.len() > 0 {
        let s0 = s.drop_last();
        assert(sorted_by_date(s0));
        lemma_sorted_is_fixed(s0);
        if s0.len() > 0 {
            assert(s0.last().date.key() <= s.last().date.key()) by {
                assert(s0.last() == s[s.len() - 2]);
            }
        }
        assert(insert_pos(s0, s.last()) == s0.len());
        assert(s0.insert(s0.len() as int, s.last()) =~= s);
    }
}

/// Sorting keeps entries storable.
pub proof fn lemma_sort_storable(s: Seq<Entry>)
    requires
        all_storable(s),
    ensures
        all_storable(sort_by_date(s)),
{
    lemma_sort_by_date(s);
    let r = sort_by_date(s);
    assert forall|i: int| 0 <= i < r.len() implies storable(#[trigger] r[i]) by {
        assert(r.contains(r[i]));
        assert(r.to_multiset().count(r[i]) > 0);
        assert(s.contains(r[i]));
        let j = choose|j: int| 0 <= j < s.len() && s[j] == r[i];
    }
}

/// Sorts `v` by date, stably.
pub fn sort_transactions(v: &mut Vec<Transaction>)
    requires
        forall|i: int| 0 <= i < old(v)@.len() ==> (#[trigger] old(v)@[i]).date.wf(),
    ensures
        entries(final(v)@) == sort_by_date(entries(old(v)@)),
        forall|i: int| 0 <= i < final(v)@.len() ==> (#[trigger] final(v)@[i]).date.wf(),
{
    let mut r: Vec<Transaction> = Vec::new();
    let mut i: usize = 0;
    assert(entries(v@.subrange(0, 0)) =~= Seq::<Entry>::empty());
    assert(entries(r@) =~= Seq::<Entry>::empty());
    while i < v.len()
        invariant
            i <= v@.len(),
            v@ == old(v)@,
            forall|j: int| 0 <= j < v@.len() ==> (#[trigger] v@[j]).date.wf(),
            forall|j: int| 0 <= j < r@.len() ==> (#[trigger] r@[j]).date.wf(),
            entries(r@) == sort_by_date(entries(v@.subrange(0, i as int))),
        decreases v@.len() - i,
    {
        let ghost pre = entries(v@.subrange(0, i as int));
        let ghost next = entries(v@.subrange(0, i + 1));
        assert(next.drop_last() =~= pre);
        assert(next.last() == v@[i as int]@);
        let t = v[i].duplicate();
        let key = t.date.sort_key();
        let mut p: usize = r.len();
        proof {
            assert(entries(r@).subrange(0, p as int) =~= entries(r@));
        }
        while p > 0 && r[p - 1].date.sort_key() > key
            invariant
                p <= r@.len(),
                t.date.wf(),
                key == t.date.key(),
                forall|j: int| 0 <= j < r@.len() ==> (#[trigger] r@[j]).date.wf(),
                insert_pos(entries(r@), t@) == insert_pos(entries(r@).subrange(0, p as int), t@),
                p < r@.len() ==> r@[p as int].date.key() > key,
            decreases p,
        {
            let ghost sp = entries(r@).subrange(0, p as int);
            assert(sp.last() == r@[p - 1]@);
            assert(sp.drop_last() =~= entries(r@).subrange(0, p - 1));
            p -= 1;
        }
        proof {
            let sp = entries(r@).subrange(0, p as int);
            if p > 0 {
                assert(sp.last() == r@[p - 1]@);
            } else {
                assert(sp =~= Seq::<Entry>::empty());
            }
            assert(insert_pos(entries(r@), t@) == p);
        }
        let ghost old_r = r@;
        r.insert(p, t);
        assert(entries(r@) =~= entries(old_r).insert(p as int, v@[i as int]@));
        assert forall|j: int| 0 <= j < r@.len() implies (#[trigger] r@[j]).date.wf() by {
            if j < p {
                assert(r@[j] == old_r[j]);
            } else if j > p {
                assert(r@[j] == old_r[j - 1]);
            }
        }
        i += 1;
    }
    assert(v@.subrange(0, i as int) =~= v@);
    *v = r;
}

/// A month of a year: the key of one record file.
#[derive(Debug, Clone, Copy, PartialEq, Eq, Structural)]
pub struct MonthKey {
    pub year: u32,
    pub month: u32,
}

/// The month that a date falls in.
pub open spec fn month_of(d: Date) -> MonthKey {
    MonthKey { year: d.year, month: d.month }
}

/// The label `YYYY-MM` of a month.
pub open spec fn month_label(k: MonthKey) -> Seq<char> {
    four_digits(k.year as nat) + seq!['-'] + two_digits(k.month as nat)
}

/// The location of a month's record file under `root`: `root/YYYY/MM.csv`.
pub open spec fn month_path(root: Seq<char>, k: MonthKey) -> Seq<char> {
    root + seq!['/'] + four_digits(k.year as nat) + seq!['/'] + two_digits(k.month as nat)
        + seq!['.', 'c', 's', 'v']
}

impl MonthKey {
    pub open spec fn wf(self) -> bool {
        self.year <= 9999 && 1 <= self.month <= 12
    }

    /// The month that `d` falls in.
    pub fn of(d: Date) -> (r: MonthKey)
        ensures
            r == month_of(d),
    {
        MonthKey { year: d.year, month: d.month }
    }

    /// The label `YYYY-MM`.
    pub fn label(&self) -> (r: String)
        requires
            self.wf(),
        ensures
            r@ == month_label(*self),
    {
        let mut s = String::new();
        push_four_digits(&mut s, self.year);
        push_char(&mut s, '-');
        push_two_digits(&mut s, self.month);
        assert(s@ =~= month_label(*self));
        s
    }
}

/// The location of the record file of `month` in `year` under `root`.
pub fn get_filename_from_date(root: &str, year: u32, month: u32) -> (r: String)
    requires
        year <= 9999,
        1 <= month <= 12,
    ensures
        r@ == month_path(root@, MonthKey { year, month }),
{
    let mut s = String::new();
    push_str(&mut s, root);
    push_char(&mut s, '/');
    push_four_digits(&mut s, year);
    push_char(&mut s, '/');
    push_two_digits(&mut s, month);
    push_char(&mut s, '.');
    push_char(&mut s, 'c');
    push_char(&mut s, 's');
    push_char(&mut s, 'v');
    assert(s@ =~= month_path(root@, MonthKey { year, month }));
    s
}

/// The text of a record file, or nothing when the month has no file.
pub open spec fn text_of(contents: Option<String>) -> Option<Seq<char>> {
    match contents {
        Some(s) => Some(s@),
        None => None,
    }
}

/// What loading a month gives: no file means no transactions.
pub open spec fn loaded(contents: Option<Seq<char>>) -> Result<Seq<Entry>, LedgerError> {
    match contents {
        Some(s) => entries_from_text(s),
        None => Ok(Seq::empty()),
    }
}

/// The sum of the amounts of `es`, in hundredths.
pub open spec fn sum_amounts(es: Seq<Entry>) -> int
    decreases es.len(),
{
    if es.len() == 0 {
        0
    } else {
        sum_amounts(es.drop_last()) + es.last().amount
    }
}

/// Loads the transactions of a month from its record file, in file order.
pub fn get_transactions(contents: &Option<String>) -> (r: Result<Vec<Transaction>, LedgerError>)
    ensures
        r matches Ok(v) ==> loaded(text_of(*contents)) == Ok::<Seq<Entry>, LedgerError>(
            entries(v@),
        ) && all_storable(entries(v@)),
        r matches Err(e) ==> loaded(text_of(*contents)) == Err::<Seq<Entry>, LedgerError>(e),
{
    match contents {
        None => {
            let v: Vec<Transaction> = Vec::new();
            assert(entries(v@) =~= Seq::<Entry>::empty());
            Ok(v)
        },
        Some(s) => {
            proof {
                lemma_entries_from_text_storable(s@);
            }
            parse_file(s.as_str())
        },
    }
}

/// Loads the transactions of a month, sorted by date.
pub fn get_transactions_for_month(contents: &Option<String>) -> (r: Result<
    Vec<Transaction>,
    LedgerError,
>)
    ensures
        r matches Ok(v) ==> (loaded(text_of(*contents)) matches Ok(es) && entries(v@)
            == sort_by_date(es)) && all_storable(entries(v@)),
        r matches Err(e) ==> loaded(text_of(*contents)) == Err::<Seq<Entry>, LedgerError>(e),
{
    match get_transactions(contents) {
        Ok(v) => {
            let mut v = v;
            proof {
                lemma_dates_wf(entries(v@), v@);
                lemma_sort_storable(entries(v@));
            }
            sort_transactions(&mut v);
            Ok(v)
        },
        Err(e) => Err(e),
    }
}

proof fn lemma_dates_wf(es: Seq<Entry>, v: Seq<Transaction>)
    requires
        es == entries(v),
        all_storable(es),
    ensures
        forall|i: int| 0 <= i < v.len() ==> (#[trigger] v[i]).date.wf(),
{
    assert forall|i: int| 0 <= i < v.len() implies (#[trigger] v[i]).date.wf() by {
        assert(es[i] == v[i]@);
        assert(storable(es[i]));
    }
}

/// Sorts `transactions` by date and gives the text of the record file that holds them.
pub fn write_entries(transactions: &mut Vec<Transaction>) -> (r: String)
    requires
        all_storable(entries(old(transactions)@)),
    ensures
        entries(final(transactions)@) == sort_by_date(entries(old(transactions)@)),
        all_storable(entries(final(transactions)@)),
        r@ == file_text(entries(final(transactions)@)),
{
    proof {
        lemma_dates_wf(entries(transactions@), transactions@);
        lemma_sort_storable(entries(transactions@));
    }
    sort_transactions(transactions);
    render_file(transactions)
}

/// The record file of a month after adding `transaction` to it.
pub fn add_transaction(contents: &Option<String>, transaction: Transaction) -> (r: Result<
    String,
    LedgerError,
>)
    requires
        storable(transaction@),
    ensures
        r matches Ok(text) ==> (loaded(text_of(*contents)) matches Ok(es) && text@ == file_text(
            sort_by_date(es.push(transaction@)),
        )),
        r matches Err(e) ==> loaded(text_of(*contents)) == Err::<Seq<Entry>, LedgerError>(e),
{
    match get_transactions(contents) {
        Ok(v) => {
            let mut v = v;
            let ghost es = entries(v@);
            v.push(transaction);
            assert(entries(v@) =~= es.push(transaction@));
            Ok(write_entries(&mut v))
        },
        Err(e) => Err(e),
    }
}

/// The record file of a month after deleting the transaction at `index` of its
/// date-sorted list.
pub fn del_entry(contents: &Option<String>, index: usize) -> (r: Result<String, LedgerError>)
    ensures
        r matches Ok(text) ==> (loaded(text_of(*contents)) matches Ok(es) && index < es.len()
            && text@ == file_text(sort_by_date(sort_by_date(es).remove(index as int)))),
        r matches Err(e) ==> (loaded(text_of(*contents)) == Err::<Seq<Entry>, LedgerError>(e)) || (
        loaded(text_of(*contents)) matches Ok(es) && index >= es.len() && e
            == LedgerError::IndexOutOfRange),
{
    match get_transactions_for_month(contents) {
        Ok(v) => {
            let mut v = v;
            proof {
                lemma_sort_by_date(loaded(text_of(*contents))->Ok_0);
            }
            if index >= v.len() {
                return Err(LedgerError::IndexOutOfRange);
            }
            let ghost es = entries(v@);
            v.remove(index);
            assert(entries(v@) =~= es.remove(index as int));
            assert(all_storable(entries(v@))) by {
                assert forall|i: int| 0 <= i < entries(v@).len() implies storable(
                    #[trigger] entries(v@)[i],
                ) by {
                    if i < index {
                        assert(entries(v@)[i] == es[i]);
                    } else {
                        assert(entries(v@)[i] == es[i + 1]);
                    }
                }
            }
            Ok(write_entries(&mut v))
        },
        Err(e) => Err(e),
    }
}

/// The sum of the amounts of `transactions`, in hundredths.
pub fn get_sum_for_month(transactions: &Vec<Transaction>) -> (r: i128)
    requires
        all_storable(entries(transactions@)),
    ensures
        r == sum_amounts(entries(transactions@)),
{
    let mut acc: i128 = 0;
    let mut i: usize = 0;
    assert(entries(transactions@).subrange(0, 0) =~= Seq::<Entry>::empty());
    while i < transactions.len()
        invariant
            i <= transactions@.len(),
            all_storable(entries(transactions@)),
            acc == sum_amounts(entries(transactions@).subrange(0, i as int)),
            -(i as int) * 99_999_999_999_999_999 <= acc <= (i as int) * 99_999_999_999_999_999,
        decreases transactions@.len() - i,
    {
        let ghost es = entries(transactions@);
        assert(es.subrange(0, i + 1).drop_last() =~= es.subrange(0, i as int));
        assert(es[i as int] == transactions@[i as int]@);
        assert(storable(es[i as int]));
        acc = acc + transactions[i].amount as i128;
        i += 1;
    }
    assert(entries(transactions@).subrange(0, i as int) =~= entries(transactions@));
    acc
}

/// The sum of the amounts of a month, as text with two decimals.
pub fn get_formatted_sum_for_month(contents: &Option<String>) -> (r: Result<String, LedgerError>)
    ensures
        r matches Ok(text) ==> (loaded(text_of(*contents)) matches Ok(es) && text@ == amount_text(
            sum_amounts(es),
        )),
        r matches Err(e) ==> loaded(text_of(*contents)) == Err::<Seq<Entry>, LedgerError>(e),
{
    match get_transactions(contents) {
        Ok(v) => {
            let sum = get_sum_for_month(&v);
            Ok(format_amount(sum))
        },
        Err(e) => Err(e),
    }
}

/// Whatever sequence of transactions is saved, reloading the month gives them back
/// sorted by date, with entries of the same date in the order they were given.
pub proof fn lemma_save_then_load_is_sorted(es: Seq<Entry>)
    requires
        all_storable(es),
    ensures
        loaded(Some(file_text(sort_by_date(es)))) == Ok::<Seq<Entry>, LedgerError>(
            sort_by_date(es),
        ),
        sorted_by_date(sort_by_date(es)),
        sort_by_date(es).to_multiset() == es.to_multiset(),
        forall|k: int| #[trigger] on_day(sort_by_date(es), k) == on_day(es, k),
{
    lemma_sort_by_date(es);
    lemma_sort_storable(es);
    lemma_file_round_trip(sort_by_date(es));
}

/// A month without a record file holds no transactions, and they sum to zero.
pub proof fn lemma_missing_file_is_empty()
    ensures
        loaded(None) == Ok::<Seq<Entry>, LedgerError>(Seq::empty()),
        sum_amounts(Seq::empty()) == 0,
{
}

} // verus!
