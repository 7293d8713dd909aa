//! The month catalog: the labels `YYYY-MM` of every month file found under the storage
//! root, in ascending order. Scanning the directories is left to the caller.

use vstd::prelude::*;
use crate::text::{chars_of, push_char, push_str};

verus! {

broadcast use vstd::seq_lib::group_to_multiset_ensures;

/// An entry of a year directory.
pub struct FileEntry {
    /// The file name without its extension.
    pub stem: String,
    pub is_dir: bool,
}

/// An entry of the storage root, with the entries inside it when it is a directory.
pub struct YearEntry {
    /// The directory name without its extension.
    pub stem: String,
    pub is_dir: bool,
    pub files: Vec<FileEntry>,
}

/// The labels `year-stem` of the files (not directories) among `fs`.
pub open spec fn labels_in(year: Seq<char>, fs: Seq<FileEntry>) -> Seq<Seq<char>>
    decreases fs.len(),
{
    if fs.len() == 0 {
        Seq::empty()
    } else {
        let rest = labels_in(year, fs.drop_last());
        if fs.last().is_dir {
            rest
        } else {
            rest.push(year + seq!['-'] + fs.last().stem@)
        }
    }
}

/// The labels of the month files inside the year directories among `ys`.
pub open spec fn discovered(ys: Seq<YearEntry>) -> Seq<Seq<char>>
    decreases ys.len(),
{
    if ys.len() == 0 {
        Seq::empty()
    } else {
        let rest = discovered(ys.drop_last());
        if ys.last().is_dir {
            rest + labels_in(ys.last().stem@, ys.last().files@)
        } else {
            rest
        }
    }
}

/// Lexicographic order on texts, by code point.
pub open spec fn lex_le(a: Seq<char>, b: Seq<char>) -> bool
    decreases a.len(),
{
    if a.len() == 0 {
        true
    } else if b.len() == 0 {
        false
    } else if a[0] != b[0] {
        a[0] < b[0]
    } else {
        lex_le(a.drop_first(), b.drop_first())
    }
}

pub open spec fn lex_sorted(s: Seq<Seq<char>>) -> bool {
    forall|i: int, j: int| 0 <= i < j < s.len() ==> lex_le(#[trigger] s[i], #[trigger] s[j])
}

/// The texts of a sequence of strings.
pub open spec fn texts(v: Seq<String>) -> Seq<Seq<char>> {
    v.map_values(|s: String| s@)
}

proof fn lemma_lex_total(a: Seq<char>, b: Seq<char>)
    ensures
        lex_le(a, b) || lex_le(b, a),
    decreases a.len(),
{
    if a.len() > 0 && b.len() > 0 && a[0] == b[0] {
        lemma_lex_total(a.drop_first(), b.drop_first());
    }
}

proof fn lemma_lex_trans(a: Seq<char>, b: Seq<char>, c: Seq<char>)
    requires
        lex_le(a, b),
        lex_le(b, c),
    ensures
        lex_le(a, c),
    decreases a.len(),
{
    if a.len() > 0 && b.len() > 0 && c.len() > 0 && a[0] == b[0] && b[0] == c[0] {
        lemma_lex_trans(a.drop_first(), b.drop_first(), c.drop_first());
    }
}

/// Whether `a` comes before `b` or equals it, lexicographically.
fn lex_le_exec(a: &Vec<char>, b: &Vec<char>) -> (r: bool)
    ensures
        r == lex_le(a@, b@),
{
    let mut i: usize = 0;
    assert(a@.subrange(0, a@.len() as int) =~= a@);
    assert(b@.subrange(0, b@.len() as int) =~= b@);
    while i < a.len() && i < b.len() && a[i] == b[i]
        invariant
            i <= a@.len(),
            i <= b@.len(),
            lex_le(a@, b@) == lex_le(
                a@.subrange(i as int, a@.len() as int),
                b@.subrange(i as int, b@.len() as int),
            ),
        decreases a@.len() - i,
    {
        let ghost sa = a@.subrange(i as int, a@.len() as int);
        let ghost sb = b@.subrange(i as int, b@.len() as int);
        assert(sa.drop_first() =~= a@.subrange(i + 1, a@.len() as int));
        assert(sb.drop_first() =~= b@.subrange(i + 1, b@.len() as int));
        assert(sa[0] == sb[0]);
        i += 1;
    }
    let ghost sa = a@.subrange(i as int, a@.len() as int);
    let ghost sb = b@.subrange(i as int, b@.len() as int);
    if i == a.len() {
        true
    } else if i == b.len() {
        false
    } else {
        assert(sa[0] == a@[i as int] && sb[0] == b@[i as int]);
        a[i] < b[i]
    }
}

/// The labels `YYYY-MM` of every month file under the storage root, ascending: the root's
/// entries that are directories are years, and their entries that are files are months.
pub fn get_months(years: &Vec<YearEntry>) -> (r: Vec<String>)
    ensures
        lex_sorted(texts(r@)),
        texts(r@).to_multiset() == discovered(years@).to_multiset(),
{
    let mut found: Vec<String> = Vec::new();
    let mut y: usize = 0;
    assert(texts(found@) =~= Seq::<Seq<char>>::empty());
    assert(years@.subrange(0, 0) =~= Seq::<YearEntry>::empty());
    while y < years.len()
        invariant
            y <= years@.len(),
            texts(found@) == discovered(years@.subrange(0, y as int)),
        decreases years@.len() - y,
    {
        let ghost ys = years@.subrange(0, y + 1);
        assert(ys.drop_last() =~= years@.subrange(0, y as int));
        assert(ys.last() == years@[y as int]);
        let entry = &years[y];
        if entry.is_dir {
            let ghost base = texts(found@);
            let mut f: usize = 0;
            assert(entry.files@.subrange(0, 0) =~= Seq::<FileEntry>::empty());
            assert(base + labels_in(entry.stem@, Seq::<FileEntry>::empty()) =~= base);
            while f < entry.files.len()
                invariant
                    f <= entry.files@.len(),
                    texts(found@) == base + labels_in(entry.stem@, entry.files@.subrange(0, f as int)),
                decreases entry.files@.len() - f,
            {
                let ghost fs = entry.files@.subrange(0, f + 1);
                assert(fs.drop_last() =~= entry.files@.subrange(0, f as int));
                assert(fs.last() == entry.files@[f as int]);
                let file = &entry.files[f];
                if !file.is_dir {
                    let mut label = String::new();
                    push_str(&mut label, entry.stem.as_str());
                    push_char(&mut label, '-');
                    push_str(&mut label, file.stem.as_str());
                    assert(label@ =~= entry.stem@ + seq!['-'] + file.stem@);
                    let ghost before = found@;
                    found.push(label);
                    assert(texts(found@) =~= texts(before).push(
                        entry.stem@ + seq!['-'] + file.stem@,
                    ));
                }
                f += 1;
            }
            assert(entry.files@.subrange(0, f as int) =~= entry.files@);
        }
        y += 1;
    }
    assert(years@.subrange(0, y as int) =~= years@);
    sort_labels(found)
}

/// Sorts labels lexicographically.
fn sort_labels(v: Vec<String>) -> (r: Vec<String>)
    ensures
        lex_sorted(texts(r@)),
        texts(r@).to_multiset() == texts(v@).to_multiset(),
{
    let mut r: Vec<String> = Vec::new();
    let mut i: usize = 0;
    assert(texts(r@) =~= Seq::<Seq<char>>::empty());
    assert(texts(v@).subrange(0, 0) =~= Seq::<Seq<char>>::empty());
    while i < v.len()
        invariant
            i <= v@.len(),
            lex_sorted(texts(r@)),
            texts(r@).to_multiset() == texts(v@).subrange(0, i as int).to_multiset(),
        decreases v@.len() - i,
    {
        let x = v[i].clone();
        let xc = chars_of(x.as_str());
        let mut p: usize = r.len();
        while p > 0 && !lex_le_exec(&chars_of(r[p - 1].as_str()), &xc)
            invariant
                p <= r@.len(),
                xc@ == x@,
                lex_sorted(texts(r@)),
                forall|j: int| p <= j < r@.len() ==> !lex_le(#[trigger] r@[j]@, x@),
            decreases p,
        {
            p -= 1;
        }
        let ghost t = texts(r@);
        proof {
            if p > 0 {
                assert(lex_le(t[p - 1], x@));
                assert forall|j: int| 0 <= j < p implies lex_le(#[trigger] t[j], x@) by {
                    if j < p - 1 {
                        lemma_lex_trans(t[j], t[p - 1], x@);
                    }
                }
            }
            assert forall|j: int| p <= j < t.len() implies lex_le(x@, #[trigger] t[j]) by {
                assert(t[j] == r@[j]@);
                lemma_lex_total(x@, t[j]);
            }
        }
        r.insert(p, x);
        let ghost nt = texts(r@);
        assert(nt =~= t.insert(p as int, v@[i as int]@));
        assert forall|a: int, b: int| 0 <= a < b < nt.len() implies lex_le(
            #[trigger] nt[a],
            #[trigger] nt[b],
        ) by {
            if b < p {
                assert(nt[a] == t[a] && nt[b] == t[b]);
            } else if b == p {
                assert(nt[a] == t[a]);
            } else if a < p {
                assert(nt[a] == t[a] && nt[b] == t[b - 1]);
                lemma_lex_trans(t[a], x@, t[b - 1]);
            } else if a == p {
                assert(nt[b] == t[b - 1]);
            } else {
                assert(nt[a] == t[a - 1] && nt[b] == t[b - 1]);
            }
        }
        proof {
            vstd::seq_lib::to_multiset_insert(t, p as int, x@);
            assert(texts(v@).subrange(0, i + 1) =~= texts(v@).subrange(0, i as int).push(
                v@[i as int]@,
            ));
        }
        i += 1;
    }
    assert(texts(v@).subrange(0, i as int) =~= texts(v@));
    r
}

} // verus!
