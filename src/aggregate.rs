//! Totals per category and sub-category, month by month.
use vstd::prelude::*;

use itertools::Itertools;

use crate::calendar::Date;
use crate::line::{value_of, Entry, Line};
use crate::recurring::entries;
use crate::text::MAX_CENTS;

verus! {

/// The category of transfers between the owner's own accounts, left out of
/// the monthly sums.
pub const EXCLUDED_CATEGORY: &'static str = "Transaction exclue";

/// Sum of the net amounts of the entries that `p` selects.
pub open spec fn sum_where(es: Seq<Entry>, p: spec_fn(Entry) -> bool) -> int
    decreases es.len(),
{
    if es.len() == 0 {
        0
    } else {
        sum_where(es.drop_last(), p) + if p(es.last()) {
            es.last().0.net()
        } else {
            0
        }
    }
}

/// The entries that `p` selects and that fall in month `m`.
pub open spec fn in_month(p: spec_fn(Entry) -> bool, m: int) -> spec_fn(Entry) -> bool {
    |e: Entry| p(e) && e.1 == m
}

/// For each of the `n` months from `lo` on, the sum of what `p` selects.
pub open spec fn month_series(es: Seq<Entry>, p: spec_fn(Entry) -> bool, lo: int, n: nat) -> Seq<int> {
    Seq::new(n, |k: int| sum_where(es, in_month(p, lo + k)))
}

pub open spec fn seq_sum(s: Seq<int>) -> int
    decreases s.len(),
{
    if s.len() == 0 {
        0
    } else {
        seq_sum(s.drop_last()) + s.last()
    }
}

/// Every amount of the transactions is within `MAX_CENTS`.
pub open spec fn amounts_bounded(lines: Seq<Line>) -> bool {
    forall|i: int|
        0 <= i < lines.len() ==> -MAX_CENTS <= value_of(#[trigger] lines[i].debit) <= MAX_CENTS
            && -MAX_CENTS <= value_of(lines[i].credit) <= MAX_CENTS
}

/// Every month of the entries lies among the `n` months from `lo` on.
pub open spec fn months_within(es: Seq<Entry>, lo: int, n: nat) -> bool {
    forall|i: int| 0 <= i < es.len() ==> lo <= #[trigger] es[i].1 < lo + n
}

/// Which transactions a total is taken over.
pub enum Selection {
    /// The transactions of one category.
    Category(String),
    /// The transactions of one sub-category within one category.
    SubCategory(String, String),
    /// All transactions but those of `EXCLUDED_CATEGORY`.
    Counted,
}

impl Selection {
    pub open spec fn pred(&self) -> spec_fn(Entry) -> bool {
        match self {
            Selection::Category(c) => in_category(c@),
            Selection::SubCategory(c, s) => in_sub_category(c@, s@),
            Selection::Counted => counted(),
        }
    }

    /// Whether this selection takes `l`.
    pub fn selects(&self, l: &Line, excluded: &String) -> (r: bool)
        requires
            excluded@ == EXCLUDED_CATEGORY@,
        ensures
            r == (self.pred())((*l, 0)),
    {
        match self {
            Selection::Category(c) => l.categorie == *c,
            Selection::SubCategory(c, s) => l.categorie == *c && l.sous_categorie == *s,
            Selection::Counted => !(l.categorie == *excluded),
        }
    }
}

pub open spec fn in_category(c: Seq<char>) -> spec_fn(Entry) -> bool {
    |e: Entry| e.0.categorie@ == c
}

pub open spec fn in_sub_category(c: Seq<char>, s: Seq<char>) -> spec_fn(Entry) -> bool {
    |e: Entry| e.0.categorie@ == c && e.0.sous_categorie@ == s
}

pub open spec fn counted() -> spec_fn(Entry) -> bool {
    |e: Entry| e.0.categorie@ != EXCLUDED_CATEGORY@
}

/// Which transactions a selection takes does not depend on their month.
proof fn lemma_pred_ignores_month(sel: &Selection, e: Entry)
    ensures
        (sel.pred())(e) == (sel.pred())((e.0, 0)),
{
}

/// Every amount of the entries is within `MAX_CENTS`.
pub open spec fn entries_bounded(es: Seq<Entry>) -> bool {
    forall|i: int|
        0 <= i < es.len() ==> -MAX_CENTS <= value_of(#[trigger] es[i].0.debit) <= MAX_CENTS
            && -MAX_CENTS <= value_of(es[i].0.credit) <= MAX_CENTS
}

proof fn lemma_sum_bound(es: Seq<Entry>, p: spec_fn(Entry) -> bool)
    requires
        entries_bounded(es),
    ensures
        -(es.len() * 2 * MAX_CENTS) <= sum_where(es, p) <= es.len() * 2 * MAX_CENTS,
    decreases es.len(),
{
    if es.len() > 0 {
        let p2 = es.drop_last();
        assert(entries_bounded(p2)) by {
            assert forall|i: int| 0 <= i < p2.len() implies -MAX_CENTS <= value_of(#[trigger] p2[i].0.debit) <= MAX_CENTS
                && -MAX_CENTS <= value_of(p2[i].0.credit) <= MAX_CENTS by {
                assert(p2[i] == es[i]);
            }
        }
        lemma_sum_bound(p2, p);
        assert(-MAX_CENTS <= value_of(es[es.len() - 1].0.debit) <= MAX_CENTS);
    }
}

/// The total over all transactions that `sel` takes.
pub fn total_of(lines: &[Line], months: &[i64], sel: &Selection) -> (r: i128)
    requires
        lines.len() == months.len(),
        amounts_bounded(lines@),
    ensures
        r == sum_where(entries(lines@, months@), sel.pred()),
{
    let ghost es = entries(lines@, months@);
    let excluded = EXCLUDED_CATEGORY.to_owned();
    let mut acc: i128 = 0;
    let mut i: usize = 0;
    while i < lines.len()
        invariant
            i <= lines.len(),
            lines.len() == months.len(),
            es == entries(lines@, months@),
            excluded@ == EXCLUDED_CATEGORY@,
            amounts_bounded(lines@),
            acc == sum_where(es.take(i as int), sel.pred()),
            -(i * 2 * MAX_CENTS) <= acc <= i * 2 * MAX_CENTS,
        decreases lines.len() - i,
    {
        assert(es.take(i as int + 1).drop_last() =~= es.take(i as int));
        assert(es.take(i as int + 1).last() == es[i as int]);
        proof {
            lemma_pred_ignores_month(sel, es[i as int]);
        }
        if sel.selects(&lines[i], &excluded) {
            let l = &lines[i];
            assert(-MAX_CENTS <= value_of(lines[i as int].debit) <= MAX_CENTS);
            let d: i64 = match l.debit {
                Some(v) => v,
                None => 0,
            };
            let c: i64 = match l.credit {
                Some(v) => v,
                None => 0,
            };
            acc = acc + c as i128 + d as i128;
        }
        i = i + 1;
    }
    assert(es.take(i as int) =~= es);
    acc
}

/// For each of the `n` months from `lo` on, the total over the transactions
/// of that month that `sel` takes.
pub fn month_totals(lines: &[Line], months: &[i64], lo: i64, n: usize, sel: &Selection) -> (r: Vec<i128>)
    requires
        0 <= lo,
        lines.len() == months.len(),
        amounts_bounded(lines@),
        forall|i: int| 0 <= i < months.len() ==> lo <= #[trigger] months[i] < lo + n,
    ensures
        r.len() == n,
        forall|k: int| 0 <= k < n ==> #[trigger] r[k] == month_series(entries(lines@, months@), sel.pred(), lo as int, n as nat)[k],
{
    let ghost es = entries(lines@, months@);
    let ghost p = sel.pred();
    let excluded = EXCLUDED_CATEGORY.to_owned();
    let mut v: Vec<i128> = Vec::new();
    let mut k: usize = 0;
    while k < n
        invariant
            k <= n,
            v.len() == k,
            forall|j: int| 0 <= j < k ==> v[j] == 0,
        decreases n - k,
    {
        v.push(0);
        k = k + 1;
    }
    let mut i: usize = 0;
    while i < lines.len()
        invariant
            i <= lines.len(),
            0 <= lo,
            lines.len() == months.len(),
            es == entries(lines@, months@),
            p == sel.pred(),
            excluded@ == EXCLUDED_CATEGORY@,
            amounts_bounded(lines@),
            forall|i: int| 0 <= i < months.len() ==> lo <= #[trigger] months[i] < lo + n,
            v.len() == n,
            forall|j: int| 0 <= j < n ==> #[trigger] v[j] == sum_where(es.take(i as int), in_month(p, lo + j)),
            forall|j: int| 0 <= j < n ==> -(i * 2 * MAX_CENTS) <= #[trigger] v[j] <= i * 2 * MAX_CENTS,
        decreases lines.len() - i,
    {
        let ghost prev = es.take(i as int);
        let ghost next = es.take(i as int + 1);
        assert(next.drop_last() =~= prev);
        assert(next.last() == es[i as int]);
        proof {
            lemma_pred_ignores_month(sel, es[i as int]);
        }
        assert(-MAX_CENTS <= value_of(lines[i as int].debit) <= MAX_CENTS);
        let ghost old_v = v@;
        if sel.selects(&lines[i], &excluded) {
            let l = &lines[i];
            let d: i64 = match l.debit {
                Some(v) => v,
                None => 0,
            };
            let c: i64 = match l.credit {
                Some(v) => v,
                None => 0,
            };
            let slot: usize = (months[i] - lo) as usize;
            let cur = v[slot];
            v.set(slot, cur + c as i128 + d as i128);
        }
        assert forall|j: int| 0 <= j < n implies #[trigger] v[j] == sum_where(next, in_month(p, lo + j)) by {
            assert(sum_where(next, in_month(p, lo + j)) == sum_where(prev, in_month(p, lo + j)) + if (in_month(p, lo + j))(next.last()) {
                next.last().0.net()
            } else {
                0
            });
        }
        i = i + 1;
    }
    assert(es.take(i as int) =~= es);
    v
}

/// Sum of the first `n` values of a month series, counted one month at a
/// time.
pub open spec fn series_sum(es: Seq<Entry>, p: spec_fn(Entry) -> bool, lo: int, n: nat) -> int
    decreases n,
{
    if n == 0 {
        0
    } else {
        series_sum(es, p, lo, (n - 1) as nat) + sum_where(es, in_month(p, lo + n - 1))
    }
}

proof fn lemma_series_sum_push(es: Seq<Entry>, x: Entry, p: spec_fn(Entry) -> bool, lo: int, n: nat)
    ensures
        series_sum(es.push(x), p, lo, n) == series_sum(es, p, lo, n) + if p(x) && lo <= x.1 < lo + n {
            x.0.net()
        } else {
            0
        },
    decreases n,
{
    if n > 0 {
        lemma_series_sum_push(es, x, p, lo, (n - 1) as nat);
        assert(es.push(x).drop_last() =~= es);
    }
}

proof fn lemma_series_sum_total(es: Seq<Entry>, p: spec_fn(Entry) -> bool, lo: int, n: nat)
    requires
        months_within(es, lo, n),
    ensures
        series_sum(es, p, lo, n) == sum_where(es, p),
    decreases es.len(),
{
    if es.len() == 0 {
        lemma_series_sum_empty(es, p, lo, n);
    } else {
        let q = es.drop_last();
        assert(months_within(q, lo, n)) by {
            assert forall|i: int| 0 <= i < q.len() implies lo <= #[trigger] q[i].1 < lo + n by {
                assert(q[i] == es[i]);
            }
        }
        lemma_series_sum_total(q, p, lo, n);
        assert(q.push(es.last()) =~= es);
        lemma_series_sum_push(q, es.last(), p, lo, n);
        assert(lo <= es[es.len() - 1].1 < lo + n);
    }
}

proof fn lemma_series_sum_empty(es: Seq<Entry>, p: spec_fn(Entry) -> bool, lo: int, n: nat)
    requires
        es.len() == 0,
    ensures
        series_sum(es, p, lo, n) == 0,
    decreases n,
{
    if n > 0 {
        lemma_series_sum_empty(es, p, lo, (n - 1) as nat);
    }
}

proof fn lemma_seq_sum_series(es: Seq<Entry>, p: spec_fn(Entry) -> bool, lo: int, n: nat)
    ensures
        seq_sum(month_series(es, p, lo, n)) == series_sum(es, p, lo, n),
    decreases n,
{
    if n > 0 {
        lemma_seq_sum_series(es, p, lo, (n - 1) as nat);
        assert(month_series(es, p, lo, n).drop_last() =~= month_series(es, p, lo, (n - 1) as nat));
    }
}

/// The months of a series add up to the overall total: when every
/// transaction falls in one of the `n` months from `lo` on, the per-month
/// totals of any selection sum to its total.
pub proof fn lemma_month_series_total(es: Seq<Entry>, p: spec_fn(Entry) -> bool, lo: int, n: nat)
    requires
        months_within(es, lo, n),
    ensures
        seq_sum(month_series(es, p, lo, n)) == sum_where(es, p),
{
    lemma_seq_sum_series(es, p, lo, n);
    lemma_series_sum_total(es, p, lo, n);
}

/// The distinct values of `s`, in the order of their first occurrence.
pub open spec fn first_occurrences(s: Seq<Seq<char>>) -> Seq<Seq<char>>
    decreases s.len(),
{
    if s.len() == 0 {
        Seq::empty()
    } else {
        let d = first_occurrences(s.drop_last());
        if d.contains(s.last()) {
            d
        } else {
            d.push(s.last())
        }
    }
}

pub open spec fn string_views(v: Seq<String>) -> Seq<Seq<char>> {
    v.map_values(|s: String| s@)
}

/// Relies on itertools' `Itertools::unique`: it yields each distinct value
/// once, at its first occurrence, in the order of the input (`String`'s
/// equality and hash go by its characters).
#[verifier::external_body]
fn unique_strings(v: Vec<String>) -> (r: Vec<String>)
    ensures
        string_views(r@) == first_occurrences(string_views(v@)),
{
    v.into_iter().unique().collect()
}

proof fn lemma_first_occurrences_distinct(s: Seq<Seq<char>>)
    ensures
        first_occurrences(s).no_duplicates(),
    decreases s.len(),
{
    if s.len() > 0 {
        lemma_first_occurrences_distinct(s.drop_last());
    }
}

/// The category names of the transactions, in order of first appearance.
pub open spec fn category_names(lines: Seq<Line>) -> Seq<Seq<char>> {
    first_occurrences(lines.map_values(|l: Line| l.categorie@))
}

/// The sub-category names used within category `c`, in order.
pub open spec fn sub_names_in(lines: Seq<Line>, c: Seq<char>) -> Seq<Seq<char>>
    decreases lines.len(),
{
    if lines.len() == 0 {
        Seq::empty()
    } else {
        let d = sub_names_in(lines.drop_last(), c);
        if lines.last().categorie@ == c {
            d.push(lines.last().sous_categorie@)
        } else {
            d
        }
    }
}

/// The (category, sub-category) pairs: for each category of `cats` in turn,
/// its distinct sub-categories in order of first appearance.
pub open spec fn sub_category_pairs(lines: Seq<Line>, cats: Seq<Seq<char>>) -> Seq<(Seq<char>, Seq<char>)>
    decreases cats.len(),
{
    if cats.len() == 0 {
        Seq::empty()
    } else {
        let c = cats.last();
        sub_category_pairs(lines, cats.drop_last()) + first_occurrences(sub_names_in(lines, c)).map_values(
            |s: Seq<char>| (c, s),
        )
    }
}

pub open spec fn pair_views(v: Seq<(String, String)>) -> Seq<(Seq<char>, Seq<char>)> {
    v.map_values(|p: (String, String)| (p.0@, p.1@))
}

/// The distinct categories of the transactions, in order of first
/// appearance.
pub fn categories_of(lines: &[Line]) -> (r: Vec<String>)
    ensures
        string_views(r@) == category_names(lines@),
        string_views(r@).no_duplicates(),
{
    let mut all: Vec<String> = Vec::new();
    let mut i: usize = 0;
    while i < lines.len()
        invariant
            i <= lines.len(),
            all.len() == i,
            forall|x: int| 0 <= x < i ==> #[trigger] all[x]@ == lines[x].categorie@,
        decreases lines.len() - i,
    {
        all.push(lines[i].categorie.clone());
        i = i + 1;
    }
    assert(string_views(all@) =~= lines@.map_values(|l: Line| l.categorie@));
    let r = unique_strings(all);
    proof {
        lemma_first_occurrences_distinct(lines@.map_values(|l: Line| l.categorie@));
    }
    r
}

/// The distinct sub-categories of category `c`, in order of first
/// appearance.
fn sub_names_of(lines: &[Line], c: &String) -> (r: Vec<String>)
    ensures
        string_views(r@) == first_occurrences(sub_names_in(lines@, c@)),
{
    let mut all: Vec<String> = Vec::new();
    let mut i: usize = 0;
    while i < lines.len()
        invariant
            i <= lines.len(),
            string_views(all@) =~= sub_names_in(lines@.take(i as int), c@),
        decreases lines.len() - i,
    {
        assert(lines@.take(i as int + 1).drop_last() =~= lines@.take(i as int));
        if lines[i].categorie == *c {
            all.push(lines[i].sous_categorie.clone());
        }
        i = i + 1;
    }
    assert(lines@.take(i as int) =~= lines@);
    unique_strings(all)
}

/// The (category, sub-category) pairs of the transactions: the categories
/// in the order given, each with its sub-categories in order of first
/// appearance.
pub fn sub_categories_of(lines: &[Line], cats: &Vec<String>) -> (r: Vec<(String, String)>)
    ensures
        pair_views(r@) == sub_category_pairs(lines@, string_views(cats@)),
{
    let mut r: Vec<(String, String)> = Vec::new();
    let mut k: usize = 0;
    while k < cats.len()
        invariant
            k <= cats.len(),
            pair_views(r@) =~= sub_category_pairs(lines@, string_views(cats@).take(k as int)),
        decreases cats.len() - k,
    {
        let ghost before = r@;
        assert(string_views(cats@).take(k as int + 1).drop_last() =~= string_views(cats@).take(k as int));
        assert(string_views(cats@).take(k as int + 1).last() == cats[k as int]@);
        let subs = sub_names_of(lines, &cats[k]);
        let mut j: usize = 0;
        while j < subs.len()
            invariant
                j <= subs.len(),
                k < cats.len(),
                r@.len() == before.len() + j,
                forall|x: int| 0 <= x < before.len() ==> r@[x] == before[x],
                forall|x: int| 0 <= x < j ==> (#[trigger] r@[before.len() + x]).0@ == cats[k as int]@
                    && r@[before.len() + x].1@ == subs[x]@,
            decreases subs.len() - j,
        {
            r.push((cats[k].clone(), subs[j].clone()));
            j = j + 1;
        }
        let ghost added = first_occurrences(sub_names_in(lines@, cats[k as int]@)).map_values(
            |s: Seq<char>| (cats[k as int]@, s),
        );
        assert(pair_views(r@) =~= pair_views(before) + added) by {
            assert forall|x: int| before.len() <= x < r@.len() implies #[trigger] pair_views(r@)[x] == added[x - before.len()] by {
                assert(string_views(subs@)[x - before.len()] == subs[x - before.len()]@);
                assert(r@[before.len() + (x - before.len())] == r@[x]);
            }
            assert forall|x: int| 0 <= x < before.len() implies #[trigger] pair_views(r@)[x] == pair_views(before)[x] by {}
        }
        k = k + 1;
    }
    assert(string_views(cats@).take(k as int) =~= string_views(cats@));
    r
}

/// Relies on itertools' `Itertools::sorted_by_key`, which sorts with std's
/// stable `slice::sort_by_key`: the result is a permutation of the input,
/// ascending by total, and items of equal total keep their order, here the
/// order of their indices.
#[verifier::external_body]
fn sort_by_total(v: Vec<(usize, i128)>) -> (r: Vec<(usize, i128)>)
    requires
        forall|i: int, j: int| 0 <= i < j < v.len() ==> v[i].0 < v[j].0,
    ensures
        r@.to_multiset() == v@.to_multiset(),
        forall|i: int, j: int|
            0 <= i < j < r.len() ==> r[i].1 < r[j].1 || (r[i].1 == r[j].1 && r[i].0 < r[j].0),
{
    v.into_iter().sorted_by_key(|p| p.1).collect()
}

/// Index `k` stands somewhere in `r`.
pub open spec fn lists(r: Seq<usize>, k: int) -> bool {
    exists|j: int| 0 <= j < r.len() && r[j] == k
}

/// The indices of `totals`, ascending by total, equal totals in the order
/// of their indices.
pub fn sorted_order(totals: &Vec<i128>) -> (r: Vec<usize>)
    ensures
        r.len() == totals.len(),
        forall|j: int| 0 <= j < r.len() ==> #[trigger] r[j] < totals.len(),
        forall|k: int| 0 <= k < totals.len() ==> #[trigger] lists(r@, k),
        forall|i: int, j: int|
            0 <= i < j < r.len() ==> totals[r[i] as int] < totals[r[j] as int] || (totals[r[i] as int]
                == totals[r[j] as int] && r[i] < r[j]),
{
    broadcast use vstd::seq_lib::group_to_multiset_ensures;

    let mut v: Vec<(usize, i128)> = Vec::new();
    let mut k: usize = 0;
    while k < totals.len()
        invariant
            k <= totals.len(),
            v.len() == k,
            forall|x: int| 0 <= x < k ==> #[trigger] v[x] == (x as usize, totals[x]),
        decreases totals.len() - k,
    {
        v.push((k, totals[k]));
        k = k + 1;
    }
    let sorted = sort_by_total(v);
    let ghost vs = v@;
    assert(sorted@.to_multiset().len() == vs.to_multiset().len());
    assert forall|j: int| 0 <= j < sorted.len() implies #[trigger] sorted[j].0 < totals.len() && sorted[j].1
        == totals[sorted[j].0 as int] by {
        assert(sorted@.contains(sorted[j]));
        assert(vs.to_multiset().count(sorted[j]) > 0);
        assert(vs.contains(sorted[j]));
    }
    let mut r: Vec<usize> = Vec::new();
    let mut j: usize = 0;
    while j < sorted.len()
        invariant
            j <= sorted.len(),
            r.len() == j,
            forall|x: int| 0 <= x < j ==> #[trigger] r[x] == sorted[x].0,
        decreases sorted.len() - j,
    {
        r.push(sorted[j].0);
        j = j + 1;
    }
    assert forall|k: int| 0 <= k < totals.len() implies #[trigger] lists(r@, k) by {
        assert(vs[k] == (k as usize, totals[k]));
        assert(vs.contains(vs[k]));
        assert(sorted@.to_multiset().count(vs[k]) > 0);
        assert(sorted@.contains(vs[k]));
        let j = choose|j: int| 0 <= j < sorted.len() && sorted@[j] == vs[k];
        assert(r[j] == k);
    }
    r
}

/// An average per month, rounded toward zero as integer division does.
pub open spec fn average(total: int, n: int) -> int {
    if total >= 0 {
        total / n
    } else {
        -((-total) / n)
    }
}

/// `series`, `total` and `avg` are the month-by-month totals, the total and
/// the monthly average of what `p` selects.
pub open spec fn totals_row(
    es: Seq<Entry>,
    p: spec_fn(Entry) -> bool,
    lo: int,
    n: nat,
    series: Seq<i128>,
    total: i128,
    avg: i128,
) -> bool {
    &&& series.len() == n
    &&& forall|m: int| 0 <= m < n ==> #[trigger] series[m] as int == month_series(es, p, lo, n)[m]
    &&& total == sum_where(es, p)
    &&& avg == average(total as int, n as int)
}

fn average_of(total: i128, n: usize) -> (r: i128)
    requires
        n >= 1,
        i128::MIN < total,
    ensures
        r == average(total as int, n as int),
{
    if total >= 0 {
        total / (n as i128)
    } else {
        -((-total) / (n as i128))
    }
}

proof fn lemma_index_of_distinct(s: Seq<Seq<char>>, k: int)
    requires
        s.no_duplicates(),
        0 <= k < s.len(),
    ensures
        s.index_of(s[k]) == k,
{
    assert(s.contains(s[k]));
}

proof fn lemma_entries_bounded(lines: Seq<Line>, months: Seq<i64>)
    requires
        lines.len() == months.len(),
        amounts_bounded(lines),
    ensures
        entries_bounded(entries(lines, months)),
{
    let es = entries(lines, months);
    assert forall|i: int| 0 <= i < es.len() implies -MAX_CENTS <= value_of(#[trigger] es[i].0.debit) <= MAX_CENTS
        && -MAX_CENTS <= value_of(es[i].0.credit) <= MAX_CENTS by {
        assert(es[i].0 == lines[i]);
    }
}

/// The total of each selection in turn.
fn totals_for(lines: &[Line], months: &[i64], sels: &Vec<Selection>) -> (r: Vec<i128>)
    requires
        lines.len() == months.len(),
        amounts_bounded(lines@),
    ensures
        r.len() == sels.len(),
        forall|k: int| 0 <= k < sels.len() ==> #[trigger] r[k] == sum_where(entries(lines@, months@), sels[k].pred()),
        forall|k: int| 0 <= k < sels.len() ==> i128::MIN < #[trigger] r[k],
{
    let ghost es = entries(lines@, months@);
    proof {
        lemma_entries_bounded(lines@, months@);
    }
    let mut r: Vec<i128> = Vec::new();
    let mut k: usize = 0;
    while k < sels.len()
        invariant
            k <= sels.len(),
            lines.len() == months.len(),
            amounts_bounded(lines@),
            es == entries(lines@, months@),
            entries_bounded(es),
            r.len() == k,
            forall|x: int| 0 <= x < k ==> #[trigger] r[x] == sum_where(es, sels[x].pred()),
            forall|x: int| 0 <= x < k ==> i128::MIN < #[trigger] r[x],
        decreases sels.len() - k,
    {
        let t = total_of(lines, months, &sels[k]);
        proof {
            lemma_sum_bound(es, sels[k as int].pred());
        }
        r.push(t);
        k = k + 1;
    }
    r
}

pub open spec fn category_row_names(r: Seq<(String, Vec<i128>, i128, i128)>) -> Seq<Seq<char>> {
    r.map_values(|row: (String, Vec<i128>, i128, i128)| row.0@)
}

/// `r` is the category table of `names`: one row per category with its
/// month-by-month totals over the `n` months from `lo` on, its total and its
/// monthly average, rows ascending by total, ties in the order of `names`.
pub open spec fn category_table(
    es: Seq<Entry>,
    names: Seq<Seq<char>>,
    lo: int,
    n: nat,
    r: Seq<(String, Vec<i128>, i128, i128)>,
) -> bool {
    &&& r.len() == names.len()
    &&& forall|j: int|
        0 <= j < r.len() ==> names.contains(#[trigger] r[j].0@) && totals_row(
            es,
            in_category(r[j].0@),
            lo,
            n,
            r[j].1@,
            r[j].2,
            r[j].3,
        )
    &&& forall|k: int| 0 <= k < names.len() ==> category_row_names(r).contains(#[trigger] names[k])
    &&& forall|i: int, j: int|
        0 <= i < j < r.len() ==> r[i].2 < r[j].2 || (r[i].2 == r[j].2 && names.index_of(r[i].0@)
            < names.index_of(r[j].0@))
}

/// The rows of the category table: for each category, its month-by-month
/// totals over the `n` months from `lo` on, its total and its monthly
/// average. Rows come in ascending order of total, categories of equal
/// total in the order of `cats`.
pub fn categories_totals_of(
    lines: &[Line],
    months: &[i64],
    cats: &Vec<String>,
    lo: i64,
    n: usize,
) -> (r: Vec<(String, Vec<i128>, i128, i128)>)
    requires
        0 <= lo,
        n >= 1,
        lines.len() == months.len(),
        amounts_bounded(lines@),
        forall|i: int| 0 <= i < months.len() ==> lo <= #[trigger] months[i] < lo + n,
        string_views(cats@).no_duplicates(),
    ensures
        category_table(entries(lines@, months@), string_views(cats@), lo as int, n as nat, r@),
{
    let ghost es = entries(lines@, months@);
    let ghost names = string_views(cats@);
    let mut sels: Vec<Selection> = Vec::new();
    let mut k: usize = 0;
    while k < cats.len()
        invariant
            k <= cats.len(),
            sels.len() == k,
            forall|x: int| 0 <= x < k ==> #[trigger] sels[x].pred() == in_category(cats[x]@),
        decreases cats.len() - k,
    {
        sels.push(Selection::Category(cats[k].clone()));
        k = k + 1;
    }
    let totals = totals_for(lines, months, &sels);
    let order = sorted_order(&totals);
    let mut r: Vec<(String, Vec<i128>, i128, i128)> = Vec::new();
    let mut j: usize = 0;
    while j < order.len()
        invariant
            j <= order.len(),
            order.len() == cats.len(),
            totals.len() == cats.len(),
            sels.len() == cats.len(),
            0 <= lo,
            n >= 1,
            lines.len() == months.len(),
            amounts_bounded(lines@),
            forall|i: int| 0 <= i < months.len() ==> lo <= #[trigger] months[i] < lo + n,
            es == entries(lines@, months@),
            names == string_views(cats@),
            forall|x: int| 0 <= x < order.len() ==> #[trigger] order[x] < cats.len(),
            forall|x: int| 0 <= x < cats.len() ==> #[trigger] sels[x].pred() == in_category(cats[x]@),
            forall|x: int| 0 <= x < cats.len() ==> #[trigger] totals[x] == sum_where(es, sels[x].pred()),
            forall|x: int| 0 <= x < cats.len() ==> i128::MIN < #[trigger] totals[x],
            r.len() == j,
            forall|x: int| 0 <= x < j ==> #[trigger] r[x].0@ == cats[order[x] as int]@ && r[x].2 == totals[order[x] as int]
                && totals_row(es, in_category(r[x].0@), lo as int, n as nat, r[x].1@, r[x].2, r[x].3),
        decreases order.len() - j,
    {
        let k = order[j];
        let series = month_totals(lines, months, lo, n, &sels[k]);
        let avg = average_of(totals[k], n);
        r.push((cats[k].clone(), series, totals[k], avg));
        j = j + 1;
    }
    assert forall|j: int| 0 <= j < r.len() implies string_views(cats@).contains(#[trigger] r[j].0@) by {
        assert(names[order[j] as int] == r[j].0@);
    }
    assert forall|k: int| 0 <= k < names.len() implies category_row_names(r@).contains(#[trigger] names[k]) by {
        assert(lists(order@, k));
        let j = choose|j: int| 0 <= j < order.len() && order[j] == k;
        assert(category_row_names(r@)[j] == cats[k]@);
    }
    assert forall|i: int, j: int| 0 <= i < j < r.len() implies r[i].2 < r[j].2 || (r[i].2 == r[j].2
        && names.index_of(r[i].0@) < names.index_of(r[j].0@)) by {
        lemma_index_of_distinct(names, order[i] as int);
        lemma_index_of_distinct(names, order[j] as int);
        assert(names[order[i] as int] == r[i].0@);
        assert(names[order[j] as int] == r[j].0@);
        assert(totals[order[i] as int] < totals[order[j] as int] || (totals[order[i] as int]
            == totals[order[j] as int] && order[i] < order[j]));
    }
    r
}

pub proof fn lemma_pairs_distinct(lines: Seq<Line>, cats: Seq<Seq<char>>)
    requires
        cats.no_duplicates(),
    ensures
        sub_category_pairs(lines, cats).no_duplicates(),
        forall|x: int| 0 <= x < sub_category_pairs(lines, cats).len() ==> cats.contains(
            #[trigger] sub_category_pairs(lines, cats)[x].0,
        ),
    decreases cats.len(),
{
    if cats.len() > 0 {
        let q = cats.drop_last();
        let c = cats.last();
        assert(q.no_duplicates());
        lemma_pairs_distinct(lines, q);
        let p = sub_category_pairs(lines, q);
        let f = first_occurrences(sub_names_in(lines, c));
        lemma_first_occurrences_distinct(sub_names_in(lines, c));
        let a = f.map_values(|s: Seq<char>| (c, s));
        let all = p + a;
        assert(all == sub_category_pairs(lines, cats));
        assert forall|x: int| 0 <= x < p.len() implies #[trigger] p[x].0 != c by {
            let k = choose|k: int| 0 <= k < q.len() && q[k] == p[x].0;
            assert(cats[k] == q[k]);
        }
        assert forall|x: int, y: int| 0 <= x < all.len() && 0 <= y < all.len() && x != y implies all[x]
            != all[y] by {
            if x < p.len() && y >= p.len() {
                assert(all[y].0 == c);
                assert(all[x] == p[x]);
            } else if y < p.len() && x >= p.len() {
                assert(all[x].0 == c);
                assert(all[y] == p[y]);
            } else if x >= p.len() && y >= p.len() {
                assert(all[x].1 == f[x - p.len()]);
                assert(all[y].1 == f[y - p.len()]);
            }
        }
        assert forall|x: int| 0 <= x < all.len() implies cats.contains(#[trigger] all[x].0) by {
            if x < p.len() {
                let k = choose|k: int| 0 <= k < q.len() && q[k] == p[x].0;
                assert(cats[k] == q[k]);
            } else {
                assert(cats[cats.len() - 1] == c);
            }
        }
    }
}

pub open spec fn sub_row_names(r: Seq<(String, String, Vec<i128>, i128, i128)>) -> Seq<(Seq<char>, Seq<char>)> {
    r.map_values(|row: (String, String, Vec<i128>, i128, i128)| (row.0@, row.1@))
}

/// `r` is the sub-category table of `names`: one row per (category,
/// sub-category) pair with its month-by-month totals over the `n` months
/// from `lo` on, its total and its monthly average, rows ascending by total,
/// ties in the order of `names`.
pub open spec fn sub_category_table(
    es: Seq<Entry>,
    names: Seq<(Seq<char>, Seq<char>)>,
    lo: int,
    n: nat,
    r: Seq<(String, String, Vec<i128>, i128, i128)>,
) -> bool {
    &&& r.len() == names.len()
    &&& forall|j: int|
        0 <= j < r.len() ==> names.contains(#[trigger] sub_row_names(r)[j]) && totals_row(
            es,
            in_sub_category(r[j].0@, r[j].1@),
            lo,
            n,
            r[j].2@,
            r[j].3,
            r[j].4,
        )
    &&& forall|k: int| 0 <= k < names.len() ==> sub_row_names(r).contains(#[trigger] names[k])
    &&& forall|i: int, j: int|
        0 <= i < j < r.len() ==> r[i].3 < r[j].3 || (r[i].3 == r[j].3 && names.index_of(sub_row_names(r)[i])
            < names.index_of(sub_row_names(r)[j]))
}

/// The rows of the sub-category table: for each (category, sub-category)
/// pair, its month-by-month totals over the `n` months from `lo` on, its
/// total and its monthly average. Rows come in ascending order of total,
/// pairs of equal total in the order of `subs`.
pub fn sub_categories_total_of(
    lines: &[Line],
    months: &[i64],
    subs: &Vec<(String, String)>,
    lo: i64,
    n: usize,
) -> (r: Vec<(String, String, Vec<i128>, i128, i128)>)
    requires
        0 <= lo,
        n >= 1,
        lines.len() == months.len(),
        amounts_bounded(lines@),
        forall|i: int| 0 <= i < months.len() ==> lo <= #[trigger] months[i] < lo + n,
        pair_views(subs@).no_duplicates(),
    ensures
        sub_category_table(entries(lines@, months@), pair_views(subs@), lo as int, n as nat, r@),
{
    let ghost es = entries(lines@, months@);
    let ghost names = pair_views(subs@);
    let mut sels: Vec<Selection> = Vec::new();
    let mut k: usize = 0;
    while k < subs.len()
        invariant
            k <= subs.len(),
            sels.len() == k,
            forall|x: int| 0 <= x < k ==> #[trigger] sels[x].pred() == in_sub_category(subs[x].0@, subs[x].1@),
        decreases subs.len() - k,
    {
        sels.push(Selection::SubCategory(subs[k].0.clone(), subs[k].1.clone()));
        k = k + 1;
    }
    let totals = totals_for(lines, months, &sels);
    let order = sorted_order(&totals);
    let mut r: Vec<(String, String, Vec<i128>, i128, i128)> = Vec::new();
    let mut j: usize = 0;
    while j < order.len()
        invariant
            j <= order.len(),
            order.len() == subs.len(),
            totals.len() == subs.len(),
            sels.len() == subs.len(),
            0 <= lo,
            n >= 1,
            lines.len() == months.len(),
            amounts_bounded(lines@),
            forall|i: int| 0 <= i < months.len() ==> lo <= #[trigger] months[i] < lo + n,
            es == entries(lines@, months@),
            names == pair_views(subs@),
            forall|x: int| 0 <= x < order.len() ==> #[trigger] order[x] < subs.len(),
            forall|x: int| 0 <= x < subs.len() ==> #[trigger] sels[x].pred() == in_sub_category(subs[x].0@, subs[x].1@),
            forall|x: int| 0 <= x < subs.len() ==> #[trigger] totals[x] == sum_where(es, sels[x].pred()),
            forall|x: int| 0 <= x < subs.len() ==> i128::MIN < #[trigger] totals[x],
            r.len() == j,
            forall|x: int| 0 <= x < j ==> (#[trigger] r[x]).0@ == names[order[x] as int].0 && r[x].1@ == names[order[x] as int].1 && r[x].3 == totals[order[x] as int]
                && totals_row(es, in_sub_category(r[x].0@, r[x].1@), lo as int, n as nat, r[x].2@, r[x].3, r[x].4),
        decreases order.len() - j,
    {
        let k = order[j];
        let series = month_totals(lines, months, lo, n, &sels[k]);
        let avg = average_of(totals[k], n);
        r.push((subs[k].0.clone(), subs[k].1.clone(), series, totals[k], avg));
        j = j + 1;
    }
    assert forall|j: int| 0 <= j < r.len() implies #[trigger] sub_row_names(r@)[j] == names[order[j] as int] by {}
    assert forall|j: int| 0 <= j < r.len() implies names.contains(#[trigger] sub_row_names(r@)[j]) by {
        assert(names[order[j] as int] == sub_row_names(r@)[j]);
    }
    assert forall|k: int| 0 <= k < names.len() implies sub_row_names(r@).contains(#[trigger] names[k]) by {
        assert(lists(order@, k));
        let j = choose|j: int| 0 <= j < order.len() && order[j] == k;
        assert(sub_row_names(r@)[j] == names[k]);
    }
    assert forall|i: int, j: int| 0 <= i < j < r.len() implies r[i].3 < r[j].3 || (r[i].3 == r[j].3
        && names.index_of(sub_row_names(r@)[i]) < names.index_of(sub_row_names(r@)[j])) by {
        assert(names.contains(names[order[i] as int]));
        assert(names.contains(names[order[j] as int]));
        assert(totals[order[i] as int] < totals[order[j] as int] || (totals[order[i] as int]
            == totals[order[j] as int] && order[i] < order[j]));
    }
    r
}

/// `points` is the month series of what `p` selects, as (1-based month
/// number, total) pairs, and `positive` says whether it sums to zero or more.
pub open spec fn histogram_row(
    es: Seq<Entry>,
    p: spec_fn(Entry) -> bool,
    lo: int,
    n: nat,
    positive: bool,
    points: Seq<(usize, i128)>,
) -> bool {
    &&& points.len() == n
    &&& forall|k: int|
        0 <= k < n ==> (#[trigger] points[k]).0 == k + 1 && points[k].1 as int == month_series(es, p, lo, n)[k]
    &&& positive == (seq_sum(month_series(es, p, lo, n)) >= 0)
}

/// The month series of one selection with its sign.
fn histogram_of(lines: &[Line], months: &[i64], lo: i64, n: usize, sel: &Selection) -> (r: (bool, Vec<(usize, i128)>))
    requires
        0 <= lo,
        lines.len() == months.len(),
        amounts_bounded(lines@),
        forall|i: int| 0 <= i < months.len() ==> lo <= #[trigger] months[i] < lo + n,
    ensures
        histogram_row(entries(lines@, months@), sel.pred(), lo as int, n as nat, r.0, r.1@),
{
    let ghost es = entries(lines@, months@);
    let series = month_totals(lines, months, lo, n, sel);
    let total = total_of(lines, months, sel);
    proof {
        assert(months_within(es, lo as int, n as nat)) by {
            assert forall|i: int| 0 <= i < es.len() implies lo <= #[trigger] es[i].1 < lo + n by {
                assert(es[i].1 == months[i]);
            }
        }
        lemma_month_series_total(es, sel.pred(), lo as int, n as nat);
    }
    let mut points: Vec<(usize, i128)> = Vec::new();
    let mut k: usize = 0;
    while k < n
        invariant
            k <= n,
            series.len() == n,
            points.len() == k,
            forall|x: int| 0 <= x < k ==> (#[trigger] points[x]).0 == x + 1 && points[x].1 == series[x],
        decreases n - k,
    {
        points.push((k + 1, series[k]));
        k = k + 1;
    }
    (total >= 0, points)
}

/// `r` holds, for each name of `names` in turn, the name, the sign and the
/// points of its month series.
pub open spec fn category_histograms(
    es: Seq<Entry>,
    names: Seq<Seq<char>>,
    lo: int,
    n: nat,
    r: Seq<(String, bool, Vec<(usize, i128)>)>,
) -> bool {
    &&& r.len() == names.len()
    &&& forall|k: int|
        0 <= k < r.len() ==> (#[trigger] r[k]).0@ == names[k] && histogram_row(
            es,
            in_category(names[k]),
            lo,
            n,
            r[k].1,
            r[k].2@,
        )
}

/// `r` holds, for each pair of `names` in turn, the pair, the sign and the
/// points of its month series.
pub open spec fn sub_category_histograms(
    es: Seq<Entry>,
    names: Seq<(Seq<char>, Seq<char>)>,
    lo: int,
    n: nat,
    r: Seq<(String, String, bool, Vec<(usize, i128)>)>,
) -> bool {
    &&& r.len() == names.len()
    &&& forall|k: int|
        0 <= k < r.len() ==> (#[trigger] r[k]).0@ == names[k].0 && r[k].1@ == names[k].1 && histogram_row(
            es,
            in_sub_category(names[k].0, names[k].1),
            lo,
            n,
            r[k].2,
            r[k].3@,
        )
}

/// For each category in turn, whether its months sum to zero or more, and
/// its month series as (1-based month number, total) pairs.
pub fn categories_histogram_of(lines: &[Line], months: &[i64], cats: &Vec<String>, lo: i64, n: usize) -> (r: Vec<
    (String, bool, Vec<(usize, i128)>),
>)
    requires
        0 <= lo,
        lines.len() == months.len(),
        amounts_bounded(lines@),
        forall|i: int| 0 <= i < months.len() ==> lo <= #[trigger] months[i] < lo + n,
    ensures
        category_histograms(entries(lines@, months@), string_views(cats@), lo as int, n as nat, r@),
{
    let mut r: Vec<(String, bool, Vec<(usize, i128)>)> = Vec::new();
    let mut k: usize = 0;
    while k < cats.len()
        invariant
            k <= cats.len(),
            0 <= lo,
            lines.len() == months.len(),
            amounts_bounded(lines@),
            forall|i: int| 0 <= i < months.len() ==> lo <= #[trigger] months[i] < lo + n,
            r.len() == k,
            forall|x: int|
                0 <= x < k ==> (#[trigger] r[x]).0@ == cats[x]@ && histogram_row(
                    entries(lines@, months@),
                    in_category(cats[x]@),
                    lo as int,
                    n as nat,
                    r[x].1,
                    r[x].2@,
                ),
        decreases cats.len() - k,
    {
        let sel = Selection::Category(cats[k].clone());
        let (positive, points) = histogram_of(lines, months, lo, n, &sel);
        r.push((cats[k].clone(), positive, points));
        k = k + 1;
    }
    r
}

/// For each (category, sub-category) pair in turn, whether its months sum
/// to zero or more, and its month series as (1-based month number, total)
/// pairs.
pub fn sous_categories_histogram_of(
    lines: &[Line],
    months: &[i64],
    subs: &Vec<(String, String)>,
    lo: i64,
    n: usize,
) -> (r: Vec<(String, String, bool, Vec<(usize, i128)>)>)
    requires
        0 <= lo,
        lines.len() == months.len(),
        amounts_bounded(lines@),
        forall|i: int| 0 <= i < months.len() ==> lo <= #[trigger] months[i] < lo + n,
    ensures
        sub_category_histograms(entries(lines@, months@), pair_views(subs@), lo as int, n as nat, r@),
{
    let mut r: Vec<(String, String, bool, Vec<(usize, i128)>)> = Vec::new();
    let mut k: usize = 0;
    while k < subs.len()
        invariant
            k <= subs.len(),
            0 <= lo,
            lines.len() == months.len(),
            amounts_bounded(lines@),
            forall|i: int| 0 <= i < months.len() ==> lo <= #[trigger] months[i] < lo + n,
            r.len() == k,
            forall|x: int|
                0 <= x < k ==> (#[trigger] r[x]).0@ == subs[x].0@ && r[x].1@ == subs[x].1@ && histogram_row(
                    entries(lines@, months@),
                    in_sub_category(subs[x].0@, subs[x].1@),
                    lo as int,
                    n as nat,
                    r[x].2,
                    r[x].3@,
                ),
        decreases subs.len() - k,
    {
        let sel = Selection::SubCategory(subs[k].0.clone(), subs[k].1.clone());
        let (positive, points) = histogram_of(lines, months, lo, n, &sel);
        r.push((subs[k].0.clone(), subs[k].1.clone(), positive, points));
        k = k + 1;
    }
    r
}

/// The largest month number that a `Date` can have.
pub const LAST_MONTH: i64 = 262142 * 12 + 11;

/// `r` holds, for each of the `n` months from `lo` on, its first day and the
/// total of its transactions outside `EXCLUDED_CATEGORY`.
pub open spec fn month_sums_table(es: Seq<Entry>, lo: int, n: nat, r: Seq<(Date, i128)>) -> bool {
    &&& r.len() == n
    &&& forall|k: int|
        0 <= k < n ==> (#[trigger] r[k]).0.month_of() == lo + k && r[k].0.day == 1 && r[k].0.valid() && r[k].1 as int
            == month_series(es, counted(), lo, n)[k]
}

/// `r` is the first day of each of the `n` months from `lo` on.
pub open spec fn month_axis(lo: int, n: nat, r: Seq<Date>) -> bool {
    &&& r.len() == n
    &&& forall|k: int| 0 <= k < n ==> (#[trigger] r[k]).month_of() == lo + k && r[k].day == 1 && r[k].valid()
}

/// For each of the `n` months from `lo` on, its first day and the total of
/// its transactions, those of `EXCLUDED_CATEGORY` left out.
pub fn months_sums_of(lines: &[Line], months: &[i64], lo: i64, n: usize) -> (r: Vec<(Date, i128)>)
    requires
        0 <= lo,
        lo + n - 1 <= LAST_MONTH,
        lines.len() == months.len(),
        amounts_bounded(lines@),
        forall|i: int| 0 <= i < months.len() ==> lo <= #[trigger] months[i] < lo + n,
    ensures
        month_sums_table(entries(lines@, months@), lo as int, n as nat, r@),
{
    let series = month_totals(lines, months, lo, n, &Selection::Counted);
    let mut r: Vec<(Date, i128)> = Vec::new();
    let mut k: usize = 0;
    while k < n
        invariant
            k <= n,
            0 <= lo,
            lo + n - 1 <= LAST_MONTH,
            series.len() == n,
            r.len() == k,
            forall|x: int|
                0 <= x < k ==> (#[trigger] r[x]).0.month_of() == lo + x && r[x].0.day == 1 && r[x].0.valid() && r[x].1 == series[x],
        decreases n - k,
    {
        let d = Date::first_of_month(lo + k as i64);
        r.push((d, series[k]));
        k = k + 1;
    }
    r
}

/// The first day of each of the `n` months from `lo` on.
pub fn all_months_of(lo: i64, n: usize) -> (r: Vec<Date>)
    requires
        0 <= lo,
        lo + n - 1 <= LAST_MONTH,
    ensures
        month_axis(lo as int, n as nat, r@),
{
    let mut r: Vec<Date> = Vec::new();
    let mut k: usize = 0;
    while k < n
        invariant
            k <= n,
            0 <= lo,
            lo + n - 1 <= LAST_MONTH,
            r.len() == k,
            forall|x: int| 0 <= x < k ==> (#[trigger] r[x]).month_of() == lo + x && r[x].day == 1 && r[x].valid(),
        decreases n - k,
    {
        r.push(Date::first_of_month(lo + k as i64));
        k = k + 1;
    }
    r
}

/// Some transaction falls in month `m`, given the months of the
/// transactions.
pub open spec fn month_has_entry(months: Seq<i64>, m: int) -> bool {
    exists|i: int| 0 <= i < months.len() && #[trigger] months[i] == m
}

/// The months among the `n` from `lo` on that hold a transaction, in order.
pub open spec fn active_month_numbers(months: Seq<i64>, lo: int, n: nat) -> Seq<int>
    decreases n,
{
    if n == 0 {
        Seq::empty()
    } else {
        let a = active_month_numbers(months, lo, (n - 1) as nat);
        if month_has_entry(months, lo + n - 1) {
            a.push(lo + n - 1)
        } else {
            a
        }
    }
}

/// `r` is the first day of each month, among the `n` from `lo` on, in
/// which one of `months` falls.
pub open spec fn active_axis(months: Seq<i64>, lo: int, n: nat, r: Seq<Date>) -> bool {
    &&& r.len() == active_month_numbers(months, lo, n).len()
    &&& forall|k: int|
        0 <= k < r.len() ==> (#[trigger] r[k]).day == 1 && r[k].valid() && r[k].month_of() == active_month_numbers(
            months,
            lo,
            n,
        )[k]
}

/// The first day of each month, among the `n` from `lo` on, that holds a
/// transaction.
pub fn active_months_of(months: &[i64], lo: i64, n: usize) -> (r: Vec<Date>)
    requires
        0 <= lo,
        lo + n - 1 <= LAST_MONTH,
        forall|i: int| 0 <= i < months.len() ==> lo <= #[trigger] months[i] < lo + n,
    ensures
        active_axis(months@, lo as int, n as nat, r@),
{
    let mut marks: Vec<bool> = Vec::new();
    let mut k: usize = 0;
    while k < n
        invariant
            k <= n,
            marks.len() == k,
            forall|j: int| 0 <= j < k ==> !marks[j],
        decreases n - k,
    {
        marks.push(false);
        k = k + 1;
    }
    let mut i: usize = 0;
    while i < months.len()
        invariant
            i <= months.len(),
            0 <= lo,
            marks.len() == n,
            forall|i: int| 0 <= i < months.len() ==> lo <= #[trigger] months[i] < lo + n,
            forall|j: int| 0 <= j < n ==> (#[trigger] marks[j] <==> exists|x: int| 0 <= x < i && months[x] == lo + j),
        decreases months.len() - i,
    {
        let slot: usize = (months[i] - lo) as usize;
        marks.set(slot, true);
        i = i + 1;
    }
    let mut r: Vec<Date> = Vec::new();
    let mut k: usize = 0;
    while k < n
        invariant
            k <= n,
            0 <= lo,
            lo + n - 1 <= LAST_MONTH,
            marks.len() == n,
            forall|j: int| 0 <= j < n ==> (#[trigger] marks[j] <==> exists|x: int| 0 <= x < months.len() && months[x] == lo + j),
            r.len() == active_month_numbers(months@, lo as int, k as nat).len(),
            forall|x: int| 0 <= x < r.len() ==> (#[trigger] r[x]).day == 1 && r[x].valid() && r[x].month_of()
                == active_month_numbers(months@, lo as int, k as nat)[x],
        decreases n - k,
    {
        assert(marks[k as int] <==> month_has_entry(months@, lo + k));
        if marks[k] {
            r.push(Date::first_of_month(lo + k as i64));
        }
        k = k + 1;
    }
    r
}

} // verus!
