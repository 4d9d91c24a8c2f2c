//! Detection of transactions that come back every month.
use vstd::prelude::*;

use crate::line::{value_of, Entry, Line, Lines};

verus! {

/// Absolute value of an integer.
pub open spec fn abs(x: int) -> int {
    if x < 0 {
        -x
    } else {
        x
    }
}

/// `actual` lies within the tolerance band around `reference`.
///
/// Amounts are integer cents and `pct` is the tolerance factor in
/// hundredths (`pct == 100` allows a deviation as large as the reference
/// itself). A zero reference only matches a zero amount, whatever the
/// tolerance: the comparison is not symmetric in its two amounts.
pub open spec fn approx_eq(reference: int, actual: int, pct: int) -> bool {
    if reference == 0 {
        actual == 0
    } else {
        abs(reference - actual) * 100 <= abs(reference) * pct
    }
}

/// Whether `actual` lies within `pct` hundredths of `reference`, relative to
/// `reference`.
pub fn approx_eq_pct_ref(reference: i64, actual: i64, pct: u32) -> (r: bool)
    ensures
        r == approx_eq(reference as int, actual as int, pct as int),
{
    if reference == 0 {
        return actual == 0;
    }
    let diff: i128 = reference as i128 - actual as i128;
    let diff_abs: i128 = if diff < 0 { -diff } else { diff };
    let ref_abs: i128 = if reference < 0 { -(reference as i128) } else { reference as i128 };
    assert(0 <= ref_abs * (pct as i128) <= 0x8000_0000_0000_0000 * 0xffff_ffff) by (nonlinear_arith)
        requires 0 <= ref_abs <= 0x8000_0000_0000_0000, 0 <= pct <= 0xffff_ffff;
    diff_abs * 100 <= ref_abs * (pct as i128)
}

/// `b` is taken for another occurrence of `a`: same short label, and debit
/// and credit each within the tolerance band around those of `a`.
pub open spec fn equivalent(a: Line, b: Line, pct: int) -> bool {
    &&& a.libelle_simplifie@ == b.libelle_simplifie@
    &&& approx_eq(value_of(a.debit), value_of(b.debit), pct)
    &&& approx_eq(value_of(a.credit), value_of(b.credit), pct)
}

/// Transactions paired with their months.
pub open spec fn entries(lines: Seq<Line>, months: Seq<i64>) -> Seq<Entry> {
    Seq::new(lines.len(), |i: int| (lines[i], months[i] as int))
}

/// Some transaction of month `m` is one that `r` is equivalent to.
pub open spec fn matched_in_month(es: Seq<Entry>, r: Line, m: int, pct: int) -> bool {
    exists|i: int| 0 <= i < es.len() && es[i].1 == m && #[trigger] equivalent(es[i].0, r, pct)
}

/// How many of the `n` months from `lo` on hold a match for `r`.
pub open spec fn months_matched(es: Seq<Entry>, r: Line, lo: int, n: nat, pct: int) -> nat
    decreases n,
{
    if n == 0 {
        0
    } else {
        months_matched(es, r, lo, (n - 1) as nat, pct) + if matched_in_month(
            es,
            r,
            lo + n - 1,
            pct,
        ) {
            1nat
        } else {
            0nat
        }
    }
}

/// The transactions of `es`, in order, that have a match in at least
/// `window` of the `n` months from `lo` on, matches being sought in `all`.
pub open spec fn candidates(
    es: Seq<Entry>,
    all: Seq<Entry>,
    lo: int,
    n: nat,
    window: int,
    pct: int,
) -> Seq<Line>
    decreases es.len(),
{
    if es.len() == 0 {
        Seq::empty()
    } else {
        let c = candidates(es.drop_last(), all, lo, n, window, pct);
        if months_matched(all, es.last().0, lo, n, pct) >= window {
            c.push(es.last().0)
        } else {
            c
        }
    }
}

/// Some element of `d` is one that `x` is equivalent to.
pub open spec fn covered(d: Seq<Line>, x: Line, pct: int) -> bool {
    exists|k: int| 0 <= k < d.len() && #[trigger] equivalent(d[k], x, pct)
}

/// `s` in order, without each element that is equivalent to one kept
/// before it.
pub open spec fn dedup(s: Seq<Line>, pct: int) -> Seq<Line>
    decreases s.len(),
{
    if s.len() == 0 {
        Seq::empty()
    } else {
        let d = dedup(s.drop_last(), pct);
        if covered(d, s.last(), pct) {
            d
        } else {
            d.push(s.last())
        }
    }
}

/// The recurring transactions of a statement whose months run over `n`
/// months from `lo`, first occurrences only.
pub open spec fn recurring_set(es: Seq<Entry>, lo: int, n: nat, window: int, pct: int) -> Seq<
    Line,
> {
    dedup(candidates(es, es, lo, n, window, pct), pct)
}

/// Whether `b` counts as another occurrence of `a`.
pub fn equivalent_lines(a: &Line, b: &Line, pct: u32) -> (r: bool)
    ensures
        r == equivalent(*a, *b, pct as int),
{
    let da: i64 = match a.debit {
        Some(v) => v,
        None => 0,
    };
    let db: i64 = match b.debit {
        Some(v) => v,
        None => 0,
    };
    let ca: i64 = match a.credit {
        Some(v) => v,
        None => 0,
    };
    let cb: i64 = match b.credit {
        Some(v) => v,
        None => 0,
    };
    a.libelle_simplifie == b.libelle_simplifie && approx_eq_pct_ref(da, db, pct)
        && approx_eq_pct_ref(ca, cb, pct)
}

/// The number of the `n` months from `lo` on in which some transaction is
/// one that `r` is equivalent to.
pub fn count_matching_months(lines: &[Line], months: &[i64], r: &Line, lo: i64, n: usize, pct: u32) -> (c: usize)
    requires
        0 <= lo,
        lines.len() == months.len(),
        forall|i: int| 0 <= i < months.len() ==> lo <= #[trigger] months[i] < lo + n,
    ensures
        c == months_matched(entries(lines@, months@), *r, lo as int, n as nat, pct as int),
{
    let ghost es = entries(lines@, months@);
    let mut marks: Vec<bool> = Vec::new();
    let mut k: usize = 0;
    while k < n
        invariant
            k <= n,
            marks.len() == k,
            forall|j: int| 0 <= j < k ==> !marks[j],
        decreases n - k,
    {
        marks.push(false);
        k = k + 1;
    }
    let mut i: usize = 0;
    while i < lines.len()
        invariant
            i <= lines.len(),
            0 <= lo,
            lines.len() == months.len(),
            es == entries(lines@, months@),
            marks.len() == n,
            forall|i: int| 0 <= i < months.len() ==> lo <= #[trigger] months[i] < lo + n,
            forall|j: int|
                0 <= j < n ==> (#[trigger] marks[j] <==> exists|x: int|
                    0 <= x < i && months[x] == lo + j && #[trigger] equivalent(lines[x], *r, pct as int)),
        decreases lines.len() - i,
    {
        if equivalent_lines(&lines[i], r, pct) {
            let slot: usize = (months[i] - lo) as usize;
            marks.set(slot, true);
        }
        i = i + 1;
    }
    let mut c: usize = 0;
    let mut k: usize = 0;
    while k < n
        invariant
            k <= n,
            c <= k,
            marks.len() == n,
            es == entries(lines@, months@),
            lines.len() == months.len(),
            forall|j: int|
                0 <= j < n ==> (#[trigger] marks[j] <==> exists|x: int|
                    0 <= x < lines.len() && months[x] == lo + j && #[trigger] equivalent(lines[x], *r, pct as int)),
            c == months_matched(es, *r, lo as int, k as nat, pct as int),
        decreases n - k,
    {
        assert(marks[k as int] <==> matched_in_month(es, *r, lo + k, pct as int)) by {
            if marks[k as int] {
                let x = choose|x: int|
                    0 <= x < lines.len() && months[x] == lo + k && #[trigger] equivalent(lines[x], *r, pct as int);
                assert(es[x].1 == lo + k && equivalent(es[x].0, *r, pct as int));
            }
            if matched_in_month(es, *r, lo + k, pct as int) {
                let x = choose|x: int| 0 <= x < es.len() && es[x].1 == lo + k && #[trigger] equivalent(es[x].0, *r, pct as int);
                assert(months[x] == lo + k && equivalent(lines[x], *r, pct as int));
            }
        }
        if marks[k] {
            c = c + 1;
        }
        k = k + 1;
    }
    c
}

/// The transactions, in order, that have a match in at least `window` of
/// the `n` months from `lo` on.
fn select_candidates(
    lines: &[Line],
    months: &[i64],
    lo: i64,
    n: usize,
    window: usize,
    pct: u32,
) -> (r: Vec<Line>)
    requires
        0 <= lo,
        lines.len() == months.len(),
        forall|i: int| 0 <= i < months.len() ==> lo <= #[trigger] months[i] < lo + n,
    ensures
        r@ == candidates(
            entries(lines@, months@),
            entries(lines@, months@),
            lo as int,
            n as nat,
            window as int,
            pct as int,
        ),
{
    let ghost es = entries(lines@, months@);
    let mut r: Vec<Line> = Vec::new();
    let mut i: usize = 0;
    while i < lines.len()
        invariant
            i <= lines.len(),
            0 <= lo,
            lines.len() == months.len(),
            es == entries(lines@, months@),
            forall|i: int| 0 <= i < months.len() ==> lo <= #[trigger] months[i] < lo + n,
            r@ == candidates(es.take(i as int), es, lo as int, n as nat, window as int, pct as int),
        decreases lines.len() - i,
    {
        assert(es.take(i as int + 1).drop_last() =~= es.take(i as int));
        assert(es.take(i as int + 1).last() == (lines[i as int], months[i as int] as int));
        let c = count_matching_months(lines, months, &lines[i], lo, n, pct);
        if c >= window {
            r.push(lines[i].duplicate());
        }
        i = i + 1;
    }
    assert(es.take(i as int) =~= es);
    r
}

/// `s` in order, without each transaction that is equivalent to one kept
/// before it.
pub fn dedup_lines(s: &[Line], pct: u32) -> (r: Vec<Line>)
    ensures
        r@ == dedup(s@, pct as int),
{
    let mut kept: Vec<Line> = Vec::new();
    let mut i: usize = 0;
    while i < s.len()
        invariant
            i <= s.len(),
            kept@ == dedup(s@.take(i as int), pct as int),
        decreases s.len() - i,
    {
        assert(s@.take(i as int + 1).drop_last() =~= s@.take(i as int));
        assert(s@.take(i as int + 1).last() == s[i as int]);
        let mut found = false;
        let mut j: usize = 0;
        while j < kept.len()
            invariant
                j <= kept.len(),
                i < s.len(),
                found <==> exists|k: int| 0 <= k < j && #[trigger] equivalent(kept[k], s[i as int], pct as int),
            decreases kept.len() - j,
        {
            if equivalent_lines(&kept[j], &s[i], pct) {
                found = true;
            }
            j = j + 1;
        }
        if !found {
            kept.push(s[i].duplicate());
        }
        i = i + 1;
    }
    assert(s@.take(i as int) =~= s@);
    kept
}

/// The recurring transactions: those with a match in at least `window` of
/// the `n` months from `lo` on, first occurrences only.
pub fn recurring_lines(
    lines: &[Line],
    months: &[i64],
    lo: i64,
    n: usize,
    window: usize,
    pct: u32,
) -> (r: Vec<Line>)
    requires
        0 <= lo,
        lines.len() == months.len(),
        forall|i: int| 0 <= i < months.len() ==> lo <= #[trigger] months[i] < lo + n,
    ensures
        r@ == recurring_set(entries(lines@, months@), lo as int, n as nat, window as int, pct as int),
{
    let c = select_candidates(lines, months, lo, n, window, pct);
    dedup_lines(c.as_slice(), pct)
}

proof fn lemma_approx_monotone(r: int, a: int, t1: int, t2: int)
    requires
        t1 <= t2,
        approx_eq(r, a, t1),
    ensures
        approx_eq(r, a, t2),
{
    if r != 0 {
        assert(abs(r) * t1 <= abs(r) * t2) by (nonlinear_arith)
            requires
                t1 <= t2,
                abs(r) >= 0,
        ;
    }
}

proof fn lemma_equivalent_monotone(a: Line, b: Line, t1: int, t2: int)
    requires
        t1 <= t2,
        equivalent(a, b, t1),
    ensures
        equivalent(a, b, t2),
{
    lemma_approx_monotone(value_of(a.debit), value_of(b.debit), t1, t2);
    lemma_approx_monotone(value_of(a.credit), value_of(b.credit), t1, t2);
}

/// Every transaction is equivalent to itself under a tolerance that is not
/// negative.
pub proof fn lemma_equivalent_reflexive(a: Line, pct: int)
    requires
        0 <= pct,
    ensures
        equivalent(a, a, pct),
{
    assert(0 <= abs(value_of(a.debit)) * pct) by (nonlinear_arith)
        requires
            0 <= pct,
            0 <= abs(value_of(a.debit)),
    ;
    assert(0 <= abs(value_of(a.credit)) * pct) by (nonlinear_arith)
        requires
            0 <= pct,
            0 <= abs(value_of(a.credit)),
    ;
}

proof fn lemma_months_matched_monotone(es: Seq<Entry>, r: Line, lo: int, n: nat, t1: int, t2: int)
    requires
        t1 <= t2,
    ensures
        months_matched(es, r, lo, n, t1) <= months_matched(es, r, lo, n, t2),
    decreases n,
{
    if n > 0 {
        lemma_months_matched_monotone(es, r, lo, (n - 1) as nat, t1, t2);
        if matched_in_month(es, r, lo + n - 1, t1) {
            let i = choose|i: int|
                0 <= i < es.len() && es[i].1 == lo + n - 1 && #[trigger] equivalent(es[i].0, r, t1);
            lemma_equivalent_monotone(es[i].0, r, t1, t2);
        }
    }
}

proof fn lemma_candidates_members(es: Seq<Entry>, all: Seq<Entry>, lo: int, n: nat, w: int, t: int, x: Line)
    ensures
        candidates(es, all, lo, n, w, t).contains(x) <==> exists|i: int|
            0 <= i < es.len() && es[i].0 == x && months_matched(all, #[trigger] es[i].0, lo, n, t) >= w,
    decreases es.len(),
{
    if es.len() > 0 {
        let p = es.drop_last();
        lemma_candidates_members(p, all, lo, n, w, t, x);
        let c = candidates(p, all, lo, n, w, t);
        if months_matched(all, es.last().0, lo, n, t) >= w {
            assert(c.push(es.last().0).contains(x) <==> (c.contains(x) || x == es.last().0)) by {
                if c.push(es.last().0).contains(x) {
                    let k = choose|k: int| 0 <= k < c.len() + 1 && c.push(es.last().0)[k] == x;
                    if k < c.len() {
                        assert(c[k] == x);
                    }
                }
                if c.contains(x) {
                    let k = choose|k: int| 0 <= k < c.len() && c[k] == x;
                    assert(c.push(es.last().0)[k] == x);
                }
                if x == es.last().0 {
                    assert(c.push(es.last().0)[c.len() as int] == x);
                }
            }
        }
        if exists|i: int| 0 <= i < es.len() && es[i].0 == x && months_matched(all, #[trigger] es[i].0, lo, n, t) >= w {
            let i = choose|i: int| 0 <= i < es.len() && es[i].0 == x && months_matched(all, #[trigger] es[i].0, lo, n, t) >= w;
            if i < es.len() - 1 {
                assert(p[i] == es[i]);
            }
        }
        if exists|i: int| 0 <= i < p.len() && p[i].0 == x && months_matched(all, #[trigger] p[i].0, lo, n, t) >= w {
            let i = choose|i: int| 0 <= i < p.len() && p[i].0 == x && months_matched(all, #[trigger] p[i].0, lo, n, t) >= w;
            assert(es[i] == p[i]);
        }
    }
}

proof fn lemma_dedup_members(s: Seq<Line>, t: int, y: Line)
    ensures
        dedup(s, t).contains(y) ==> s.contains(y),
    decreases s.len(),
{
    if s.len() > 0 {
        let p = s.drop_last();
        lemma_dedup_members(p, t, y);
        let d = dedup(p, t);
        if dedup(s, t).contains(y) {
            let k = choose|k: int| 0 <= k < dedup(s, t).len() && dedup(s, t)[k] == y;
            if k < d.len() {
                assert(d[k] == y);
                let j = choose|j: int| 0 <= j < p.len() && p[j] == y;
                assert(s[j] == y);
            } else {
                assert(s[s.len() - 1] == y);
            }
        }
    }
}

proof fn lemma_dedup_covers(s: Seq<Line>, t: int, x: Line)
    requires
        0 <= t,
        s.contains(x),
    ensures
        covered(dedup(s, t), x, t),
    decreases s.len(),
{
    let p = s.drop_last();
    let d = dedup(p, t);
    if p.contains(x) {
        lemma_dedup_covers(p, t, x);
        let k = choose|k: int| 0 <= k < d.len() && #[trigger] equivalent(d[k], x, t);
        assert(dedup(s, t)[k] == d[k]);
    } else {
        let j = choose|j: int| 0 <= j < s.len() && s[j] == x;
        if j < s.len() - 1 {
            assert(p[j] == x);
        }
        assert(x == s.last());
        if !covered(d, x, t) {
            lemma_equivalent_reflexive(x, t);
            assert(dedup(s, t)[d.len() as int] == x);
        }
    }
}

/// Raising the tolerance keeps every recurring transaction accounted for:
/// each one found with tolerance `t1` is equivalent, under `t2`, to one
/// found with the larger tolerance `t2`, the other parameters being equal.
pub proof fn lemma_recurring_monotone(es: Seq<Entry>, lo: int, n: nat, window: int, t1: int, t2: int, x: Line)
    requires
        0 <= t1 <= t2,
        recurring_set(es, lo, n, window, t1).contains(x),
    ensures
        covered(recurring_set(es, lo, n, window, t2), x, t2),
{
    let c1 = candidates(es, es, lo, n, window, t1);
    let c2 = candidates(es, es, lo, n, window, t2);
    lemma_dedup_members(c1, t1, x);
    lemma_candidates_members(es, es, lo, n, window, t1, x);
    lemma_candidates_members(es, es, lo, n, window, t2, x);
    let i = choose|i: int| 0 <= i < es.len() && es[i].0 == x && months_matched(es, #[trigger] es[i].0, lo, n, t1) >= window;
    lemma_months_matched_monotone(es, x, lo, n, t1, t2);
    assert(c2.contains(x));
    lemma_dedup_covers(c2, t2, x);
}

proof fn lemma_months_matched_at_least(es: Seq<Entry>, r: Line, lo: int, n: nat, t: int, ms: Set<int>)
    requires
        ms.finite(),
        forall|m: int| #[trigger] ms.contains(m) ==> lo <= m < lo + n && matched_in_month(es, r, m, t),
    ensures
        months_matched(es, r, lo, n, t) >= ms.len(),
    decreases n,
{
    if n == 0 {
        assert(ms =~= Set::<int>::empty());
    } else {
        let top = lo + n - 1;
        let rest = ms.remove(top);
        lemma_months_matched_at_least(es, r, lo, (n - 1) as nat, t, rest);
        if !ms.contains(top) {
            assert(rest =~= ms);
        }
    }
}

/// A transaction with an equivalent one in each of at least `window`
/// distinct months of the statement is recurring: the recurring set holds a
/// transaction that it is equivalent to.
pub proof fn lemma_recurring_when_matched(
    es: Seq<Entry>,
    lo: int,
    n: nat,
    window: int,
    t: int,
    i: int,
    ms: Set<int>,
)
    requires
        0 <= t,
        0 <= i < es.len(),
        ms.finite(),
        ms.len() >= window,
        forall|m: int| #[trigger] ms.contains(m) ==> lo <= m < lo + n && matched_in_month(es, es[i].0, m, t),
    ensures
        covered(recurring_set(es, lo, n, window, t), es[i].0, t),
{
    lemma_months_matched_at_least(es, es[i].0, lo, n, t, ms);
    lemma_candidates_members(es, es, lo, n, window, t, es[i].0);
    lemma_dedup_covers(candidates(es, es, lo, n, window, t), t, es[i].0);
}

/// No two transactions of a deduplicated sequence are equivalent, the
/// earlier one taken as the reference.
pub open spec fn pairwise_distinct(s: Seq<Line>, t: int) -> bool {
    forall|i: int, j: int| 0 <= i < j < s.len() ==> !#[trigger] equivalent(s[i], s[j], t)
}

proof fn lemma_dedup_distinct(s: Seq<Line>, t: int)
    ensures
        pairwise_distinct(dedup(s, t), t),
    decreases s.len(),
{
    if s.len() > 0 {
        lemma_dedup_distinct(s.drop_last(), t);
    }
}

proof fn lemma_dedup_of_distinct(s: Seq<Line>, t: int)
    requires
        pairwise_distinct(s, t),
    ensures
        dedup(s, t) == s,
    decreases s.len(),
{
    if s.len() > 0 {
        let p = s.drop_last();
        assert(pairwise_distinct(p, t)) by {
            assert forall|i: int, j: int| 0 <= i < j < p.len() implies !#[trigger] equivalent(p[i], p[j], t) by {
                assert(p[i] == s[i] && p[j] == s[j]);
            }
        }
        lemma_dedup_of_distinct(p, t);
        assert(!covered(p, s.last(), t)) by {
            if covered(p, s.last(), t) {
                let k = choose|k: int| 0 <= k < p.len() && #[trigger] equivalent(p[k], s.last(), t);
                assert(equivalent(s[k], s[s.len() - 1], t));
            }
        }
        assert(p.push(s.last()) =~= s);
    }
}

/// With no tolerance, equivalence is equality of the short label, the
/// debit and the credit, absent amounts counting as zero.
pub proof fn lemma_equivalent_exact(a: Line, b: Line)
    ensures
        equivalent(a, b, 0) <==> (a.libelle_simplifie@ == b.libelle_simplifie@ && value_of(a.debit) == value_of(
            b.debit,
        ) && value_of(a.credit) == value_of(b.credit)),
{
}

/// No two recurring transactions are equivalent, the earlier one taken as
/// the reference.
pub proof fn lemma_recurring_distinct(es: Seq<Entry>, lo: int, n: nat, window: int, t: int)
    ensures
        pairwise_distinct(recurring_set(es, lo, n, window, t), t),
{
    lemma_dedup_distinct(candidates(es, es, lo, n, window, t), t);
}

proof fn lemma_dedup_keeps_first(s: Seq<Line>, t: int)
    requires
        s.len() > 0,
        forall|k: int| 0 <= k < s.len() - 1 ==> !#[trigger] equivalent(s[k], s.last(), t),
    ensures
        dedup(s, t).contains(s.last()),
{
    let p = s.drop_last();
    let d = dedup(p, t);
    if covered(d, s.last(), t) {
        let k = choose|k: int| 0 <= k < d.len() && #[trigger] equivalent(d[k], s.last(), t);
        assert(d.contains(d[k]));
        lemma_dedup_members(p, t, d[k]);
        let m = choose|m: int| 0 <= m < p.len() && p[m] == d[k];
        assert(s[m] == p[m]);
    }
    assert(dedup(s, t)[d.len() as int] == s.last());
}

proof fn lemma_dedup_extend(s: Seq<Line>, j: int, t: int, x: Line)
    requires
        0 <= j <= s.len(),
        dedup(s.take(j), t).contains(x),
    ensures
        dedup(s, t).contains(x),
    decreases s.len() - j,
{
    if j < s.len() {
        let q = s.take(j + 1);
        assert(q.drop_last() =~= s.take(j));
        let d = dedup(s.take(j), t);
        let k = choose|k: int| 0 <= k < d.len() && d[k] == x;
        assert(dedup(q, t)[k] == x);
        lemma_dedup_extend(s, j + 1, t, x);
    } else {
        assert(s.take(j) =~= s);
    }
}

proof fn lemma_candidates_prefix(es: Seq<Entry>, all: Seq<Entry>, lo: int, n: nat, w: int, t: int, k: int)
    requires
        0 <= k <= es.len(),
    ensures
        candidates(es.take(k), all, lo, n, w, t).len() <= candidates(es, all, lo, n, w, t).len(),
        candidates(es.take(k), all, lo, n, w, t) == candidates(es, all, lo, n, w, t).take(
            candidates(es.take(k), all, lo, n, w, t).len() as int,
        ),
    decreases es.len(),
{
    let c = candidates(es, all, lo, n, w, t);
    if k == es.len() {
        assert(es.take(k) =~= es);
        assert(c.take(c.len() as int) =~= c);
    } else {
        let p = es.drop_last();
        assert(p.take(k) =~= es.take(k));
        lemma_candidates_prefix(p, all, lo, n, w, t, k);
        let cp = candidates(p, all, lo, n, w, t);
        let l = candidates(es.take(k), all, lo, n, w, t).len() as int;
        assert(c.take(l) =~= cp.take(l));
    }
}

/// A transaction with a match in at least `window` months, to which no
/// earlier transaction is equivalent, is itself in the recurring set: the
/// first occurrence of a recurring transaction is the one kept.
pub proof fn lemma_recurring_keeps_first(es: Seq<Entry>, lo: int, n: nat, window: int, t: int, i: int)
    requires
        0 <= i < es.len(),
        months_matched(es, es[i].0, lo, n, t) >= window,
        forall|j: int| 0 <= j < i ==> !#[trigger] equivalent(es[j].0, es[i].0, t),
    ensures
        recurring_set(es, lo, n, window, t).contains(es[i].0),
{
    let q = es.take(i + 1);
    assert(q.drop_last() =~= es.take(i));
    assert(q.last() == es[i]);
    let c0 = candidates(es.take(i), es, lo, n, window, t);
    let s1 = candidates(q, es, lo, n, window, t);
    assert(s1 == c0.push(es[i].0));
    assert forall|k: int| 0 <= k < s1.len() - 1 implies !#[trigger] equivalent(s1[k], s1.last(), t) by {
        assert(s1[k] == c0[k]);
        assert(c0.contains(c0[k]));
        lemma_candidates_members(es.take(i), es, lo, n, window, t, c0[k]);
        let j = choose|j: int|
            0 <= j < es.take(i).len() && es.take(i)[j].0 == c0[k] && months_matched(es, #[trigger] es.take(i)[j].0, lo, n, t)
                >= window;
        assert(es.take(i)[j] == es[j]);
    }
    lemma_dedup_keeps_first(s1, t);
    lemma_candidates_prefix(es, es, lo, n, window, t, i + 1);
    lemma_dedup_extend(candidates(es, es, lo, n, window, t), s1.len() as int, t, es[i].0);
}

/// A transaction with an equivalent one in each of at least `window`
/// distinct months, to which no earlier transaction is equivalent, is in the
/// recurring set.
pub proof fn lemma_recurring_first_when_matched(
    es: Seq<Entry>,
    lo: int,
    n: nat,
    window: int,
    t: int,
    i: int,
    ms: Set<int>,
)
    requires
        0 <= i < es.len(),
        ms.finite(),
        ms.len() >= window,
        forall|m: int| #[trigger] ms.contains(m) ==> lo <= m < lo + n && matched_in_month(es, es[i].0, m, t),
        forall|j: int| 0 <= j < i ==> !#[trigger] equivalent(es[j].0, es[i].0, t),
    ensures
        recurring_set(es, lo, n, window, t).contains(es[i].0),
{
    lemma_months_matched_at_least(es, es[i].0, lo, n, t, ms);
    lemma_recurring_keeps_first(es, lo, n, window, t, i);
}

/// Deduplicating twice gives what deduplicating once gives.
pub proof fn lemma_dedup_idempotent(s: Seq<Line>, t: int)
    ensures
        dedup(dedup(s, t), t) == dedup(s, t),
{
    lemma_dedup_distinct(s, t);
    lemma_dedup_of_distinct(dedup(s, t), t);
}

/// The recurring transactions of a statement under its current window and
/// tolerance: each transaction that has an equivalent one in at least
/// `recurring_months` of its months, first occurrences only.
pub fn extract_recuring(lines: &Lines) -> (r: Vec<Line>)
    requires
        lines.wf_data(),
    ensures
        r@ == lines.recurring_spec(),
{
    let lo = lines.lower_date.month_index();
    recurring_lines(
        lines.lines.as_slice(),
        lines.line_months.as_slice(),
        lo,
        lines.months_count,
        lines.recurring_months,
        lines.recurring_approx,
    )
}

} // verus!
