//! One transaction of a statement.
use vstd::prelude::*;

use crate::aggregate::{
    active_axis, active_months_of, all_months_of, amounts_bounded, categories_histogram_of,
    categories_of, categories_totals_of, category_histograms, category_names, category_table,
    month_axis, month_sums_table, months_sums_of, pair_views, sous_categories_histogram_of,
    string_views, sub_categories_of, sub_categories_total_of, sub_category_histograms,
    sub_category_pairs, sub_category_table, lemma_pairs_distinct, LAST_MONTH, lemma_month_series_total,
    month_series, months_within, seq_sum, in_category, in_sub_category,
};
use crate::calendar::{date_bounds, date_field, date_le, lemma_date_le_month, lemma_same_month, Date};
use crate::recurring::{
    covered, entries, equivalent, extract_recuring, lemma_recurring_distinct,
    lemma_recurring_first_when_matched, lemma_recurring_when_matched, matched_in_month, pairwise_distinct,
    recurring_lines, recurring_set,
};

verus! {

/// One transaction: its booking date as written, labels, classification,
/// and amounts in cents. Exactly one of `debit` and `credit` is normally
/// present; a transaction with neither counts as zero.
#[derive(Debug, Clone, PartialEq, Eq, Hash)]
pub struct Line {
    pub date_raw: String,
    pub libelle_simplifie: String,
    pub libelle_operation: String,
    pub reference: String,
    pub categorie: String,
    pub sous_categorie: String,
    pub debit: Option<i64>,
    pub credit: Option<i64>,
}

/// What a transaction holds: its text fields as characters, its amounts in
/// cents.
pub struct LineView {
    pub date_raw: Seq<char>,
    pub libelle_simplifie: Seq<char>,
    pub libelle_operation: Seq<char>,
    pub reference: Seq<char>,
    pub categorie: Seq<char>,
    pub sous_categorie: Seq<char>,
    pub debit: Option<i64>,
    pub credit: Option<i64>,
}

impl View for Line {
    type V = LineView;

    open spec fn view(&self) -> LineView {
        LineView {
            date_raw: self.date_raw@,
            libelle_simplifie: self.libelle_simplifie@,
            libelle_operation: self.libelle_operation@,
            reference: self.reference@,
            categorie: self.categorie@,
            sous_categorie: self.sous_categorie@,
            debit: self.debit,
            credit: self.credit,
        }
    }
}

/// The amount of an optional field, zero when absent.
pub open spec fn value_of(o: Option<i64>) -> int {
    match o {
        Some(v) => v as int,
        None => 0,
    }
}

/// A transaction with the month it was booked in, counted from January of
/// year zero.
pub type Entry = (Line, int);

impl Line {
    /// The signed net amount: credit plus debit, absent fields counting as
    /// zero.
    pub open spec fn net(self) -> int {
        value_of(self.credit) + value_of(self.debit)
    }

    pub fn new(
        date_raw: String,
        libelle_simplifie: String,
        libelle_operation: String,
        reference: String,
        categorie: String,
        sous_categorie: String,
        debit: Option<i64>,
        credit: Option<i64>,
    ) -> (r: Line)
        ensures
            r == (Line {
                date_raw,
                libelle_simplifie,
                libelle_operation,
                reference,
                categorie,
                sous_categorie,
                debit,
                credit,
            }),
    {
        Line {
            date_raw,
            libelle_simplifie,
            libelle_operation,
            reference,
            categorie,
            sous_categorie,
            debit,
            credit,
        }
    }

    /// A copy of this transaction.
    pub fn duplicate(&self) -> (r: Line)
        ensures
            r == *self,
    {
        Line {
            date_raw: self.date_raw.clone(),
            libelle_simplifie: self.libelle_simplifie.clone(),
            libelle_operation: self.libelle_operation.clone(),
            reference: self.reference.clone(),
            categorie: self.categorie.clone(),
            sous_categorie: self.sous_categorie.clone(),
            debit: self.debit,
            credit: self.credit,
        }
    }

    pub fn libelle_simplifie(&self) -> (r: &str)
        ensures
            r@ == self.libelle_simplifie@,
    {
        self.libelle_simplifie.as_str()
    }

    pub fn libelle_operation(&self) -> (r: &str)
        ensures
            r@ == self.libelle_operation@,
    {
        self.libelle_operation.as_str()
    }

    pub fn reference(&self) -> (r: &str)
        ensures
            r@ == self.reference@,
    {
        self.reference.as_str()
    }

    pub fn categorie(&self) -> (r: &str)
        ensures
            r@ == self.categorie@,
    {
        self.categorie.as_str()
    }

    pub fn sous_categorie(&self) -> (r: &str)
        ensures
            r@ == self.sous_categorie@,
    {
        self.sous_categorie.as_str()
    }

    pub fn debit(&self) -> (r: Option<i64>)
        ensures
            r == self.debit,
    {
        self.debit
    }

    pub fn credit(&self) -> (r: Option<i64>)
        ensures
            r == self.credit,
    {
        self.credit
    }

    pub fn date_raw(&self) -> (r: &str)
        ensures
            r@ == self.date_raw@,
    {
        self.date_raw.as_str()
    }
}

/// The largest tolerance, in hundredths: a deviation up to a hundred times
/// the reference amount.
pub const MAX_TOLERANCE: u32 = 10_000;

/// A loaded statement: its transactions in file order, with everything
/// derived from them, and the two parameters of recurrence detection with
/// the recurring transactions they give.
pub struct Lines {
    pub name: String,
    /// The earliest day of a transaction.
    pub lower_date: Date,
    /// The latest day of a transaction.
    pub higher_date: Date,
    pub lines: Vec<Line>,
    /// The month of each transaction, counted from January of year zero.
    pub line_months: Vec<i64>,
    pub recurring: Vec<Line>,
    pub categories: Vec<String>,
    pub sub_categories: Vec<(String, String)>,
    /// Per category: month-by-month totals, total and monthly average.
    pub categories_totals: Vec<(String, Vec<i128>, i128, i128)>,
    /// Per (category, sub-category): month-by-month totals, total and
    /// monthly average.
    pub sub_categories_total: Vec<(String, String, Vec<i128>, i128, i128)>,
    /// Per category: whether it sums to zero or more, and its month series.
    pub categories_histogram: Vec<(String, bool, Vec<(usize, i128)>)>,
    /// Per (category, sub-category): sign and month series.
    pub sous_categories_histogram: Vec<(String, String, bool, Vec<(usize, i128)>)>,
    /// Months from the first to the last transaction's, both included.
    pub months_count: usize,
    pub all_months: Vec<Date>,
    pub active_months: Vec<Date>,
    /// In how many months a transaction must have a match to recur.
    pub recurring_months: usize,
    /// Tolerance on amounts when matching transactions, in hundredths.
    pub recurring_approx: u32,
    pub categories_histogram_display_expenses_only: bool,
    /// Per month: its first day and the total outside the excluded
    /// category.
    pub months_sums: Vec<(Date, i128)>,
}

/// Why recurrence parameters were refused.
#[derive(Debug, Clone, Copy, PartialEq, Eq, Structural)]
pub enum ConfigError {
    /// The window is zero or longer than the statement.
    WindowOutOfRange,
    /// The tolerance is above `MAX_TOLERANCE`.
    ToleranceOutOfRange,
}

/// The day a transaction's date field names.
pub open spec fn line_date(l: Line) -> Date {
    match date_field(l.date_raw@) {
        Some(d) => d,
        None => Date { year: 0, month: 0, day: 0 },
    }
}

impl Lines {
    pub open spec fn entries(&self) -> Seq<Entry> {
        entries(self.lines@, self.line_months@)
    }

    pub open spec fn first_month(&self) -> int {
        self.lower_date.month_of()
    }

    /// The transactions and everything derived from them but the recurring
    /// set agree, and the recurrence parameters are in range.
    pub open spec fn wf_data(&self) -> bool {
        let lo = self.first_month();
        let n = self.months_count as nat;
        let es = self.entries();
        let names = category_names(self.lines@);
        let pairs = sub_category_pairs(self.lines@, names);
        &&& self.lines.len() >= 1
        &&& self.lines.len() == self.line_months.len()
        &&& amounts_bounded(self.lines@)
        &&& forall|i: int|
            0 <= i < self.lines.len() ==> date_field(#[trigger] self.lines[i].date_raw@) is Some
                && self.line_months[i] == line_date(self.lines[i]).month_of()
        &&& exists|i: int| 0 <= i < self.lines.len() && line_date(#[trigger] self.lines[i]) == self.lower_date
        &&& exists|i: int| 0 <= i < self.lines.len() && line_date(#[trigger] self.lines[i]) == self.higher_date
        &&& forall|i: int|
            0 <= i < self.lines.len() ==> date_le(self.lower_date, line_date(#[trigger] self.lines[i]))
                && date_le(line_date(self.lines[i]), self.higher_date)
        &&& self.lower_date.valid() && self.lower_date.year >= 0 && self.higher_date.valid()
        &&& self.months_count == self.higher_date.month_of() - lo + 1
        &&& forall|i: int| 0 <= i < self.line_months.len() ==> lo <= #[trigger] self.line_months[i] < lo + n
        &&& string_views(self.categories@) == names
        &&& pair_views(self.sub_categories@) == pairs
        &&& category_table(es, names, lo, n, self.categories_totals@)
        &&& sub_category_table(es, pairs, lo, n, self.sub_categories_total@)
        &&& category_histograms(es, names, lo, n, self.categories_histogram@)
        &&& sub_category_histograms(es, pairs, lo, n, self.sous_categories_histogram@)
        &&& month_sums_table(es, lo, n, self.months_sums@)
        &&& month_axis(lo, n, self.all_months@)
        &&& active_axis(self.line_months@, lo, n, self.active_months@)
        &&& 1 <= self.recurring_months <= self.months_count
        &&& self.recurring_approx <= MAX_TOLERANCE
    }

    /// The recurring set under the current parameters.
    pub open spec fn recurring_spec(&self) -> Seq<Line> {
        recurring_set(
            self.entries(),
            self.first_month(),
            self.months_count as nat,
            self.recurring_months as int,
            self.recurring_approx as int,
        )
    }

    pub open spec fn wf(&self) -> bool {
        &&& self.wf_data()
        &&& self.recurring@ == self.recurring_spec()
    }
}

impl Lines {
    /// The statement named `name` made of `lines`, where `dates[i]` is the day
    /// that `lines[i]`'s date field names. Recurrence detection starts with
    /// a window of one month less than the statement spans (at least one)
    /// and no tolerance.
    pub fn from_records(name: String, lines: Vec<Line>, dates: Vec<Date>) -> (r: Lines)
        requires
            lines.len() >= 1,
            lines.len() == dates.len(),
            amounts_bounded(lines@),
            forall|i: int| 0 <= i < lines.len() ==> date_field(#[trigger] lines[i].date_raw@) == Some(dates[i]),
        ensures
            r.wf(),
            r.name == name,
            r.lines@ == lines@,
            r.recurring_months == if r.months_count >= 2 { r.months_count - 1 } else { 1 },
            r.recurring_approx == 0,
    {
        let mut months: Vec<i64> = Vec::new();
        let mut i: usize = 0;
        while i < dates.len()
            invariant
                i <= dates.len(),
                lines.len() == dates.len(),
                forall|i: int| 0 <= i < lines.len() ==> date_field(#[trigger] lines[i].date_raw@) == Some(dates[i]),
                months.len() == i,
                forall|x: int| 0 <= x < i ==> #[trigger] months[x] == dates[x].month_of(),
            decreases dates.len() - i,
        {
            assert(date_field(lines[i as int].date_raw@) == Some(dates[i as int]));
            months.push(dates[i].month_index());
            i = i + 1;
        }
        let (lower, higher) = date_bounds(&dates);
        assert(forall|i: int| 0 <= i < lines.len() ==> line_date(#[trigger] lines[i]) == dates[i]);
        assert(lower.valid() && lower.year >= 0 && higher.valid()) by {
            let a = choose|k: int| 0 <= k < dates.len() && dates[k] == lower;
            let b = choose|k: int| 0 <= k < dates.len() && dates[k] == higher;
            assert(date_field(lines[a].date_raw@) == Some(dates[a]));
            assert(date_field(lines[b].date_raw@) == Some(dates[b]));
        }
        let lo = lower.month_index();
        let hi = higher.month_index();
        assert forall|i: int| 0 <= i < months.len() implies lo <= #[trigger] months[i] <= hi by {
            assert(date_field(lines[i].date_raw@) == Some(dates[i]));
            lemma_date_le_month(lower, dates[i]);
            lemma_date_le_month(dates[i], higher);
        }
        assert(lo <= hi) by {
            assert(lo <= months[0] <= hi);
        }
        let n: usize = (hi - lo + 1) as usize;
        assert(lo + n - 1 <= LAST_MONTH);
        let cats = categories_of(lines.as_slice());
        let subs = sub_categories_of(lines.as_slice(), &cats);
        proof {
            lemma_pairs_distinct(lines@, string_views(cats@));
        }
        let categories_totals = categories_totals_of(lines.as_slice(), months.as_slice(), &cats, lo, n);
        let sub_categories_total = sub_categories_total_of(lines.as_slice(), months.as_slice(), &subs, lo, n);
        let categories_histogram = categories_histogram_of(lines.as_slice(), months.as_slice(), &cats, lo, n);
        let sous_categories_histogram = sous_categories_histogram_of(lines.as_slice(), months.as_slice(), &subs, lo, n);
        let months_sums = months_sums_of(lines.as_slice(), months.as_slice(), lo, n);
        let all_months = all_months_of(lo, n);
        let active_months = active_months_of(months.as_slice(), lo, n);
        let window: usize = if n >= 2 { n - 1 } else { 1 };
        let recurring = recurring_lines(lines.as_slice(), months.as_slice(), lo, n, window, 0);
        let r = Lines {
            name,
            lower_date: lower,
            higher_date: higher,
            lines,
            line_months: months,
            recurring,
            categories: cats,
            sub_categories: subs,
            categories_totals,
            sub_categories_total,
            categories_histogram,
            sous_categories_histogram,
            months_count: n,
            all_months,
            active_months,
            recurring_months: window,
            recurring_approx: 0,
            categories_histogram_display_expenses_only: true,
            months_sums,
        };
        assert(exists|i: int| 0 <= i < r.lines.len() && line_date(#[trigger] r.lines[i]) == r.lower_date) by {
            let a = choose|k: int| 0 <= k < dates.len() && dates[k] == lower;
            assert(line_date(r.lines[a]) == lower);
        }
        assert(exists|i: int| 0 <= i < r.lines.len() && line_date(#[trigger] r.lines[i]) == r.higher_date) by {
            let b = choose|k: int| 0 <= k < dates.len() && dates[k] == higher;
            assert(line_date(r.lines[b]) == higher);
        }
        r
    }
}

impl Lines {
    /// Sets the window and the tolerance of recurrence detection and
    /// recomputes the recurring transactions. Refused, with nothing changed,
    /// when the window is not between 1 and the number of months or the
    /// tolerance is above `MAX_TOLERANCE`.
    pub fn set_recurring(&mut self, window: usize, pct: u32) -> (r: Result<(), ConfigError>)
        requires
            old(self).wf(),
        ensures
            final(self).wf(),
            (window < 1 || window > old(self).months_count) ==> r == Err::<(), ConfigError>(
                ConfigError::WindowOutOfRange,
            ) && *final(self) == *old(self),
            (1 <= window <= old(self).months_count && pct > MAX_TOLERANCE) ==> r == Err::<(), ConfigError>(
                ConfigError::ToleranceOutOfRange,
            ) && *final(self) == *old(self),
            (1 <= window <= old(self).months_count && pct <= MAX_TOLERANCE) ==> r is Ok && final(self).recurring_months == window
                && final(self).recurring_approx == pct && final(self).recurring@ == final(self).recurring_spec()
                && (Lines { recurring: old(self).recurring, recurring_months: old(self).recurring_months, recurring_approx: old(self).recurring_approx, ..*final(self) }) == *old(self),
    {
        if window < 1 || window > self.months_count {
            return Err(ConfigError::WindowOutOfRange);
        }
        if pct > MAX_TOLERANCE {
            return Err(ConfigError::ToleranceOutOfRange);
        }
        self.recurring_months = window;
        self.recurring_approx = pct;
        self.recurring = extract_recuring(self);
        Ok(())
    }

    pub fn name(&self) -> (r: &str)
        ensures
            r@ == self.name@,
    {
        self.name.as_str()
    }

    pub fn lines(&self) -> (r: &[Line])
        ensures
            r@ == self.lines@,
    {
        self.lines.as_slice()
    }

    pub fn recurring(&self) -> (r: &[Line])
        ensures
            r@ == self.recurring@,
    {
        self.recurring.as_slice()
    }

    pub fn categories(&self) -> (r: &[String])
        ensures
            r@ == self.categories@,
    {
        self.categories.as_slice()
    }

    pub fn sub_categories(&self) -> (r: &[(String, String)])
        ensures
            r@ == self.sub_categories@,
    {
        self.sub_categories.as_slice()
    }

    pub fn categories_totals(&self) -> (r: &[(String, Vec<i128>, i128, i128)])
        ensures
            r@ == self.categories_totals@,
    {
        self.categories_totals.as_slice()
    }

    pub fn sub_categories_total(&self) -> (r: &[(String, String, Vec<i128>, i128, i128)])
        ensures
            r@ == self.sub_categories_total@,
    {
        self.sub_categories_total.as_slice()
    }

    pub fn categories_histogram(&self) -> (r: &[(String, bool, Vec<(usize, i128)>)])
        ensures
            r@ == self.categories_histogram@,
    {
        self.categories_histogram.as_slice()
    }

    pub fn sous_categories_histogram(&self) -> (r: &[(String, String, bool, Vec<(usize, i128)>)])
        ensures
            r@ == self.sous_categories_histogram@,
    {
        self.sous_categories_histogram.as_slice()
    }

    pub fn months_count(&self) -> (r: usize)
        ensures
            r == self.months_count,
    {
        self.months_count
    }

    pub fn all_months(&self) -> (r: &Vec<Date>)
        ensures
            r@ == self.all_months@,
    {
        &self.all_months
    }

    pub fn active_months(&self) -> (r: &[Date])
        ensures
            r@ == self.active_months@,
    {
        self.active_months.as_slice()
    }

    pub fn months_sums(&self) -> (r: &Vec<(Date, i128)>)
        ensures
            r@ == self.months_sums@,
    {
        &self.months_sums
    }
}

impl Lines {
    proof fn lemma_months_within(&self)
        requires
            self.wf_data(),
        ensures
            months_within(self.entries(), self.first_month(), self.months_count as nat),
    {
        let es = self.entries();
        assert forall|i: int| 0 <= i < es.len() implies self.first_month() <= #[trigger] es[i].1 < self.first_month() + self.months_count by {
            assert(es[i].1 == self.line_months[i]);
        }
    }

    /// The month-by-month totals of every category and of every
    /// sub-category add up to its total.
    pub proof fn lemma_totals_round_trip(&self)
        requires
            self.wf(),
        ensures
            forall|j: int|
                0 <= j < self.categories_totals.len() ==> seq_sum(
                    (#[trigger] self.categories_totals[j]).1@.map_values(|v: i128| v as int),
                ) == self.categories_totals[j].2,
            forall|j: int|
                0 <= j < self.sub_categories_total.len() ==> seq_sum(
                    (#[trigger] self.sub_categories_total[j]).2@.map_values(|v: i128| v as int),
                ) == self.sub_categories_total[j].3,
    {
        let es = self.entries();
        let lo = self.first_month();
        let n = self.months_count as nat;
        self.lemma_months_within();
        assert forall|j: int| 0 <= j < self.categories_totals.len() implies seq_sum(
            (#[trigger] self.categories_totals[j]).1@.map_values(|v: i128| v as int),
        ) == self.categories_totals[j].2 by {
            let row = self.categories_totals[j];
            let p = in_category(row.0@);
            assert(row.1@.map_values(|v: i128| v as int) =~= month_series(es, p, lo, n));
            lemma_month_series_total(es, p, lo, n);
        }
        assert forall|j: int| 0 <= j < self.sub_categories_total.len() implies seq_sum(
            (#[trigger] self.sub_categories_total[j]).2@.map_values(|v: i128| v as int),
        ) == self.sub_categories_total[j].3 by {
            let row = self.sub_categories_total[j];
            assert(crate::aggregate::sub_row_names(self.sub_categories_total@)[j] == (row.0@, row.1@));
            let p = in_sub_category(row.0@, row.1@);
            assert(row.2@.map_values(|v: i128| v as int) =~= month_series(es, p, lo, n));
            lemma_month_series_total(es, p, lo, n);
        }
    }

    /// Every histogram has one point per month of the statement, numbered
    /// from 1, whether or not the month holds a transaction of its group;
    /// there is one histogram per category and one per sub-category.
    pub proof fn lemma_histograms_cover_months(&self)
        requires
            self.wf(),
        ensures
            self.categories_histogram.len() == self.categories.len(),
            self.sous_categories_histogram.len() == self.sub_categories.len(),
            forall|j: int|
                0 <= j < self.categories_histogram.len() ==> (#[trigger] self.categories_histogram[j]).2.len()
                    == self.months_count && forall|k: int|
                    0 <= k < self.months_count ==> #[trigger] self.categories_histogram[j].2[k].0 == k + 1,
            forall|j: int|
                0 <= j < self.sous_categories_histogram.len() ==> (
                #[trigger] self.sous_categories_histogram[j]).3.len() == self.months_count && forall|k: int|
                    0 <= k < self.months_count ==> #[trigger] self.sous_categories_histogram[j].3[k].0 == k + 1,
    {
        assert(string_views(self.categories@).len() == self.categories.len());
        assert(pair_views(self.sub_categories@).len() == self.sub_categories.len());
    }
}

impl Lines {
    /// A transaction of the statement that has an equivalent one in each of
    /// at least `recurring_months` distinct months of the statement is among
    /// the recurring ones: the recurring set holds a transaction that it is
    /// equivalent to.
    pub proof fn lemma_recurring_line(&self, i: int, ms: Set<int>)
        requires
            self.wf(),
            0 <= i < self.lines.len(),
            ms.finite(),
            ms.len() >= self.recurring_months,
            forall|m: int|
                #[trigger] ms.contains(m) ==> self.first_month() <= m < self.first_month() + self.months_count
                    && matched_in_month(self.entries(), self.lines[i], m, self.recurring_approx as int),
        ensures
            covered(self.recurring@, self.lines[i], self.recurring_approx as int),
    {
        assert(self.entries()[i].0 == self.lines[i]);
        lemma_recurring_when_matched(
            self.entries(),
            self.first_month(),
            self.months_count as nat,
            self.recurring_months as int,
            self.recurring_approx as int,
            i,
            ms,
        );
    }
}

impl Lines {
    /// The month axis runs from the first day of `lower_date`'s month, one
    /// month at a time, to the first day of `higher_date`'s month; the
    /// monthly sums carry the same days.
    pub proof fn lemma_month_axis(&self)
        requires
            self.wf(),
        ensures
            self.all_months.len() == self.months_count,
            self.months_sums.len() == self.months_count,
            self.all_months[0] == (Date { year: self.lower_date.year, month: self.lower_date.month, day: 1 }),
            self.all_months[self.months_count - 1] == (Date {
                year: self.higher_date.year,
                month: self.higher_date.month,
                day: 1,
            }),
            date_le(self.all_months[self.months_count - 1], self.higher_date),
            forall|k: int| 0 <= k < self.months_count ==> #[trigger] self.months_sums[k].0 == self.all_months[k],
            forall|k: int|
                0 <= k < self.months_count - 1 ==> (#[trigger] self.all_months[k + 1]).month_of()
                    == self.all_months[k].month_of() + 1,
    {
        let first = self.all_months[0];
        let last = self.all_months[self.months_count - 1];
        lemma_same_month(first, self.lower_date);
        lemma_same_month(last, self.higher_date);
        assert forall|k: int| 0 <= k < self.months_count implies #[trigger] self.months_sums[k].0 == self.all_months[k] by {
            lemma_same_month(self.months_sums[k].0, self.all_months[k]);
        }
    }
}

impl Lines {
    /// A transaction with an equivalent one in each of at least
    /// `recurring_months` distinct months of the statement, to which no
    /// earlier transaction is equivalent, is itself among the recurring ones;
    /// and no two recurring transactions are equivalent.
    pub proof fn lemma_recurring_first_line(&self, i: int, ms: Set<int>)
        requires
            self.wf(),
            0 <= i < self.lines.len(),
            ms.finite(),
            ms.len() >= self.recurring_months,
            forall|m: int|
                #[trigger] ms.contains(m) ==> self.first_month() <= m < self.first_month() + self.months_count
                    && matched_in_month(self.entries(), self.lines[i], m, self.recurring_approx as int),
            forall|j: int| 0 <= j < i ==> !#[trigger] equivalent(self.lines[j], self.lines[i], self.recurring_approx as int),
        ensures
            self.recurring@.contains(self.lines[i]),
            pairwise_distinct(self.recurring@, self.recurring_approx as int),
    {
        let es = self.entries();
        assert(es[i].0 == self.lines[i]);
        assert forall|j: int| 0 <= j < i implies !#[trigger] equivalent(es[j].0, es[i].0, self.recurring_approx as int) by {
            assert(es[j].0 == self.lines[j]);
        }
        lemma_recurring_first_when_matched(
            es,
            self.first_month(),
            self.months_count as nat,
            self.recurring_months as int,
            self.recurring_approx as int,
            i,
            ms,
        );
        lemma_recurring_distinct(
            es,
            self.first_month(),
            self.months_count as nat,
            self.recurring_months as int,
            self.recurring_approx as int,
        );
    }
}

} // verus!
