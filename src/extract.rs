//! Reading a statement export into transactions.
use vstd::prelude::*;

use crate::calendar::{date_field, parse_date, Date};
use crate::aggregate::amounts_bounded;
use crate::line::{Line, LineView, Lines};
use crate::text::MAX_CENTS;
use crate::text::{
    amount_field, chars_of, lemma_split_nonempty, parse_amount, split, split_chars, string_from_chars,
    strip_cr, text_lines,
};

verus! {

/// Why a row of the statement could not be read.
#[derive(Debug, Clone, Copy, PartialEq, Eq, Structural)]
pub enum ParseErrorReason {
    /// The row has fewer than ten fields.
    MissingFields,
    /// The first field is not a `DD/MM/YYYY` date that exists.
    InvalidDate,
    /// The debit field is neither empty nor an amount.
    InvalidDebit,
    /// The credit field is neither empty nor an amount.
    InvalidCredit,
}

/// Why a statement could not be loaded.
#[derive(Debug, Clone, Copy, PartialEq, Eq, Structural)]
pub enum TryIntoLinesError {
    /// Line `row` of the text (the header being line 1) is malformed.
    ParseError { row: usize, reason: ParseErrorReason },
    /// The statement holds no transaction.
    NoRecords,
}

/// The number of fields a row must have at least.
pub const FIELD_COUNT: usize = 10;

pub open spec fn to_cents(o: Option<int>) -> Option<i64> {
    match o {
        Some(v) => Some(v as i64),
        None => None,
    }
}

/// One data row: fields 0 (date), 1 (short label), 2 (full label),
/// 3 (reference), 6 (category), 7 (sub-category), 8 (debit) and 9 (credit).
pub open spec fn read_row(row: Seq<char>) -> Result<(LineView, Date), ParseErrorReason> {
    let f = split(row, ';');
    if f.len() < FIELD_COUNT {
        Err(ParseErrorReason::MissingFields)
    } else {
        match date_field(f[0]) {
            None => Err(ParseErrorReason::InvalidDate),
            Some(d) => match amount_field(f[8]) {
                None => Err(ParseErrorReason::InvalidDebit),
                Some(debit) => match amount_field(f[9]) {
                    None => Err(ParseErrorReason::InvalidCredit),
                    Some(credit) => Ok(
                        (
                            LineView {
                                date_raw: f[0],
                                libelle_simplifie: f[1],
                                libelle_operation: f[2],
                                reference: f[3],
                                categorie: f[6],
                                sous_categorie: f[7],
                                debit: to_cents(debit),
                                credit: to_cents(credit),
                            },
                            d,
                        ),
                    ),
                },
            },
        }
    }
}

/// All rows read in order, or the index of the first malformed row and why.
pub open spec fn read_rows(rows: Seq<Seq<char>>) -> Result<Seq<(LineView, Date)>, (int, ParseErrorReason)>
    decreases rows.len(),
{
    if rows.len() == 0 {
        Ok(Seq::empty())
    } else {
        match read_rows(rows.drop_last()) {
            Err(e) => Err(e),
            Ok(p) => match read_row(rows.last()) {
                Err(reason) => Err((rows.len() - 1, reason)),
                Ok(x) => Ok(p.push(x)),
            },
        }
    }
}

/// The lines of the text after the header.
pub open spec fn data_rows(text: Seq<char>) -> Seq<Seq<char>> {
    let l = text_lines(text);
    if l.len() == 0 {
        Seq::empty()
    } else {
        l.skip(1)
    }
}

/// What a statement holds: its transactions with their dates, or the error
/// of its first malformed row, or `NoRecords` when it has no data row.
pub open spec fn statement(text: Seq<char>) -> Result<Seq<(LineView, Date)>, TryIntoLinesError> {
    match read_rows(data_rows(text)) {
        Err((i, reason)) => Err(TryIntoLinesError::ParseError { row: (i + 2) as usize, reason }),
        Ok(s) => if s.len() == 0 {
            Err(TryIntoLinesError::NoRecords)
        } else {
            Ok(s)
        },
    }
}

/// Transactions and dates paired, as `read_rows` gives them.
pub open spec fn paired(lines: Seq<Line>, dates: Seq<Date>) -> Seq<(LineView, Date)> {
    Seq::new(lines.len(), |i: int| (lines[i]@, dates[i]))
}

/// Reads one data row into a transaction and its date.
pub fn read_line(row: &[char]) -> (r: Result<(Line, Date), ParseErrorReason>)
    ensures
        r matches Ok(x) ==> read_row(row@) == Ok::<(LineView, Date), ParseErrorReason>((x.0@, x.1)),
        r matches Err(e) ==> read_row(row@) == Err::<(LineView, Date), ParseErrorReason>(e),
{
    let f = split_chars(row, ';');
    if f.len() < FIELD_COUNT {
        return Err(ParseErrorReason::MissingFields);
    }
    let date = match parse_date(f[0].as_slice()) {
        Some(d) => d,
        None => {
            return Err(ParseErrorReason::InvalidDate);
        },
    };
    let debit = match parse_amount(f[8].as_slice()) {
        Some(v) => v,
        None => {
            return Err(ParseErrorReason::InvalidDebit);
        },
    };
    let credit = match parse_amount(f[9].as_slice()) {
        Some(v) => v,
        None => {
            return Err(ParseErrorReason::InvalidCredit);
        },
    };
    let line = Line::new(
        string_from_chars(f[0].as_slice()),
        string_from_chars(f[1].as_slice()),
        string_from_chars(f[2].as_slice()),
        string_from_chars(f[3].as_slice()),
        string_from_chars(f[6].as_slice()),
        string_from_chars(f[7].as_slice()),
        debit,
        credit,
    );
    assert(line@.debit == to_cents(amount_field(f[8]@)->Some_0));
    assert(line@.credit == to_cents(amount_field(f[9]@)->Some_0));
    Ok((line, date))
}

proof fn lemma_read_rows_err(rows: Seq<Seq<char>>, t: int)
    requires
        0 <= t <= rows.len(),
        read_rows(rows.take(t)) is Err,
    ensures
        read_rows(rows) == read_rows(rows.take(t)),
    decreases rows.len() - t,
{
    if t < rows.len() {
        assert(rows.take(t + 1).drop_last() =~= rows.take(t));
        lemma_read_rows_err(rows, t + 1);
    } else {
        assert(rows.take(t) =~= rows);
    }
}

/// `l` without a carriage return at its end.
fn strip_cr_chars(l: &[char]) -> (r: &[char])
    ensures
        r@ == strip_cr(l@),
{
    if l.len() > 0 && l[l.len() - 1] == '\r' {
        vstd::slice::slice_subrange(l, 0, l.len() - 1)
    } else {
        assert(l@.subrange(0, l@.len() as int) =~= l@);
        vstd::slice::slice_subrange(l, 0, l.len())
    }
}

/// Reads the transactions of a statement export: the first line is a
/// header, every other line one transaction.
pub fn read_statement(text: &str) -> (r: Result<(Vec<Line>, Vec<Date>), TryIntoLinesError>)
    ensures
        r matches Ok(x) ==> x.0.len() == x.1.len() && statement(text@) == Ok::<Seq<(LineView, Date)>, TryIntoLinesError>(
            paired(x.0@, x.1@),
        ),
        r matches Err(e) ==> statement(text@) == Err::<Seq<(LineView, Date)>, TryIntoLinesError>(e),
{
    let chars = chars_of(text);
    let pieces = split_chars(chars.as_slice(), '\n');
    proof {
        lemma_split_nonempty(text@, '\n');
    }
    let ghost p = split(text@, '\n');
    let ghost q = if p.last().len() == 0 { p.drop_last() } else { p };
    let count: usize = if pieces[pieces.len() - 1].len() == 0 { pieces.len() - 1 } else { pieces.len() };
    assert(q.len() == count);
    assert forall|x: int| 0 <= x < count implies #[trigger] text_lines(text@)[x] == strip_cr(pieces[x]@) by {}
    let ghost rows = data_rows(text@);
    let mut lines: Vec<Line> = Vec::new();
    let mut dates: Vec<Date> = Vec::new();
    if count == 0 {
        assert(rows.len() == 0);
        return Err(TryIntoLinesError::NoRecords);
    }
    assert(rows.len() == count - 1);
    let mut t: usize = 0;
    assert(rows.take(0) =~= Seq::<Seq<char>>::empty());
    assert(paired(lines@, dates@) =~= Seq::<(LineView, Date)>::empty());
    while t + 1 < count
        invariant
            t + 1 <= count,
            count <= pieces.len(),
            rows == data_rows(text@),
            rows.len() == count - 1,
            forall|x: int| 0 <= x < count ==> #[trigger] text_lines(text@)[x] == strip_cr(pieces[x]@),
            lines.len() == t,
            dates.len() == t,
            read_rows(rows.take(t as int)) == Ok::<Seq<(LineView, Date)>, (int, ParseErrorReason)>(
                paired(lines@, dates@),
            ),
        decreases count - t,
    {
        assert(rows[t as int] == text_lines(text@)[t + 1]);
        let row = strip_cr_chars(pieces[t + 1].as_slice());
        let ghost prev = rows.take(t as int);
        assert(rows.take(t as int + 1).drop_last() =~= prev);
        assert(rows.take(t as int + 1).last() == row@);
        let ghost before = paired(lines@, dates@);
        match read_line(row) {
            Ok((line, date)) => {
                lines.push(line);
                dates.push(date);
                assert(paired(lines@, dates@) =~= before.push((line@, date)));
            },
            Err(reason) => {
                proof {
                    lemma_read_rows_err(rows, t as int + 1);
                }
                return Err(TryIntoLinesError::ParseError { row: t + 2, reason });
            },
        }
        t = t + 1;
    }
    assert(rows.take(t as int) =~= rows);
    if lines.len() == 0 {
        return Err(TryIntoLinesError::NoRecords);
    }
    Ok((lines, dates))
}

proof fn lemma_read_rows_ok(rows: Seq<Seq<char>>)
    requires
        read_rows(rows) is Ok,
    ensures
        read_rows(rows)->Ok_0.len() == rows.len(),
        forall|i: int| 0 <= i < rows.len() ==> #[trigger] read_row(rows[i]) == Ok::<(LineView, Date), ParseErrorReason>(read_rows(rows)->Ok_0[i]),
    decreases rows.len(),
{
    if rows.len() > 0 {
        let p = rows.drop_last();
        lemma_read_rows_ok(p);
        assert forall|i: int| 0 <= i < rows.len() implies #[trigger] read_row(rows[i]) == Ok::<(LineView, Date), ParseErrorReason>(read_rows(rows)->Ok_0[i]) by {
            if i < p.len() {
                assert(rows[i] == p[i]);
            }
        }
    }
}

proof fn lemma_row_facts(row: Seq<char>)
    requires
        read_row(row) is Ok,
    ensures
        date_field(read_row(row)->Ok_0.0.date_raw) == Some(read_row(row)->Ok_0.1),
        -MAX_CENTS <= crate::line::value_of(read_row(row)->Ok_0.0.debit) <= MAX_CENTS,
        -MAX_CENTS <= crate::line::value_of(read_row(row)->Ok_0.0.credit) <= MAX_CENTS,
{
}

/// Loads a statement export named `name`: the first line is a header, every
/// other line a transaction. Fails on the first malformed row, or when there
/// is no transaction.
pub fn parse_lines(text: &str, name: String) -> (r: Result<Lines, TryIntoLinesError>)
    ensures
        r matches Err(e) ==> statement(text@) == Err::<Seq<(LineView, Date)>, TryIntoLinesError>(e),
        r is Ok <==> statement(text@) is Ok,
        r matches Ok(ls) ==> {
            &&& ls.wf()
            &&& ls.name == name
            &&& ls.lines.len() == statement(text@)->Ok_0.len()
            &&& forall|i: int| 0 <= i < ls.lines.len() ==> #[trigger] ls.lines[i]@ == statement(text@)->Ok_0[i].0
            &&& ls.recurring_months == if ls.months_count >= 2 { ls.months_count - 1 } else { 1 }
            &&& ls.recurring_approx == 0
        },
{
    match read_statement(text) {
        Err(e) => Err(e),
        Ok((lines, dates)) => {
            let ghost s = paired(lines@, dates@);
            proof {
                lemma_read_rows_ok(data_rows(text@));
                assert forall|i: int| 0 <= i < lines.len() implies date_field(#[trigger] lines[i].date_raw@) == Some(dates[i])
                    && -MAX_CENTS <= crate::line::value_of(lines[i].debit) <= MAX_CENTS
                    && -MAX_CENTS <= crate::line::value_of(lines[i].credit) <= MAX_CENTS by {
                    assert(s[i] == (lines[i]@, dates[i]));
                    lemma_row_facts(data_rows(text@)[i]);
                }
                assert forall|i: int| 0 <= i < lines.len() implies -MAX_CENTS <= crate::line::value_of(#[trigger] lines[i].debit) <= MAX_CENTS
                    && -MAX_CENTS <= crate::line::value_of(lines[i].credit) <= MAX_CENTS by {
                    assert(date_field(lines[i].date_raw@) == Some(dates[i]));
                }
            }
            let ls = Lines::from_records(name, lines, dates);
            assert forall|i: int| 0 <= i < ls.lines.len() implies #[trigger] ls.lines[i]@ == statement(text@)->Ok_0[i].0 by {
                assert(s[i] == (ls.lines[i]@, dates[i]));
            }
            Ok(ls)
        },
    }
}

/// Turns a statement export into a loaded statement, with recurrence
/// detection set to its defaults: a window of one month less than the
/// statement spans (at least one) and no tolerance.
pub trait TryIntoLines {
    fn into_lines(self, name: String) -> (r: Result<Lines, TryIntoLinesError>)
        ensures
            r matches Ok(ls) ==> {
                &&& ls.wf()
                &&& ls.name == name
                &&& ls.recurring_months == if ls.months_count >= 2 { ls.months_count - 1 } else { 1 }
                &&& ls.recurring_approx == 0
            },
    ;
}

impl TryIntoLines for String {
    /// Loads this text as a statement export: the first line is a header,
    /// every other line a transaction. Fails on the first malformed row, or
    /// when there is no transaction.
    fn into_lines(self, name: String) -> (r: Result<Lines, TryIntoLinesError>)
        ensures
            r matches Err(e) ==> statement(self@) == Err::<Seq<(LineView, Date)>, TryIntoLinesError>(e),
            r is Ok <==> statement(self@) is Ok,
            r matches Ok(ls) ==> {
                &&& ls.lines.len() == statement(self@)->Ok_0.len()
                &&& forall|i: int| 0 <= i < ls.lines.len() ==> #[trigger] ls.lines[i]@ == statement(self@)->Ok_0[i].0
            },
    {
        parse_lines(self.as_str(), name)
    }
}

} // verus!
