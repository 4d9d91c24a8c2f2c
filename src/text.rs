//! Character-level reading of the statement: lines, fields, integers,
//! amounts in cents and calendar dates.
use vstd::prelude::*;
use vstd::std_specs::iter::IteratorSpec;

verus! {

/// `s` cut at every occurrence of `sep`; there is always at least one piece.
pub open spec fn split(s: Seq<char>, sep: char) -> Seq<Seq<char>>
    decreases s.len(),
{
    if s.len() == 0 {
        seq![Seq::<char>::empty()]
    } else {
        let p = split(s.drop_last(), sep);
        if s.last() == sep {
            p.push(Seq::<char>::empty())
        } else {
            p.update(p.len() - 1, p.last().push(s.last()))
        }
    }
}

pub proof fn lemma_split_nonempty(s: Seq<char>, sep: char)
    ensures
        split(s, sep).len() >= 1,
    decreases s.len(),
{
    if s.len() > 0 {
        lemma_split_nonempty(s.drop_last(), sep);
    }
}

/// The characters of `s`, in order.
pub fn chars_of(s: &str) -> (r: Vec<char>)
    ensures
        r@ == s@,
{
    let mut r: Vec<char> = Vec::new();
    for c in it: s.chars()
        invariant
            it.seq() == s@,
            r@ == it.seq().take(it.index() as int),
    {
        r.push(c);
    }
    assert(r@ =~= s@);
    r
}

/// Relies on std's `FromIterator<char>` for `String`: the string holds the
/// characters in the order they are given.
#[verifier::external_body]
pub(crate) fn string_from_chars(v: &[char]) -> (r: String)
    ensures
        r@ == v@,
{
    v.iter().collect::<String>()
}

/// Cuts `s` at every occurrence of `sep`.
pub fn split_chars(s: &[char], sep: char) -> (r: Vec<Vec<char>>)
    ensures
        r.len() == split(s@, sep).len(),
        forall|i: int| 0 <= i < r.len() ==> #[trigger] r[i]@ == split(s@, sep)[i],
{
    let mut done: Vec<Vec<char>> = Vec::new();
    let mut cur: Vec<char> = Vec::new();
    let mut i: usize = 0;
    while i < s.len()
        invariant
            i <= s.len(),
            done.len() + 1 == split(s@.take(i as int), sep).len(),
            forall|k: int| 0 <= k < done.len() ==> #[trigger] done[k]@ == split(s@.take(i as int), sep)[k],
            cur@ == split(s@.take(i as int), sep).last(),
        decreases s.len() - i,
    {
        assert(s@.take(i as int + 1).drop_last() =~= s@.take(i as int));
        proof {
            lemma_split_nonempty(s@.take(i as int), sep);
        }
        if s[i] == sep {
            done.push(cur);
            cur = Vec::new();
        } else {
            cur.push(s[i]);
        }
        i = i + 1;
    }
    assert(s@.take(i as int) =~= s@);
    proof {
        lemma_split_nonempty(s@, sep);
    }
    done.push(cur);
    done
}

/// `l` without one carriage return at its end.
pub open spec fn strip_cr(l: Seq<char>) -> Seq<char> {
    if l.len() > 0 && l.last() == '\r' {
        l.drop_last()
    } else {
        l
    }
}

/// The lines of a text: pieces between newlines, each without a trailing
/// carriage return, and no empty piece after a final newline.
pub open spec fn text_lines(s: Seq<char>) -> Seq<Seq<char>> {
    let p = split(s, '\n');
    let q = if p.last().len() == 0 {
        p.drop_last()
    } else {
        p
    };
    q.map_values(|l: Seq<char>| strip_cr(l))
}

pub open spec fn is_digit(c: char) -> bool {
    '0' <= c <= '9'
}

pub open spec fn all_digits(s: Seq<char>) -> bool {
    forall|i: int| 0 <= i < s.len() ==> is_digit(#[trigger] s[i])
}

pub open spec fn digit_value(c: char) -> nat {
    (c as u32 - '0' as u32) as nat
}

/// The number that a string of decimal digits writes.
pub open spec fn digits_value(s: Seq<char>) -> nat
    decreases s.len(),
{
    if s.len() == 0 {
        0
    } else {
        digits_value(s.drop_last()) * 10 + digit_value(s.last())
    }
}

/// A non-empty string of decimal digits whose value is at most `bound`.
pub open spec fn number_in(s: Seq<char>, bound: int) -> bool {
    s.len() > 0 && all_digits(s) && digits_value(s) <= bound
}

proof fn lemma_digits_prefix(s: Seq<char>, j: int)
    requires
        0 <= j <= s.len(),
        all_digits(s),
    ensures
        digits_value(s.take(j)) <= digits_value(s),
    decreases s.len(),
{
    if j < s.len() {
        assert(s.drop_last().take(j) =~= s.take(j));
        lemma_digits_prefix(s.drop_last(), j);
    } else {
        assert(s.take(j) =~= s);
    }
}

/// The value of `s` as a decimal number, where `s` is one within `bound`.
pub(crate) fn parse_number(s: &[char], bound: u64) -> (r: Option<u64>)
    requires
        bound <= 1_000_000_000_000_000_000,
    ensures
        r == (if number_in(s@, bound as int) {
            Some(digits_value(s@) as u64)
        } else {
            None
        }),
{
    if s.len() == 0 {
        return None;
    }
    let mut v: u64 = 0;
    let mut i: usize = 0;
    while i < s.len()
        invariant
            i <= s.len(),
            all_digits(s@.take(i as int)),
            v == digits_value(s@.take(i as int)),
            v <= bound,
            bound <= 1_000_000_000_000_000_000,
        decreases s.len() - i,
    {
        let c = s[i];
        if !('0' <= c && c <= '9') {
            assert(!all_digits(s@));
            return None;
        }
        assert(s@.take(i as int + 1).drop_last() =~= s@.take(i as int));
        let d: u64 = (c as u32 - '0' as u32) as u64;
        let next: u64 = v * 10 + d;
        if next > bound {
            proof {
                if all_digits(s@) {
                    lemma_digits_prefix(s@, i as int + 1);
                }
            }
            return None;
        }
        v = next;
        i = i + 1;
    }
    assert(s@.take(i as int) =~= s@);
    Some(v)
}

proof fn lemma_two_digits(s: Seq<char>)
    requires
        all_digits(s),
        1 <= s.len() <= 2,
    ensures
        digits_value(s) <= 99,
{
    let a = s.drop_last();
    assert(is_digit(s[0]));
    assert(is_digit(s.last()));
    if s.len() == 2 {
        assert(a.drop_last() =~= Seq::<char>::empty());
        assert(digits_value(a.drop_last()) == 0);
        assert(a.last() == s[0]);
        assert(digits_value(a) == digit_value(a.last()));
    } else {
        assert(a =~= Seq::<char>::empty());
        assert(digits_value(a) == 0);
    }
}

/// Whether every character of `s` is a decimal digit.
fn all_digit_chars(s: &[char]) -> (r: bool)
    ensures
        r == all_digits(s@),
{
    let mut i: usize = 0;
    while i < s.len()
        invariant
            i <= s.len(),
            forall|k: int| 0 <= k < i ==> is_digit(#[trigger] s@[k]),
        decreases s.len() - i,
    {
        if !('0' <= s[i] && s[i] <= '9') {
            assert(!is_digit(s@[i as int]));
            return false;
        }
        i = i + 1;
    }
    true
}

/// The largest magnitude, in cents, that an amount may have.
pub const MAX_CENTS: i64 = 1_000_000_000_000_000;

/// Cents written by the decimals after the comma: none, one or two digits
/// exactly, more digits rounded to the nearest cent, a half cent upward.
pub open spec fn fraction_cents(f: Seq<char>) -> int {
    if f.len() == 0 {
        0
    } else if f.len() == 1 {
        (digits_value(f) * 10) as int
    } else if f.len() == 2 {
        digits_value(f) as int
    } else {
        digits_value(f.take(2)) + if '5' <= f[2] {
            1int
        } else {
            0int
        }
    }
}

/// An unsigned amount written with a decimal comma, in cents, rounded to
/// the nearest cent.
pub open spec fn unsigned_cents(body: Seq<char>) -> Option<int> {
    let p = split(body, ',');
    if p.len() == 1 && p[0].len() > 0 && all_digits(p[0]) {
        Some((digits_value(p[0]) * 100) as int)
    } else if p.len() == 2 && all_digits(p[0]) && all_digits(p[1]) && p[0].len() + p[1].len() > 0 {
        Some(digits_value(p[0]) * 100 + fraction_cents(p[1]))
    } else {
        None
    }
}

/// `f` without its sign, and whether the sign was a minus.
pub open spec fn unsign(f: Seq<char>) -> (bool, Seq<char>) {
    if f.len() > 0 && f[0] == '-' {
        (true, f.skip(1))
    } else if f.len() > 0 && f[0] == '+' {
        (false, f.skip(1))
    } else {
        (false, f)
    }
}

/// A debit or credit field: `Some(None)` when empty, `Some(Some(cents))`
/// for a well-formed amount within `MAX_CENTS`, `None` otherwise.
pub open spec fn amount_field(f: Seq<char>) -> Option<Option<int>> {
    if f.len() == 0 {
        Some(None)
    } else {
        let (neg, body) = unsign(f);
        match unsigned_cents(body) {
            Some(v) => if v <= MAX_CENTS {
                Some(Some(if neg { -v } else { v }))
            } else {
                None
            },
            None => None,
        }
    }
}

/// Reads a debit or credit field written with a decimal comma.
pub fn parse_amount(f: &[char]) -> (r: Option<Option<i64>>)
    ensures
        amount_field(f@) is None ==> r is None,
        amount_field(f@) == Some(Option::<int>::None) ==> r == Some(Option::<i64>::None),
        amount_field(f@) matches Some(Some(v)) ==> r == Some(Some(v as i64)),
{
    if f.len() == 0 {
        return Some(None);
    }
    let neg = f[0] == '-';
    let start: usize = if f[0] == '-' || f[0] == '+' { 1 } else { 0 };
    let body = vstd::slice::slice_subrange(f, start, f.len());
    assert(body@ == unsign(f@).1);
    let parts = split_chars(body, ',');
    proof {
        lemma_split_nonempty(body@, ',');
    }
    if parts.len() > 2 {
        return None;
    }
    let whole: u64 = if parts[0].len() == 0 {
        if parts.len() == 1 {
            return None;
        }
        0
    } else {
        match parse_number(parts[0].as_slice(), 10_000_000_000_000) {
            Some(w) => w,
            None => {
                proof {
                    if all_digits(parts[0]@) {
                        assert(digits_value(parts[0]@) * 100 > MAX_CENTS);
                    }
                }
                return None;
            },
        }
    };
    let frac: u64 = if parts.len() == 1 {
        0
    } else {
        let f1 = parts[1].as_slice();
        if !all_digit_chars(f1) {
            return None;
        }
        if f1.len() == 0 {
            if parts[0].len() == 0 {
                return None;
            }
            0
        } else {
            let head = if f1.len() > 2 {
                vstd::slice::slice_subrange(f1, 0, 2)
            } else {
                vstd::slice::slice_subrange(f1, 0, f1.len())
            };
            assert(all_digits(head@)) by {
                assert forall|i: int| 0 <= i < head@.len() implies is_digit(#[trigger] head@[i]) by {
                    assert(head@[i] == f1@[i]);
                }
            }
            proof {
                lemma_two_digits(head@);
            }
            let d = match parse_number(head, 99) {
                Some(d) => d,
                None => {
                    return None;
                },
            };
            if f1.len() == 1 {
                assert(head@ =~= f1@);
                d * 10
            } else if f1.len() == 2 {
                assert(head@ =~= f1@);
                d
            } else {
                assert(head@ =~= f1@.take(2));
                if '5' <= f1[2] {
                    d + 1
                } else {
                    d
                }
            }
        }
    };
    assert(parts[0]@.len() == 0 ==> digits_value(parts[0]@) == 0);
    assert(parts.len() == 2 ==> frac == fraction_cents(parts[1]@));
    assert(parts[0]@.len() > 0 ==> whole == digits_value(parts[0]@));
    assert(parts.len() == 1 ==> frac == 0);
    let cents: u64 = whole * 100 + frac;
    assert(unsigned_cents(body@) == Some(cents as int));
    if cents > MAX_CENTS as u64 {
        return None;
    }
    if neg {
        Some(Some(-(cents as i64)))
    } else {
        Some(Some(cents as i64))
    }
}

} // verus!
