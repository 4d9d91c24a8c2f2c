//! Which transactions the list view shows for a selection and a search
//! text.
use vstd::prelude::*;

use crate::line::Line;
use crate::text::string_from_chars;

verus! {

/// What std's `str::to_lowercase` makes of a text.
pub uninterp spec fn lower_of(s: Seq<char>) -> Seq<char>;

/// Relies on std's `str::to_lowercase`, whose result depends on the
/// characters alone (Unicode lowercase mapping); an empty text stays empty.
#[verifier::external_body]
fn lowercase(s: &str) -> (r: String)
    ensures
        r@ == lower_of(s@),
        s@.len() == 0 ==> r@.len() == 0,
{
    s.to_lowercase()
}

/// `needle` occurs in `hay` as a run of consecutive characters.
pub open spec fn occurs_in(hay: Seq<char>, needle: Seq<char>) -> bool {
    exists|i: int| 0 <= i && i + needle.len() <= hay.len() && #[trigger] hay.subrange(i, i + needle.len()) == needle
}

/// Whether `needle` occurs in `hay`.
pub fn occurs(hay: &[char], needle: &[char]) -> (r: bool)
    ensures
        r == occurs_in(hay@, needle@),
{
    if needle.len() > hay.len() {
        return false;
    }
    let mut i: usize = 0;
    while i <= hay.len() - needle.len()
        invariant
            needle.len() <= hay.len(),
            i <= hay.len() - needle.len() + 1,
            forall|k: int| 0 <= k < i ==> #[trigger] hay@.subrange(k, k + needle.len()) != needle@,
        decreases hay.len() - i,
    {
        let mut j: usize = 0;
        let mut same = true;
        while j < needle.len()
            invariant
                i + needle.len() <= hay.len(),
                j <= needle.len(),
                same <==> forall|x: int| 0 <= x < j ==> hay[i + x] == needle[x],
            decreases needle.len() - j,
        {
            if hay[i + j] != needle[j] {
                same = false;
            }
            j = j + 1;
        }
        if same {
            assert(hay@.subrange(i as int, i + needle.len()) =~= needle@);
            return true;
        }
        assert(hay@.subrange(i as int, i + needle.len()) != needle@) by {
            let x = choose|x: int| 0 <= x < needle.len() && hay[i + x] != needle[x];
            assert(hay@.subrange(i as int, i + needle.len())[x] == hay[i + x]);
        }
        i = i + 1;
    }
    false
}

pub open spec fn digit_char(d: int) -> char {
    if d == 0 {
        '0'
    } else if d == 1 {
        '1'
    } else if d == 2 {
        '2'
    } else if d == 3 {
        '3'
    } else if d == 4 {
        '4'
    } else if d == 5 {
        '5'
    } else if d == 6 {
        '6'
    } else if d == 7 {
        '7'
    } else if d == 8 {
        '8'
    } else {
        '9'
    }
}

/// The decimal digits of `n`, without leading zeros.
pub open spec fn decimal(n: nat) -> Seq<char>
    decreases n,
{
    if n < 10 {
        seq![digit_char(n as int)]
    } else {
        decimal(n / 10).push(digit_char((n % 10) as int))
    }
}

/// An amount in cents written with a dot and two decimals, as `-2.40`.
pub open spec fn cents_text(v: int) -> Seq<char> {
    let m = if v < 0 {
        -v
    } else {
        v
    };
    let sign = if v < 0 {
        seq!['-']
    } else {
        Seq::<char>::empty()
    };
    sign + decimal((m / 100) as nat) + seq!['.', digit_char((m % 100) / 10), digit_char(m % 10)]
}

fn digit(d: u128) -> (c: char)
    requires
        d < 10,
    ensures
        c == digit_char(d as int),
{
    if d == 0 {
        '0'
    } else if d == 1 {
        '1'
    } else if d == 2 {
        '2'
    } else if d == 3 {
        '3'
    } else if d == 4 {
        '4'
    } else if d == 5 {
        '5'
    } else if d == 6 {
        '6'
    } else if d == 7 {
        '7'
    } else if d == 8 {
        '8'
    } else {
        '9'
    }
}

fn decimal_chars(n: u128) -> (r: Vec<char>)
    ensures
        r@ == decimal(n as nat),
    decreases n,
{
    if n < 10 {
        let mut r: Vec<char> = Vec::new();
        r.push(digit(n));
        assert(r@ =~= seq![digit_char(n as int)]);
        r
    } else {
        let mut r = decimal_chars(n / 10);
        r.push(digit(n % 10));
        r
    }
}

/// The characters of an amount in cents written with a dot and two
/// decimals, as `-2.40`.
pub fn cents_chars(v: i128) -> (r: Vec<char>)
    ensures
        r@ == cents_text(v as int),
{
    let m: u128 = if v < 0 { (-(v + 1)) as u128 + 1 } else { v as u128 };
    let mut r: Vec<char> = Vec::new();
    if v < 0 {
        r.push('-');
    }
    let whole = decimal_chars(m / 100);
    let mut i: usize = 0;
    let ghost start = r@;
    while i < whole.len()
        invariant
            i <= whole.len(),
            r@ == start + whole@.take(i as int),
        decreases whole.len() - i,
    {
        r.push(whole[i]);
        assert(whole@.take(i as int + 1) =~= whole@.take(i as int).push(whole[i as int]));
        i = i + 1;
    }
    r.push('.');
    r.push(digit((m % 100) / 10));
    r.push(digit(m % 10));
    assert(whole@.take(i as int) =~= whole@);
    assert(start =~= (if v < 0 { seq!['-'] } else { Seq::<char>::empty() }));
    assert(r@ =~= cents_text(v as int));
    r
}

/// An amount written with a dot and two decimals, or nothing when absent.
pub open spec fn amount_text(o: Option<i64>) -> Seq<char> {
    match o {
        Some(v) => cents_text(v as int),
        None => Seq::empty(),
    }
}

/// The amount written with a dot and two decimals, as `-2.40`, or an empty
/// string when absent.
pub fn amount_string(o: Option<i64>) -> (r: String)
    ensures
        r@ == amount_text(o),
{
    match o {
        Some(v) => {
            let c = cents_chars(v as i128);
            string_from_chars(c.as_slice())
        },
        None => string_from_chars(&[]),
    }
}

/// A total in cents written with a dot and two decimals, as `-2.40`.
pub fn cents_string(v: i128) -> (r: String)
    ensures
        r@ == cents_text(v as int),
{
    let c = cents_chars(v);
    string_from_chars(c.as_slice())
}

/// The line lies in the selected category and the selected sub-category,
/// where one is selected.
pub open spec fn in_selection(l: Line, category: Option<String>, sub: Option<String>) -> bool {
    &&& (category matches Some(c) ==> l.categorie@ == c@)
    &&& (sub matches Some(s) ==> l.sous_categorie@ == s@)
}

/// Whether `l` lies in the selected category and sub-category.
pub fn selected_by(l: &Line, category: &Option<String>, sub: &Option<String>) -> (r: bool)
    ensures
        r == in_selection(*l, *category, *sub),
{
    let c_ok = match category {
        Some(c) => l.categorie == *c,
        None => true,
    };
    let s_ok = match sub {
        Some(s) => l.sous_categorie == *s,
        None => true,
    };
    c_ok && s_ok
}

/// An empty search matches everything; otherwise the search must occur in
/// one of the texts.
pub open spec fn search_hit(texts: Seq<Seq<char>>, search: Seq<char>) -> bool {
    search.len() == 0 || exists|k: int| 0 <= k < texts.len() && occurs_in(#[trigger] texts[k], search)
}

/// Whether the search text `search` is empty or occurs in one of `texts`.
pub fn search_hits(texts: &Vec<Vec<char>>, search: &[char]) -> (r: bool)
    ensures
        r == search_hit(Seq::new(texts.len() as nat, |k: int| texts[k]@), search@),
{
    let ghost ts = Seq::new(texts.len() as nat, |k: int| texts[k]@);
    if search.len() == 0 {
        return true;
    }
    let mut k: usize = 0;
    while k < texts.len()
        invariant
            k <= texts.len(),
            ts == Seq::new(texts.len() as nat, |k: int| texts[k]@),
            forall|x: int| 0 <= x < k ==> !occurs_in(#[trigger] ts[x], search@),
        decreases texts.len() - k,
    {
        if occurs(texts[k].as_slice(), search) {
            assert(occurs_in(ts[k as int], search@));
            return true;
        }
        k = k + 1;
    }
    false
}

/// The texts of a line that a search looks into, the labels and the
/// classification lowercased: short label, full label, category,
/// sub-category, debit and credit.
pub open spec fn searched_texts(l: Line) -> Seq<Seq<char>> {
    seq![
        lower_of(l.libelle_simplifie@),
        lower_of(l.libelle_operation@),
        lower_of(l.categorie@),
        lower_of(l.sous_categorie@),
        amount_text(l.debit),
        amount_text(l.credit),
    ]
}

/// Whether the list view shows `l`: it lies in the selection, and the
/// lowercased search text is empty or occurs in one of its lowercased
/// labels or written amounts.
pub fn line_matches(l: &Line, category: &Option<String>, sub: &Option<String>, search: &str) -> (r: bool)
    ensures
        r == (in_selection(*l, *category, *sub) && search_hit(searched_texts(*l), lower_of(search@))),
{
    if !selected_by(l, category, sub) {
        return false;
    }
    let mut texts: Vec<Vec<char>> = Vec::new();
    texts.push(crate::text::chars_of(lowercase(l.libelle_simplifie.as_str()).as_str()));
    texts.push(crate::text::chars_of(lowercase(l.libelle_operation.as_str()).as_str()));
    texts.push(crate::text::chars_of(lowercase(l.categorie.as_str()).as_str()));
    texts.push(crate::text::chars_of(lowercase(l.sous_categorie.as_str()).as_str()));
    texts.push(match l.debit {
        Some(v) => cents_chars(v as i128),
        None => Vec::new(),
    });
    texts.push(match l.credit {
        Some(v) => cents_chars(v as i128),
        None => Vec::new(),
    });
    let folded = crate::text::chars_of(lowercase(search).as_str());
    let hit = search_hits(&texts, folded.as_slice());
    assert(Seq::new(texts.len() as nat, |k: int| texts[k]@) =~= searched_texts(*l));
    hit
}

} // verus!
