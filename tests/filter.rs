use macompta::filter::{amount_string, cents_string, line_matches, occurs, search_hits, selected_by};
use macompta::line::Line;

fn line() -> Line {
    Line::new(
        "05/01/2025".to_string(),
        "NETFLIX".to_string(),
        "PRLV SEPA NETFLIX.COM".to_string(),
        "".to_string(),
        "Loisirs".to_string(),
        "Streaming".to_string(),
        Some(-999),
        None,
    )
}

fn chars(s: &str) -> Vec<char> {
    s.chars().collect()
}

#[test]
fn search_is_case_insensitive() {
    let l = line();
    assert!(line_matches(&l, &None, &None, "netflix"));
    assert!(line_matches(&l, &None, &None, "Sepa"));
    assert!(line_matches(&l, &None, &None, "LOISIRS"));
    assert!(line_matches(&l, &None, &None, ""));
    assert!(!line_matches(&l, &None, &None, "spotify"));
}

#[test]
fn search_looks_into_written_amounts() {
    let l = line();
    assert!(line_matches(&l, &None, &None, "-9.99"));
    assert!(!line_matches(&l, &None, &None, "9,99"));
    assert_eq!(amount_string(Some(-999)), "-9.99");
    assert_eq!(amount_string(Some(-240)), "-2.40");
    assert_eq!(amount_string(Some(80000)), "800.00");
    assert_eq!(amount_string(Some(5)), "0.05");
    assert_eq!(amount_string(None), "");
}

#[test]
fn selection_by_category_and_sub_category() {
    let l = line();
    assert!(selected_by(&l, &Some("Loisirs".to_string()), &None));
    assert!(selected_by(&l, &None, &Some("Streaming".to_string())));
    assert!(!selected_by(&l, &Some("Alimentation".to_string()), &None));
    assert!(!line_matches(&l, &Some("Alimentation".to_string()), &None, "netflix"));
    assert!(!line_matches(&l, &None, &Some("Cinema".to_string()), ""));
}

#[test]
fn substring_search() {
    assert!(occurs(&chars("abcabd"), &chars("abd")));
    assert!(occurs(&chars("abc"), &chars("")));
    assert!(!occurs(&chars("ab"), &chars("abc")));
    assert!(!occurs(&chars("aXbXc"), &chars("abc")));
    assert!(search_hits(&vec![chars("foo"), chars("bar")], &chars("ar")));
    assert!(!search_hits(&vec![chars("foo"), chars("bar")], &chars("baz")));
    assert!(search_hits(&vec![], &chars("")));
}

#[test]
fn totals_are_written_with_two_decimals() {
    assert_eq!(cents_string(-7963), "-79.63");
    assert_eq!(cents_string(-5), "-0.05");
    assert_eq!(cents_string(0), "0.00");
    assert_eq!(cents_string(120000), "1200.00");
    assert_eq!(cents_string(i128::MIN), "-1701411834604692317316873037158841057.28");
}
