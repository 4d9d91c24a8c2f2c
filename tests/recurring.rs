use macompta::extract::parse_lines;
use macompta::line::{ConfigError, Line, Lines};
use macompta::recurring::{approx_eq_pct_ref, dedup_lines, equivalent_lines, extract_recuring};

const HEADER: &str = "Date;Libelle simplifie;Libelle operation;Reference;Info;Type;Categorie;Sous categorie;Debit;Credit\n";

fn statement(rows: &[&str]) -> Lines {
    let mut text = HEADER.to_string();
    for r in rows {
        text.push_str(r);
        text.push('\n');
    }
    parse_lines(&text, "s".to_string()).unwrap()
}

fn line(label: &str, debit: Option<i64>, credit: Option<i64>) -> Line {
    Line::new(
        "01/01/2025".to_string(),
        label.to_string(),
        label.to_string(),
        "".to_string(),
        "C".to_string(),
        "S".to_string(),
        debit,
        credit,
    )
}

#[test]
fn two_identical_records_in_one_month_recur_once() {
    let lines = statement(&[
        "22/03/2025;AREA;CB AREA NFC FACT 200325;;;Carte bancaire;Transports;Peage et Stationnement;-2,4;",
        "22/03/2025;AREA;CB AREA NFC FACT 200325;;;Carte bancaire;Transports;Peage et Stationnement;-2,4;",
    ]);
    assert!(equivalent_lines(&lines.lines()[0], &lines.lines()[1], 0));
    assert_eq!(lines.recurring_months, 1);
    assert_eq!(lines.recurring().len(), 1);
    assert_eq!(lines.recurring()[0].libelle_simplifie(), "AREA");
    assert_eq!(lines.recurring()[0].debit(), Some(-240));
}

#[test]
fn monthly_subscription_in_five_of_six_months_recurs() {
    let lines = statement(&[
        "05/01/2025;NETFLIX;PRLV NETFLIX;;;;Loisirs;Streaming;-9,99;",
        "05/02/2025;NETFLIX;PRLV NETFLIX;;;;Loisirs;Streaming;-9,99;",
        "05/03/2025;NETFLIX;PRLV NETFLIX;;;;Loisirs;Streaming;-9,99;",
        "05/04/2025;NETFLIX;PRLV NETFLIX;;;;Loisirs;Streaming;-9,99;",
        "05/05/2025;NETFLIX;PRLV NETFLIX;;;;Loisirs;Streaming;-9,99;",
        "20/06/2025;BOULANGERIE;CB BOULANGERIE;;;;Alimentation;Pain;-1,20;",
    ]);
    assert_eq!(lines.months_count(), 6);
    assert_eq!(lines.recurring_months, 5);
    let rec = lines.recurring();
    assert_eq!(rec.len(), 1);
    assert_eq!(rec[0].libelle_simplifie(), "NETFLIX");
    assert_eq!(rec[0].date_raw(), "05/01/2025");
}

#[test]
fn zero_reference_ignores_tolerance() {
    assert!(approx_eq_pct_ref(0, 0, 50));
    assert!(!approx_eq_pct_ref(0, 1, 50));
    assert!(!approx_eq_pct_ref(0, -1, 10_000));
    assert!(approx_eq_pct_ref(1, 0, 100));
}

#[test]
fn tolerance_is_relative_to_the_reference() {
    assert!(approx_eq_pct_ref(-1000, -1100, 10));
    assert!(!approx_eq_pct_ref(-1000, -1101, 10));
    assert!(approx_eq_pct_ref(-1000, -900, 10));
    assert!(approx_eq_pct_ref(-999, -999, 0));
    assert!(!approx_eq_pct_ref(-999, -1000, 0));
    assert!(approx_eq_pct_ref(i64::MIN, i64::MAX, 300));
}

#[test]
fn raising_tolerance_keeps_recurring_transactions() {
    let mut lines = statement(&[
        "05/01/2025;EDF;PRLV EDF;;;;Logement;Energie;-50,00;",
        "05/02/2025;EDF;PRLV EDF;;;;Logement;Energie;-54,00;",
        "05/03/2025;EDF;PRLV EDF;;;;Logement;Energie;-52,00;",
        "10/01/2025;LOYER;LOYER;;;;Logement;Loyer;-700;",
        "10/02/2025;LOYER;LOYER;;;;Logement;Loyer;-700;",
        "10/03/2025;LOYER;LOYER;;;;Logement;Loyer;-700;",
    ]);
    assert_eq!(lines.months_count(), 3);
    lines.set_recurring(3, 0).unwrap();
    let strict: Vec<String> = lines.recurring().iter().map(|l| l.libelle_simplifie().to_string()).collect();
    assert_eq!(strict, vec!["LOYER".to_string()]);
    lines.set_recurring(3, 10).unwrap();
    let loose: Vec<(String, Option<i64>)> =
        lines.recurring().iter().map(|l| (l.libelle_simplifie().to_string(), l.debit())).collect();
    assert_eq!(loose, vec![("EDF".to_string(), Some(-5000)), ("LOYER".to_string(), Some(-70000))]);
    assert_eq!(extract_recuring(&lines).len(), 2);
}

#[test]
fn out_of_range_parameters_are_refused() {
    let mut lines = statement(&[
        "05/01/2025;A;A;;;;C;S;-1;",
        "05/02/2025;A;A;;;;C;S;-1;",
    ]);
    let before = lines.recurring().to_vec();
    assert_eq!(lines.set_recurring(0, 0), Err(ConfigError::WindowOutOfRange));
    assert_eq!(lines.set_recurring(3, 0), Err(ConfigError::WindowOutOfRange));
    assert_eq!(lines.set_recurring(2, 10_001), Err(ConfigError::ToleranceOutOfRange));
    assert_eq!(lines.recurring(), before.as_slice());
    assert_eq!(lines.recurring_months, 1);
    assert_eq!(lines.set_recurring(2, 10_000), Ok(()));
    assert_eq!(lines.recurring_months, 2);
    assert_eq!(lines.recurring_approx, 10_000);
}

#[test]
fn dedup_twice_is_dedup_once() {
    let s = vec![
        line("A", Some(-100), None),
        line("A", Some(-105), None),
        line("B", None, Some(200)),
        line("A", Some(-100), None),
        line("B", None, Some(210)),
    ];
    let once = dedup_lines(&s, 5);
    assert_eq!(once, vec![line("A", Some(-100), None), line("B", None, Some(200))]);
    let twice = dedup_lines(&once, 5);
    assert_eq!(twice, once);
    let strict = dedup_lines(&s, 0);
    assert_eq!(strict.len(), 4);
    assert_eq!(dedup_lines(&strict, 0), strict);
}

#[test]
fn labels_must_match_exactly() {
    assert!(!equivalent_lines(&line("Netflix", Some(-999), None), &line("NETFLIX", Some(-999), None), 10_000));
    assert!(equivalent_lines(&line("X", None, None), &line("X", None, None), 0));
}
