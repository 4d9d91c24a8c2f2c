use macompta::extract::{parse_lines, ParseErrorReason, TryIntoLines, TryIntoLinesError};
use macompta::line::Line;

const RAW: &str = "Date de comptabilisation;Libelle simplifie;Libelle operation;Reference;Informations complementaires;Type operation;Categorie;Sous categorie;Debit;Credit;Date operation;Date de valeur;Pointage operation
22/03/2025;AREA;CB AREA NFC FACT 200325;;;Carte bancaire;Transports;Peage et Stationnement;-2,4;;20/03/2025;24/03/2025;0
22/03/2025;AREA;CB AREA NFC FACT 200325;;;Carte bancaire;Transports;Peage et Stationnement;-2,4;;20/03/2025;24/03/2025;0
22/03/2025;BOULANGERIE DU;CB BOULANGERIE DU FACT 200325;;;Carte bancaire;Alimentation;Alimentation - autre;-3,45;;20/03/2025;24/03/2025;0
21/03/2025;VIREMENT VERS CPT DEPOT PART.;VIREMENT VERS CPT DEPOT PART.;2508085IN0103420;;Virement recu;Transaction exclue;Virement interne;;800;21/03/2025;21/03/2025;0
21/03/2025;RENFLOUEMENT;RENFLOUEMENT;2508085IN0073599;;Virement recu;Transaction exclue;Virement interne;;400;21/03/2025;21/03/2025;0
21/03/2025;INTERMARCHE;CB INTERMARCHE FACT 190325;;;Carte bancaire;Alimentation;Hyper/supermarche;-76,18;;19/03/2025;21/03/2025;0
";

const HEADER: &str = "Date;Libelle simplifie;Libelle operation;Reference;Info;Type;Categorie;Sous categorie;Debit;Credit\n";

#[test]
fn extract_by_category() {
    // Given/When
    let lines = RAW.to_string().into_lines("data".to_string()).unwrap();

    // Then
    assert_eq!(
        lines.lines(),
        vec![
            Line::new(
                "22/03/2025".to_string(),
                "AREA".to_string(),
                "CB AREA NFC FACT 200325".to_string(),
                "".to_string(),
                "Transports".to_string(),
                "Peage et Stationnement".to_string(),
                Some(-240),
                None
            ),
            Line::new(
                "22/03/2025".to_string(),
                "AREA".to_string(),
                "CB AREA NFC FACT 200325".to_string(),
                "".to_string(),
                "Transports".to_string(),
                "Peage et Stationnement".to_string(),
                Some(-240),
                None
            ),
            Line::new(
                "22/03/2025".to_string(),
                "BOULANGERIE DU".to_string(),
                "CB BOULANGERIE DU FACT 200325".to_string(),
                "".to_string(),
                "Alimentation".to_string(),
                "Alimentation - autre".to_string(),
                Some(-345),
                None
            ),
            Line::new(
                "21/03/2025".to_string(),
                "VIREMENT VERS CPT DEPOT PART.".to_string(),
                "VIREMENT VERS CPT DEPOT PART.".to_string(),
                "2508085IN0103420".to_string(),
                "Transaction exclue".to_string(),
                "Virement interne".to_string(),
                None,
                Some(80000)
            ),
            Line::new(
                "21/03/2025".to_string(),
                "RENFLOUEMENT".to_string(),
                "RENFLOUEMENT".to_string(),
                "2508085IN0073599".to_string(),
                "Transaction exclue".to_string(),
                "Virement interne".to_string(),
                None,
                Some(40000)
            ),
            Line::new(
                "21/03/2025".to_string(),
                "INTERMARCHE".to_string(),
                "CB INTERMARCHE FACT 190325".to_string(),
                "".to_string(),
                "Alimentation".to_string(),
                "Hyper/supermarche".to_string(),
                Some(-7618),
                None
            )
        ]
    )
}

#[test]
fn raw_statement_summary() {
    let lines = parse_lines(RAW, "march".to_string()).unwrap();
    assert_eq!(lines.name(), "march");
    assert_eq!(lines.months_count(), 1);
    assert_eq!(lines.categories(), vec!["Transports".to_string(), "Alimentation".to_string(), "Transaction exclue".to_string()]);
    assert_eq!(
        lines.sub_categories(),
        vec![
            ("Transports".to_string(), "Peage et Stationnement".to_string()),
            ("Alimentation".to_string(), "Alimentation - autre".to_string()),
            ("Alimentation".to_string(), "Hyper/supermarche".to_string()),
            ("Transaction exclue".to_string(), "Virement interne".to_string()),
        ]
    );
    assert_eq!(lines.lower_date.day, 21);
    assert_eq!(lines.higher_date.day, 22);
    assert_eq!(lines.recurring_months, 1);
    assert_eq!(lines.recurring_approx, 0);
}

#[test]
fn category_total_of_single_grocery_purchase() {
    let text = format!("{HEADER}21/03/2025;INTERMARCHE;CB INTERMARCHE FACT 190325;0;;Carte;Alimentation;Hyper/supermarche;-76,18;\n");
    let lines = parse_lines(&text, "c".to_string()).unwrap();
    assert_eq!(lines.lines()[0].debit(), Some(-7618));
    assert_eq!(lines.lines()[0].reference(), "0");
    let totals = lines.categories_totals();
    assert_eq!(totals.len(), 1);
    assert_eq!(totals[0].0, "Alimentation");
    assert_eq!(totals[0].1, vec![-7618]);
    assert_eq!(totals[0].2, -7618);
    assert_eq!(totals[0].3, -7618);
}

#[test]
fn categories_sorted_by_total_then_discovery() {
    let lines = parse_lines(RAW, "march".to_string()).unwrap();
    let totals = lines.categories_totals();
    let names: Vec<&str> = totals.iter().map(|t| t.0.as_str()).collect();
    assert_eq!(names, vec!["Alimentation", "Transports", "Transaction exclue"]);
    assert_eq!(totals[0].2, -7963);
    assert_eq!(totals[1].2, -480);
    assert_eq!(totals[2].2, 120000);
    let subs = lines.sub_categories_total();
    let sub_names: Vec<&str> = subs.iter().map(|t| t.1.as_str()).collect();
    assert_eq!(sub_names, vec!["Hyper/supermarche", "Peage et Stationnement", "Alimentation - autre", "Virement interne"]);
    assert_eq!(subs[0].3, -7618);
    assert_eq!(subs[2].3, -345);
}

#[test]
fn equal_totals_keep_discovery_order() {
    let text = format!(
        "{HEADER}01/01/2025;A;A;;;;Zeta;z;-1,00;\n01/01/2025;B;B;;;;Alpha;a;-1,00;\n01/01/2025;C;C;;;;Mid;m;-2,00;\n"
    );
    let lines = parse_lines(&text, "t".to_string()).unwrap();
    let names: Vec<&str> = lines.categories_totals().iter().map(|t| t.0.as_str()).collect();
    assert_eq!(names, vec!["Mid", "Zeta", "Alpha"]);
}

#[test]
fn malformed_row_with_five_fields() {
    let text = format!("{HEADER}21/03/2025;X;X;;;\n");
    let r = parse_lines(&text, "e".to_string());
    assert!(matches!(
        r,
        Err(TryIntoLinesError::ParseError { row: 2, reason: ParseErrorReason::MissingFields })
    ));
}

#[test]
fn first_malformed_row_is_reported() {
    let text = format!("{HEADER}21/03/2025;A;A;;;;C;S;-1;\n21/03/2025;B;B;;;;C;S;abc;\n21/03/2025;X\n");
    let r = parse_lines(&text, "e".to_string());
    assert!(matches!(
        r,
        Err(TryIntoLinesError::ParseError { row: 3, reason: ParseErrorReason::InvalidDebit })
    ));
}

#[test]
fn invalid_dates_are_refused() {
    for bad in ["31/02/2025", "2025-03-01", "1/13/2025", "a/b/c", "01/01", "01/01/2025/1", ""] {
        let text = format!("{HEADER}{bad};A;A;;;;C;S;-1;\n");
        let r = parse_lines(&text, "e".to_string());
        assert!(
            matches!(r, Err(TryIntoLinesError::ParseError { row: 2, reason: ParseErrorReason::InvalidDate })),
            "{bad}"
        );
    }
}

#[test]
fn leap_day_is_accepted() {
    let text = format!("{HEADER}29/02/2024;A;A;;;;C;S;-1;\n");
    let lines = parse_lines(&text, "l".to_string()).unwrap();
    assert_eq!(lines.lower_date.year, 2024);
    assert_eq!(lines.lower_date.month, 2);
    assert_eq!(lines.lower_date.day, 29);
}

#[test]
fn invalid_credit_is_refused() {
    let text = format!("{HEADER}01/01/2025;A;A;;;;C;S;;12,3x\n");
    let r = parse_lines(&text, "e".to_string());
    assert!(matches!(
        r,
        Err(TryIntoLinesError::ParseError { row: 2, reason: ParseErrorReason::InvalidCredit })
    ));
}

#[test]
fn statement_without_rows() {
    assert!(matches!(parse_lines(HEADER, "e".to_string()), Err(TryIntoLinesError::NoRecords)));
    assert!(matches!(parse_lines("", "e".to_string()), Err(TryIntoLinesError::NoRecords)));
}

#[test]
fn crlf_line_endings_are_accepted() {
    let text = "h\r\n01/01/2025;A;A;;;;C;S;-1,5;\r\n02/01/2025;B;B;;;;C;S;;3\r\n";
    let lines = parse_lines(text, "w".to_string()).unwrap();
    assert_eq!(lines.lines().len(), 2);
    assert_eq!(lines.lines()[0].debit(), Some(-150));
    assert_eq!(lines.lines()[1].credit(), Some(300));
    assert_eq!(lines.lines()[1].date_raw(), "02/01/2025");
}

#[test]
fn fields_keep_their_text() {
    let lines = parse_lines(RAW, "f".to_string()).unwrap();
    let l = &lines.lines()[3];
    assert_eq!(l.libelle_simplifie(), "VIREMENT VERS CPT DEPOT PART.");
    assert_eq!(l.libelle_operation(), "VIREMENT VERS CPT DEPOT PART.");
    assert_eq!(l.reference(), "2508085IN0103420");
    assert_eq!(l.categorie(), "Transaction exclue");
    assert_eq!(l.sous_categorie(), "Virement interne");
    assert_eq!(l.debit(), None);
}
