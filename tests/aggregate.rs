use macompta::aggregate::sorted_order;
use macompta::extract::parse_lines;
use macompta::line::Lines;

const HEADER: &str = "Date;Libelle simplifie;Libelle operation;Reference;Info;Type;Categorie;Sous categorie;Debit;Credit\n";

fn statement(rows: &[&str]) -> Lines {
    let mut text = HEADER.to_string();
    for r in rows {
        text.push_str(r);
        text.push('\n');
    }
    parse_lines(&text, "s".to_string()).unwrap()
}

fn sample() -> Lines {
    statement(&[
        "15/11/2024;SALAIRE;VIR SALAIRE;;;;Revenus;Salaire;;2500",
        "20/11/2024;CARREFOUR;CB CARREFOUR;;;;Alimentation;Hyper;-80,50;",
        "02/01/2025;CARREFOUR;CB CARREFOUR;;;;Alimentation;Hyper;-45,25;",
        "03/01/2025;BOULANGERIE;CB BOULANGERIE;;;;Alimentation;Pain;-3,10;",
        "04/01/2025;EPARGNE;VIR EPARGNE;;;;Transaction exclue;Virement interne;-500;",
        "28/02/2025;SALAIRE;VIR SALAIRE;;;;Revenus;Salaire;;2500",
    ])
}

#[test]
fn month_vectors_add_up_to_totals() {
    let lines = sample();
    assert_eq!(lines.months_count(), 4);
    for (_, months, total, _) in lines.categories_totals() {
        assert_eq!(months.iter().sum::<i128>(), *total);
    }
    for (_, _, months, total, _) in lines.sub_categories_total() {
        assert_eq!(months.iter().sum::<i128>(), *total);
    }
    let food = lines.categories_totals().iter().find(|t| t.0 == "Alimentation").unwrap();
    assert_eq!(food.1, vec![-8050, 0, -4835, 0]);
    assert_eq!(food.2, -12885);
    assert_eq!(food.3, -3221);
}

#[test]
fn histograms_cover_every_month() {
    let lines = sample();
    let n = lines.months_count();
    for (_, _, points) in lines.categories_histogram() {
        assert_eq!(points.len(), n);
        let idx: Vec<usize> = points.iter().map(|p| p.0).collect();
        assert_eq!(idx, vec![1, 2, 3, 4]);
    }
    for (_, _, _, points) in lines.sous_categories_histogram() {
        assert_eq!(points.len(), n);
    }
    let income = &lines.categories_histogram()[0];
    assert_eq!(income.0, "Revenus");
    assert!(income.1);
    assert_eq!(income.2, vec![(1, 250000), (2, 0), (3, 0), (4, 250000)]);
    let food = &lines.categories_histogram()[1];
    assert!(!food.1);
    let bread = lines.sous_categories_histogram().iter().find(|h| h.1 == "Pain").unwrap();
    assert_eq!(bread.3, vec![(1, 0), (2, 0), (3, -310), (4, 0)]);
}

#[test]
fn monthly_sums_leave_out_internal_transfers() {
    let lines = sample();
    let sums: Vec<(i32, u32, u32, i128)> =
        lines.months_sums().iter().map(|(d, v)| (d.year, d.month, d.day, *v)).collect();
    assert_eq!(
        sums,
        vec![(2024, 11, 1, 241950), (2024, 12, 1, 0), (2025, 1, 1, -4835), (2025, 2, 1, 250000)]
    );
}

#[test]
fn month_axes() {
    let lines = sample();
    let all: Vec<(i32, u32)> = lines.all_months().iter().map(|d| (d.year, d.month)).collect();
    assert_eq!(all, vec![(2024, 11), (2024, 12), (2025, 1), (2025, 2)]);
    let active: Vec<(i32, u32)> = lines.active_months().iter().map(|d| (d.year, d.month)).collect();
    assert_eq!(active, vec![(2024, 11), (2025, 1), (2025, 2)]);
    assert_eq!((lines.lower_date.day, lines.lower_date.month), (15, 11));
    assert_eq!((lines.higher_date.day, lines.higher_date.month), (28, 2));
}

#[test]
fn sorted_order_is_stable() {
    assert_eq!(sorted_order(&vec![5, -3, 5, 0, -3]), vec![1, 4, 3, 0, 2]);
    assert_eq!(sorted_order(&vec![]), Vec::<usize>::new());
}

#[test]
fn average_rounds_toward_zero() {
    let lines = statement(&[
        "01/01/2025;A;A;;;;Neg;S;-0,10;",
        "01/03/2025;B;B;;;;Pos;S;;0,10",
    ]);
    let rows = lines.categories_totals();
    assert_eq!(rows[0].0, "Neg");
    assert_eq!((rows[0].2, rows[0].3), (-10, -3));
    assert_eq!((rows[1].2, rows[1].3), (10, 3));
}
