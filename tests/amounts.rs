use macompta::text::parse_amount;

fn amount(s: &str) -> Option<Option<i64>> {
    let chars: Vec<char> = s.chars().collect();
    parse_amount(&chars)
}

#[test]
fn amounts_with_decimal_comma() {
    assert_eq!(amount("-2,4"), Some(Some(-240)));
    assert_eq!(amount("-76,18"), Some(Some(-7618)));
    assert_eq!(amount("800"), Some(Some(80000)));
    assert_eq!(amount("+3,05"), Some(Some(305)));
    assert_eq!(amount(",5"), Some(Some(50)));
    assert_eq!(amount("7,"), Some(Some(700)));
    assert_eq!(amount("0"), Some(Some(0)));
}

#[test]
fn empty_amount_is_absent() {
    assert_eq!(amount(""), Some(None));
}

#[test]
fn malformed_amounts_are_refused() {
    for bad in ["abc", "-", ",", "1,2,3", "1.5", "1,2a4", "--1", " 1", "10000000000000,01"] {
        assert_eq!(amount(bad), None, "{bad}");
    }
    assert_eq!(amount("10000000000000"), Some(Some(1_000_000_000_000_000)));
}

#[test]
fn extra_decimals_round_to_the_nearest_cent() {
    assert_eq!(amount("1,234"), Some(Some(123)));
    assert_eq!(amount("1,235"), Some(Some(124)));
    assert_eq!(amount("-1,2349"), Some(Some(-123)));
    assert_eq!(amount("-1,995"), Some(Some(-200)));
    assert_eq!(amount("0,0049"), Some(Some(0)));
    assert_eq!(amount("-76,180"), Some(Some(-7618)));
}
