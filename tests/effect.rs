use macompta::effect::{Action, Effect, ViewSelection};

#[test]
fn selecting_category_clears_sub_category() {
    let mut v = ViewSelection::new();
    assert_eq!(v.apply(Effect::SelectSubCategory(Some("Pain".to_string()))), Action::Nothing);
    assert_eq!(v.selected_sub_category.as_deref(), Some("Pain"));
    assert_eq!(v.apply(Effect::SelectCategory(Some("Alimentation".to_string()))), Action::Nothing);
    assert_eq!(v.selected_category.as_deref(), Some("Alimentation"));
    assert_eq!(v.selected_sub_category, None);
    assert_eq!(v.apply(Effect::SelectSubCategory(None)), Action::Nothing);
    assert_eq!(v.selected_category, None);
}

#[test]
fn other_effects_are_handed_back() {
    let mut v = ViewSelection::new();
    assert_eq!(v.apply(Effect::SetFilterText("edf".to_string())), Action::Nothing);
    assert_eq!(v.filter_text, "edf");
    assert_eq!(v.apply(Effect::ClearLines), Action::ClearLines);
    assert_eq!(v.apply(Effect::IncreaseScale), Action::IncreaseScale);
    assert_eq!(v.apply(Effect::DecreaseScale), Action::DecreaseScale);
    assert_eq!(v.apply(Effect::RecomputeRecurring), Action::RecomputeRecurring);
    assert_eq!(v.filter_text, "edf");
}
