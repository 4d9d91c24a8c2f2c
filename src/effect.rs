//! Requests raised by the views, and how they change what the user selected.
use vstd::prelude::*;

verus! {

/// A request raised by a view for the next frame.
pub enum Effect {
    ClearLines,
    IncreaseScale,
    DecreaseScale,
    SelectCategory(Option<String>),
    SelectSubCategory(Option<String>),
    SetFilterText(String),
    RecomputeRecurring,
}

/// What is left to do, outside the selection, once an effect is applied.
#[derive(Debug, Clone, Copy, PartialEq, Eq, Structural)]
pub enum Action {
    Nothing,
    ClearLines,
    IncreaseScale,
    DecreaseScale,
    RecomputeRecurring,
}

/// Which transactions the user chose to look at: at most one of a category
/// and a sub-category, and a text to search for.
pub struct ViewSelection {
    pub selected_category: Option<String>,
    pub selected_sub_category: Option<String>,
    pub filter_text: String,
}

impl ViewSelection {
    /// Nothing selected, no search text.
    pub fn new() -> (r: ViewSelection)
        ensures
            r.selected_category is None,
            r.selected_sub_category is None,
            r.filter_text@ == Seq::<char>::empty(),
    {
        ViewSelection { selected_category: None, selected_sub_category: None, filter_text: String::new() }
    }

    /// Applies the selection part of `e`, and returns what else it asks for.
    /// Selecting a category drops the selected sub-category, and the other
    /// way round.
    pub fn apply(&mut self, e: Effect) -> (r: Action)
        ensures
            match e {
                Effect::SelectCategory(c) => r == Action::Nothing && final(self).selected_category == c
                    && final(self).selected_sub_category is None && final(self).filter_text == old(self).filter_text,
                Effect::SelectSubCategory(s) => r == Action::Nothing && final(self).selected_category is None
                    && final(self).selected_sub_category == s && final(self).filter_text == old(self).filter_text,
                Effect::SetFilterText(t) => r == Action::Nothing && final(self).filter_text == t
                    && final(self).selected_category == old(self).selected_category
                    && final(self).selected_sub_category == old(self).selected_sub_category,
                Effect::ClearLines => r == Action::ClearLines && *final(self) == *old(self),
                Effect::IncreaseScale => r == Action::IncreaseScale && *final(self) == *old(self),
                Effect::DecreaseScale => r == Action::DecreaseScale && *final(self) == *old(self),
                Effect::RecomputeRecurring => r == Action::RecomputeRecurring && *final(self) == *old(self),
            },
    {
        match e {
            Effect::SelectCategory(c) => {
                self.selected_category = c;
                self.selected_sub_category = None;
                Action::Nothing
            },
            Effect::SelectSubCategory(s) => {
                self.selected_category = None;
                self.selected_sub_category = s;
                Action::Nothing
            },
            Effect::SetFilterText(t) => {
                self.filter_text = t;
                Action::Nothing
            },
            Effect::ClearLines => Action::ClearLines,
            Effect::IncreaseScale => Action::IncreaseScale,
            Effect::DecreaseScale => Action::DecreaseScale,
            Effect::RecomputeRecurring => Action::RecomputeRecurring,
        }
    }
}

} // verus!
