//! The application model: the single source of truth that the dispatcher
//! keeps.

use crate::roll::{outcome_views, RollOutcome, RollOutcomeView};
use vstd::prelude::*;

verus! {

/// The state of the program: a plain record, with no behaviour of its own.
#[derive(Debug)]
pub struct Model {
    /// What the input field should show.
    pub entry_text: String,
    /// The rolls of this session, the oldest first.
    pub history: Vec<RollOutcome>,
}

/// A [`Model`] in contracts.
pub struct ModelView {
    pub entry_text: Seq<char>,
    pub history: Seq<RollOutcomeView>,
}

impl ModelView {
    /// No text and no rolls.
    pub open spec fn empty() -> ModelView {
        ModelView { entry_text: Seq::empty(), history: Seq::empty() }
    }
}

impl View for Model {
    type V = ModelView;

    open spec fn view(&self) -> ModelView {
        ModelView { entry_text: self.entry_text@, history: outcome_views(self.history@) }
    }
}

impl Model {
    /// The model at the start of a session.
    pub fn new() -> (model: Self)
        ensures
            model@ == ModelView::empty(),
    {
        let model = Model { entry_text: String::new(), history: Vec::new() };
        assert(outcome_views(model.history@) =~= Seq::empty());
        model
    }
}

} // verus!
