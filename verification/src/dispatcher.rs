//! The dispatcher: the one place where the model changes. It takes one event
//! at a time, applies it to the model, and answers with the commands that
//! bring the window back in line with the model.

use crate::event::{command_views, Command, CommandView, Event, EventView};
use crate::model::{Model, ModelView};
use crate::roll::{outcome_views, RollOutcome, RollOutcomeView};
use vstd::prelude::*;

verus! {

/// The two states of the dispatcher.
#[derive(Clone, Copy, Debug, PartialEq, Eq, Structural)]
pub enum Phase {
    /// Events are handled.
    Running,
    /// The window has been closed. Nothing is handled any more.
    Terminated,
}

/// The dispatcher in contracts: its model and its phase.
pub struct State {
    pub model: ModelView,
    pub phase: Phase,
}

impl State {
    /// The state at the start of a session: an empty model, running.
    pub open spec fn initial() -> State {
        State { model: ModelView::empty(), phase: Phase::Running }
    }

    /// This state with another text in the entry.
    pub open spec fn with_entry_text(self, text: Seq<char>) -> State {
        State { model: ModelView { entry_text: text, history: self.model.history }, phase: self.phase }
    }

    /// This state with one more roll at the end of the history.
    pub open spec fn with_roll(self, rolled: RollOutcomeView) -> State {
        State {
            model: ModelView {
                entry_text: self.model.entry_text,
                history: self.model.history.push(rolled),
            },
            phase: self.phase,
        }
    }

    /// This state after the window was closed.
    pub open spec fn terminated(self) -> State {
        State { model: self.model, phase: Phase::Terminated }
    }
}

/// The rows that show a history: every roll, the most recent first.
pub open spec fn rows_of(history: Seq<RollOutcomeView>) -> Seq<RollOutcomeView> {
    history.reverse()
}

/// What one event does: the state after it, and the commands it gives rise
/// to, in the order in which they are issued.
///
/// Commands carry what the model holds after the event. Only the part of the
/// window that the event has made stale is written again.
pub open spec fn step(state: State, event: EventView) -> (State, Seq<CommandView>) {
    if state.phase == Phase::Terminated {
        (state, Seq::empty())
    } else {
        match event {
            EventView::InputChanged(text) => (
                state.with_entry_text(text),
                seq![CommandView::SetInputText(text)],
            ),
            EventView::SubmitRequested => (
                state.with_entry_text(Seq::empty()),
                seq![
                    CommandView::SpawnRoll(state.model.entry_text),
                    CommandView::SetInputText(Seq::empty()),
                ],
            ),
            EventView::RollCompleted(rolled) => (
                state.with_roll(rolled),
                seq![CommandView::ReplaceHistoryRows(rows_of(state.model.history.push(rolled)))],
            ),
            EventView::ShutdownRequested => (state.terminated(), seq![CommandView::Quit]),
        }
    }
}

/// The rows that show `history`: a copy of every roll, the most recent first.
pub fn history_rows(history: &Vec<RollOutcome>) -> (rows: Vec<RollOutcome>)
    ensures
        outcome_views(rows@) == rows_of(outcome_views(history@)),
{
    let mut rows: Vec<RollOutcome> = Vec::new();
    let mut left: usize = history.len();
    while left > 0
        invariant
            left <= history.len(),
            rows.len() == history.len() - left,
            forall|k: int| 0 <= k < rows.len() ==> rows@[k]@ == history@[history.len() - 1 - k]@,
        decreases left,
    {
        left = left - 1;
        rows.push(history[left].clone());
    }
    assert(outcome_views(rows@) =~= rows_of(outcome_views(history@)));
    rows
}

/// The owner of the model.
///
/// The model can be read through [`Dispatcher::model`] and changes in
/// [`Dispatcher::handle`] alone.
#[derive(Debug)]
pub struct Dispatcher {
    model: Model,
    phase: Phase,
}

impl View for Dispatcher {
    type V = State;

    closed spec fn view(&self) -> State {
        State { model: self.model@, phase: self.phase }
    }
}

impl Dispatcher {
    /// A dispatcher at the start of a session.
    pub fn new() -> (dispatcher: Self)
        ensures
            dispatcher@ == State::initial(),
    {
        Dispatcher { model: Model::new(), phase: Phase::Running }
    }

    /// The model as it stands.
    pub fn model(&self) -> (model: &Model)
        ensures
            model@ == self@.model,
    {
        &self.model
    }

    /// Whether the window has been closed.
    pub fn is_terminated(&self) -> (terminated: bool)
        ensures
            terminated == (self@.phase == Phase::Terminated),
    {
        match self.phase {
            Phase::Running => false,
            Phase::Terminated => true,
        }
    }

    /// Handles one event: changes the model as [`step`] says and returns the
    /// commands that `step` gives, in order.
    ///
    /// No roll is ever taken out of the history or changed in it.
    pub fn handle(&mut self, event: Event) -> (commands: Vec<Command>)
        ensures
            final(self)@ == step(old(self)@, event@).0,
            command_views(commands@) == step(old(self)@, event@).1,
            old(self)@.model.history.is_prefix_of(final(self)@.model.history),
    {
        let mut commands: Vec<Command> = Vec::new();
        if self.is_terminated() {
            assert(command_views(commands@) =~= Seq::empty());
            return commands;
        }
        match event {
            Event::InputChanged(text) => {
                self.model.entry_text = text;
                commands.push(Command::SetInputText(self.model.entry_text.clone()));
            },
            Event::SubmitRequested => {
                let expression = self.model.entry_text.clone();
                commands.push(Command::SpawnRoll(expression));
                self.model.entry_text = String::new();
                commands.push(Command::SetInputText(self.model.entry_text.clone()));
            },
            Event::RollCompleted(rolled) => {
                let ghost before = outcome_views(self.model.history@);
                self.model.history.push(rolled);
                assert(outcome_views(self.model.history@) =~= before.push(rolled@));
                commands.push(Command::ReplaceHistoryRows(history_rows(&self.model.history)));
            },
            Event::ShutdownRequested => {
                self.phase = Phase::Terminated;
                commands.push(Command::Quit);
            },
        }
        assert(command_views(commands@) =~= step(old(self)@, event@).1);
        commands
    }
}

} // verus!
