//! What goes into the dispatcher and what comes out of it: the events that
//! the window and the roll tasks raise, and the commands that the dispatcher
//! answers with.

use crate::roll::{outcome_views, EvaluationError, RollOutcome, RollOutcomeView};
use vstd::prelude::*;

verus! {

/// The events that the dispatcher handles. There are no others.
#[derive(Debug)]
pub enum Event {
    /// The text shown in the input field has changed; this is the text now
    /// shown.
    InputChanged(String),
    /// The user has asked for a roll, with the activation key or with the
    /// button.
    SubmitRequested,
    /// A roll task has finished with this outcome.
    RollCompleted(RollOutcome),
    /// The user has closed the window.
    ShutdownRequested,
}

/// An [`Event`] in contracts.
pub enum EventView {
    InputChanged(Seq<char>),
    SubmitRequested,
    RollCompleted(RollOutcomeView),
    ShutdownRequested,
}

impl View for Event {
    type V = EventView;

    open spec fn view(&self) -> EventView {
        match self {
            Event::InputChanged(text) => EventView::InputChanged(text@),
            Event::SubmitRequested => EventView::SubmitRequested,
            Event::RollCompleted(rolled) => EventView::RollCompleted(rolled@),
            Event::ShutdownRequested => EventView::ShutdownRequested,
        }
    }
}

/// What the dispatcher asks of its surroundings after an event.
#[derive(Debug)]
pub enum Command {
    /// Show this text in the input field.
    SetInputText(String),
    /// Show these rows, the first on top, in place of those shown.
    ReplaceHistoryRows(Vec<RollOutcome>),
    /// Start a task that rolls this expression, off the thread that serves
    /// the window.
    SpawnRoll(String),
    /// Leave the event loop.
    Quit,
}

/// A [`Command`] in contracts.
pub enum CommandView {
    SetInputText(Seq<char>),
    ReplaceHistoryRows(Seq<RollOutcomeView>),
    SpawnRoll(Seq<char>),
    Quit,
}

impl View for Command {
    type V = CommandView;

    open spec fn view(&self) -> CommandView {
        match self {
            Command::SetInputText(text) => CommandView::SetInputText(text@),
            Command::ReplaceHistoryRows(rows) => CommandView::ReplaceHistoryRows(
                outcome_views(rows@),
            ),
            Command::SpawnRoll(expression) => CommandView::SpawnRoll(expression@),
            Command::Quit => CommandView::Quit,
        }
    }
}

/// The views of a run of commands, in the same order.
pub open spec fn command_views(commands: Seq<Command>) -> Seq<CommandView> {
    Seq::new(commands.len(), |i: int| commands[i]@)
}

/// The event that a finished roll task raises: a completion for a roll that
/// succeeded, none for one that failed.
pub open spec fn completion(
    result: Result<RollOutcomeView, EvaluationError>,
) -> Option<EventView> {
    match result {
        Ok(rolled) => Some(EventView::RollCompleted(rolled)),
        Err(_) => None,
    }
}

/// Turns the result of a roll task into the event it raises.
///
/// This is the one place where a failed roll is dropped: it raises no event,
/// so nothing of it reaches the dispatcher or the window.
pub fn completion_event(result: Result<RollOutcome, EvaluationError>) -> (event: Option<Event>)
    ensures
        match result {
            Ok(rolled) => event matches Some(raised) && raised@ == EventView::RollCompleted(
                rolled@,
            ),
            Err(_) => event is None,
        },
{
    match result {
        Ok(rolled) => Some(Event::RollCompleted(rolled)),
        Err(_) => None,
    }
}

} // verus!
