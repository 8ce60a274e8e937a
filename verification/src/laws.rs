//! What holds of the dispatcher over whole runs of events.

use crate::dispatcher::{rows_of, step, Phase, State};
use crate::event::{completion, CommandView, EventView};
use crate::roll::{EvaluationError, RollOutcomeView};
use vstd::prelude::*;

verus! {

/// The state after a run of events, each handled in turn.
pub open spec fn run(state: State, events: Seq<EventView>) -> State
    decreases events.len(),
{
    if events.len() == 0 {
        state
    } else {
        step(run(state, events.drop_last()), events.last()).0
    }
}

/// All the commands issued over a run of events, in order.
pub open spec fn commands_over(state: State, events: Seq<EventView>) -> Seq<CommandView>
    decreases events.len(),
{
    if events.len() == 0 {
        Seq::empty()
    } else {
        commands_over(state, events.drop_last()) + step(
            run(state, events.drop_last()),
            events.last(),
        ).1
    }
}

/// The events that a finished roll task puts on the dispatcher's queue.
pub open spec fn raised(result: Result<RollOutcomeView, EvaluationError>) -> Seq<EventView> {
    match completion(result) {
        Some(event) => seq![event],
        None => Seq::empty(),
    }
}

/// The history is append-only: whatever events are handled, in whatever
/// state, the rolls that were in the history stay where they are, unchanged.
pub proof fn law_history_only_grows(state: State, events: Seq<EventView>)
    ensures
        state.model.history.is_prefix_of(run(state, events).model.history),
    decreases events.len(),
{
    if events.len() > 0 {
        law_history_only_grows(state, events.drop_last());
    }
}

/// A running dispatcher records every completion, in the order of arrival:
/// after `n` completions the history is longer by `n`, and its new entries
/// are the outcomes that the completions carried. From the start of a
/// session, the history then holds exactly those `n` outcomes.
pub proof fn law_completions_are_recorded(state: State, events: Seq<EventView>)
    requires
        state.phase == Phase::Running,
        forall|i: int| 0 <= i < events.len() ==> events[i] is RollCompleted,
    ensures
        run(state, events).phase == Phase::Running,
        run(state, events).model.entry_text == state.model.entry_text,
        run(state, events).model.history.len() == state.model.history.len() + events.len(),
        state.model.history.is_prefix_of(run(state, events).model.history),
        forall|i: int|
            0 <= i < events.len() ==> EventView::RollCompleted(
                #[trigger] run(state, events).model.history[state.model.history.len() + i],
            ) == events[i],
    decreases events.len(),
{
    if events.len() > 0 {
        law_completions_are_recorded(state, events.drop_last());
    }
}

/// Submitting captures before it clears: the roll task gets the text as it
/// stood at that moment, in a command of its own that no later event can
/// reach, and the entry is empty afterwards.
pub proof fn law_submit_captures_then_clears(state: State)
    requires
        state.phase == Phase::Running,
    ensures
        step(state, EventView::SubmitRequested).1 == seq![
            CommandView::SpawnRoll(state.model.entry_text),
            CommandView::SetInputText(Seq::empty()),
        ],
        step(state, EventView::SubmitRequested).0.model.entry_text == Seq::<char>::empty(),
        step(state, EventView::SubmitRequested).0.model.history == state.model.history,
{
}

/// A roll that fails is silent: its task raises no event, so the state stays
/// as the submission left it, with the history as it was before.
pub proof fn law_failed_roll_leaves_no_trace(state: State, error: EvaluationError)
    ensures
        raised(Err(error)).len() == 0,
        ({
            let submitted = step(state, EventView::SubmitRequested).0;
            &&& run(submitted, raised(Err(error))) == submitted
            &&& commands_over(submitted, raised(Err(error))).len() == 0
            &&& submitted.model.history == state.model.history
        }),
{
}

/// A roll that succeeds raises exactly one event, the completion that
/// carries its outcome.
pub proof fn law_successful_roll_raises_one_completion(rolled: RollOutcomeView)
    ensures
        raised(Ok(rolled)) == seq![EventView::RollCompleted(rolled)],
{
}

/// The rows show the most recent roll first: row `i` is the roll that was
/// recorded `i` rolls before the last.
pub proof fn law_rows_are_most_recent_first(history: Seq<RollOutcomeView>, i: int)
    requires
        0 <= i < history.len(),
    ensures
        rows_of(history).len() == history.len(),
        rows_of(history)[i] == history[history.len() - 1 - i],
{
}

/// Closing the window is final: once the shutdown request has been handled,
/// no run of events, completions of pending rolls included, changes the
/// state or issues a command.
pub proof fn law_nothing_after_shutdown(state: State, events: Seq<EventView>)
    ensures
        step(state, EventView::ShutdownRequested).0.phase == Phase::Terminated,
        ({
            let closed = step(state, EventView::ShutdownRequested).0;
            &&& run(closed, events) == closed
            &&& commands_over(closed, events) == Seq::<CommandView>::empty()
        }),
    decreases events.len(),
{
    if events.len() > 0 {
        law_nothing_after_shutdown(state, events.drop_last());
    }
}

/// Writing back the text that the model already holds changes nothing: the
/// state stays as it is, and the one command issued sets the input field to
/// that same text.
pub proof fn law_resync_is_idempotent(state: State)
    requires
        state.phase == Phase::Running,
    ensures
        step(state, EventView::InputChanged(state.model.entry_text)).0 == state,
        step(state, EventView::InputChanged(state.model.entry_text)).1 == seq![
            CommandView::SetInputText(state.model.entry_text),
        ],
{
}

/// The window is told what the model holds: every text and every set of
/// rows that an event sends out is read from the state after that event.
pub proof fn law_commands_show_the_model(state: State, event: EventView, i: int)
    requires
        0 <= i < step(state, event).1.len(),
    ensures
        step(state, event).1[i] matches CommandView::SetInputText(text) ==> text == step(
            state,
            event,
        ).0.model.entry_text,
        step(state, event).1[i] matches CommandView::ReplaceHistoryRows(rows) ==> rows == rows_of(
            step(state, event).0.model.history,
        ),
{
}

} // verus!
