use d20roll::dispatcher::{history_rows, Dispatcher};
use d20roll::event::{completion_event, Command, Event};
use d20roll::model::Model;
use d20roll::roll::{EvaluationError, RollOutcome};

fn outcome(descriptor: &str, outcome: i32) -> RollOutcome {
    RollOutcome { descriptor: descriptor.to_string(), outcome }
}

fn typed(dispatcher: &mut Dispatcher, text: &str) -> Vec<Command> {
    dispatcher.handle(Event::InputChanged(text.to_string()))
}

fn set_text(command: &Command) -> &str {
    match command {
        Command::SetInputText(text) => text,
        other => panic!("expected SetInputText, got {:?}", other),
    }
}

fn spawned(command: &Command) -> &str {
    match command {
        Command::SpawnRoll(expression) => expression,
        other => panic!("expected SpawnRoll, got {:?}", other),
    }
}

fn rows(command: &Command) -> Vec<(String, i32)> {
    match command {
        Command::ReplaceHistoryRows(rows) => {
            rows.iter().map(|row| (row.descriptor.clone(), row.outcome)).collect()
        }
        other => panic!("expected ReplaceHistoryRows, got {:?}", other),
    }
}

fn history(dispatcher: &Dispatcher) -> Vec<(String, i32)> {
    dispatcher.model().history.iter().map(|roll| (roll.descriptor.clone(), roll.outcome)).collect()
}

#[test]
fn model_starts_empty() {
    let model = Model::new();
    assert_eq!(model.entry_text, "");
    assert!(model.history.is_empty());
}

#[test]
fn dispatcher_starts_running_with_an_empty_model() {
    let dispatcher = Dispatcher::new();
    assert!(!dispatcher.is_terminated());
    assert_eq!(dispatcher.model().entry_text, "");
    assert!(dispatcher.model().history.is_empty());
}

#[test]
fn input_changed_records_the_text_and_resyncs_the_input() {
    let mut dispatcher = Dispatcher::new();
    let commands = typed(&mut dispatcher, "3d8");
    assert_eq!(dispatcher.model().entry_text, "3d8");
    assert_eq!(commands.len(), 1);
    assert_eq!(set_text(&commands[0]), "3d8");
    assert!(dispatcher.model().history.is_empty());
}

#[test]
fn submit_captures_the_text_before_it_clears_the_entry() {
    let mut dispatcher = Dispatcher::new();
    typed(&mut dispatcher, "2d6+1");
    let commands = dispatcher.handle(Event::SubmitRequested);
    assert_eq!(commands.len(), 2);
    assert_eq!(spawned(&commands[0]), "2d6+1");
    assert_eq!(set_text(&commands[1]), "");
    assert_eq!(dispatcher.model().entry_text, "");

    let later = typed(&mut dispatcher, "something else");
    assert_eq!(set_text(&later[0]), "something else");
    assert_eq!(spawned(&commands[0]), "2d6+1");
    assert_eq!(dispatcher.model().entry_text, "something else");
}

#[test]
fn submit_with_an_empty_entry_spawns_a_roll_of_nothing() {
    let mut dispatcher = Dispatcher::new();
    let commands = dispatcher.handle(Event::SubmitRequested);
    assert_eq!(commands.len(), 2);
    assert_eq!(spawned(&commands[0]), "");
    assert_eq!(set_text(&commands[1]), "");
}

#[test]
fn submit_leaves_the_history_alone() {
    let mut dispatcher = Dispatcher::new();
    dispatcher.handle(Event::RollCompleted(outcome("1d4", 2)));
    typed(&mut dispatcher, "1d6");
    dispatcher.handle(Event::SubmitRequested);
    assert_eq!(history(&dispatcher), vec![("1d4".to_string(), 2)]);
}

#[test]
fn completion_appends_and_replaces_the_rows() {
    let mut dispatcher = Dispatcher::new();
    typed(&mut dispatcher, "kept");
    let commands = dispatcher.handle(Event::RollCompleted(outcome("1d20", 17)));
    assert_eq!(commands.len(), 1);
    assert_eq!(rows(&commands[0]), vec![("1d20".to_string(), 17)]);
    assert_eq!(history(&dispatcher), vec![("1d20".to_string(), 17)]);
    assert_eq!(dispatcher.model().entry_text, "kept");
}

#[test]
fn rows_show_the_most_recent_roll_first() {
    let mut dispatcher = Dispatcher::new();
    dispatcher.handle(Event::RollCompleted(outcome("1d20", 11)));
    let commands = dispatcher.handle(Event::RollCompleted(outcome("2d4", 5)));
    assert_eq!(rows(&commands[0]), vec![("2d4".to_string(), 5), ("1d20".to_string(), 11)]);
    assert_eq!(history(&dispatcher), vec![("1d20".to_string(), 11), ("2d4".to_string(), 5)]);
}

#[test]
fn history_is_append_only() {
    let mut dispatcher = Dispatcher::new();
    let mut expected: Vec<(String, i32)> = Vec::new();
    for n in 0..25 {
        let descriptor = format!("{}d6", n + 1);
        dispatcher.handle(Event::RollCompleted(outcome(&descriptor, n * 3 - 7)));
        expected.push((descriptor, n * 3 - 7));
        assert_eq!(dispatcher.model().history.len(), (n + 1) as usize);
        assert_eq!(history(&dispatcher), expected);
    }
    typed(&mut dispatcher, "1d6");
    dispatcher.handle(Event::SubmitRequested);
    dispatcher.handle(Event::ShutdownRequested);
    dispatcher.handle(Event::RollCompleted(outcome("late", 1)));
    assert_eq!(history(&dispatcher), expected);
}

#[test]
fn shutdown_quits_and_is_final() {
    let mut dispatcher = Dispatcher::new();
    typed(&mut dispatcher, "1d8");
    dispatcher.handle(Event::RollCompleted(outcome("1d6", 4)));
    let commands = dispatcher.handle(Event::ShutdownRequested);
    assert_eq!(commands.len(), 1);
    assert!(matches!(commands[0], Command::Quit));
    assert!(dispatcher.is_terminated());
    assert_eq!(dispatcher.model().entry_text, "1d8");

    assert!(dispatcher.handle(Event::RollCompleted(outcome("2d6", 9))).is_empty());
    assert!(typed(&mut dispatcher, "changed").is_empty());
    assert!(dispatcher.handle(Event::SubmitRequested).is_empty());
    assert!(dispatcher.handle(Event::ShutdownRequested).is_empty());
    assert!(dispatcher.is_terminated());
    assert_eq!(dispatcher.model().entry_text, "1d8");
    assert_eq!(history(&dispatcher), vec![("1d6".to_string(), 4)]);
}

#[test]
fn resync_with_the_same_text_changes_nothing() {
    let mut dispatcher = Dispatcher::new();
    dispatcher.handle(Event::RollCompleted(outcome("1d6", 3)));
    typed(&mut dispatcher, "4d4");
    let commands = typed(&mut dispatcher, "4d4");
    assert_eq!(commands.len(), 1);
    assert_eq!(set_text(&commands[0]), "4d4");
    assert_eq!(dispatcher.model().entry_text, "4d4");
    assert_eq!(history(&dispatcher), vec![("1d6".to_string(), 3)]);
    assert!(!dispatcher.is_terminated());
}

#[test]
fn failed_roll_raises_no_event() {
    let mut dispatcher = Dispatcher::new();
    dispatcher.handle(Event::RollCompleted(outcome("1d6", 3)));
    typed(&mut dispatcher, "not dice");
    dispatcher.handle(Event::SubmitRequested);
    assert!(completion_event(Err(EvaluationError)).is_none());
    assert_eq!(dispatcher.model().entry_text, "");
    assert_eq!(history(&dispatcher), vec![("1d6".to_string(), 3)]);
}

#[test]
fn successful_roll_raises_its_completion() {
    match completion_event(Ok(outcome("[2d6 + 1]", 8))) {
        Some(Event::RollCompleted(rolled)) => {
            assert_eq!(rolled.descriptor, "[2d6 + 1]");
            assert_eq!(rolled.outcome, 8);
        }
        other => panic!("expected a completion, got {:?}", other),
    }
}

#[test]
fn history_rows_of_nothing_are_none() {
    assert!(history_rows(&Vec::new()).is_empty());
}

#[test]
fn history_rows_reverse_the_history() {
    let history = vec![outcome("a", 1), outcome("b", -2), outcome("c", 3)];
    let rows = history_rows(&history);
    let shown: Vec<(String, i32)> =
        rows.iter().map(|row| (row.descriptor.clone(), row.outcome)).collect();
    assert_eq!(
        shown,
        vec![("c".to_string(), 3), ("b".to_string(), -2), ("a".to_string(), 1)]
    );
    assert_eq!(history.len(), 3);
    assert_eq!(history[0].descriptor, "a");
}

#[test]
fn clone_keeps_descriptor_and_outcome() {
    let rolled = outcome("[1d4 + 2]", 5);
    let copy = rolled.clone();
    assert_eq!(copy.descriptor, "[1d4 + 2]");
    assert_eq!(copy.outcome, 5);
}
