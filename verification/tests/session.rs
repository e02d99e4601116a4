use kickoff::app::{App, ExecAction, SpawnPoll, should_record_use};
use kickoff::selection::{Element, ElementList, History, HistoryEntry};

fn elem(name: &str, value: &str, base_score: usize) -> Element {
    Element { name: name.to_string(), value: value.to_string(), base_score }
}

fn list(names: &[&str]) -> ElementList {
    ElementList::from_elements(names.iter().map(|n| elem(n, n, 0)).collect())
}

#[test]
fn selection_invariant_holds_through_navigation() {
    let mut app = App::new(true, list(&["foo", "foobar", "other"]), None);
    app.insert("foo");
    assert!(!app.select_input);
    assert_eq!(app.select_index, 0);
    let total = app.get_total_results();
    assert_eq!(total, 2);

    app.nav_down(10);
    assert_eq!(app.select_index, total - 1);
    app.nav_up(1);
    assert_eq!(app.select_index, 0);
    // from the top with a non-empty query, up switches to free input
    app.nav_up(1);
    assert!(app.select_input);
    // and down returns to the top of the list
    app.nav_down(1);
    assert!(!app.select_input);
    assert_eq!(app.select_index, 0);
}

#[test]
fn free_input_mode_when_nothing_matches() {
    let mut app = App::new(true, list(&["foo"]), None);
    app.insert("zzz");
    assert!(app.select_input);
    assert_eq!(app.get_total_results(), 0);
    app.delete();
    app.delete();
    app.delete();
    assert!(!app.select_input);
}

#[test]
fn completion_cycling() {
    let mut app = App::new(true, list(&["foo", "foobar"]), None);
    app.insert("foo");
    assert_eq!(app.select_index, 0);

    // the query already equals the highlighted name: completing advances
    app.complete();
    assert_eq!(app.query, "foo");
    assert_eq!(app.select_index, 1);

    // now the highlighted name differs: completing copies it
    app.complete();
    assert_eq!(app.query, "foobar");
    assert_eq!(app.select_index, 1);

    // equal again, but the selection is already at the last slot: capped
    app.complete();
    assert_eq!(app.query, "foobar");
    assert_eq!(app.select_index, 1);
}

#[test]
fn calculator_result_occupies_slot_zero() {
    let mut app = App::new(true, list(&["2048"]), None);
    app.insert("2+3");
    assert!(app.calculator_result.is_some());
    let (expr, rat) = app.calculator_result.clone().unwrap();
    assert_eq!(expr, "2+3");
    assert_eq!(rat.num, 5);
    assert_eq!(rat.den, 1);
    assert_eq!(app.get_total_results(), 1);
    match app.execute() {
        ExecAction::CopyResult(r) => {
            assert_eq!(r.num, 5);
            assert_eq!(r.den, 1);
        },
        _ => panic!("expected the calculator result to go to the clipboard"),
    }
}

#[test]
fn execute_free_input_emits_literal_query() {
    let mut app = App::new(true, list(&["foo"]), None);
    app.insert("echo hello");
    assert!(app.select_input);
    match app.execute() {
        ExecAction::Emit(e) => {
            assert_eq!(e.name, "echo hello");
            assert_eq!(e.value, "echo hello");
        },
        _ => panic!("print mode emits the resolved command"),
    }
}

#[test]
fn execute_selection_resolves_through_ranked_positions() {
    let entries = ElementList::from_elements(vec![
        elem("files", "nautilus", 0),
        elem("firefox", "firefox-bin", 50),
    ]);
    let mut app = App::new(false, entries, None);
    app.insert("fi");
    assert_eq!(app.get_total_results(), 2);
    match app.execute() {
        ExecAction::Spawn(e) => {
            assert_eq!(e.name, "firefox");
            assert_eq!(e.value, "firefox-bin");
        },
        _ => panic!("outside print mode the target is spawned"),
    }
}

#[test]
fn execute_in_print_mode_credits_history() {
    let history = History::from_entries(vec![HistoryEntry {
        name: "foo".to_string(),
        value: "foo".to_string(),
        num_used: 1,
    }]);
    let mut app = App::new(true, list(&["foo"]), Some(history));
    app.insert("foo");
    match app.execute() {
        ExecAction::Emit(e) => assert_eq!(e.value, "foo"),
        _ => panic!("print mode emits"),
    }
    let h = app.history.as_ref().unwrap().as_vec();
    assert_eq!(h[0].num_used, 2);
}

#[test]
fn liveness_poll_gates_history() {
    assert!(should_record_use(&SpawnPoll::StillAlive));
    assert!(should_record_use(&SpawnPoll::ExitedZero));
    assert!(!should_record_use(&SpawnPoll::ExitedOther));
    assert!(!should_record_use(&SpawnPoll::CheckFailed));
}

#[test]
fn delete_word_removes_through_previous_space() {
    let mut app = App::new(true, list(&["foo"]), None);
    app.insert("git commit -m msg");
    app.delete_word();
    assert_eq!(app.query, "git commit -m");
    app.delete_word();
    assert_eq!(app.query, "git commit");
    app.delete_word();
    assert_eq!(app.query, "git");
    app.delete_word();
    assert_eq!(app.query, "");
}
