use canvas_tui::types::assignment::Assignment;
use canvas_tui::types::data::Data;
use canvas_tui::types::error::Error;
use canvas_tui::types::grade::Grade;
use canvas_tui::types::link::Link;
use canvas_tui::types::timestamp::Timestamp;
use canvas_tui::ui::app::{refresh, App, AssignmentField, Mode, SelectState};
use std::time::Duration;

const DAY: i64 = 86_400;
// 2024-05-01T00:00:00Z
const MAY_1: i64 = 1_714_521_600;

fn now() -> Timestamp {
    Timestamp::new(MAY_1, 0, 0)
}

fn at(secs: i64) -> Option<Timestamp> {
    Some(Timestamp::new(secs, 0, 0))
}

fn remote(url: &str, due: Option<Timestamp>, completed: bool) -> Assignment {
    Assignment::remote(
        format!("name of {}", url),
        None,
        None,
        url.to_string(),
        due,
        "Course".to_string(),
        completed,
        false,
    )
}

fn with_links(url: &str, count: usize) -> Assignment {
    let mut a = remote(url, at(MAY_1 + DAY), false);
    for i in 0..count {
        a.links.push(Link::new(format!("{}/link{}", url, i), format!("link {}", i)));
    }
    a
}

fn session(assignments: Vec<Assignment>) -> App {
    let mut data = Data::empty();
    data.assignments = assignments;
    App::new("/tmp/data.json".to_string(), Duration::from_millis(1000), vec![1, 2], data)
}

fn three() -> App {
    session(vec![
        remote("u1", at(MAY_1 + DAY), false),
        remote("u2", at(MAY_1 + 2 * DAY), false),
        remote("u3", at(MAY_1 + 3 * DAY), false),
    ])
}

fn urls(app: &App) -> Vec<&str> {
    app.data.assignments.iter().map(|a| a.html_url.as_str()).collect()
}

fn selected_url(app: &App) -> Option<&str> {
    app.assignments_state.selected().map(|i| app.data.assignments[i].html_url.as_str())
}

#[test]
fn new_session_browses_with_nothing_selected() {
    let app = three();
    assert_eq!(app.mode, Mode::Normal);
    assert_eq!(app.assignments_state.selected(), None);
    assert_eq!(app.links_state.selected(), None);
    assert_eq!(app.data_path, "/tmp/data.json");
    assert_eq!(app.tick_rate, Duration::from_millis(1000));
    assert_eq!(app.course_ids, vec![1, 2]);
    assert_eq!(app.data.assignments.len(), 3);
    assert!(app.is_wf());
}

#[test]
fn select_state_keeps_what_it_is_given() {
    let mut state = SelectState::new();
    assert_eq!(state.selected(), None);
    state.select(Some(4));
    assert_eq!(state.selected(), Some(4));
    state.select(None);
    assert_eq!(state.selected(), None);
}

#[test]
fn well_formedness_is_about_the_selected_row() {
    let mut app = three();
    app.assignments_state.select(Some(2));
    assert!(app.is_wf());
    app.assignments_state.select(Some(3));
    assert!(!app.is_wf());
}

#[test]
fn next_assignment_moves_down_and_stops_at_the_end() {
    let mut app = three();
    app.next_assignment();
    assert_eq!(app.assignments_state.selected(), Some(0));
    app.next_assignment();
    assert_eq!(app.assignments_state.selected(), Some(1));
    app.next_assignment();
    assert_eq!(app.assignments_state.selected(), Some(2));
    app.next_assignment();
    assert_eq!(app.assignments_state.selected(), Some(2));
    assert_eq!(app.links_state.selected(), None);
}

#[test]
fn next_assignment_selects_the_first_link() {
    let mut app = session(vec![with_links("a", 0), with_links("b", 2)]);
    app.next_assignment();
    assert_eq!(app.links_state.selected(), None);
    app.links_state.select(Some(1));
    app.next_assignment();
    assert_eq!(app.assignments_state.selected(), Some(1));
    assert_eq!(app.links_state.selected(), Some(0));
}

#[test]
fn prev_assignment_moves_up_and_stops_at_the_top() {
    let mut app = three();
    app.prev_assignment();
    assert_eq!(app.assignments_state.selected(), Some(0));
    app.assignments_state.select(Some(2));
    app.prev_assignment();
    assert_eq!(app.assignments_state.selected(), Some(1));
    app.prev_assignment();
    app.prev_assignment();
    assert_eq!(app.assignments_state.selected(), Some(0));
}

#[test]
fn moving_in_an_empty_list_selects_nothing() {
    let mut app = session(Vec::new());
    app.next_assignment();
    assert_eq!(app.assignments_state.selected(), None);
    app.prev_assignment();
    assert_eq!(app.assignments_state.selected(), None);
}

#[test]
fn link_selection_moves_within_the_links() {
    let mut app = session(vec![with_links("a", 3), with_links("b", 0)]);
    app.next_link();
    assert_eq!(app.links_state.selected(), None);
    app.next_assignment();
    assert_eq!(app.links_state.selected(), Some(0));
    app.next_link();
    app.next_link();
    assert_eq!(app.links_state.selected(), Some(2));
    app.next_link();
    assert_eq!(app.links_state.selected(), Some(2));
    app.prev_link();
    assert_eq!(app.links_state.selected(), Some(1));
    app.prev_link();
    app.prev_link();
    assert_eq!(app.links_state.selected(), Some(0));
    // an assignment without links leaves the link row where it is
    app.next_assignment();
    app.links_state.select(Some(1));
    app.next_link();
    assert_eq!(app.links_state.selected(), Some(1));
}

#[test]
fn open_gives_the_selected_addresses() {
    let mut app = session(vec![with_links("a", 2), with_links("b", 0)]);
    assert_eq!(app.open_assignment(), None);
    assert_eq!(app.open_link(), None);
    app.next_assignment();
    assert_eq!(app.open_assignment(), Some("a".to_string()));
    assert_eq!(app.open_link(), Some("a/link0".to_string()));
    app.next_link();
    assert_eq!(app.open_link(), Some("a/link1".to_string()));
    app.next_assignment();
    assert_eq!(app.open_assignment(), Some("b".to_string()));
    assert_eq!(app.open_link(), None);
    app.links_state.select(Some(5));
    app.prev_assignment();
    assert_eq!(app.open_link(), None);
}

#[test]
fn selection_by_hash_finds_the_first_match() {
    let mut app = three();
    let hash = app.data.assignments[2].fingerprint();
    app.select_by_hash(Some(hash));
    assert_eq!(app.assignments_state.selected(), Some(2));
    assert_eq!(app.get_selected_hash(), Some(hash));
    app.select_by_hash(None);
    assert_eq!(app.assignments_state.selected(), Some(2));
}

#[test]
fn selection_by_unknown_hash_falls_back_to_the_first_row() {
    let mut app = three();
    app.assignments_state.select(Some(1));
    let stranger = remote("elsewhere", None, false).fingerprint();
    app.select_by_hash(Some(stranger));
    assert_eq!(app.assignments_state.selected(), Some(0));
}

#[test]
fn selection_in_an_empty_list_is_nothing() {
    let mut app = session(Vec::new());
    app.select_by_hash(Some(7));
    assert_eq!(app.assignments_state.selected(), None);
    assert_eq!(app.get_selected_hash(), None);
}

#[test]
fn new_assignment_starts_editing_a_blank_record() {
    let mut app = three();
    app.assignments_state.select(Some(2));
    assert_eq!(app.new_assignment(&now()), Ok(()));
    assert_eq!(app.mode, Mode::NewAssignment(AssignmentField::Course));
    assert_eq!(app.assignments_state.selected(), Some(0));
    assert_eq!(app.data.assignments.len(), 4);
    assert_eq!(app.data.assignments[0], Assignment::empty(&now()));
    assert!(app.data.assignments[0].custom);
    assert_eq!(app.data.assignments[0].date, at(MAY_1 + 23 * 3600 + 59 * 60));
    assert_eq!(urls(&app), vec!["", "u1", "u2", "u3"]);
}

#[test]
fn new_assignment_is_refused_while_editing() {
    let mut app = three();
    app.new_assignment(&now()).unwrap();
    app.mode = Mode::NewAssignment(AssignmentField::Name);
    assert_eq!(app.new_assignment(&now()), Err(Error::InvalidState));
    assert_eq!(app.mode, Mode::NewAssignment(AssignmentField::Name));
    assert_eq!(app.data.assignments.len(), 4);
    assert_eq!(Error::InvalidState.message(), "Cannot create new assignment while editing.");
}

#[test]
fn leaving_edit_mode_sorts_and_keeps_the_record_selected() {
    let mut app = three();
    app.new_assignment(&now()).unwrap();
    app.data.assignments[0].name = "mine".to_string();
    app.data.assignments[0].date = at(MAY_1 + 2 * DAY + 60);
    app.exit_new_assignment_mode();
    assert_eq!(app.mode, Mode::Normal);
    // the same day as u2: the record that stood first stays first
    assert_eq!(urls(&app), vec!["u1", "", "u2", "u3"]);
    assert_eq!(app.assignments_state.selected(), Some(1));
    assert_eq!(app.data.assignments[1].name, "mine");
}

#[test]
fn delete_removes_only_custom_records() {
    let mut app = three();
    app.new_assignment(&now()).unwrap();
    app.exit_new_assignment_mode();
    assert_eq!(urls(&app), vec!["", "u1", "u2", "u3"]);
    app.assignments_state.select(Some(1));
    assert!(!app.delete_assignment());
    assert_eq!(app.data.assignments.len(), 4);
    assert_eq!(app.assignments_state.selected(), Some(1));
    app.assignments_state.select(Some(0));
    assert!(app.delete_assignment());
    assert_eq!(urls(&app), vec!["u1", "u2", "u3"]);
    assert_eq!(app.assignments_state.selected(), Some(0));
}

#[test]
fn delete_moves_the_selection_off_the_end() {
    let mut app = three();
    app.data.assignments[2].custom = true;
    app.assignments_state.select(Some(2));
    assert!(app.delete_assignment());
    assert_eq!(app.assignments_state.selected(), Some(1));
    let mut single = session(vec![Assignment::empty(&now())]);
    single.assignments_state.select(Some(0));
    assert!(single.delete_assignment());
    assert!(single.data.assignments.is_empty());
    assert_eq!(single.assignments_state.selected(), None);
}

#[test]
fn delete_without_selection_or_while_editing_removes_nothing() {
    let mut app = three();
    assert!(app.delete_assignment());
    assert_eq!(app.data.assignments.len(), 3);
    app.new_assignment(&now()).unwrap();
    assert!(!app.delete_assignment());
    assert_eq!(app.data.assignments.len(), 4);
    assert_eq!(app.mode, Mode::NewAssignment(AssignmentField::Course));
}

#[test]
fn mark_done_toggles_and_latches() {
    let mut app = three();
    app.assignments_state.select(Some(1));
    app.mark_done();
    assert_eq!(selected_url(&app), Some("u2"));
    let i = app.assignments_state.selected().unwrap();
    assert!(app.data.assignments[i].completed);
    assert!(app.data.assignments[i].modified);
    app.mark_done();
    let i = app.assignments_state.selected().unwrap();
    assert_eq!(selected_url(&app), Some("u2"));
    assert!(!app.data.assignments[i].completed);
    assert!(app.data.assignments[i].modified);
}

#[test]
fn mark_done_resorts_and_follows_the_record() {
    let mut app = session(vec![
        remote("a", at(MAY_1 + 3600), false),
        remote("b", at(MAY_1 + 7200), false),
        remote("c", at(MAY_1 + 9000), false),
    ]);
    app.assignments_state.select(Some(0));
    app.mark_done();
    assert_eq!(urls(&app), vec!["b", "c", "a"]);
    assert_eq!(app.assignments_state.selected(), Some(2));
    assert_eq!(selected_url(&app), Some("a"));
}

#[test]
fn mark_done_does_nothing_while_editing() {
    let mut app = three();
    app.new_assignment(&now()).unwrap();
    let before = app.data.assignments.clone();
    app.mark_done();
    assert_eq!(app.data.assignments, before);
    assert_eq!(app.assignments_state.selected(), Some(0));
}

#[test]
fn user_completion_survives_a_merge() {
    let mut app = three();
    app.assignments_state.select(Some(0));
    app.mark_done();
    assert!(refresh(&mut app, Some(vec![remote("u1", at(MAY_1 + DAY), false)]), Some(Vec::new()), &now()));
    let a = app.data.assignments.iter().find(|a| a.html_url == "u1").unwrap();
    assert!(a.completed);
    assert!(a.modified);
}

#[test]
fn enter_esc_and_tick_change_nothing() {
    let mut app = three();
    app.assignments_state.select(Some(1));
    app.enter();
    app.esc();
    app.on_tick();
    assert_eq!(app.assignments_state.selected(), Some(1));
    assert_eq!(app.mode, Mode::Normal);
    assert_eq!(urls(&app), vec!["u1", "u2", "u3"]);
}

#[test]
fn selection_survives_a_merge_that_moves_the_record() {
    let mut app = three();
    app.assignments_state.select(Some(2));
    assert_eq!(selected_url(&app), Some("u3"));
    let batch = vec![remote("u3", at(MAY_1 + 3600), false)];
    assert!(refresh(&mut app, Some(batch), Some(Vec::new()), &now()));
    assert_eq!(urls(&app), vec!["u3", "u1", "u2"]);
    assert_eq!(app.assignments_state.selected(), Some(0));
    assert_eq!(selected_url(&app), Some("u3"));
}

#[test]
fn refresh_merges_prunes_and_replaces_grades() {
    let mut app = session(vec![
        remote("old", at(MAY_1 - DAY), false),
        remote("u1", at(MAY_1 + DAY), false),
    ]);
    app.data.grades.push(Grade::new("Old".to_string(), None, 1, 1));
    app.assignments_state.select(Some(1));
    let batch = vec![remote("u2", at(MAY_1 + 3600), false), remote("gone", at(MAY_1 - 5), false)];
    let grades = vec![Grade::new("New".to_string(), None, 2, 2)];
    assert!(refresh(&mut app, Some(batch), Some(grades), &now()));
    assert_eq!(urls(&app), vec!["u2", "u1"]);
    assert_eq!(selected_url(&app), Some("u1"));
    assert_eq!(app.data.grades, vec![Grade::new("New".to_string(), None, 2, 2)]);
}

#[test]
fn refresh_falls_back_to_the_first_row_when_the_record_is_pruned() {
    let mut app = session(vec![
        remote("old", at(MAY_1 - DAY), false),
        remote("u1", at(MAY_1 + DAY), false),
        remote("u2", at(MAY_1 + 2 * DAY), false),
    ]);
    app.assignments_state.select(Some(0));
    assert!(refresh(&mut app, Some(Vec::new()), Some(Vec::new()), &now()));
    assert_eq!(urls(&app), vec!["u1", "u2"]);
    assert_eq!(app.assignments_state.selected(), Some(0));
    let mut all_gone = session(vec![remote("old", at(MAY_1 - DAY), false)]);
    all_gone.assignments_state.select(Some(0));
    assert!(refresh(&mut all_gone, Some(Vec::new()), Some(Vec::new()), &now()));
    assert!(all_gone.data.assignments.is_empty());
    assert_eq!(all_gone.assignments_state.selected(), None);
}

#[test]
fn failed_fetch_changes_nothing() {
    let mut app = session(vec![remote("old", at(MAY_1 - DAY), false), remote("u1", at(MAY_1 + DAY), false)]);
    app.data.grades.push(Grade::new("Old".to_string(), None, 1, 1));
    app.assignments_state.select(Some(1));
    let before = app.data.assignments.clone();
    assert!(!refresh(&mut app, None, Some(vec![Grade::new("New".to_string(), None, 2, 2)]), &now()));
    assert!(!refresh(&mut app, Some(vec![remote("u9", None, false)]), None, &now()));
    assert!(!refresh(&mut app, None, None, &now()));
    assert_eq!(app.data.assignments, before);
    assert_eq!(app.data.grades, vec![Grade::new("Old".to_string(), None, 1, 1)]);
    assert_eq!(app.assignments_state.selected(), Some(1));
}

#[test]
fn refresh_without_selection_selects_nothing() {
    let mut app = three();
    assert!(refresh(&mut app, Some(vec![remote("u0", at(MAY_1 + 60), false)]), Some(Vec::new()), &now()));
    assert_eq!(app.assignments_state.selected(), None);
    assert_eq!(urls(&app), vec!["u0", "u1", "u2", "u3"]);
}

#[test]
fn fields_cycle_only_while_editing() {
    let mut app = three();
    app.next_field();
    app.prev_field();
    assert_eq!(app.mode, Mode::Normal);
    app.new_assignment(&now()).unwrap();
    app.prev_field();
    assert_eq!(app.mode, Mode::NewAssignment(AssignmentField::Course));
    app.next_field();
    assert_eq!(app.mode, Mode::NewAssignment(AssignmentField::Name));
    app.next_field();
    app.next_field();
    assert_eq!(app.mode, Mode::NewAssignment(AssignmentField::DueDate));
    app.prev_field();
    assert_eq!(app.mode, Mode::NewAssignment(AssignmentField::Name));
    app.prev_field();
    app.prev_field();
    assert_eq!(app.mode, Mode::NewAssignment(AssignmentField::Course));
}

#[test]
fn characters_go_to_the_open_text_field() {
    let mut app = three();
    app.assignments_state.select(Some(0));
    app.push_char('x');
    app.pop_char();
    assert_eq!(app.data.assignments[0].name, "name of u1");
    assert_eq!(app.data.assignments[0].course, "Course");
    app.new_assignment(&now()).unwrap();
    app.pop_char();
    app.push_char('M');
    app.push_char('a');
    app.push_char('t');
    app.pop_char();
    assert_eq!(app.data.assignments[0].course, "Ma");
    app.next_field();
    app.push_char('q');
    assert_eq!(app.data.assignments[0].name, "q");
    assert_eq!(app.data.assignments[0].course, "Ma");
    app.next_field();
    app.push_char('z');
    app.pop_char();
    assert_eq!(app.data.assignments[0].name, "q");
    assert_eq!(app.data.assignments[0].course, "Ma");
    assert_eq!(app.data.assignments[1].name, "name of u1");
}

#[test]
fn due_date_moves_only_in_its_field() {
    let mut app = three();
    app.new_assignment(&now()).unwrap();
    let due = MAY_1 + 23 * 3600 + 59 * 60;
    app.increment_due_date();
    app.decrement_due_date(&now());
    assert_eq!(app.data.assignments[0].date, at(due));
    app.mode = Mode::NewAssignment(AssignmentField::DueDate);
    app.increment_due_date();
    assert_eq!(app.data.assignments[0].date, at(due + DAY));
    app.decrement_due_date(&now());
    assert_eq!(app.data.assignments[0].date, at(due));
    // now is midnight: one day back would be yesterday evening
    app.decrement_due_date(&now());
    assert_eq!(app.data.assignments[0].date, at(due));
    app.decrement_due_date(&Timestamp::new(MAY_1 - 2 * DAY, 0, 0));
    assert_eq!(app.data.assignments[0].date, at(due - DAY));
    app.mode = Mode::Normal;
    app.increment_due_date();
    assert_eq!(app.data.assignments[0].date, at(due - DAY));
}

#[test]
fn leaving_edit_mode_keeps_the_edited_record_among_lookalikes() {
    // an untitled record of the user's own, due earlier, is already there
    let mut earlier = Assignment::empty(&Timestamp::new(MAY_1 - 3 * DAY, 0, 0));
    earlier.completed = true;
    let mut app = session(vec![earlier.clone(), remote("u1", at(MAY_1 + DAY), false)]);
    app.new_assignment(&now()).unwrap();
    let edited = app.data.assignments[0].clone();
    assert_eq!(edited.fingerprint(), app.data.assignments[1].fingerprint());
    app.exit_new_assignment_mode();
    assert_eq!(app.data.assignments[0], earlier);
    assert_eq!(app.assignments_state.selected(), Some(1));
    assert_eq!(app.data.assignments[1], edited);
}

#[test]
fn mark_done_keeps_the_toggled_record_among_lookalikes() {
    let first = Assignment::empty(&Timestamp::new(MAY_1, 0, 0));
    let mut second = Assignment::empty(&Timestamp::new(MAY_1, 0, 0));
    second.modified = true;
    let mut app = session(vec![first, second.clone(), remote("u1", at(MAY_1), false)]);
    app.assignments_state.select(Some(0));
    app.mark_done();
    // toggled, the first record looks like the second but for its completion
    assert_eq!(app.assignments_state.selected(), Some(2));
    assert!(app.data.assignments[2].completed);
    assert!(app.data.assignments[2].custom);
    assert_eq!(app.data.assignments[0], second);
}

#[test]
fn refresh_never_touches_a_custom_record() {
    let mine = Assignment::empty(&now());
    let mut app = session(vec![mine.clone()]);
    app.assignments_state.select(Some(0));
    assert!(refresh(&mut app, Some(vec![remote("", at(MAY_1 + DAY), true)]), Some(Vec::new()), &now()));
    assert_eq!(app.data.assignments[0], mine);
    assert_eq!(app.assignments_state.selected(), Some(0));
    assert_eq!(app.data.assignments.len(), 2);
}

#[test]
fn refresh_keeps_the_highlighted_record_among_lookalikes() {
    let first = Assignment::empty(&Timestamp::new(MAY_1, 0, 0));
    let second = Assignment::empty(&Timestamp::new(MAY_1 + 2 * DAY, 0, 0));
    assert_eq!(first.fingerprint(), second.fingerprint());
    let mut app = session(vec![first.clone(), second.clone()]);
    app.assignments_state.select(Some(1));
    let batch = vec![remote("u0", at(MAY_1 + 60), false), remote("u9", at(MAY_1 + DAY), false)];
    assert!(refresh(&mut app, Some(batch), Some(Vec::new()), &now()));
    assert_eq!(urls(&app), vec!["", "u0", "u9", ""]);
    assert_eq!(app.assignments_state.selected(), Some(3));
    assert_eq!(app.data.assignments[3], second);
    assert_eq!(app.data.assignments[0], first);
}

#[test]
fn refresh_follows_the_record_past_what_is_cleared_away() {
    let mut app = session(vec![
        remote("old1", at(MAY_1 - 2 * DAY), false),
        remote("old2", at(MAY_1 - DAY), false),
        remote("u1", at(MAY_1 + DAY), false),
        remote("u2", at(MAY_1 + 2 * DAY), false),
    ]);
    app.assignments_state.select(Some(3));
    let batch = vec![remote("u2", at(MAY_1 + 3600), true), remote("new", at(MAY_1 - 60), false)];
    assert!(refresh(&mut app, Some(batch), Some(Vec::new()), &now()));
    assert_eq!(urls(&app), vec!["u2", "u1"]);
    assert_eq!(app.assignments_state.selected(), Some(0));
    assert!(app.data.assignments[0].completed);
}
