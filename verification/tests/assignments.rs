use canvas_tui::types::assignment::Assignment;
use canvas_tui::types::link::Link;
use canvas_tui::types::timestamp::{Timestamp, MAX_SECS, MIN_SECS};

const DAY: i64 = 86_400;
// 2024-05-01T00:00:00Z
const MAY_1: i64 = 1_714_521_600;

fn dated(secs: i64) -> Assignment {
    Assignment::remote(
        "essay".to_string(),
        None,
        None,
        "https://c.test/1".to_string(),
        Some(Timestamp::new(secs, 0, 0)),
        "History".to_string(),
        false,
        false,
    )
}

#[test]
fn remote_assignment_carries_its_particulars() {
    let a = Assignment::remote(
        "essay".to_string(),
        None,
        Some("<a href=\"r\">rubric</a>".to_string()),
        "https://c.test/1".to_string(),
        Some(Timestamp::new(MAY_1, 0, 3600)),
        "History 101".to_string(),
        true,
        true,
    );
    assert_eq!(a.name, "essay");
    assert_eq!(a.description.as_deref(), Some("<a href=\"r\">rubric</a>"));
    assert_eq!(a.html_url, "https://c.test/1");
    assert_eq!(a.date, Some(Timestamp::new(MAY_1, 0, 3600)));
    assert_eq!(a.course, "History 101");
    assert!(a.completed);
    assert!(a.locked);
    assert!(!a.custom);
    assert!(!a.modified);
    assert_eq!(a.links, vec![Link::new("r".to_string(), "rubric".to_string())]);
}

#[test]
fn nickname_stands_for_the_course() {
    let a = Assignment::new(
        "essay".to_string(),
        Some("Hist".to_string()),
        None,
        "u".to_string(),
        None,
        "History 101".to_string(),
        false,
        false,
    )
    .unwrap();
    assert_eq!(a.course, "Hist");
    assert_eq!(a.date, None);
}

#[test]
fn empty_assignment_is_due_tonight() {
    // 2024-05-01T15:30:00 at UTC-5
    let now = Timestamp::new(MAY_1 + 20 * 3600 + 1800, 123, -18_000);
    let a = Assignment::empty(&now);
    assert_eq!(a.name, "");
    assert_eq!(a.course, "");
    assert_eq!(a.html_url, "");
    assert_eq!(a.description, None);
    assert!(a.custom);
    assert!(!a.completed);
    assert!(!a.modified);
    assert!(!a.locked);
    assert!(a.links.is_empty());
    // 2024-05-01T23:59:00-05:00
    assert_eq!(a.date, Some(Timestamp::new(MAY_1 + 23 * 3600 + 59 * 60 + 18_000, 0, -18_000)));
}

#[test]
fn empty_assignment_without_representable_evening_has_no_date() {
    assert_eq!(Assignment::empty(&Timestamp::new(i64::MAX, 0, 0)).date, None);
}

#[test]
fn increment_moves_the_due_date_one_day_on() {
    let mut a = dated(MAY_1);
    a.increment_due_date();
    assert_eq!(a.date, Some(Timestamp::new(MAY_1 + DAY, 0, 0)));
    a.increment_due_date();
    assert_eq!(a.date, Some(Timestamp::new(MAY_1 + 2 * DAY, 0, 0)));
    assert_eq!(a.name, "essay");
    assert!(!a.modified);
}

#[test]
fn increment_without_due_date_changes_nothing() {
    let mut a = dated(MAY_1);
    a.date = None;
    let before = a.clone();
    a.increment_due_date();
    assert_eq!(a, before);
}

#[test]
fn increment_at_the_end_of_the_range_changes_nothing() {
    let mut a = dated(MAX_SECS - 10);
    a.increment_due_date();
    assert_eq!(a.date, Some(Timestamp::new(MAX_SECS - 10, 0, 0)));
}

#[test]
fn decrement_moves_the_due_date_one_day_back() {
    let now = Timestamp::new(MAY_1, 0, 0);
    let mut a = dated(MAY_1 + 3 * DAY);
    a.decrement_due_date(&now);
    assert_eq!(a.date, Some(Timestamp::new(MAY_1 + 2 * DAY, 0, 0)));
    a.decrement_due_date(&now);
    assert_eq!(a.date, Some(Timestamp::new(MAY_1 + DAY, 0, 0)));
}

#[test]
fn decrement_does_not_cross_the_present() {
    // now is today 23:00, the due date tomorrow 00:01
    let now = Timestamp::new(MAY_1 + 23 * 3600, 0, 0);
    let mut a = dated(MAY_1 + DAY + 60);
    let before = a.clone();
    a.decrement_due_date(&now);
    assert_eq!(a, before);
    assert_eq!(a.date, Some(Timestamp::new(MAY_1 + DAY + 60, 0, 0)));
}

#[test]
fn decrement_onto_the_present_is_refused() {
    let now = Timestamp::new(MAY_1, 5, 0);
    let mut a = dated(MAY_1 + DAY);
    a.date = Some(Timestamp::new(MAY_1 + DAY, 5, 0));
    a.decrement_due_date(&now);
    assert_eq!(a.date, Some(Timestamp::new(MAY_1 + DAY, 5, 0)));
    a.date = Some(Timestamp::new(MAY_1 + DAY, 6, 0));
    a.decrement_due_date(&now);
    assert_eq!(a.date, Some(Timestamp::new(MAY_1, 6, 0)));
}

#[test]
fn decrement_without_due_date_or_at_the_start_of_the_range_changes_nothing() {
    let now = Timestamp::new(i64::MIN, 0, 0);
    let mut a = dated(MIN_SECS + 5);
    a.decrement_due_date(&now);
    assert_eq!(a.date, Some(Timestamp::new(MIN_SECS + 5, 0, 0)));
    a.date = None;
    a.decrement_due_date(&now);
    assert_eq!(a.date, None);
}

#[test]
fn fingerprint_tells_records_apart() {
    let a = dated(MAY_1);
    let mut b = dated(MAY_1);
    assert_eq!(a.fingerprint(), b.fingerprint());
    b.name = "other".to_string();
    assert_ne!(a.fingerprint(), b.fingerprint());
    let mut c = dated(MAY_1);
    c.html_url = "https://c.test/2".to_string();
    assert_ne!(a.fingerprint(), c.fingerprint());
    let mut d = dated(MAY_1);
    d.course = "Physics".to_string();
    assert_ne!(a.fingerprint(), d.fingerprint());
    let mut e = dated(MAY_1);
    e.custom = true;
    assert_ne!(a.fingerprint(), e.fingerprint());
    let mut f = dated(MAY_1);
    f.modified = true;
    assert_ne!(a.fingerprint(), f.fingerprint());
}

#[test]
fn fingerprint_ignores_what_a_refresh_rewrites() {
    let a = dated(MAY_1);
    let mut b = dated(MAY_1 + 5 * DAY);
    b.completed = true;
    b.locked = true;
    b.description = Some("<a href=\"x\">x</a>".to_string());
    b.populate_links();
    assert_eq!(a.fingerprint(), b.fingerprint());
}

#[test]
fn assignments_compare_field_by_field() {
    let a = dated(MAY_1);
    assert_eq!(a, a.clone());
    let mut b = a.clone();
    b.completed = true;
    assert_ne!(a, b);
    let mut c = a.clone();
    c.date = Some(Timestamp::new(MAY_1, 0, 60));
    assert_ne!(a, c);
    let mut d = a.clone();
    d.links.push(Link::new("u".to_string(), "t".to_string()));
    assert_ne!(a, d);
    let mut e = a.clone();
    e.description = Some(String::new());
    assert_ne!(a, e);
}
