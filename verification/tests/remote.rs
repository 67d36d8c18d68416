use canvas_tui::queries::assignments::{
    accept_date, is_upcoming, parse_assignment, parse_assignments, sort_assignments, RemoteAssignment,
    RemoteCourse, WINDOW_SECS,
};
use canvas_tui::queries::grades::grade_from_enrollments;
use canvas_tui::types::assignment::Assignment;
use canvas_tui::types::grade::Grade;
use canvas_tui::types::error::Error;
use canvas_tui::types::link::Link;
use canvas_tui::types::timestamp::Timestamp;

// 2024-05-01T00:00:00Z
const MAY_1: i64 = 1_714_521_600;

fn now() -> Timestamp {
    Timestamp::new(MAY_1, 0, 0)
}

fn record(name: &str, due: Option<&str>) -> RemoteAssignment {
    RemoteAssignment {
        name: Some(name.to_string()),
        description: Some(format!("<a href=\"/{}\">{}</a>", name, name)),
        html_url: Some(format!("https://c.test/{}", name)),
        due_at: due.map(|d| d.to_string()),
        submissions: Some(0),
        locked: Some(false),
    }
}

fn course(name: &str, nickname: Option<&str>, assignments: Vec<RemoteAssignment>) -> Option<RemoteCourse> {
    Some(RemoteCourse {
        name: name.to_string(),
        course_nickname: nickname.map(|n| n.to_string()),
        assignments,
    })
}

fn names(assignments: &[Assignment]) -> Vec<&str> {
    assignments.iter().map(|a| a.name.as_str()).collect()
}

#[test]
fn window_is_twenty_one_days() {
    assert_eq!(WINDOW_SECS, 21 * 86_400);
    let now = Timestamp::new(MAY_1, 10, 0);
    assert!(!is_upcoming(&Timestamp::new(MAY_1, 10, 0), &now));
    assert!(!is_upcoming(&Timestamp::new(MAY_1 - 1, 999, 0), &now));
    assert!(is_upcoming(&Timestamp::new(MAY_1, 11, 3600), &now));
    assert!(is_upcoming(&Timestamp::new(MAY_1 + WINDOW_SECS, 9, 0), &now));
    assert!(!is_upcoming(&Timestamp::new(MAY_1 + WINDOW_SECS, 10, 0), &now));
    assert!(is_upcoming(&Timestamp::new(MAY_1 + WINDOW_SECS - 1, 999_999_999, 0), &now));
    assert!(!is_upcoming(&Timestamp::new(MAY_1 + WINDOW_SECS + 1, 0, 0), &now));
    assert!(!is_upcoming(&Timestamp::new(i64::MAX, 0, 0), &Timestamp::new(i64::MAX, 0, 0)));
    assert!(is_upcoming(&Timestamp::new(i64::MAX, 1, 0), &Timestamp::new(i64::MAX, 0, 0)));
}

#[test]
fn due_dates_are_read_and_checked_against_the_window() {
    assert_eq!(
        accept_date(&Some("2024-05-02T00:00:00Z".to_string()), &now()),
        Some(Timestamp::new(MAY_1 + 86_400, 0, 0))
    );
    assert_eq!(
        accept_date(&Some("2024-05-02T00:00:00+02:00".to_string()), &now()),
        Some(Timestamp::new(MAY_1 + 86_400 - 7200, 0, 7200))
    );
    assert_eq!(accept_date(&Some("2024-04-30T23:59:59Z".to_string()), &now()), None);
    assert_eq!(accept_date(&Some("2024-05-22T00:00:00Z".to_string()), &now()), None);
    assert_eq!(accept_date(&Some("soon".to_string()), &now()), None);
    assert_eq!(accept_date(&None, &now()), None);
}

#[test]
fn a_complete_record_is_taken_in() {
    let mut r = record("essay", Some("2024-05-03T12:00:00Z"));
    r.submissions = Some(2);
    r.locked = Some(true);
    let a = parse_assignment(r, &"History 101".to_string(), &Some("Hist".to_string()), &now()).unwrap();
    assert_eq!(a.name, "essay");
    assert_eq!(a.course, "Hist");
    assert_eq!(a.html_url, "https://c.test/essay");
    assert_eq!(a.date, Some(Timestamp::new(MAY_1 + 2 * 86_400 + 12 * 3600, 0, 0)));
    assert_eq!(a.description.as_deref(), Some("<a href=\"/essay\">essay</a>"));
    assert_eq!(a.links, vec![Link::new("/essay".to_string(), "essay".to_string())]);
    assert!(a.completed);
    assert!(a.locked);
    assert!(!a.custom);
    assert!(!a.modified);
}

#[test]
fn a_record_without_description_is_taken_in() {
    let mut r = record("quiz", Some("2024-05-03T12:00:00Z"));
    r.description = None;
    let a = parse_assignment(r, &"Math".to_string(), &None, &now()).unwrap();
    assert_eq!(a.course, "Math");
    assert_eq!(a.description, None);
    assert!(a.links.is_empty());
}

#[test]
fn a_record_missing_a_particular_is_rejected() {
    let course = "Math".to_string();
    let due = Some("2024-05-03T12:00:00Z");
    let mut r = record("a", due);
    r.name = None;
    assert_eq!(parse_assignment(r, &course, &None, &now()), None);
    let mut r = record("a", due);
    r.html_url = None;
    assert_eq!(parse_assignment(r, &course, &None, &now()), None);
    let mut r = record("a", due);
    r.submissions = None;
    assert_eq!(parse_assignment(r, &course, &None, &now()), None);
    let mut r = record("a", due);
    r.locked = None;
    assert_eq!(parse_assignment(r, &course, &None, &now()), None);
    assert_eq!(parse_assignment(record("a", None), &course, &None, &now()), None);
    assert_eq!(parse_assignment(record("a", Some("not a date")), &course, &None, &now()), None);
    assert_eq!(parse_assignment(record("a", Some("2024-04-01T00:00:00Z")), &course, &None, &now()), None);
    assert_eq!(parse_assignment(record("a", Some("2024-06-01T00:00:00Z")), &course, &None, &now()), None);
}

#[test]
fn a_malformed_record_does_not_stop_the_batch() {
    let responses = vec![
        course(
            "History",
            None,
            vec![
                record("h1", Some("2024-05-05T00:00:00Z")),
                record("broken", Some("05/06/2024")),
                record("h2", Some("2024-05-03T00:00:00Z")),
            ],
        ),
        course("Empty", None, Vec::new()),
        course(
            "Physics",
            Some("Phys"),
            vec![
                record("undated", None),
                record("phys1", Some("2024-05-04T00:00:00Z")),
                record("past", Some("2024-04-30T00:00:00Z")),
            ],
        ),
    ];
    let assignments = parse_assignments(responses, &now()).unwrap();
    assert_eq!(names(&assignments), vec!["h1", "h2", "phys1"]);
    assert_eq!(assignments[0].course, "History");
    assert_eq!(assignments[2].course, "Phys");
}

#[test]
fn an_answer_without_course_fails_the_run() {
    let responses = vec![course("History", None, vec![record("h1", Some("2024-05-05T00:00:00Z"))]), None];
    assert_eq!(parse_assignments(responses, &now()), Err(Error::MissingCourse));
    assert_eq!(parse_assignments(vec![None], &now()), Err(Error::MissingCourse));
    assert_eq!(parse_assignments(Vec::new(), &now()), Ok(Vec::new()));
    assert_eq!(Error::MissingCourse.message(), "Assignment parsing failed");
    assert_eq!(Error::InvalidDate.message(), "Due date is not an RFC 3339 date-time");
}

#[test]
fn fetched_assignments_are_sorted_by_instant() {
    let responses = vec![course(
        "C",
        None,
        vec![
            record("c", Some("2024-05-03T00:00:00.5Z")),
            record("a", Some("2024-05-02T23:00:00-05:00")),
            record("b", Some("2024-05-03T00:00:00Z")),
            record("b2", Some("2024-05-03T02:00:00+02:00")),
            record("d", Some("2024-05-02T00:00:00Z")),
        ],
    )];
    let mut assignments = parse_assignments(responses, &now()).unwrap();
    let mut undated = assignments[0].clone();
    undated.name = "undated".to_string();
    undated.date = None;
    assignments.insert(0, undated);
    sort_assignments(&mut assignments);
    assert_eq!(names(&assignments), vec!["d", "b", "b2", "c", "a", "undated"]);
}

#[test]
fn the_first_enrollment_gives_the_grade() {
    let bits = 91.5f64.to_bits();
    assert_eq!(
        grade_from_enrollments("Math".to_string(), &vec![Some(bits), Some(1)], 7),
        Some(Grade::new("Math".to_string(), None, bits, 7))
    );
    assert_eq!(grade_from_enrollments("Math".to_string(), &vec![None, Some(bits)], 7), None);
    assert_eq!(grade_from_enrollments("Math".to_string(), &Vec::new(), 7), None);
}

#[test]
fn one_submission_completes_an_assignment() {
    let mut r = record("a", Some("2024-05-03T12:00:00Z"));
    r.submissions = Some(1);
    assert!(parse_assignment(r, &"C".to_string(), &None, &now()).unwrap().completed);
    let r = record("a", Some("2024-05-03T12:00:00Z"));
    assert!(!parse_assignment(r, &"C".to_string(), &None, &now()).unwrap().completed);
}
