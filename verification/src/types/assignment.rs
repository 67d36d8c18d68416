//! One piece of coursework and what the user has done with it.
use vstd::prelude::*;
use std::hash::{DefaultHasher, Hash, Hasher};
use crate::types::error::Error;
use crate::types::link::{copy_links, extract_links, links_in, same_links, same_text, Link, LinkView};
use crate::types::timestamp::{parse_rfc3339, rfc3339_reading, Timestamp};

verus! {

/// An assignment, fetched from the remote service or written by the user.
///
/// `html_url` identifies a fetched assignment across refreshes. `custom`
/// marks one the user wrote, `modified` one whose completion the user has
/// set by hand; `links` are those of `description`.
#[derive(Debug)]
pub struct Assignment {
    pub name: String,
    pub description: Option<String>,
    pub html_url: String,
    pub date: Option<Timestamp>,
    pub course: String,
    pub completed: bool,
    pub custom: bool,
    pub modified: bool,
    pub locked: bool,
    pub links: Vec<Link>,
}

/// The mathematical value of an `Assignment`.
pub struct AssignmentView {
    pub name: Seq<char>,
    pub description: Option<Seq<char>>,
    pub html_url: Seq<char>,
    pub date: Option<Timestamp>,
    pub course: Seq<char>,
    pub completed: bool,
    pub custom: bool,
    pub modified: bool,
    pub locked: bool,
    pub links: Seq<LinkView>,
}

impl View for Assignment {
    type V = AssignmentView;

    open spec fn view(&self) -> AssignmentView {
        AssignmentView {
            name: self.name@,
            description: self.description.deep_view(),
            html_url: self.html_url@,
            date: self.date,
            course: self.course@,
            completed: self.completed,
            custom: self.custom,
            modified: self.modified,
            locked: self.locked,
            links: self.links.deep_view(),
        }
    }
}

impl DeepView for Assignment {
    type V = AssignmentView;

    open spec fn deep_view(&self) -> AssignmentView {
        self@
    }
}

impl Clone for Assignment {
    fn clone(&self) -> (copy: Assignment)
        ensures
            copy@ == self@,
    {
        Assignment {
            name: self.name.clone(),
            description: match &self.description {
                Some(text) => Some(text.clone()),
                None => None,
            },
            html_url: self.html_url.clone(),
            date: self.date,
            course: self.course.clone(),
            completed: self.completed,
            custom: self.custom,
            modified: self.modified,
            locked: self.locked,
            links: copy_links(&self.links),
        }
    }
}

impl PartialEq for Assignment {
    fn eq(&self, other: &Assignment) -> (same: bool) {
        self.name == other.name && same_text(&self.description, &other.description) && self.html_url
            == other.html_url && self.date == other.date && self.course == other.course
            && self.completed == other.completed && self.custom == other.custom && self.modified
            == other.modified && self.locked == other.locked && same_links(&self.links, &other.links)
    }
}

impl vstd::std_specs::cmp::PartialEqSpecImpl for Assignment {
    open spec fn obeys_eq_spec() -> bool {
        true
    }

    open spec fn eq_spec(&self, other: &Assignment) -> bool {
        self@ == other@
    }
}

impl Eq for Assignment {

}

/// What `std::hash::DefaultHasher::new` makes of the fields that tell one
/// assignment from another and that no refresh rewrites.
pub uninterp spec fn identity_hash(
    url: Seq<char>,
    name: Seq<char>,
    course: Seq<char>,
    custom: bool,
    modified: bool,
) -> u64;

/// Feeds the five values, as one tuple, to a `std::hash::DefaultHasher`
/// made by `new` and returns what `finish` gives. Not proved: that the
/// result is `identity_hash` of them, that is, that equal values hash
/// alike.
#[verifier::external_body]
fn hash_identity(url: &str, name: &str, course: &str, custom: bool, modified: bool) -> (hash: u64)
    ensures
        hash == identity_hash(url@, name@, course@, custom, modified),
{
    let mut hasher = DefaultHasher::new();
    (url, name, course, custom, modified).hash(&mut hasher);
    hasher.finish()
}

impl AssignmentView {
    /// The fingerprint by which a record is found again after the
    /// collection was reordered or refreshed.
    pub open spec fn fingerprint(self) -> u64 {
        identity_hash(self.html_url, self.name, self.course, self.custom, self.modified)
    }

    /// The record a fetched assignment with these particulars becomes.
    pub open spec fn remote(
        name: Seq<char>,
        nickname: Option<Seq<char>>,
        description: Option<Seq<char>>,
        html_url: Seq<char>,
        date: Option<Timestamp>,
        course: Seq<char>,
        completed: bool,
        locked: bool,
    ) -> AssignmentView {
        AssignmentView {
            name,
            description,
            html_url,
            date,
            course: match nickname {
                Some(short) => short,
                None => course,
            },
            completed,
            custom: false,
            modified: false,
            locked,
            links: links_in(description),
        }
    }

    /// The blank record the user starts from at the moment `now`: due at
    /// the end of that day, where the clock can show it.
    pub open spec fn blank(now: Timestamp) -> AssignmentView {
        AssignmentView {
            name: Seq::empty(),
            description: None,
            html_url: Seq::empty(),
            date: if now.has_end_of_day() { Some(now.end_of_day()) } else { None },
            course: Seq::empty(),
            completed: false,
            custom: true,
            modified: false,
            locked: false,
            links: Seq::empty(),
        }
    }

    /// The due date one day on; unchanged where there is none or the next
    /// day cannot be represented.
    pub open spec fn postponed(self) -> AssignmentView {
        match self.date {
            Some(due) => if due.can_add_day() {
                AssignmentView { date: Some(due.plus_day()), ..self }
            } else {
                self
            },
            None => self,
        }
    }

    /// The due date one day back, provided that day is still ahead of
    /// `now`; unchanged otherwise.
    pub open spec fn advanced(self, now: Timestamp) -> AssignmentView {
        match self.date {
            Some(due) => if due.can_sub_day() && now.before(due.minus_day()) {
                AssignmentView { date: Some(due.minus_day()), ..self }
            } else {
                self
            },
            None => self,
        }
    }
}

impl Assignment {
    /// Builds a fetched assignment. `datestring`, where given, must be an
    /// RFC 3339 date-time; a nickname, where given, stands for the course.
    pub fn new(
        name: String,
        nickname: Option<String>,
        description: Option<String>,
        html_url: String,
        datestring: Option<String>,
        course: String,
        completed: bool,
        locked: bool,
    ) -> (r: Result<Assignment, Error>)
        ensures
            r matches Ok(a) ==> (a.date matches Some(due) ==> due.in_range()),
            match datestring {
                Some(text) => match rfc3339_reading(text@) {
                    Some(reading) => r is Ok && r->Ok_0@ == AssignmentView::remote(
                        name@,
                        nickname.deep_view(),
                        description.deep_view(),
                        html_url@,
                        Some(Timestamp { secs: reading.0, nanos: reading.1, offset: reading.2 }),
                        course@,
                        completed,
                        locked,
                    ),
                    None => r == Err::<Assignment, Error>(Error::InvalidDate),
                },
                None => r is Ok && r->Ok_0@ == AssignmentView::remote(
                    name@,
                    nickname.deep_view(),
                    description.deep_view(),
                    html_url@,
                    None,
                    course@,
                    completed,
                    locked,
                ),
            },
    {
        let date = match datestring {
            Some(text) => match parse_rfc3339(text.as_str()) {
                Ok(due) => Some(due),
                Err(_) => {
                    return Err(Error::InvalidDate);
                },
            },
            None => None,
        };
        Ok(Assignment::remote(name, nickname, description, html_url, date, course, completed, locked))
    }

    /// Builds a fetched assignment whose due date is already read.
    pub fn remote(
        name: String,
        nickname: Option<String>,
        description: Option<String>,
        html_url: String,
        date: Option<Timestamp>,
        course: String,
        completed: bool,
        locked: bool,
    ) -> (a: Assignment)
        ensures
            a@ == AssignmentView::remote(
                name@,
                nickname.deep_view(),
                description.deep_view(),
                html_url@,
                date,
                course@,
                completed,
                locked,
            ),
    {
        let course = match nickname {
            Some(short) => short,
            None => course,
        };
        let links = extract_links(&description);
        Assignment {
            name,
            description,
            html_url,
            date,
            course,
            completed,
            custom: false,
            modified: false,
            locked,
            links,
        }
    }

    /// A blank assignment of the user's own, due at 23:59 local time on
    /// the day of `now`.
    pub fn empty(now: &Timestamp) -> (a: Assignment)
        ensures
            a@ == AssignmentView::blank(*now),
    {
        let links: Vec<Link> = Vec::new();
        assert(links.deep_view() =~= Seq::<LinkView>::empty());
        Assignment {
            name: String::new(),
            description: None,
            html_url: String::new(),
            date: now.day_end(),
            course: String::new(),
            completed: false,
            custom: true,
            modified: false,
            locked: false,
            links,
        }
    }

    /// Recomputes the links from the description.
    pub fn populate_links(&mut self)
        ensures
            final(self)@ == (AssignmentView { links: links_in(old(self)@.description), ..old(self)@ }),
    {
        self.links = extract_links(&self.description);
    }

    /// Makes the due date one day later.
    pub fn increment_due_date(&mut self)
        ensures
            final(self)@ == old(self)@.postponed(),
    {
        match self.date {
            Some(due) => match due.add_day() {
                Some(later) => {
                    self.date = Some(later);
                },
                None => {},
            },
            None => {},
        }
    }

    /// Makes the due date one day earlier, unless that day is not after
    /// `now`.
    pub fn decrement_due_date(&mut self, now: &Timestamp)
        ensures
            final(self)@ == old(self)@.advanced(*now),
    {
        match self.date {
            Some(due) => match due.sub_day() {
                Some(earlier) => {
                    if now.is_before(&earlier) {
                        self.date = Some(earlier);
                    }
                },
                None => {},
            },
            None => {},
        }
    }

    /// The record's fingerprint.
    pub fn fingerprint(&self) -> (hash: u64)
        ensures
            hash == self@.fingerprint(),
    {
        hash_identity(
            self.html_url.as_str(),
            self.name.as_str(),
            self.course.as_str(),
            self.custom,
            self.modified,
        )
    }
}

} // verus!
