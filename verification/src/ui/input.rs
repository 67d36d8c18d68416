//! What each key does, in each mode.
use vstd::prelude::*;
use crate::types::timestamp::Timestamp;
use crate::ui::app::{App, AppView, AssignmentField, Mode};

verus! {

/// The keys the session tells apart.
#[derive(PartialEq, Eq, Copy, Clone, Debug, Structural)]
pub enum KeyCode {
    Backspace,
    Enter,
    Tab,
    BackTab,
    Esc,
    Char(char),
    Other,
}

/// The modifier keys held down with a key.
#[derive(PartialEq, Eq, Copy, Clone, Debug, Structural)]
pub enum KeyModifiers {
    Plain,
    Shift,
    Control,
    Other,
}

/// One key press.
#[derive(PartialEq, Eq, Copy, Clone, Debug, Structural)]
pub struct KeyPress {
    pub code: KeyCode,
    pub modifiers: KeyModifiers,
}

/// What the caller has to do after a key was handled.
#[derive(Debug)]
pub enum Effect {
    /// Nothing.
    Nothing,
    /// Save the dataset.
    Save,
    /// Save the dataset and end the session.
    Quit,
    /// Open the address in the user's browser.
    Open(String),
    /// Fetch from the remote service, apply the result and save.
    Refresh,
}

/// The mathematical value of an `Effect`.
pub enum EffectView {
    Nothing,
    Save,
    Quit,
    Open(Seq<char>),
    Refresh,
}

impl View for Effect {
    type V = EffectView;

    open spec fn view(&self) -> EffectView {
        match self {
            Effect::Nothing => EffectView::Nothing,
            Effect::Save => EffectView::Save,
            Effect::Quit => EffectView::Quit,
            Effect::Open(url) => EffectView::Open(url@),
            Effect::Refresh => EffectView::Refresh,
        }
    }
}

impl AppView {
    /// The state after a key went to the assignment being edited: tab
    /// opens the next field and back-tab the one before; in the due date
    /// `j` takes a day away and `k` adds one; in a text a character key,
    /// shifted or not, appends its character and plain backspace takes
    /// the last one away. Nothing happens while browsing.
    pub open spec fn take_new_assignment_input(self, key: KeyPress, now: Timestamp) -> AppView {
        match self.mode {
            Mode::Normal => self,
            Mode::NewAssignment(field) => match key.code {
                KeyCode::Tab => self.next_field(),
                KeyCode::BackTab => self.prev_field(),
                KeyCode::Char(c) => if field == AssignmentField::DueDate {
                    if c == 'j' {
                        self.decrement_due_date(now)
                    } else if c == 'k' {
                        self.increment_due_date()
                    } else {
                        self
                    }
                } else if key.modifiers == KeyModifiers::Plain || key.modifiers == KeyModifiers::Shift {
                    self.push_char(c)
                } else {
                    self
                },
                KeyCode::Backspace => if key.modifiers == KeyModifiers::Plain {
                    self.pop_char()
                } else {
                    self
                },
                _ => self,
            },
        }
    }

    /// State and effect after a key was pressed while editing.
    pub open spec fn handle_input_new_assignment(self, key: KeyPress, now: Timestamp) -> (
        AppView,
        EffectView,
    ) {
        match key.modifiers {
            KeyModifiers::Plain => match key.code {
                KeyCode::Esc => (self.exit_new_assignment_mode(), EffectView::Save),
                _ => (self.take_new_assignment_input(key, now), EffectView::Nothing),
            },
            KeyModifiers::Shift => (self.take_new_assignment_input(key, now), EffectView::Nothing),
            KeyModifiers::Control => if key.code == KeyCode::Char('c') {
                (self.exit_new_assignment_mode(), EffectView::Save)
            } else {
                (self, EffectView::Nothing)
            },
            KeyModifiers::Other => (self, EffectView::Nothing),
        }
    }

    /// The effect of asking for an address to be opened.
    pub open spec fn opening(url: Option<Seq<char>>) -> EffectView {
        match url {
            Some(address) => EffectView::Open(address),
            None => EffectView::Nothing,
        }
    }

    /// State and effect after a plain character key was pressed while
    /// browsing.
    pub open spec fn normal_char(self, c: char, now: Timestamp) -> (AppView, EffectView) {
        if c == 'j' {
            (self.next_assignment(), EffectView::Nothing)
        } else if c == 'k' {
            (self.prev_assignment(), EffectView::Nothing)
        } else if c == 'q' {
            (self, EffectView::Quit)
        } else if c == 'o' {
            (self, Self::opening(self.open_assignment()))
        } else if c == 'n' {
            (
                if self.mode == Mode::Normal {
                    self.new_assignment(now)
                } else {
                    self
                },
                EffectView::Nothing,
            )
        } else if c == 'r' {
            (self, EffectView::Refresh)
        } else if c == 'd' {
            (self.mark_done(), EffectView::Nothing)
        } else if c == 'x' {
            (
                self.delete_assignment(),
                if self.mode == Mode::Normal && (self.selected is None || self.can_delete()) {
                    EffectView::Save
                } else {
                    EffectView::Nothing
                },
            )
        } else {
            (self, EffectView::Nothing)
        }
    }

    /// State and effect after a key was pressed while browsing.
    pub open spec fn handle_input_normal(self, key: KeyPress, now: Timestamp) -> (AppView, EffectView) {
        match (key.modifiers, key.code) {
            (KeyModifiers::Plain, KeyCode::Char(c)) => self.normal_char(c, now),
            (KeyModifiers::Shift, KeyCode::Char(c)) => if c == 'J' {
                (self.next_link(), EffectView::Nothing)
            } else if c == 'K' {
                (self.prev_link(), EffectView::Nothing)
            } else if c == 'O' {
                (self, Self::opening(self.open_link()))
            } else {
                (self, EffectView::Nothing)
            },
            (KeyModifiers::Control, KeyCode::Char(c)) => if c == 'c' {
                (self, EffectView::Quit)
            } else {
                (self, EffectView::Nothing)
            },
            _ => (self, EffectView::Nothing),
        }
    }

    /// State and effect after a key was pressed.
    pub open spec fn handle_input(self, key: KeyPress, now: Timestamp) -> (AppView, EffectView) {
        match self.mode {
            Mode::Normal => self.handle_input_normal(key, now),
            Mode::NewAssignment(_) => self.handle_input_new_assignment(key, now),
        }
    }
}

/// The effect of asking for an address to be opened.
fn opening(url: Option<String>) -> (effect: Effect)
    ensures
        effect@ == AppView::opening(url.deep_view()),
{
    match url {
        Some(address) => Effect::Open(address),
        None => Effect::Nothing,
    }
}

/// Handles one key press at the moment `now` and says what the caller
/// has to do next.
pub fn handle_input(app: &mut App, key: &KeyPress, now: &Timestamp) -> (effect: Effect)
    requires
        old(app).wf(),
    ensures
        (final(app)@, effect@) == old(app)@.handle_input(*key, *now),
        final(app).wf(),
{
    match app.mode {
        Mode::Normal => handle_input_normal(app, key, now),
        Mode::NewAssignment(_) => handle_input_new_assignment(app, key, now),
    }
}

/// Handles one key press while browsing.
pub fn handle_input_normal(app: &mut App, key: &KeyPress, now: &Timestamp) -> (effect: Effect)
    requires
        old(app).wf(),
    ensures
        (final(app)@, effect@) == old(app)@.handle_input_normal(*key, *now),
        final(app).wf(),
{
    match (key.modifiers, key.code) {
        (KeyModifiers::Plain, KeyCode::Char(c)) => {
            if c == 'j' {
                app.next_assignment();
                Effect::Nothing
            } else if c == 'k' {
                app.prev_assignment();
                Effect::Nothing
            } else if c == 'q' {
                Effect::Quit
            } else if c == 'o' {
                opening(app.open_assignment())
            } else if c == 'n' {
                let _ = app.new_assignment(now);
                Effect::Nothing
            } else if c == 'r' {
                Effect::Refresh
            } else if c == 'd' {
                app.mark_done();
                Effect::Nothing
            } else if c == 'x' {
                if app.delete_assignment() {
                    Effect::Save
                } else {
                    Effect::Nothing
                }
            } else {
                Effect::Nothing
            }
        },
        (KeyModifiers::Shift, KeyCode::Char(c)) => {
            if c == 'J' {
                app.next_link();
                Effect::Nothing
            } else if c == 'K' {
                app.prev_link();
                Effect::Nothing
            } else if c == 'O' {
                opening(app.open_link())
            } else {
                Effect::Nothing
            }
        },
        (KeyModifiers::Control, KeyCode::Char(c)) => {
            if c == 'c' {
                Effect::Quit
            } else {
                Effect::Nothing
            }
        },
        _ => Effect::Nothing,
    }
}

/// Handles one key press while a new assignment is being edited.
pub fn handle_input_new_assignment(app: &mut App, key: &KeyPress, now: &Timestamp) -> (effect: Effect)
    requires
        old(app).wf(),
    ensures
        (final(app)@, effect@) == old(app)@.handle_input_new_assignment(*key, *now),
        final(app).wf(),
{
    match key.modifiers {
        KeyModifiers::Plain => match key.code {
            KeyCode::Esc => {
                app.exit_new_assignment_mode();
                Effect::Save
            },
            _ => {
                take_new_assignment_input(app, key, now);
                Effect::Nothing
            },
        },
        KeyModifiers::Shift => {
            take_new_assignment_input(app, key, now);
            Effect::Nothing
        },
        KeyModifiers::Control => match key.code {
            KeyCode::Char(c) => {
                if c == 'c' {
                    app.exit_new_assignment_mode();
                    Effect::Save
                } else {
                    Effect::Nothing
                }
            },
            _ => Effect::Nothing,
        },
        KeyModifiers::Other => Effect::Nothing,
    }
}

/// Passes a key to the assignment being edited.
pub fn take_new_assignment_input(app: &mut App, key: &KeyPress, now: &Timestamp)
    requires
        old(app).wf(),
    ensures
        final(app)@ == old(app)@.take_new_assignment_input(*key, *now),
        final(app).wf(),
{
    let field = match app.mode {
        Mode::Normal => {
            return ;
        },
        Mode::NewAssignment(field) => field,
    };
    match key.code {
        KeyCode::Tab => {
            app.next_field();
        },
        KeyCode::BackTab => {
            app.prev_field();
        },
        KeyCode::Char(c) => match field {
            AssignmentField::DueDate => {
                if c == 'j' {
                    app.decrement_due_date(now);
                } else if c == 'k' {
                    app.increment_due_date();
                }
            },
            _ => match key.modifiers {
                KeyModifiers::Plain => {
                    app.push_char(c);
                },
                KeyModifiers::Shift => {
                    app.push_char(c);
                },
                _ => {},
            },
        },
        KeyCode::Backspace => match key.modifiers {
            KeyModifiers::Plain => {
                app.pop_char();
            },
            _ => {},
        },
        _ => {},
    }
}

} // verus!
