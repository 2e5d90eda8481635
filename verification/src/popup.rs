//! The exit-confirmation dialog: a two-choice state machine driven by key
//! presses. Drawing it on a terminal is left to the caller.

use vstd::prelude::*;
use vstd::string::StringExecFns;

verus! {

/// Which button the dialog highlights.
#[derive(Debug, Clone, Copy, PartialEq, Eq, Structural)]
pub enum ConfirmationChoice {
    Yes,
    No,
}

impl core::default::Default for ConfirmationChoice {
    fn default() -> (r: Self)
        ensures
            r == ConfirmationChoice::No,
    {
        ConfirmationChoice::No
    }
}

/// What the dialog answered.
#[derive(Debug, Clone, Copy, PartialEq, Eq, Structural)]
pub enum ConfirmationResult {
    Yes,
    No,
    Cancelled,
}

/// What a key press asks the dialog to do.
#[derive(Debug, Clone, Copy, PartialEq, Eq, Structural)]
pub enum ConfirmationMessage {
    Confirm,
    Cancel,
    ToggleChoice,
}

/// A key press, reduced to what the dialogs react to.
#[derive(Debug, Clone, Copy, PartialEq, Eq, Structural)]
pub enum KeyPress {
    Left,
    Right,
    Tab,
    Enter,
    Esc,
    Char(char),
    Other,
}

/// The confirmation dialog's state.
#[derive(Debug, Clone, PartialEq, Eq)]
pub struct ConfirmationPopup {
    pub title: String,
    pub content: String,
    pub yes_label: String,
    pub no_label: String,
    pub selected: ConfirmationChoice,
    pub visible: bool,
}

pub open spec fn toggled(c: ConfirmationChoice) -> ConfirmationChoice {
    match c {
        ConfirmationChoice::Yes => ConfirmationChoice::No,
        ConfirmationChoice::No => ConfirmationChoice::Yes,
    }
}

/// What `update` answers for a message, given the current selection.
pub open spec fn update_result(msg: ConfirmationMessage, selected: ConfirmationChoice) -> Option<
    ConfirmationResult,
> {
    match msg {
        ConfirmationMessage::ToggleChoice => None,
        ConfirmationMessage::Confirm => Some(
            match selected {
                ConfirmationChoice::Yes => ConfirmationResult::Yes,
                ConfirmationChoice::No => ConfirmationResult::No,
            },
        ),
        ConfirmationMessage::Cancel => Some(ConfirmationResult::Cancelled),
    }
}

/// The dialog's state after `update` handles a message.
pub open spec fn updated_popup(p: ConfirmationPopup, msg: ConfirmationMessage) -> ConfirmationPopup {
    match msg {
        ConfirmationMessage::ToggleChoice => ConfirmationPopup {
            selected: toggled(p.selected),
            ..p
        },
        ConfirmationMessage::Confirm => ConfirmationPopup { visible: false, ..p },
        ConfirmationMessage::Cancel => ConfirmationPopup { visible: false, ..p },
    }
}

/// The message a key press produces while the dialog is visible, and the
/// selection it leaves behind.
pub open spec fn key_response(key: KeyPress, ctrl: bool, selected: ConfirmationChoice) -> (
    Option<ConfirmationMessage>,
    ConfirmationChoice,
) {
    match key {
        KeyPress::Left => (Some(ConfirmationMessage::ToggleChoice), selected),
        KeyPress::Right => (Some(ConfirmationMessage::ToggleChoice), selected),
        KeyPress::Tab => (Some(ConfirmationMessage::ToggleChoice), selected),
        KeyPress::Enter => (Some(ConfirmationMessage::Confirm), selected),
        KeyPress::Esc => (Some(ConfirmationMessage::Cancel), selected),
        KeyPress::Char(c) => if c == 'h' || c == 'l' {
            (Some(ConfirmationMessage::ToggleChoice), selected)
        } else if c == 'y' || c == 'Y' {
            (Some(ConfirmationMessage::Confirm), ConfirmationChoice::Yes)
        } else if c == 'n' || c == 'N' {
            (Some(ConfirmationMessage::Confirm), ConfirmationChoice::No)
        } else if c == 'c' && ctrl {
            (Some(ConfirmationMessage::Cancel), selected)
        } else {
            (None, selected)
        },
        KeyPress::Other => (None, selected),
    }
}

impl ConfirmationPopup {
    /// A hidden dialog with `Yes`/`No` buttons and `No` selected.
    pub fn new(title: &str, content: &str) -> (r: ConfirmationPopup)
        ensures
            r.title@ == title@,
            r.content@ == content@,
            r.yes_label@ == "Yes"@,
            r.no_label@ == "No"@,
            r.selected == ConfirmationChoice::No,
            !r.visible,
    {
        ConfirmationPopup {
            title: String::from_str(title),
            content: String::from_str(content),
            yes_label: String::from_str("Yes"),
            no_label: String::from_str("No"),
            selected: ConfirmationChoice::No,
            visible: false,
        }
    }

    /// Shows the dialog with the selection reset to its default.
    pub fn show(&mut self)
        ensures
            *final(self) == (ConfirmationPopup {
                visible: true,
                selected: ConfirmationChoice::No,
                ..*old(self)
            }),
    {
        self.visible = true;
        self.selected = ConfirmationChoice::No;
    }

    /// Hides the dialog.
    pub fn close(&mut self)
        ensures
            *final(self) == (ConfirmationPopup { visible: false, ..*old(self) }),
    {
        self.visible = false;
    }

    pub fn is_visible(&self) -> (r: bool)
        ensures
            r == self.visible,
    {
        self.visible
    }

    /// Applies a message: toggling flips the selection, confirming answers
    /// with the selected button, cancelling answers `Cancelled`; both close
    /// the dialog.
    pub fn update(&mut self, msg: ConfirmationMessage) -> (r: Option<ConfirmationResult>)
        ensures
            r == update_result(msg, old(self).selected),
            *final(self) == updated_popup(*old(self), msg),
    {
        match msg {
            ConfirmationMessage::ToggleChoice => {
                self.selected = match self.selected {
                    ConfirmationChoice::Yes => ConfirmationChoice::No,
                    ConfirmationChoice::No => ConfirmationChoice::Yes,
                };
                None
            },
            ConfirmationMessage::Confirm => {
                self.visible = false;
                Some(
                    match self.selected {
                        ConfirmationChoice::Yes => ConfirmationResult::Yes,
                        ConfirmationChoice::No => ConfirmationResult::No,
                    },
                )
            },
            ConfirmationMessage::Cancel => {
                self.visible = false;
                Some(ConfirmationResult::Cancelled)
            },
        }
    }

    /// Turns a key press into a message while the dialog is visible; a
    /// hidden dialog ignores keys.
    pub fn handle_key(&mut self, key: KeyPress, ctrl: bool) -> (r: Option<ConfirmationMessage>)
        ensures
            !old(self).visible ==> r is None && *final(self) == *old(self),
            old(self).visible ==> (r == key_response(key, ctrl, old(self).selected).0
                && *final(self) == (ConfirmationPopup {
                selected: key_response(key, ctrl, old(self).selected).1,
                ..*old(self)
            })),
    {
        if !self.visible {
            return None;
        }
        match key {
            KeyPress::Left => Some(ConfirmationMessage::ToggleChoice),
            KeyPress::Right => Some(ConfirmationMessage::ToggleChoice),
            KeyPress::Tab => Some(ConfirmationMessage::ToggleChoice),
            KeyPress::Enter => Some(ConfirmationMessage::Confirm),
            KeyPress::Esc => Some(ConfirmationMessage::Cancel),
            KeyPress::Char(c) => {
                if c == 'h' || c == 'l' {
                    Some(ConfirmationMessage::ToggleChoice)
                } else if c == 'y' || c == 'Y' {
                    self.selected = ConfirmationChoice::Yes;
                    Some(ConfirmationMessage::Confirm)
                } else if c == 'n' || c == 'N' {
                    self.selected = ConfirmationChoice::No;
                    Some(ConfirmationMessage::Confirm)
                } else if c == 'c' && ctrl {
                    Some(ConfirmationMessage::Cancel)
                } else {
                    None
                }
            },
            KeyPress::Other => None,
        }
    }
}

} // verus!
