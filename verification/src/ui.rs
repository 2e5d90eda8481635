//! The interface's model and its message-driven update rules. The event
//! loop and the drawing live with the caller; only the decisions are here.

use vstd::prelude::*;

use crate::popup::{
    key_response, update_result, updated_popup, ConfirmationChoice, ConfirmationMessage,
    ConfirmationPopup, ConfirmationResult, KeyPress,
};

verus! {

#[derive(Debug, Clone, Copy, PartialEq, Eq, Structural)]
pub enum RunningState {
    Running,
    Done,
}

impl core::default::Default for RunningState {
    fn default() -> (r: Self)
        ensures
            r == RunningState::Running,
    {
        RunningState::Running
    }
}

#[derive(Debug, Clone, Copy, PartialEq, Eq, Structural)]
pub enum Message {
    Quit,
    ShowExitConfirmation,
    ExitConfirmation(ConfirmationMessage),
}

/// The interface's whole state.
#[derive(Debug, Clone, PartialEq, Eq)]
pub struct Model {
    pub running_state: RunningState,
    pub exit_confirmation: ConfirmationPopup,
}

impl core::default::Default for Model {
    fn default() -> (r: Self)
        ensures
            r.running_state == RunningState::Running,
            r.exit_confirmation.title@ == "Confirm Exit"@,
            r.exit_confirmation.content@ == "Are you sure you want to quit?"@,
            r.exit_confirmation.selected == ConfirmationChoice::No,
            !r.exit_confirmation.visible,
    {
        Model {
            running_state: RunningState::Running,
            exit_confirmation: ConfirmationPopup::new(
                "Confirm Exit",
                "Are you sure you want to quit?",
            ),
        }
    }
}

/// Turns a key press into a message: the visible confirmation dialog takes
/// the key first; otherwise `q` quits and control-`c` asks for confirmation.
pub fn handle_key(key: KeyPress, ctrl: bool, model: &mut Model) -> (r: Option<Message>)
    ensures
        final(model).running_state == old(model).running_state,
        old(model).exit_confirmation.visible ==> {
            let resp = key_response(key, ctrl, old(model).exit_confirmation.selected);
            &&& final(model).exit_confirmation == (ConfirmationPopup {
                selected: resp.1,
                ..old(model).exit_confirmation
            })
            &&& r == (match resp.0 {
                Some(m) => Some(Message::ExitConfirmation(m)),
                None => None::<Message>,
            })
        },
        !old(model).exit_confirmation.visible ==> *final(model) == *old(model) && r == (match key {
            KeyPress::Char(c) => if c == 'q' {
                Some(Message::Quit)
            } else if c == 'c' && ctrl {
                Some(Message::ShowExitConfirmation)
            } else {
                None::<Message>
            },
            _ => None::<Message>,
        }),
{
    if model.exit_confirmation.is_visible() {
        if let Some(msg) = model.exit_confirmation.handle_key(key, ctrl) {
            return Some(Message::ExitConfirmation(msg));
        }
        return None;
    }
    match key {
        KeyPress::Char(c) => {
            if c == 'q' {
                Some(Message::Quit)
            } else if c == 'c' && ctrl {
                Some(Message::ShowExitConfirmation)
            } else {
                None
            }
        },
        _ => None,
    }
}

/// Applies a message to the model: quitting ends the run, a confirmed exit
/// dialog ends it too, a refused or cancelled one merely closes.
pub fn update(model: &mut Model, msg: Message) -> (r: Option<Message>)
    ensures
        r is None,
        msg == Message::Quit ==> *final(model) == (Model {
            running_state: RunningState::Done,
            exit_confirmation: old(model).exit_confirmation,
        }),
        msg == Message::ShowExitConfirmation ==> *final(model) == (Model {
            running_state: old(model).running_state,
            exit_confirmation: ConfirmationPopup {
                visible: true,
                selected: ConfirmationChoice::No,
                ..old(model).exit_confirmation
            },
        }),
        msg matches Message::ExitConfirmation(cmsg) ==> {
            let p2 = updated_popup(old(model).exit_confirmation, cmsg);
            match update_result(cmsg, old(model).exit_confirmation.selected) {
                Some(ConfirmationResult::Yes) => *final(model) == (Model {
                    running_state: RunningState::Done,
                    exit_confirmation: p2,
                }),
                Some(ConfirmationResult::No) => *final(model) == (Model {
                    running_state: old(model).running_state,
                    exit_confirmation: ConfirmationPopup { visible: false, ..p2 },
                }),
                Some(ConfirmationResult::Cancelled) => *final(model) == (Model {
                    running_state: old(model).running_state,
                    exit_confirmation: ConfirmationPopup { visible: false, ..p2 },
                }),
                None => *final(model) == (Model {
                    running_state: old(model).running_state,
                    exit_confirmation: p2,
                }),
            }
        },
{
    match msg {
        Message::Quit => {
            model.running_state = RunningState::Done;
        },
        Message::ShowExitConfirmation => {
            model.exit_confirmation.show();
        },
        Message::ExitConfirmation(confirmation_msg) => {
            if let Some(result) = model.exit_confirmation.update(confirmation_msg) {
                match result {
                    ConfirmationResult::Yes => {
                        model.running_state = RunningState::Done;
                    },
                    ConfirmationResult::No => {
                        model.exit_confirmation.close();
                    },
                    ConfirmationResult::Cancelled => {
                        model.exit_confirmation.close();
                    },
                }
            }
        },
    }
    None
}

} // verus!
