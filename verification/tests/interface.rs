use terrent::popup::{
    ConfirmationChoice, ConfirmationMessage, ConfirmationPopup, ConfirmationResult, KeyPress,
};
use terrent::ui::{handle_key, update, Message, Model, RunningState};

#[test]
fn popup_starts_hidden_with_no_selected() {
    let popup = ConfirmationPopup::new("Confirm Exit", "Are you sure you want to quit?");
    assert!(!popup.is_visible());
    assert_eq!(popup.selected, ConfirmationChoice::No);
    assert_eq!(popup.title, "Confirm Exit");
    assert_eq!(popup.content, "Are you sure you want to quit?");
    assert_eq!(popup.yes_label, "Yes");
    assert_eq!(popup.no_label, "No");
}

#[test]
fn popup_show_and_close() {
    let mut popup = ConfirmationPopup::new("t", "c");
    popup.show();
    assert!(popup.is_visible());
    assert_eq!(popup.selected, ConfirmationChoice::No);
    popup.close();
    assert!(!popup.is_visible());
}

#[test]
fn popup_update_toggle_confirm_cancel() {
    let mut popup = ConfirmationPopup::new("t", "c");
    popup.show();

    assert_eq!(popup.update(ConfirmationMessage::ToggleChoice), None);
    assert_eq!(popup.selected, ConfirmationChoice::Yes);

    assert_eq!(
        popup.update(ConfirmationMessage::Confirm),
        Some(ConfirmationResult::Yes)
    );
    assert!(!popup.is_visible());

    popup.show();
    assert_eq!(
        popup.update(ConfirmationMessage::Confirm),
        Some(ConfirmationResult::No)
    );

    popup.show();
    assert_eq!(
        popup.update(ConfirmationMessage::Cancel),
        Some(ConfirmationResult::Cancelled)
    );
    assert!(!popup.is_visible());
}

#[test]
fn popup_ignores_keys_while_hidden() {
    let mut popup = ConfirmationPopup::new("t", "c");
    assert_eq!(popup.handle_key(KeyPress::Enter, false), None);
    assert_eq!(popup.handle_key(KeyPress::Char('y'), false), None);
    assert!(!popup.is_visible());
}

#[test]
fn popup_key_bindings() {
    let mut popup = ConfirmationPopup::new("t", "c");
    popup.show();

    for key in [
        KeyPress::Left,
        KeyPress::Right,
        KeyPress::Tab,
        KeyPress::Char('h'),
        KeyPress::Char('l'),
    ] {
        assert_eq!(
            popup.handle_key(key, false),
            Some(ConfirmationMessage::ToggleChoice)
        );
    }

    assert_eq!(
        popup.handle_key(KeyPress::Char('y'), false),
        Some(ConfirmationMessage::Confirm)
    );
    assert_eq!(popup.selected, ConfirmationChoice::Yes);

    assert_eq!(
        popup.handle_key(KeyPress::Char('N'), false),
        Some(ConfirmationMessage::Confirm)
    );
    assert_eq!(popup.selected, ConfirmationChoice::No);

    assert_eq!(
        popup.handle_key(KeyPress::Enter, false),
        Some(ConfirmationMessage::Confirm)
    );
    assert_eq!(
        popup.handle_key(KeyPress::Esc, false),
        Some(ConfirmationMessage::Cancel)
    );
    assert_eq!(
        popup.handle_key(KeyPress::Char('c'), true),
        Some(ConfirmationMessage::Cancel)
    );
    assert_eq!(popup.handle_key(KeyPress::Char('c'), false), None);
    assert_eq!(popup.handle_key(KeyPress::Other, false), None);
}

#[test]
fn model_quit_message_ends_the_run() {
    let mut model = Model::default();
    assert_eq!(model.running_state, RunningState::Running);
    assert_eq!(update(&mut model, Message::Quit), None);
    assert_eq!(model.running_state, RunningState::Done);
}

#[test]
fn model_exit_confirmation_flow() {
    let mut model = Model::default();

    // control-c asks for confirmation
    let msg = handle_key(KeyPress::Char('c'), true, &mut model);
    assert_eq!(msg, Some(Message::ShowExitConfirmation));
    assert_eq!(update(&mut model, Message::ShowExitConfirmation), None);
    assert!(model.exit_confirmation.is_visible());
    assert_eq!(model.running_state, RunningState::Running);

    // while the dialog is visible, `q` goes to the dialog, not to quit
    assert_eq!(handle_key(KeyPress::Char('q'), false, &mut model), None);

    // choose Yes and confirm: the run ends
    let msg = handle_key(KeyPress::Char('y'), false, &mut model);
    assert_eq!(
        msg,
        Some(Message::ExitConfirmation(ConfirmationMessage::Confirm))
    );
    assert_eq!(
        update(
            &mut model,
            Message::ExitConfirmation(ConfirmationMessage::Confirm)
        ),
        None
    );
    assert_eq!(model.running_state, RunningState::Done);
    assert!(!model.exit_confirmation.is_visible());
}

#[test]
fn model_cancelled_confirmation_keeps_running() {
    let mut model = Model::default();
    update(&mut model, Message::ShowExitConfirmation);

    let msg = handle_key(KeyPress::Esc, false, &mut model);
    assert_eq!(
        msg,
        Some(Message::ExitConfirmation(ConfirmationMessage::Cancel))
    );
    update(
        &mut model,
        Message::ExitConfirmation(ConfirmationMessage::Cancel),
    );
    assert_eq!(model.running_state, RunningState::Running);
    assert!(!model.exit_confirmation.is_visible());
}

#[test]
fn plain_q_quits_when_no_dialog() {
    let mut model = Model::default();
    assert_eq!(
        handle_key(KeyPress::Char('q'), false, &mut model),
        Some(Message::Quit)
    );
    assert_eq!(handle_key(KeyPress::Other, false, &mut model), None);
}
