use chatatui::client::get_timestamp;
use chatatui::client::App;
use chatatui::client::AppMode;
use chatatui::client::KeyInput;
use chatatui::input::InputWidget;

fn type_word(app: &mut App, word: &str) {
    for c in word.chars() {
        assert!(app.handle_key(KeyInput::Char(c), 0).is_none());
    }
}

#[test]
fn input_widget_edits_its_line() {
    let mut w = InputWidget::new();
    assert!(!w.active);
    assert_eq!(w.value, "");
    w.toggle(true);
    assert!(w.active);
    w.push('h');
    w.push('i');
    assert_eq!(w.value, "hi");
    w.pop();
    assert_eq!(w.value, "h");
    w.pop();
    w.pop();
    assert_eq!(w.value, "");
    w.push('x');
    w.reset();
    assert_eq!(w.value, "");
    assert!(w.active);
}

#[test]
fn login_flow_sets_the_name_and_enters_chat() {
    let mut app = App::new();
    assert!(app.mode == AppMode::Login);
    // Enter gives the input line focus, then the name is typed
    assert!(app.handle_key(KeyInput::Enter, 0).is_none());
    assert!(app.input.active);
    type_word(&mut app, "alice");
    assert_eq!(app.input.value, "alice");
    // Enter on the login screen confirms the name
    assert!(app.handle_key(KeyInput::Enter, 0).is_none());
    assert!(app.mode == AppMode::Chat);
    assert_eq!(app.name, "alice");
    assert_eq!(app.input.value, "");
    assert!(!app.input.active);
}

#[test]
fn sending_composes_the_encoded_envelope() {
    let mut app = App::new();
    app.handle_key(KeyInput::Enter, 0);
    type_word(&mut app, "alice");
    app.handle_key(KeyInput::Enter, 0);
    // focus the line again and type the message body
    app.handle_key(KeyInput::Enter, 0);
    type_word(&mut app, "hi");
    let frame = app.handle_key(KeyInput::Enter, 1).expect("a frame to send");
    assert_eq!(frame, "{\"ts\":1,\"text\":\"hi\",\"sender\":\"alice\"}");
    assert_eq!(app.input.value, "");
    assert!(!app.input.active);
    assert!(app.mode == AppMode::Chat);
}

#[test]
fn empty_body_is_rejected_at_the_client() {
    let mut app = App::new();
    app.handle_key(KeyInput::Enter, 0);
    type_word(&mut app, "bob");
    app.handle_key(KeyInput::Enter, 0);
    app.handle_key(KeyInput::Enter, 0);
    // Enter with an empty line: nothing is sent
    assert!(app.handle_key(KeyInput::Enter, 9).is_none());
    assert!(app.mode == AppMode::Chat);
}

#[test]
fn backspace_edits_and_other_keys_are_ignored() {
    let mut app = App::new();
    app.handle_key(KeyInput::Enter, 0);
    type_word(&mut app, "ab");
    assert!(app.handle_key(KeyInput::Backspace, 0).is_none());
    assert_eq!(app.input.value, "a");
    assert!(app.handle_key(KeyInput::Other, 0).is_none());
    assert_eq!(app.input.value, "a");
    // backspace on an empty line is harmless
    app.handle_key(KeyInput::Backspace, 0);
    app.handle_key(KeyInput::Backspace, 0);
    assert_eq!(app.input.value, "");
}

#[test]
fn q_quits_only_without_focus() {
    let mut app = App::new();
    app.handle_key(KeyInput::Enter, 0);
    type_word(&mut app, "q");
    assert!(app.mode == AppMode::Login);
    app.handle_key(KeyInput::Enter, 0);
    assert!(app.mode == AppMode::Chat);
    assert!(!app.input.active);
    // without focus, 'q' ends the client
    assert!(app.handle_key(KeyInput::Char('q'), 0).is_none());
    assert!(app.mode == AppMode::Exit);
    assert!(app.is_exit());
}

#[test]
fn received_frames_land_in_the_chat_history() {
    let mut app = App::new();
    assert!(app.chat.ingest("{\"ts\":3,\"text\":\"hello\",\"sender\":\"bob\"}"));
    assert_eq!(app.chat.messages.len(), 1);
    assert_eq!(app.chat.messages[0].ts, 3);
    assert_eq!(app.chat.messages[0].sender, "bob");
}

#[test]
fn timestamps_are_never_negative() {
    assert!(get_timestamp() >= 0);
}
