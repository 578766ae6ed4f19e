use grimoire::app::{App, CurrentScreen, CurrentlyEditing, KeyInput};
use grimoire::domain::normalize_domain;

fn type_text(app: &mut App, text: &str, store: &str) {
    for c in text.chars() {
        app.handle_key(KeyInput::Char(c), false, store);
    }
}

#[test]
fn first_time_setup_through_keys() {
    let mut app = App::new(None);
    assert_eq!(app.current_screen, CurrentScreen::Init);
    type_text(&mut app, "correct-horse", "[]");
    let action = app.handle_key(KeyInput::Enter, false, "[]");
    let record = action.save_record.expect("a fresh record to persist");
    assert!(record.starts_with("$argon2"));
    assert_eq!(app.current_screen, CurrentScreen::Main);
    assert!(app.is_unlocked());
    assert!(app.scratch.is_empty());
}

#[test]
fn login_rejects_wrong_password_and_stays() {
    let mut setup = App::new(None);
    let record = setup.set_master_password("right").expect("setup");
    let store = setup.save_all().expect("empty store");

    let mut app = App::new(Some(record));
    assert_eq!(app.current_screen, CurrentScreen::Login);
    type_text(&mut app, "wrongpw", &store);
    app.handle_key(KeyInput::Enter, false, &store);
    assert_eq!(app.current_screen, CurrentScreen::Login);
    assert!(!app.is_unlocked());
    // the prompt clears after a failed attempt
    assert!(app.scratch.is_empty());

    type_text(&mut app, "right", &store);
    app.handle_key(KeyInput::Enter, false, &store);
    assert_eq!(app.current_screen, CurrentScreen::Main);
    assert!(app.is_unlocked());
}

#[test]
fn create_a_secret_through_the_editor() {
    let mut app = App::new(None);
    type_text(&mut app, "pw", "[]");
    app.handle_key(KeyInput::Enter, false, "[]");
    assert_eq!(app.current_screen, CurrentScreen::Main);

    app.handle_key(KeyInput::Char('n'), false, "[]");
    assert_eq!(app.current_screen, CurrentScreen::New);
    assert_eq!(app.currently_editing, Some(CurrentlyEditing::Name));

    type_text(&mut app, "github", "[]");
    app.handle_key(KeyInput::Tab, false, "[]");
    assert_eq!(app.currently_editing, Some(CurrentlyEditing::Key(0)));
    type_text(&mut app, "username", "[]");
    app.handle_key(KeyInput::Tab, false, "[]");
    assert_eq!(app.currently_editing, Some(CurrentlyEditing::Value(0)));
    type_text(&mut app, "alice", "[]");
    app.handle_key(KeyInput::Enter, false, "[]");
    assert!(app.key_input.is_empty() && app.value_input.is_empty());

    app.handle_key(KeyInput::Tab, false, "[]");
    assert_eq!(app.currently_editing, Some(CurrentlyEditing::Key(1)));
    type_text(&mut app, "password", "[]");
    app.handle_key(KeyInput::Tab, false, "[]");
    type_text(&mut app, "p1", "[]");
    app.handle_key(KeyInput::Enter, false, "[]");

    let action = app.handle_key(KeyInput::Esc, false, "[]");
    assert!(action.persist);
    assert_eq!(app.current_screen, CurrentScreen::Main);
    assert_eq!(app.secrets.len(), 1);
    assert_eq!(
        app.get_credentials_for_domain("github.com"),
        Some(("alice".to_string(), "p1".to_string()))
    );
}

#[test]
fn search_narrows_and_tab_cycles() {
    let mut app = App::new(None);
    type_text(&mut app, "pw", "[]");
    app.handle_key(KeyInput::Enter, false, "[]");
    app.upsert_credentials_for_domain("github.com", "a", "1");
    app.upsert_credentials_for_domain("gitlab.com", "b", "2");
    app.upsert_credentials_for_domain("mail.net", "c", "3");

    app.handle_key(KeyInput::Char('/'), false, "[]");
    assert_eq!(app.current_screen, CurrentScreen::Searching);
    type_text(&mut app, "git", "[]");
    assert_eq!(app.search_buffer.len(), 2);
    assert_eq!(app.currently_selected_secret_idx, Some(0));
    app.handle_key(KeyInput::Tab, false, "[]");
    assert_eq!(app.currently_selected_secret_idx, Some(1));
    app.handle_key(KeyInput::Tab, false, "[]");
    assert_eq!(app.currently_selected_secret_idx, Some(0));
}

#[test]
fn delete_selected_secret() {
    let mut app = App::new(None);
    type_text(&mut app, "pw", "[]");
    app.handle_key(KeyInput::Enter, false, "[]");
    app.upsert_credentials_for_domain("one.example", "a", "1");
    app.upsert_credentials_for_domain("two.example", "b", "2");

    app.handle_key(KeyInput::Right, false, "[]");
    assert_eq!(app.currently_selected_secret_idx, Some(0));
    let action = app.handle_key(KeyInput::Delete, false, "[]");
    assert!(action.persist);
    assert_eq!(app.secrets.len(), 1);
    assert_eq!(app.secrets[0].get_name(), "two.example");
}

#[test]
fn grid_navigation_wraps() {
    let mut app = App::new(None);
    type_text(&mut app, "pw", "[]");
    app.handle_key(KeyInput::Enter, false, "[]");
    for d in ["a.x", "b.x", "c.x", "d.x"] {
        app.upsert_credentials_for_domain(d, "u", "p");
    }
    app.handle_key(KeyInput::Right, false, "[]");
    assert_eq!(app.currently_selected_secret_idx, Some(0));
    app.handle_key(KeyInput::Left, false, "[]");
    assert_eq!(app.currently_selected_secret_idx, Some(3));
    app.handle_key(KeyInput::Right, false, "[]");
    assert_eq!(app.currently_selected_secret_idx, Some(0));
    // a row is three cards wide
    app.handle_key(KeyInput::Down, false, "[]");
    assert_eq!(app.currently_selected_secret_idx, Some(3));
}

#[test]
fn normalization_boundary_inputs() {
    // a domain whose normalized form still ends in `.com` is normalized
    // further by a second pass: the idempotence law excludes such inputs
    assert_eq!(normalize_domain("x.com.com"), "x.com");
    assert_eq!(normalize_domain("x.com"), "x");
    // likewise a leading `www.` that survives one pass
    assert_eq!(normalize_domain("www.www.site"), "www.site");
    assert_eq!(normalize_domain("www.site"), "site");
}
