use pass_rust::entries::Entries;
use pass_rust::keymap::{key_to_action, Action, Key, Modifiers, NamedKey};
use pass_rust::state::{AppState, Effect, Message, ViewMode};

fn entries_of(pairs: &[(&str, &str)]) -> Entries {
    let mut entries = Entries::new();
    for (k, v) in pairs {
        entries.insert(String::from(*k), String::from(*v));
    }
    entries
}

fn list_state(pairs: &[(&str, &str)]) -> AppState {
    let (mut state, effect) = AppState::new();
    assert_eq!(effect, Effect::LoadEntries);
    let effect = state.update(Message::Loaded(entries_of(pairs)));
    assert_eq!(effect, Effect::FocusInput);
    state
}

fn ctrl() -> Modifiers {
    Modifiers { control: true, shift: false, alt: false, logo: false }
}

fn plain() -> Modifiers {
    Modifiers { control: false, shift: false, alt: false, logo: false }
}

fn names(state: &AppState) -> Vec<String> {
    state.filtered_keys()
}

#[test]
fn initial_state_requests_enumeration() {
    let (state, effect) = AppState::new();
    assert_eq!(effect, Effect::LoadEntries);
    assert_eq!(state.mode, ViewMode::PasswordList);
    assert_eq!(state.index, 0);
    assert!(state.loading);
    assert_eq!(state.content, "");
}

#[test]
fn title_is_fixed() {
    let (state, _) = AppState::new();
    assert_eq!(state.title(), "pass-rust");
}

#[test]
fn filtered_list_is_sorted_and_complete() {
    let state = list_state(&[("b", "b"), ("a", "a"), ("ab", "ab")]);
    assert_eq!(names(&state), vec!["a", "ab", "b"]);
}

#[test]
fn filter_keeps_substring_matches_only() {
    let mut state = list_state(&[("b", "b"), ("a", "a"), ("ab", "ab")]);
    let effect = state.update(Message::ContentChange(String::from("a")));
    assert_eq!(effect, Effect::Stay);
    assert_eq!(state.index, 0);
    assert_eq!(names(&state), vec!["a", "ab"]);
}

#[test]
fn filter_matching_nothing_gives_empty_list() {
    let mut state = list_state(&[("a", "a"), ("b", "b")]);
    state.update(Message::ContentChange(String::from("zz")));
    assert!(names(&state).is_empty());
    assert!(state.selected_key().is_none());
}

#[test]
fn filter_is_case_sensitive() {
    let mut state = list_state(&[("Email", "Email")]);
    state.update(Message::ContentChange(String::from("email")));
    assert!(names(&state).is_empty());
}

#[test]
fn move_down_cycles_back_to_start() {
    let mut state = list_state(&[("a", "a"), ("b", "b"), ("c", "c")]);
    assert_eq!(state.index, 0);
    for _ in 0..3 {
        let effect = state.handle_action(Action::MoveDown);
        assert_eq!(effect, Effect::Stay);
    }
    assert_eq!(state.index, 0);
}

#[test]
fn move_down_then_up_returns_to_start() {
    let mut state = list_state(&[("a", "a"), ("b", "b"), ("c", "c")]);
    state.handle_action(Action::MoveDown);
    assert_eq!(state.index, 1);
    state.handle_action(Action::MoveUp);
    assert_eq!(state.index, 0);
    state.handle_action(Action::MoveUp);
    assert_eq!(state.index, 2);
    state.handle_action(Action::MoveDown);
    assert_eq!(state.index, 0);
}

#[test]
fn move_down_cycles_from_any_start() {
    let mut state = list_state(&[("a", "a"), ("b", "b"), ("c", "c")]);
    state.handle_action(Action::MoveDown);
    assert_eq!(state.index, 1);
    for _ in 0..3 {
        state.handle_action(Action::MoveDown);
    }
    assert_eq!(state.index, 1);
}

#[test]
fn multi_character_filter_matches_inside_keys() {
    let mut state = list_state(&[("email/work", "email/work"), ("mail/x", "mail/x")]);
    state.update(Message::ContentChange(String::from("ail")));
    assert_eq!(names(&state), vec!["email/work", "mail/x"]);
    state.update(Message::ContentChange(String::from("work")));
    assert_eq!(names(&state), vec!["email/work"]);
}

#[test]
fn moves_on_empty_list_are_no_ops() {
    let mut state = list_state(&[]);
    let effect = state.handle_action(Action::MoveDown);
    assert_eq!(effect, Effect::Stay);
    assert_eq!(state.index, 0);
    let effect = state.handle_action(Action::MoveUp);
    assert_eq!(effect, Effect::Stay);
    assert_eq!(state.index, 0);
}

#[test]
fn enter_without_selection_is_no_op() {
    let mut state = list_state(&[]);
    let effect = state.update(Message::Submit);
    assert_eq!(effect, Effect::Stay);
}

#[test]
fn enter_in_list_resolves_selected_entry() {
    let mut state = list_state(&[("email/work", "email/work")]);
    let effect = state.update(Message::Submit);
    assert_eq!(effect, Effect::Resolve(String::from("email/work")));
    assert_eq!(state.mode, ViewMode::PasswordList);
}

#[test]
fn fields_content_enters_detail_view() {
    let mut state = list_state(&[("email/work", "email/work")]);
    state.update(Message::Submit);
    let effect = state.update(Message::PasswordLoaded(String::from("login: a@b.com\npw: x\n")));
    assert_eq!(effect, Effect::FocusInput);
    assert_eq!(state.mode, ViewMode::KeyValueView);
    assert_eq!(state.content, "");
    assert_eq!(state.index, 0);
    assert_eq!(names(&state), vec!["login", "pw"]);
    assert_eq!(state.entries.get(&String::from("login")), Some(&String::from("a@b.com")));
    assert_eq!(state.entries.get(&String::from("pw")), Some(&String::from("x")));
}

#[test]
fn raw_content_is_delivered() {
    let mut state = list_state(&[("site", "site")]);
    state.update(Message::Submit);
    let effect = state.update(Message::PasswordLoaded(String::from("justasecret\n")));
    assert_eq!(effect, Effect::Deliver(String::from("justasecret")));
}

#[test]
fn enter_in_detail_delivers_without_resolving() {
    let mut state = list_state(&[("site", "site")]);
    state.update(Message::Submit);
    state.update(Message::PasswordLoaded(String::from("pw: x\n")));
    assert_eq!(state.mode, ViewMode::KeyValueView);
    let effect = state.update(Message::Submit);
    assert_eq!(effect, Effect::Deliver(String::from("x")));
}

#[test]
fn back_from_detail_reloads_list() {
    let mut state = list_state(&[("site", "site")]);
    state.update(Message::Submit);
    state.update(Message::PasswordLoaded(String::from("pw: x\n")));
    let effect = state.handle_action(Action::Back);
    assert_eq!(effect, Effect::LoadEntries);
    assert_eq!(state.mode, ViewMode::PasswordList);
}

#[test]
fn back_from_list_exits_without_delivering() {
    let mut state = list_state(&[("site", "site")]);
    let effect = state.handle_action(Action::Back);
    assert_eq!(effect, Effect::Exit);
}

#[test]
fn quit_exits_from_any_view() {
    let mut state = list_state(&[("site", "site")]);
    let effect = state.update(Message::KeyPressed(Key::Character(String::from("q")), ctrl()));
    assert_eq!(effect, Effect::Exit);
}

#[test]
fn error_reports_and_terminates() {
    let mut state = list_state(&[("site", "site")]);
    let effect = state.update(Message::Error(String::from("decryption failed")));
    assert_eq!(effect, Effect::Fail(String::from("decryption failed")));
}

#[test]
fn selection_follows_filtered_order() {
    let mut state = list_state(&[("b", "b"), ("a", "a"), ("c", "c")]);
    state.handle_action(Action::MoveDown);
    assert_eq!(state.selected_key(), Some(String::from("b")));
    let effect = state.update(Message::Submit);
    assert_eq!(effect, Effect::Resolve(String::from("b")));
}

#[test]
fn insert_overwrites_existing_key() {
    let mut entries = Entries::new();
    entries.insert(String::from("k"), String::from("v1"));
    entries.insert(String::from("k"), String::from("v2"));
    assert_eq!(entries.len(), 1);
    assert_eq!(entries.get(&String::from("k")), Some(&String::from("v2")));
}

#[test]
fn action_table_maps_listed_inputs() {
    assert_eq!(key_to_action(&Key::Named(NamedKey::Escape), plain()), Some(Action::Back));
    assert_eq!(key_to_action(&Key::Named(NamedKey::Escape), ctrl()), Some(Action::Back));
    assert_eq!(key_to_action(&Key::Named(NamedKey::Tab), plain()), Some(Action::FocusInput));
    assert_eq!(key_to_action(&Key::Character(String::from("j")), ctrl()), Some(Action::MoveDown));
    assert_eq!(key_to_action(&Key::Character(String::from("k")), ctrl()), Some(Action::MoveUp));
    assert_eq!(key_to_action(&Key::Character(String::from("h")), ctrl()), Some(Action::Back));
    assert_eq!(key_to_action(&Key::Character(String::from("l")), ctrl()), Some(Action::Enter));
    assert_eq!(key_to_action(&Key::Character(String::from("q")), ctrl()), Some(Action::Quit));
}

#[test]
fn action_table_ignores_everything_else() {
    assert_eq!(key_to_action(&Key::Character(String::from("x")), ctrl()), None);
    assert_eq!(key_to_action(&Key::Character(String::from("j")), plain()), None);
    assert_eq!(key_to_action(&Key::Character(String::from("q")), plain()), None);
    assert_eq!(key_to_action(&Key::Named(NamedKey::Other), ctrl()), None);
    assert_eq!(key_to_action(&Key::Unidentified, ctrl()), None);
    assert_eq!(key_to_action(&Key::Character(String::from("jj")), ctrl()), None);
}

#[test]
fn key_press_drives_navigation() {
    let mut state = list_state(&[("a", "a"), ("b", "b")]);
    let effect = state.update(Message::KeyPressed(Key::Character(String::from("j")), ctrl()));
    assert_eq!(effect, Effect::Stay);
    assert_eq!(state.index, 1);
    let effect = state.update(Message::KeyPressed(Key::Character(String::from("z")), plain()));
    assert_eq!(effect, Effect::Stay);
    assert_eq!(state.index, 1);
}
