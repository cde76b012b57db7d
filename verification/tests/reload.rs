use serve_yew::reload::{ReloadAction, ReloadState};

#[test]
fn first_version_is_remembered() {
    let mut state = ReloadState::new();
    assert_eq!(state.version, None);
    assert_eq!(state.observe("abc".to_string()), ReloadAction::Remember);
    assert_eq!(state.version.as_deref(), Some("abc"));
}

#[test]
fn same_version_keeps_page() {
    let mut state = ReloadState::new();
    state.observe("abc".to_string());
    assert_eq!(state.observe("abc".to_string()), ReloadAction::Keep);
    assert_eq!(state.version.as_deref(), Some("abc"));
}

#[test]
fn other_version_reloads_page() {
    let mut state = ReloadState::new();
    state.observe("abc".to_string());
    assert_eq!(state.observe("abd".to_string()), ReloadAction::Reload);
    assert_eq!(state.version.as_deref(), Some("abc"));
}
