use jackynet::shortcut::{code_from_str, parse_shortcut, tray_action, KeyCode, Modifiers, Shortcut, TrayAction};

#[test]
fn default_hotkey_parses() {
    let s = parse_shortcut("CmdOrCtrl+Shift+N").unwrap();
    assert_eq!(
        s,
        Shortcut { mods: Modifiers { control: true, shift: true, alt: false, super_key: false }, key: KeyCode::Letter(13) }
    );
}

#[test]
fn parts_are_trimmed_and_case_insensitive() {
    let s = parse_shortcut(" alt + SUPER + 5 ").unwrap();
    assert!(s.mods.alt && s.mods.super_key && !s.mods.control && !s.mods.shift);
    assert_eq!(s.key, KeyCode::Digit(5));
}

#[test]
fn first_key_wins_and_unknown_parts_are_ignored() {
    let s = parse_shortcut("Ctrl+F13+Space+A").unwrap();
    assert_eq!(s.key, KeyCode::Space);
    assert!(s.mods.control);
}

#[test]
fn no_key_no_shortcut() {
    assert_eq!(parse_shortcut("Ctrl+Shift"), None);
    assert_eq!(parse_shortcut(""), None);
}

#[test]
fn key_names() {
    assert_eq!(code_from_str("z"), Some(KeyCode::Letter(25)));
    assert_eq!(code_from_str("Enter"), Some(KeyCode::Enter));
    assert_eq!(code_from_str("escape"), Some(KeyCode::Escape));
    assert_eq!(code_from_str("0"), Some(KeyCode::Digit(0)));
    assert_eq!(code_from_str("AB"), None);
    assert_eq!(code_from_str("é"), None);
}

#[test]
fn tray_menu_ids() {
    assert_eq!(tray_action("show"), TrayAction::ToggleMain);
    assert_eq!(tray_action("pip"), TrayAction::TogglePip);
    assert_eq!(tray_action("refresh"), TrayAction::Refresh);
    assert_eq!(tray_action("quit"), TrayAction::Quit);
    assert_eq!(tray_action("other"), TrayAction::Ignore);
}
