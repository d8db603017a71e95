use mdt::keys::Action;
use mdt::keys::KeyBinding;
use mdt::keys::KeyCode;
use mdt::keys::KeyConfig;
use mdt::keys::KeyEvent;
use mdt::keys::KeyModifiers;
use mdt::keys::MOD_CONTROL;
use mdt::keys::MOD_NONE;
use mdt::keys::MOD_SHIFT;
use mdt::keys::key_to_action;
use mdt::keys::parse_key_string;
use mdt::keys::ConfigValue;
use mdt::keys::parse_bindings;

fn event(code: KeyCode, bits: u8) -> KeyEvent {
    KeyEvent { code, modifiers: KeyModifiers { bits } }
}

#[test]
fn parse_key_string_char() {
    let kb = parse_key_string("k").unwrap();
    assert_eq!(kb.key, KeyCode::Char('k'));
    assert_eq!(kb.modifiers, KeyModifiers { bits: MOD_NONE });
}

#[test]
fn parse_key_string_space() {
    let kb = parse_key_string("space").unwrap();
    assert_eq!(kb.key, KeyCode::Char(' '));
    assert_eq!(kb.modifiers, KeyModifiers { bits: MOD_NONE });
}

#[test]
fn parse_key_string_ctrl() {
    let kb = parse_key_string("C-e").unwrap();
    assert_eq!(kb.key, KeyCode::Char('e'));
    assert_eq!(kb.modifiers, KeyModifiers { bits: MOD_CONTROL });
}

#[test]
fn parse_key_string_tab() {
    let kb = parse_key_string("tab").unwrap();
    assert_eq!(kb.key, KeyCode::Tab);
    assert_eq!(kb.modifiers, KeyModifiers { bits: MOD_NONE });
}

#[test]
fn parse_key_string_enter() {
    let kb = parse_key_string("enter").unwrap();
    assert_eq!(kb.key, KeyCode::Enter);
    assert_eq!(kb.modifiers, KeyModifiers { bits: MOD_NONE });
}

#[test]
fn parse_key_string_esc() {
    let kb = parse_key_string("esc").unwrap();
    assert_eq!(kb.key, KeyCode::Esc);
    assert_eq!(kb.modifiers, KeyModifiers { bits: MOD_NONE });
}

#[test]
fn parse_key_string_empty() {
    assert!(parse_key_string("").is_none());
}

#[test]
fn parse_key_string_invalid() {
    // A multi-character string that names no key is not a binding
    assert!(parse_key_string("xyz").is_none());
}

#[test]
fn keybinding_matches_exact() {
    let kb = KeyBinding::from_char('k');
    let e = event(KeyCode::Char('k'), MOD_NONE);
    assert!(kb.matches(&e));
}

#[test]
fn keybinding_matches_ignores_shift() {
    // A control binding matches even when the terminal also reports shift
    let kb = KeyBinding {
        key: KeyCode::Char('e'),
        modifiers: KeyModifiers { bits: MOD_CONTROL },
    };
    let e = event(KeyCode::Char('e'), MOD_CONTROL | MOD_SHIFT);
    assert!(kb.matches(&e));
}

#[test]
fn keybinding_no_false_positive() {
    let kb = KeyBinding::from_char('k');
    let e = event(KeyCode::Char('j'), MOD_NONE);
    assert!(!kb.matches(&e));
}

#[test]
fn keybinding_display() {
    assert_eq!(
        KeyBinding { key: KeyCode::Char('e'), modifiers: KeyModifiers { bits: MOD_CONTROL } }
            .display_string(),
        "C-e"
    );
    assert_eq!(KeyBinding::from_char(' ').display_string(), "space");
    assert_eq!(KeyBinding::from_char('k').display_string(), "k");
}

#[test]
fn key_to_action_arrow_keys() {
    // Arrow keys are hardwired, not configurable
    let config = KeyConfig::default_config();

    assert!(matches!(key_to_action(&event(KeyCode::Up, MOD_NONE), &config), Action::Up));
    assert!(matches!(key_to_action(&event(KeyCode::Down, MOD_NONE), &config), Action::Down));
    assert!(matches!(key_to_action(&event(KeyCode::Left, MOD_NONE), &config), Action::PageUp));
    assert!(matches!(
        key_to_action(&event(KeyCode::Right, MOD_NONE), &config),
        Action::PageDown
    ));
    assert!(matches!(key_to_action(&event(KeyCode::Enter, MOD_NONE), &config), Action::Enter));
    assert!(matches!(key_to_action(&event(KeyCode::Esc, MOD_NONE), &config), Action::Escape));
}

#[test]
fn key_to_action_configurable() {
    // Default bindings: j moves down, k up, f searches, and so on
    let config = KeyConfig::default_config();

    assert!(matches!(
        key_to_action(&event(KeyCode::Char('j'), MOD_NONE), &config),
        Action::Down
    ));
    assert!(matches!(key_to_action(&event(KeyCode::Char('k'), MOD_NONE), &config), Action::Up));
    assert!(matches!(
        key_to_action(&event(KeyCode::Char('f'), MOD_NONE), &config),
        Action::Search
    ));
    assert!(matches!(
        key_to_action(&event(KeyCode::Char('s'), MOD_NONE), &config),
        Action::SelectLink
    ));
    assert!(matches!(
        key_to_action(&event(KeyCode::Char('e'), MOD_NONE), &config),
        Action::Edit
    ));
    assert!(matches!(
        key_to_action(&event(KeyCode::Char('g'), MOD_NONE), &config),
        Action::ToTop
    ));

    // An unbound key maps to nothing
    assert!(matches!(
        key_to_action(&event(KeyCode::Char('z'), MOD_NONE), &config),
        Action::Nothing
    ));
}

#[test]
fn parse_bindings_list_filters() {
    let v = ConfigValue::List(vec!["k".to_string(), "bogus".to_string(), "C-e".to_string()]);
    let bs = parse_bindings(&v, 'x');
    assert_eq!(bs.len(), 2);
    assert_eq!(bs[0].key, KeyCode::Char('k'));
    assert_eq!(bs[1].key, KeyCode::Char('e'));
    assert_eq!(bs[1].modifiers, KeyModifiers { bits: MOD_CONTROL });

    // Nothing parseable: the default character steps in
    let v = ConfigValue::List(vec!["bogus".to_string()]);
    let bs = parse_bindings(&v, 'x');
    assert_eq!(bs.len(), 1);
    assert_eq!(bs[0].key, KeyCode::Char('x'));
}
