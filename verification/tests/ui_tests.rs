use keymenu::config::{Binding, Config, Group};
use keymenu::menu::Menu;
use keymenu::ui::{description_width_limit, handle_key, truncate_description, KeyInput, KeyOutcome};
use unicode_width::UnicodeWidthStr;

#[test]
fn truncates_descriptions_to_display_width() {
    let description = truncate_description("A very long description", 10);

    assert_eq!(description, "A very lo…");
    assert_eq!(description.width(), 10);
}

#[test]
fn does_not_split_wide_characters() {
    let description = truncate_description("界界界", 5);

    assert_eq!(description, "界界…");
    assert_eq!(description.width(), 5);
}

// ---------------------------------------------------------------------------

#[test]
fn keeps_descriptions_that_fit_and_empties_at_zero() {
    assert_eq!(truncate_description("short", 5), "short");
    assert_eq!(truncate_description("short", 80), "short");
    assert_eq!(truncate_description("short", 0), "");
    assert_eq!(truncate_description("", 0), "");
    assert_eq!(truncate_description("界界", 1), "…");
    assert_eq!(truncate_description("界界", 3), "界…");
}

fn menu() -> Menu {
    Menu::new(Config {
        groups: vec![Group {
            keys: "g".into(),
            description: Some("Git".into()),
        }],
        bindings: vec![
            Binding {
                keys: "gs".into(),
                description: Some("Status".into()),
                command: Some("git status".into()),
            },
            Binding {
                keys: "界".into(),
                description: Some("Wide".into()),
                command: Some("echo wide".into()),
            },
        ],
    })
    .unwrap()
}

#[test]
fn key_presses_walk_the_menu() {
    let menu = menu();
    let mut prefix = Vec::new();
    assert!(matches!(handle_key(&menu, &mut prefix, KeyInput::Char('x')), KeyOutcome::Bell));
    assert!(prefix.is_empty());
    assert!(matches!(handle_key(&menu, &mut prefix, KeyInput::Char('g')), KeyOutcome::Continue));
    assert_eq!(prefix, ['g']);
    assert!(matches!(handle_key(&menu, &mut prefix, KeyInput::Other), KeyOutcome::Continue));
    assert_eq!(prefix, ['g']);
    assert!(matches!(handle_key(&menu, &mut prefix, KeyInput::Backspace), KeyOutcome::Continue));
    assert!(prefix.is_empty());
    assert!(matches!(handle_key(&menu, &mut prefix, KeyInput::Backspace), KeyOutcome::Continue));
    assert!(prefix.is_empty());
    handle_key(&menu, &mut prefix, KeyInput::Char('g'));
    match handle_key(&menu, &mut prefix, KeyInput::Char('s')) {
        KeyOutcome::Selected(command) => assert_eq!(command, "git status"),
        other => panic!("expected a selection, got {:?}", other),
    }
    let mut prefix = vec!['g'];
    assert!(matches!(handle_key(&menu, &mut prefix, KeyInput::Cancel), KeyOutcome::Cancelled));
    assert_eq!(prefix, ['g']);
}

#[test]
fn description_limit_leaves_room_for_keys_and_arrows() {
    let menu = menu();
    let root = menu.choices(&[]);
    // The widest key is two columns wide and one choice is a group.
    assert_eq!(description_width_limit(&root, 80, None), 80 - (2 + 2 + 3));
    assert_eq!(description_width_limit(&root, 80, Some(20)), 20);
    assert_eq!(description_width_limit(&root, 5, None), 0);
    let level = menu.choices(&['g']);
    assert_eq!(description_width_limit(&level, 80, None), 80 - (1 + 2));
    assert_eq!(description_width_limit(&level, 80, Some(100)), 77);
}

#[test]
fn truncation_keeps_the_longest_prefix_that_fits() {
    assert_eq!(truncate_description("abcdef", 4), "abc…");
    assert_eq!(truncate_description("ab界cd", 4), "ab…");
    assert_eq!(truncate_description("ab界cd", 5), "ab界…");
    assert_eq!(truncate_description("ab界cd", 6), "ab界cd");
}
