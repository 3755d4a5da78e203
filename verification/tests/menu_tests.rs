use keymenu::config::{parse, Binding, Config, Group};
use keymenu::menu::{KeyKind, Menu, MenuFailure, OMITTED};

fn config() -> Config {
    Config {
        groups: vec![Group {
            keys: "g".into(),
            description: Some("Git".into()),
        }],
        bindings: vec![
            Binding {
                keys: "gs".into(),
                description: Some("Status".into()),
                command: Some("git status".into()),
            },
            Binding {
                keys: "f".into(),
                description: Some("Files".into()),
                command: Some("ls".into()),
            },
        ],
    }
}

#[test]
fn builds_nested_choices_and_resolves_commands() {
    let menu = Menu::new(config()).unwrap();
    let root = menu.choices(&[]);
    assert_eq!(
        root.iter().map(|item| item.key).collect::<Vec<_>>(),
        ['f', 'g']
    );
    assert!(root[1].is_group);
    assert_eq!(menu.choices(&['g'])[0].description, "Status");
    assert_eq!(menu.command(&['g', 's']), Some("git status"));
}

#[test]
fn rejects_ambiguous_binding_prefixes() {
    let mut config = config();
    config.bindings.push(Binding {
        keys: "g".into(),
        description: Some("Git command".into()),
        command: Some("git".into()),
    });
    let error = Menu::new(config).unwrap_err();
    assert!(error.message().contains("also a prefix"));
}

#[test]
fn ignores_groups_without_bindings() {
    let mut config = config();
    config.groups.push(Group {
        keys: "x".into(),
        description: Some("Unused".into()),
    });
    let menu = Menu::new(config).unwrap();
    assert!(menu.choices(&[]).iter().all(|choice| choice.key != 'x'));
}

#[test]
fn uses_command_as_description_when_omitted() {
    let config = Config {
        groups: vec![],
        bindings: vec![Binding {
            keys: "s".into(),
            description: None,
            command: Some("git status".into()),
        }],
    };
    let menu = Menu::new(config).unwrap();
    assert_eq!(menu.choices(&[])[0].description, "git status");
}

#[test]
fn marks_bindings_without_commands_as_broken() {
    let config = Config {
        groups: vec![],
        bindings: vec![Binding {
            keys: "z".into(),
            description: Some("Broken shortcut".into()),
            command: None,
        }],
    };
    let menu = Menu::new(config).unwrap();

    assert_eq!(
        menu.choices(&[])[0].description,
        "Broken shortcut [missing command]"
    );
    assert!(menu.is_broken(&['z']));
    assert_eq!(menu.command(&['z']), None);
}

#[test]
fn uses_ellipsis_for_groups_without_descriptions() {
    let config = Config {
        groups: vec![Group {
            keys: "g".into(),
            description: None,
        }],
        bindings: vec![Binding {
            keys: "gs".into(),
            description: None,
            command: Some("git status".into()),
        }],
    };
    let menu = Menu::new(config).unwrap();
    assert_eq!(menu.choices(&[])[0].description, OMITTED);
}

// ---------------------------------------------------------------------------

fn binding(keys: &str, description: Option<&str>, command: Option<&str>) -> Binding {
    Binding {
        keys: keys.into(),
        description: description.map(String::from),
        command: command.map(String::from),
    }
}

fn group(keys: &str, description: Option<&str>) -> Group {
    Group {
        keys: keys.into(),
        description: description.map(String::from),
    }
}

fn error_of(groups: Vec<Group>, bindings: Vec<Binding>) -> MenuFailure<String> {
    Menu::new(Config { groups, bindings }).unwrap_err()
}

#[test]
fn every_binding_selects_its_command() {
    let config = parse(
        "keybind(\"gs\", \"git status\")\nkeybind(\"gl\", \"git log\")\nkeybind(\"p\", \"pwd\")\nkeybind(\"xyz\", \"deep\")",
    )
    .unwrap();
    let menu = Menu::new(config).unwrap();
    assert_eq!(menu.command(&['g', 's']), Some("git status"));
    assert_eq!(menu.command(&['g', 'l']), Some("git log"));
    assert_eq!(menu.command(&['p']), Some("pwd"));
    assert_eq!(menu.command(&['x', 'y', 'z']), Some("deep"));
    // Intermediate prefixes are nodes without commands.
    assert!(menu.contains_prefix(&['x']));
    assert!(menu.contains_prefix(&['x', 'y']));
    assert_eq!(menu.command(&['x', 'y']), None);
    assert!(!menu.contains_prefix(&['q']));
    assert!(menu.contains_prefix(&[]));
    assert_eq!(menu.command(&[]), None);
    assert_eq!(menu.choices(&['q']).len(), 0);
    assert_eq!(menu.choices(&['x'])[0].description, OMITTED);
}

#[test]
fn choices_come_in_key_order() {
    let config = Config {
        groups: vec![],
        bindings: vec![
            binding("z", None, Some("last")),
            binding("a", None, Some("first")),
            binding("m", None, Some("middle")),
            binding("B", None, Some("upper")),
        ],
    };
    let menu = Menu::new(config).unwrap();
    let keys: Vec<char> = menu.choices(&[]).iter().map(|c| c.key).collect();
    assert_eq!(keys, ['B', 'a', 'm', 'z']);
    assert!(menu.choices(&[]).iter().all(|c| !c.is_group));
}

#[test]
fn reports_each_menu_error() {
    assert!(matches!(error_of(vec![], vec![]), MenuFailure::NoBindings));
    assert!(matches!(
        error_of(vec![], vec![binding("a", Some("  "), Some("x"))]),
        MenuFailure::EmptyDescription(KeyKind::Binding, ref k) if k == "a"
    ));
    assert!(matches!(
        error_of(vec![], vec![binding("a", None, Some(" \t"))]),
        MenuFailure::EmptyCommand(ref k) if k == "a"
    ));
    assert!(matches!(
        error_of(vec![], vec![binding("", None, Some("x"))]),
        MenuFailure::EmptyKeys(KeyKind::Binding)
    ));
    assert!(matches!(
        error_of(vec![], vec![binding("a\u{7}", None, Some("x"))]),
        MenuFailure::ControlCharacter(KeyKind::Binding, ref k) if k == "a\u{7}"
    ));
    assert!(matches!(
        error_of(vec![], vec![binding("a", None, Some("x")), binding("a", None, Some("y"))]),
        MenuFailure::DuplicateBinding(ref k) if k == "a"
    ));
    assert!(matches!(
        error_of(vec![group("a", Some(""))], vec![binding("ab", None, Some("x"))]),
        MenuFailure::EmptyDescription(KeyKind::Group, ref k) if k == "a"
    ));
    assert!(matches!(
        error_of(vec![group("", None)], vec![binding("ab", None, Some("x"))]),
        MenuFailure::EmptyKeys(KeyKind::Group)
    ));
    assert!(matches!(
        error_of(
            vec![group("a", Some("One")), group("a", Some("Two"))],
            vec![binding("ab", None, Some("x"))]
        ),
        MenuFailure::DuplicateGroup(ref k) if k == "a"
    ));
    assert!(matches!(
        error_of(
            vec![],
            vec![
                binding("x", None, Some("1")),
                binding("xy", None, Some("2")),
                binding("b", None, Some("3")),
                binding("bc", None, Some("4")),
            ]
        ),
        MenuFailure::AmbiguousPrefix(ref k) if k == "b"
    ));
}

#[test]
fn menu_error_messages() {
    assert_eq!(
        error_of(vec![], vec![]).message(),
        "config must contain at least one keybind"
    );
    assert_eq!(
        error_of(vec![], vec![binding("a\"b", None, Some(" "))]).message(),
        "binding \"a\\\"b\" has an empty command"
    );
    assert_eq!(
        error_of(vec![group("", None)], vec![binding("ab", None, Some("x"))]).message(),
        "group keys cannot be empty"
    );
    assert_eq!(
        error_of(vec![], vec![binding("g", None, Some("x")), binding("gs", None, Some("y"))])
            .message(),
        "binding \"g\" is also a prefix of another binding"
    );
}

#[test]
fn groups_on_bindings_change_nothing_and_broken_bindings_can_be_replaced() {
    let config = Config {
        groups: vec![group("a", Some("Ignored"))],
        bindings: vec![
            binding("b", Some("Broken"), None),
            binding("b", Some("Fixed"), Some("echo fixed")),
            binding("a", Some("Run a"), Some("echo a")),
        ],
    };
    let menu = Menu::new(config).unwrap();
    assert_eq!(menu.command(&['b']), Some("echo fixed"));
    assert!(!menu.is_broken(&['b']));
    let choices = menu.choices(&[]);
    assert_eq!(choices[0].description, "Run a");
    assert_eq!(choices[1].description, "Fixed");
}

#[test]
fn a_group_on_a_broken_binding_is_a_duplicate() {
    assert!(matches!(
        error_of(vec![group("b", Some("Group"))], vec![binding("b", None, None)]),
        MenuFailure::DuplicateGroup(ref k) if k == "b"
    ));
    let menu = Menu::new(Config {
        groups: vec![],
        bindings: vec![binding("b", None, None)],
    })
    .unwrap();
    assert_eq!(menu.choices(&[])[0].description, "[missing command]");
    assert!(menu.is_broken(&['b']));
    assert!(!menu.is_broken(&[]));
    assert!(!menu.is_broken(&['c']));
}

#[test]
fn groups_name_intermediate_nodes() {
    let menu = Menu::new(config()).unwrap();
    let root = menu.choices(&[]);
    assert_eq!(root[0].description, "Files");
    assert_eq!(root[1].description, "Git");
    assert!(!root[0].is_group);
}

#[test]
fn parsed_configs_have_no_broken_bindings() {
    let config = parse("keybind(\"a\", \"one\")\nkeybind(\"b\", \"Two\", \"two\")").unwrap();
    assert!(config.bindings.iter().all(|b| b.command.is_some()));
    let menu = Menu::new(config).unwrap();
    assert!(!menu.is_broken(&['a']) && !menu.is_broken(&['b']));
}

#[test]
fn unambiguous_configs_always_build_and_nodes_lie_on_bindings() {
    let config = Config {
        groups: vec![group("a", Some("Apps")), group("q", Some("Unused"))],
        bindings: vec![
            binding("ab", Some("Browser"), Some("firefox")),
            binding("ac", None, Some("code")),
            binding("xyz", Some("Deep"), Some("deep")),
            binding("b", Some("Broken"), None),
        ],
    };
    let menu = Menu::new(config).unwrap();
    let root: Vec<char> = menu.choices(&[]).iter().map(|c| c.key).collect();
    assert_eq!(root, ['a', 'b', 'x']);
    assert!(!menu.contains_prefix(&['q']));
    assert!(!menu.contains_prefix(&['a', 'd']));
    assert!(menu.contains_prefix(&['x', 'y', 'z']));
    assert!(!menu.contains_prefix(&['x', 'y', 'z', 'w']));
    assert_eq!(menu.choices(&[])[0].description, "Apps");
    assert_eq!(menu.choices(&[])[2].description, OMITTED);
    assert_eq!(menu.choices(&['x'])[0].description, OMITTED);
}

#[test]
fn repeated_or_extended_keys_make_no_menu() {
    let same = Config {
        groups: vec![],
        bindings: vec![binding("ab", None, Some("one")), binding("ab", None, Some("two"))],
    };
    assert!(matches!(Menu::new(same), Err(MenuFailure::DuplicateBinding(ref k)) if k == "ab"));
    let extended = Config {
        groups: vec![],
        bindings: vec![binding("abc", None, Some("long")), binding("a", None, Some("short"))],
    };
    assert!(matches!(Menu::new(extended), Err(MenuFailure::AmbiguousPrefix(ref k)) if k == "a"));
}
