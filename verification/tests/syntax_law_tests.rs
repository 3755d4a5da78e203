use keymenu::config::{parse, ArgumentProblem, Config, ParseFailure};

type Summary = (Vec<(String, Option<String>)>, Vec<(String, Option<String>, Option<String>)>);

fn summary(config: &Config) -> Summary {
    let groups = config.groups.iter().map(|g| (g.keys.clone(), g.description.clone())).collect();
    let bindings = config
        .bindings
        .iter()
        .map(|b| (b.keys.clone(), b.description.clone(), b.command.clone()))
        .collect();
    (groups, bindings)
}

const SOURCE: &str = "group(\"g\", \"Git\")\nkeybind(\"gs\", \"Status\", \"git status\")\nkeybind(\"gd\", command: \"git diff\")";

#[test]
fn statements_keep_source_order_without_merging() {
    let config = parse("keybind(\"g\", \"a\")\nkeybind(\"g\", \"b\")\n").unwrap();
    let (_, bindings) = summary(&config);
    assert_eq!(
        bindings,
        vec![
            ("g".to_string(), None, Some("a".to_string())),
            ("g".to_string(), None, Some("b".to_string())),
        ]
    );
}

#[test]
fn leading_whitespace_and_comments_change_nothing() {
    let plain = summary(&parse(SOURCE).unwrap());
    let prefixed = format!(" \t\n# a note\n\n#\n{}", SOURCE);
    assert_eq!(summary(&parse(&prefixed).unwrap()), plain);
}

#[test]
fn leading_whitespace_and_comments_keep_errors_errors() {
    assert!(parse("keybind(\"x\"").is_err());
    assert!(parse("  # note\nkeybind(\"x\"").is_err());
}

#[test]
fn trailing_whitespace_and_comments_change_nothing() {
    let plain = summary(&parse(SOURCE).unwrap());
    let suffixed = format!("{}\n  # the end\n\t", SOURCE);
    assert_eq!(summary(&parse(&suffixed).unwrap()), plain);
    let after_comment = format!("{}# no newline", SOURCE);
    assert_eq!(summary(&parse(&after_comment).unwrap()), plain);
}

#[test]
fn quoted_values_read_back() {
    let config = parse(r#"keybind("k\"\\", "line\nnext", "tab\there")"#).unwrap();
    let (_, bindings) = summary(&config);
    assert_eq!(
        bindings,
        vec![(
            "k\"\\".to_string(),
            Some("line\nnext".to_string()),
            Some("tab\there".to_string()),
        )]
    );
}

#[test]
fn every_argument_form_gives_the_same_binding() {
    let forms = [
        r#"keybind("k", "Desc", "cmd")"#,
        r#"keybind("k", "Desc", command: "cmd")"#,
        r#"keybind("k", description: "Desc", command: "cmd")"#,
        r#"keybind("k", command: "cmd", description: "Desc")"#,
        r#"keybind("k", description: "Desc", "cmd")"#,
    ];
    for form in forms {
        let (groups, bindings) = summary(&parse(form).unwrap());
        assert!(groups.is_empty());
        assert_eq!(
            bindings,
            vec![("k".to_string(), Some("Desc".to_string()), Some("cmd".to_string()))]
        );
    }
}

#[test]
fn joined_sources_give_both_configs_in_order() {
    let first = "keybind(\"a\", \"one\")  # ends here";
    let second = "group(\"b\", \"Bee\")\nkeybind(\"bc\", \"two\")";
    let joined = format!("{}\n# between\n{}", first, second);
    let (first_groups, first_bindings) = summary(&parse(first).unwrap());
    let (second_groups, second_bindings) = summary(&parse(second).unwrap());
    let (groups, bindings) = summary(&parse(&joined).unwrap());
    assert_eq!(groups, [first_groups, second_groups].concat());
    assert_eq!(bindings, [first_bindings, second_bindings].concat());
    assert!(parse(&format!("{}\n{}", first, "keybind(\"x\"")).is_err());
}

#[test]
fn whitespace_and_comments_between_tokens_change_nothing() {
    let plain = summary(&parse(r#"keybind("k", "Desc", "cmd")"#).unwrap());
    let spaced = "keybind \t# before the paren\n( \"k\"\n , # after a comma\n\"Desc\" ,\n\n \"cmd\" # last\n)";
    assert_eq!(summary(&parse(spaced).unwrap()), plain);
    let trailing = "keybind(\"k\" ,\"Desc\",\"cmd\" , # trailing comma\n )";
    assert_eq!(summary(&parse(trailing).unwrap()), plain);
}

#[test]
fn whitespace_and_comments_around_keyword_arguments_change_nothing() {
    let plain = summary(&parse(r#"keybind("k", "Desc", "cmd")"#).unwrap());
    let spaced = "keybind (\"k\" , command # the command\n : \"cmd\" ,\n description\t:\t\"Desc\" ,\n)";
    assert_eq!(summary(&parse(spaced).unwrap()), plain);
    let missing = parse("keybind ( \"k\" , description : \"d\" )").unwrap_err();
    assert!(matches!(
        missing,
        ParseFailure::Argument { line: 1, reason: ArgumentProblem::MissingCommand }
    ));
}

#[test]
fn whitespace_and_comments_inside_a_group_change_nothing() {
    let plain = summary(&parse(r#"group("g", "Git")"#).unwrap());
    let spaced = "group # git things\n ( \"g\" ,\n\tdescription : \"Git\" , )";
    assert_eq!(summary(&parse(spaced).unwrap()), plain);
}

#[test]
fn groups_and_bindings_keep_source_order() {
    let source = "group(\"b\", \"Bee\") keybind(\"bx\", \"x\")\n# note\ngroup ( \"a\" ,description:\"Ay\" )\nkeybind(\"ay\", command: \"y\", description: \"Why\")group(\"c\")";
    let (groups, bindings) = summary(&parse(source).unwrap());
    assert_eq!(
        groups,
        vec![
            ("b".to_string(), Some("Bee".to_string())),
            ("a".to_string(), Some("Ay".to_string())),
            ("c".to_string(), None),
        ]
    );
    assert_eq!(
        bindings,
        vec![
            ("bx".to_string(), None, Some("x".to_string())),
            ("ay".to_string(), Some("Why".to_string()), Some("y".to_string())),
        ]
    );
}

#[test]
fn raw_and_escaped_tabs_read_back_alike() {
    let raw = parse("keybind(\"k\", \"a\tb\")").unwrap();
    let escaped = parse(r#"keybind("k", "a\tb")"#).unwrap();
    assert_eq!(raw.bindings[0].command.as_deref(), Some("a\tb"));
    assert_eq!(summary(&raw), summary(&escaped));
}
