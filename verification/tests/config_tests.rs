use keymenu::config::{
    parse, ArgumentProblem, ParseFailure, Statement, SyntaxProblem,
};

#[test]
fn parses_groups_bindings_comments_and_escapes() {
    let config = parse(
        r#"
                # Git commands
                group("g", "Git")
                keybind("gs", "Status", "printf \"ok\\n\"")
            "#,
    )
    .unwrap();

    assert_eq!(config.groups[0].description.as_deref(), Some("Git"));
    assert_eq!(config.bindings[0].keys, "gs");
    assert_eq!(config.bindings[0].description.as_deref(), Some("Status"));
    assert_eq!(config.bindings[0].command.as_deref(), Some(r#"printf "ok\n""#));
}

#[test]
fn accepts_keyword_arguments() {
    let config = parse(
        r#"
                group("g", description: "Git")
                keybind("gs", description: "Status", command: "git status")
            "#,
    )
    .unwrap();
    assert_eq!(config.groups[0].description.as_deref(), Some("Git"));
    assert_eq!(config.bindings[0].command.as_deref(), Some("git status"));
}

#[test]
fn accepts_mixed_arguments() {
    let config = parse(r#"keybind("g", "Does a thing", command: "echo foo")"#).unwrap();
    assert_eq!(
        config.bindings[0].description.as_deref(),
        Some("Does a thing")
    );
    assert_eq!(config.bindings[0].command.as_deref(), Some("echo foo"));
}

fn assert_group(source: &str, keys: &str, description: Option<&str>) {
    let config = parse(source).unwrap();
    assert!(config.bindings.is_empty(), "{}", source);
    assert_eq!(config.groups.len(), 1, "{}", source);
    assert_eq!(config.groups[0].keys, keys, "{}", source);
    assert_eq!(config.groups[0].description.as_deref(), description, "{}", source);
}

fn assert_keybind(source: &str, keys: &str, description: Option<&str>, command: &str) {
    let config = parse(source).unwrap();
    assert!(config.groups.is_empty(), "{}", source);
    assert_eq!(config.bindings.len(), 1, "{}", source);
    assert_eq!(config.bindings[0].keys, keys, "{}", source);
    assert_eq!(config.bindings[0].description.as_deref(), description, "{}", source);
    assert_eq!(config.bindings[0].command.as_deref(), Some(command), "{}", source);
}

#[test]
fn parses_all_argument_permutations() {
    assert_group(r#"group("g", "Git")"#, "g", Some("Git"));
    assert_group(r#"group("g", description: "Git")"#, "g", Some("Git"));
    assert_group(r#"group("g")"#, "g", None);

    assert_keybind(
        r#"keybind("g", "Does a thing", "echo foo")"#,
        "g",
        Some("Does a thing"),
        "echo foo",
    );
    assert_keybind(
        r#"keybind("g", "Does a thing", command: "echo foo")"#,
        "g",
        Some("Does a thing"),
        "echo foo",
    );
    assert_keybind(
        r#"keybind("g", description: "Does a thing", command: "echo foo")"#,
        "g",
        Some("Does a thing"),
        "echo foo",
    );
    assert_keybind(r#"keybind("g", "echo foo")"#, "g", None, "echo foo");
    assert_keybind(r#"keybind("g", command: "echo foo")"#, "g", None, "echo foo");
    assert_keybind(
        r#"keybind("g", description: "Does a thing", "echo foo")"#,
        "g",
        Some("Does a thing"),
        "echo foo",
    );
}

#[test]
fn reports_line_and_column_for_syntax_errors() {
    let error = parse("# comment\nkeybind(\"g\" \"Git\")").unwrap_err();
    assert!(error.message().contains("line 2, column 13"));
}

#[test]
fn reports_line_for_argument_validation_errors() {
    let error = parse("group(\"g\")\nkeybind(\"z\")").unwrap_err();
    assert_eq!(
        error.message(),
        "line 2: keybind is missing required argument \"command\""
    );
}

#[test]
fn keybind_description_is_optional() {
    let config = parse(r#"keybind("s", "git status")"#).unwrap();
    assert_eq!(config.bindings[0].description, None);
}

const EXAMPLE_CONFIG: &str = r#"# An example configuration.
group("g", "Git")

keybind("gs", "Status", "git status")
keybind("gl", "Recent log", "git log --oneline --decorate -20")
keybind("p", "Open projects", "cd ~/projects")
keybind("u", "uname -a")
"#;

#[test]
fn example_config_is_valid() {
    let config = parse(EXAMPLE_CONFIG).unwrap();
    assert!(!config.groups.is_empty());
    assert!(!config.bindings.is_empty());
}

// ---------------------------------------------------------------------------

#[test]
fn empty_source_and_comments_only_give_an_empty_config() {
    let config = parse("").unwrap();
    assert!(config.groups.is_empty() && config.bindings.is_empty());
    let config = parse("  # nothing here\n\t# nor here").unwrap();
    assert!(config.groups.is_empty() && config.bindings.is_empty());
}

#[test]
fn keeps_statement_order_and_trailing_commas() {
    let config = parse(
        "keybind(\"a\", \"first\",)\n# between\nkeybind(\"b\", \"second\", )\ngroup(\"c\",)",
    )
    .unwrap();
    assert_eq!(config.bindings.len(), 2);
    assert_eq!(config.bindings[0].keys, "a");
    assert_eq!(config.bindings[1].keys, "b");
    assert_eq!(config.bindings[1].command.as_deref(), Some("second"));
    assert_eq!(config.groups[0].keys, "c");
    assert_eq!(config.groups[0].description, None);
}

#[test]
fn decodes_every_escape() {
    let config = parse(r#"keybind("x", "a\"b\\c\nd\re\tf")"#).unwrap();
    assert_eq!(config.bindings[0].command.as_deref(), Some("a\"b\\c\nd\re\tf"));
}

#[test]
fn keyword_order_does_not_matter() {
    let config = parse(r#"keybind("g", command: "echo foo", description: "Does a thing")"#).unwrap();
    assert_eq!(config.bindings[0].description.as_deref(), Some("Does a thing"));
    assert_eq!(config.bindings[0].command.as_deref(), Some("echo foo"));
}

fn syntax_problem(source: &str) -> (usize, usize, SyntaxProblem<String>) {
    match parse(source).unwrap_err() {
        ParseFailure::Syntax { line, column, problem } => (line, column, problem),
        other => panic!("expected a syntax error, got {:?}", other),
    }
}

fn argument_problem(source: &str) -> (usize, ArgumentProblem<String>) {
    match parse(source).unwrap_err() {
        ParseFailure::Argument { line, reason } => (line, reason),
        other => panic!("expected an argument error, got {:?}", other),
    }
}

#[test]
fn reports_each_syntax_problem() {
    let (line, column, problem) = syntax_problem("launch(\"x\")");
    assert!(matches!(problem, SyntaxProblem::UnknownStatement(ref name) if name == "launch"));
    assert_eq!((line, column), (1, 12));

    let (_, column, problem) = syntax_problem("(\"x\")");
    assert!(matches!(problem, SyntaxProblem::ExpectedIdentifier));
    assert_eq!(column, 1);

    let (_, _, problem) = syntax_problem("keybind(\"x");
    assert!(matches!(problem, SyntaxProblem::UnterminatedString));

    let (line, column, problem) = syntax_problem("keybind(\"x\n\")");
    assert!(matches!(problem, SyntaxProblem::NewlineInString));
    assert_eq!((line, column), (2, 1));

    let (_, _, problem) = syntax_problem("keybind(\"x\\");
    assert!(matches!(problem, SyntaxProblem::UnterminatedEscape));

    let (_, _, problem) = syntax_problem("keybind(\"\\q\")");
    assert!(matches!(problem, SyntaxProblem::UnsupportedEscape('q')));

    let (_, _, problem) = syntax_problem("keybind \"x\")");
    assert!(matches!(problem, SyntaxProblem::ExpectedOpenParen));

    let (_, _, problem) = syntax_problem("keybind(x)");
    assert!(matches!(problem, SyntaxProblem::ExpectedQuote));

    let (_, _, problem) = syntax_problem("keybind(\"x\" \"y\")");
    assert!(matches!(problem, SyntaxProblem::ExpectedComma));

    let (_, _, problem) = syntax_problem("keybind(\"x\", command: \"a\", command: \"b\")");
    assert!(matches!(problem, SyntaxProblem::DuplicateArgument(ref name) if name == "command"));
}

#[test]
fn reports_each_argument_problem() {
    let (line, reason) = argument_problem("\n\nkeybind(\"x\", zeta: \"a\", alpha: \"b\", command: \"c\")");
    assert_eq!(line, 3);
    assert!(matches!(reason,
        ArgumentProblem::UnknownArgument(Statement::Keybind, ref name) if name == "alpha"));

    let (_, reason) = argument_problem("group(\"g\", command: \"c\")");
    assert!(matches!(reason,
        ArgumentProblem::UnknownArgument(Statement::Group, ref name) if name == "command"));

    let (_, reason) = argument_problem("group(\"g\", \"a\", \"b\")");
    assert!(matches!(reason, ArgumentProblem::TooManyPositional(Statement::Group)));

    let (_, reason) = argument_problem("keybind(\"g\", \"a\", \"b\", \"c\")");
    assert!(matches!(reason, ArgumentProblem::TooManyPositional(Statement::Keybind)));

    let (_, reason) = argument_problem("group(\"g\", \"a\", description: \"b\")");
    assert!(matches!(reason,
        ArgumentProblem::GivenTwice(Statement::Group, ref name) if name == "description"));

    let (_, reason) =
        argument_problem("keybind(\"g\", \"a\", description: \"b\", command: \"c\")");
    assert!(matches!(reason, ArgumentProblem::AllByKeyword));

    let (_, reason) = argument_problem("keybind(\"g\", description: \"b\")");
    assert!(matches!(reason, ArgumentProblem::MissingCommand));
}

#[test]
fn error_messages_name_the_problem() {
    assert_eq!(
        parse("launch(\"x\")").unwrap_err().message(),
        "line 1, column 12: unknown statement \"launch\""
    );
    assert_eq!(
        parse("keybind(\"\\q\")").unwrap_err().message(),
        "line 1, column 12: unsupported escape \\q"
    );
    assert_eq!(
        parse("keybind(\"x\" \"y\")").unwrap_err().message(),
        "line 1, column 13: expected ','"
    );
    assert_eq!(
        parse("group(\"g\", \"a\", description: \"b\")").unwrap_err().message(),
        "line 1: group specifies argument \"description\" more than once"
    );
    assert_eq!(
        parse("keybind(\"g\", other: \"c\")").unwrap_err().message(),
        "line 1: keybind has unknown argument \"other\""
    );
}

#[test]
fn columns_count_characters_not_bytes() {
    let (line, column, _) = syntax_problem("# é\nkeybind(\"é\" \"y\")");
    assert_eq!((line, column), (2, 13));
}
