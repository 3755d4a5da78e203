use keymenu::shell::integration;

#[test]
fn supports_documented_shells() {
    for shell in ["fish", "bash", "zsh"] {
        assert!(
            integration(shell)
                .unwrap()
                .contains("command keymenu select")
        );
    }
}

#[test]
fn shells_bind_uppercase_k_without_breaking_command_editing() {
    for (shell, buffer, insert, binding) in [
        (
            "fish",
            "if test -z (commandline)",
            "commandline --insert K",
            "bind K __keymenu_hotkey",
        ),
        (
            "bash",
            "if [[ -z \"$READLINE_LINE\" ]]",
            "READLINE_LINE=",
            "bind -x '\"K\":__keymenu_hotkey'",
        ),
        (
            "zsh",
            "if [[ -z \"$BUFFER\" ]]",
            "LBUFFER+='K'",
            "bindkey 'K' __keymenu_hotkey",
        ),
    ] {
        let integration = integration(shell).unwrap();
        assert!(integration.contains(buffer));
        assert!(integration.contains(insert));
        assert!(integration.contains(binding));
    }
}

#[test]
fn rejects_other_shells() {
    let error = integration("tcsh").unwrap_err();
    assert_eq!(error.shell, "tcsh");
    assert_eq!(
        error.message(),
        "unsupported shell \"tcsh\"; expected fish, bash, or zsh"
    );
    assert!(integration("Fish").is_err());
    assert!(integration("").is_err());
}

#[test]
fn evaluates_only_a_successful_non_empty_selection() {
    for shell in ["bash", "zsh"] {
        let script = integration(shell).unwrap();
        assert!(script.contains(
            "keymenu_command=\"$(command keymenu select)\" &&\n        [[ -n \"$keymenu_command\" ]] && eval \"$keymenu_command\""
        ));
        assert!(!script.contains("||"));
    }
    let fish = integration("fish").unwrap();
    assert!(fish.contains("and test -n \"$keymenu_command\"\n    and eval \"$keymenu_command\""));
}
