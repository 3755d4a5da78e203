//! Shell integration: the scripts that define `K` and bind it to the key `K`
//! when the command line is empty.

use vstd::prelude::*;

use crate::config::text_at;
use crate::text::{chars_equal, chars_of, debug_quoted, debug_text};

verus! {

pub const FISH_INTEGRATION: &'static str = r#"function K --description 'Open keymenu'
    set -l keymenu_command (command keymenu select)
    and test -n "$keymenu_command"
    and eval "$keymenu_command"
end

function __keymenu_hotkey
    if test -z (commandline)
        K
    else
        commandline --insert K
    end
end

bind K __keymenu_hotkey
"#;

pub const BASH_INTEGRATION: &'static str = r#"K() {
    local keymenu_command
    keymenu_command="$(command keymenu select)" &&
        [[ -n "$keymenu_command" ]] && eval "$keymenu_command"
}

__keymenu_hotkey() {
    if [[ -z "$READLINE_LINE" ]]; then
        K
    else
        READLINE_LINE="${READLINE_LINE:0:READLINE_POINT}K${READLINE_LINE:READLINE_POINT}"
        ((READLINE_POINT++))
    fi
}

bind -x '"K":__keymenu_hotkey'
"#;

pub const ZSH_INTEGRATION: &'static str = r#"K() {
    local keymenu_command
    keymenu_command="$(command keymenu select)" &&
        [[ -n "$keymenu_command" ]] && eval "$keymenu_command"
}

__keymenu_hotkey() {
    if [[ -z "$BUFFER" ]]; then
        zle -I
        K
        zle reset-prompt
    else
        LBUFFER+='K'
    fi
}

zle -N __keymenu_hotkey
bindkey 'K' __keymenu_hotkey
"#;

/// A shell for which there is no integration script.
#[derive(Clone, Debug)]
pub struct UnsupportedShell {
    pub shell: String,
}

/// The script for a shell name, if it is one of the supported shells.
pub open spec fn integration_script(shell: Seq<char>) -> Option<Seq<char>> {
    if shell == "fish"@ {
        Some(FISH_INTEGRATION@)
    } else if shell == "bash"@ {
        Some(BASH_INTEGRATION@)
    } else if shell == "zsh"@ {
        Some(ZSH_INTEGRATION@)
    } else {
        None
    }
}

/// The script of each supported shell is its integration text, and only
/// those three names have one.
pub open spec fn scripts_are_the_integrations(shell: Seq<char>) -> bool {
    &&& integration_script("fish"@) == Some(FISH_INTEGRATION@)
    &&& integration_script("bash"@) == Some(BASH_INTEGRATION@)
    &&& integration_script("zsh"@) == Some(ZSH_INTEGRATION@)
    &&& (integration_script(shell) is Some <==> (shell == "fish"@ || shell == "bash"@ || shell
        == "zsh"@))
}

/// Law: `keymenu shell NAME` prints the integration text of fish, bash or
/// zsh, and nothing for any other name. Each script runs the selected
/// command only when the selection succeeded and is not empty, defines the
/// hotkey function before binding `K` to it, and the zsh script registers
/// that function as a widget before `bindkey` names it.
pub proof fn law_integration_scripts(shell: Seq<char>)
    ensures
        scripts_are_the_integrations(shell),
        exists|i: int, j: int|
            0 <= i < j && text_at(FISH_INTEGRATION@, i, "function __keymenu_hotkey"@) && text_at(
                FISH_INTEGRATION@,
                j,
                "bind K __keymenu_hotkey"@,
            ),
        exists|i: int|
            text_at(
                FISH_INTEGRATION@,
                i,
                "set -l keymenu_command (command keymenu select)\n    and test -n \"$keymenu_command\"\n    and eval \"$keymenu_command\""@,
            ),
        exists|i: int, j: int|
            0 <= i < j && text_at(BASH_INTEGRATION@, i, "__keymenu_hotkey() {"@) && text_at(
                BASH_INTEGRATION@,
                j,
                "bind -x '\"K\":__keymenu_hotkey'"@,
            ),
        exists|i: int|
            text_at(
                BASH_INTEGRATION@,
                i,
                "keymenu_command=\"$(command keymenu select)\" &&\n        [[ -n \"$keymenu_command\" ]] && eval \"$keymenu_command\""@,
            ),
        exists|i: int, j: int, k: int|
            0 <= i < j < k && text_at(ZSH_INTEGRATION@, i, "__keymenu_hotkey() {"@) && text_at(
                ZSH_INTEGRATION@,
                j,
                "zle -N __keymenu_hotkey"@,
            ) && text_at(ZSH_INTEGRATION@, k, "bindkey 'K' __keymenu_hotkey"@),
        exists|i: int|
            text_at(
                ZSH_INTEGRATION@,
                i,
                "keymenu_command=\"$(command keymenu select)\" &&\n        [[ -n \"$keymenu_command\" ]] && eval \"$keymenu_command\""@,
            ),
{
    reveal_strlit("fish");
    reveal_strlit("bash");
    reveal_strlit("zsh");
    reveal_strlit(r#"function K --description 'Open keymenu'
    set -l keymenu_command (command keymenu select)
    and test -n "$keymenu_command"
    and eval "$keymenu_command"
end

function __keymenu_hotkey
    if test -z (commandline)
        K
    else
        commandline --insert K
    end
end

bind K __keymenu_hotkey
"#);
    reveal_strlit(r#"K() {
    local keymenu_command
    keymenu_command="$(command keymenu select)" &&
        [[ -n "$keymenu_command" ]] && eval "$keymenu_command"
}

__keymenu_hotkey() {
    if [[ -z "$READLINE_LINE" ]]; then
        K
    else
        READLINE_LINE="${READLINE_LINE:0:READLINE_POINT}K${READLINE_LINE:READLINE_POINT}"
        ((READLINE_POINT++))
    fi
}

bind -x '"K":__keymenu_hotkey'
"#);
    reveal_strlit(r#"K() {
    local keymenu_command
    keymenu_command="$(command keymenu select)" &&
        [[ -n "$keymenu_command" ]] && eval "$keymenu_command"
}

__keymenu_hotkey() {
    if [[ -z "$BUFFER" ]]; then
        zle -I
        K
        zle reset-prompt
    else
        LBUFFER+='K'
    fi
}

zle -N __keymenu_hotkey
bindkey 'K' __keymenu_hotkey
"#);
    reveal_strlit("function __keymenu_hotkey");
    reveal_strlit("bind K __keymenu_hotkey");
    reveal_strlit("set -l keymenu_command (command keymenu select)\n    and test -n \"$keymenu_command\"\n    and eval \"$keymenu_command\"");
    reveal_strlit("__keymenu_hotkey() {");
    reveal_strlit("bind -x '\"K\":__keymenu_hotkey'");
    reveal_strlit("keymenu_command=\"$(command keymenu select)\" &&\n        [[ -n \"$keymenu_command\" ]] && eval \"$keymenu_command\"");
    reveal_strlit("zle -N __keymenu_hotkey");
    reveal_strlit("bindkey 'K' __keymenu_hotkey");
    assert("fish"@[0] != "bash"@[0]);
    assert("fish"@.len() != "zsh"@.len());
    assert("bash"@.len() != "zsh"@.len());
    assert(FISH_INTEGRATION@.subrange(164, 164 + "function __keymenu_hotkey"@.len() as int) =~= "function __keymenu_hotkey"@);
    assert(text_at(FISH_INTEGRATION@, 164, "function __keymenu_hotkey"@));
    assert(FISH_INTEGRATION@.subrange(282, 282 + "bind K __keymenu_hotkey"@.len() as int) =~= "bind K __keymenu_hotkey"@);
    assert(text_at(FISH_INTEGRATION@, 282, "bind K __keymenu_hotkey"@));
    assert(FISH_INTEGRATION@.subrange(44, 44 + "set -l keymenu_command (command keymenu select)\n    and test -n \"$keymenu_command\"\n    and eval \"$keymenu_command\""@.len() as int) =~= "set -l keymenu_command (command keymenu select)\n    and test -n \"$keymenu_command\"\n    and eval \"$keymenu_command\""@);
    assert(text_at(
        FISH_INTEGRATION@,
        44,
        "set -l keymenu_command (command keymenu select)\n    and test -n \"$keymenu_command\"\n    and eval \"$keymenu_command\""@,
    ));
    assert(BASH_INTEGRATION@.subrange(149, 149 + "__keymenu_hotkey() {"@.len() as int) =~= "__keymenu_hotkey() {"@);
    assert(text_at(BASH_INTEGRATION@, 149, "__keymenu_hotkey() {"@));
    assert(BASH_INTEGRATION@.subrange(357, 357 + "bind -x '\"K\":__keymenu_hotkey'"@.len() as int) =~= "bind -x '\"K\":__keymenu_hotkey'"@);
    assert(text_at(BASH_INTEGRATION@, 357, "bind -x '\"K\":__keymenu_hotkey'"@));
    assert(BASH_INTEGRATION@.subrange(36, 36 + "keymenu_command=\"$(command keymenu select)\" &&\n        [[ -n \"$keymenu_command\" ]] && eval \"$keymenu_command\""@.len() as int) =~= "keymenu_command=\"$(command keymenu select)\" &&\n        [[ -n \"$keymenu_command\" ]] && eval \"$keymenu_command\""@);
    assert(text_at(
        BASH_INTEGRATION@,
        36,
        "keymenu_command=\"$(command keymenu select)\" &&\n        [[ -n \"$keymenu_command\" ]] && eval \"$keymenu_command\""@,
    ));
    assert(ZSH_INTEGRATION@.subrange(149, 149 + "__keymenu_hotkey() {"@.len() as int) =~= "__keymenu_hotkey() {"@);
    assert(text_at(ZSH_INTEGRATION@, 149, "__keymenu_hotkey() {"@));
    assert(ZSH_INTEGRATION@.subrange(292, 292 + "zle -N __keymenu_hotkey"@.len() as int) =~= "zle -N __keymenu_hotkey"@);
    assert(text_at(ZSH_INTEGRATION@, 292, "zle -N __keymenu_hotkey"@));
    assert(ZSH_INTEGRATION@.subrange(316, 316 + "bindkey 'K' __keymenu_hotkey"@.len() as int) =~= "bindkey 'K' __keymenu_hotkey"@);
    assert(text_at(ZSH_INTEGRATION@, 316, "bindkey 'K' __keymenu_hotkey"@));
    assert(ZSH_INTEGRATION@.subrange(36, 36 + "keymenu_command=\"$(command keymenu select)\" &&\n        [[ -n \"$keymenu_command\" ]] && eval \"$keymenu_command\""@.len() as int) =~= "keymenu_command=\"$(command keymenu select)\" &&\n        [[ -n \"$keymenu_command\" ]] && eval \"$keymenu_command\""@);
    assert(text_at(
        ZSH_INTEGRATION@,
        36,
        "keymenu_command=\"$(command keymenu select)\" &&\n        [[ -n \"$keymenu_command\" ]] && eval \"$keymenu_command\""@,
    ));
}

pub open spec fn unsupported_shell_message(shell: Seq<char>) -> Seq<char> {
    "unsupported shell "@ + debug_text(shell) + "; expected fish, bash, or zsh"@
}

impl UnsupportedShell {
    /// The error's text, as the command line reports it.
    pub fn message(&self) -> (r: String)
        ensures
            r@ == unsupported_shell_message(self.shell@),
    {
        let mut r = String::from_str("unsupported shell ");
        let q = debug_quoted(self.shell.as_str());
        r.append(q.as_str());
        r.append("; expected fish, bash, or zsh");
        r
    }
}

fn same_text(a: &str, b: &str) -> (r: bool)
    ensures
        r == (a@ == b@),
{
    let x = chars_of(a);
    let y = chars_of(b);
    chars_equal(&x, &y)
}

/// The integration script for `shell`: fish, bash or zsh.
pub fn integration(shell: &str) -> (r: Result<&'static str, UnsupportedShell>)
    ensures
        match integration_script(shell@) {
            Some(script) => r matches Ok(s) && s@ == script,
            None => r matches Err(e) && e.shell@ == shell@,
        },
{
    if same_text(shell, "fish") {
        Ok(FISH_INTEGRATION)
    } else if same_text(shell, "bash") {
        Ok(BASH_INTEGRATION)
    } else if same_text(shell, "zsh") {
        Ok(ZSH_INTEGRATION)
    } else {
        Err(UnsupportedShell { shell: String::from_str(shell) })
    }
}

} // verus!
