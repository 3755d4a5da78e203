//! The configuration language: `group` and `keybind` statements with
//! positional or keyword string arguments, `#` comments and escapes.

use vstd::prelude::*;

use crate::text::{
    chars_less, chars_of, decimal, decimal_string, is_identifier, is_identifier_char,
    is_whitespace, is_whitespace_char, lemma_seq_less_irreflexive, lemma_seq_less_total,
    lemma_seq_less_transitive, seq_less,
};

verus! {

/// A parsed configuration: its groups and bindings in the order written.
#[derive(Debug)]
pub struct Config {
    pub groups: Vec<Group>,
    pub bindings: Vec<Binding>,
}

/// `group(keys, description)`: a name for a key prefix.
#[derive(Clone, Debug)]
pub struct Group {
    pub keys: String,
    pub description: Option<String>,
}

/// `keybind(keys, description, command)`. A binding without a command is
/// shown in the menu as broken.
#[derive(Clone, Debug)]
pub struct Binding {
    pub keys: String,
    pub description: Option<String>,
    pub command: Option<String>,
}

pub open spec fn optional_view(o: Option<String>) -> Option<Seq<char>> {
    match o {
        Some(s) => Some(s@),
        None => None,
    }
}

pub struct GroupView {
    pub keys: Seq<char>,
    pub description: Option<Seq<char>>,
}

pub struct BindingView {
    pub keys: Seq<char>,
    pub description: Option<Seq<char>>,
    pub command: Option<Seq<char>>,
}

pub struct ConfigView {
    pub groups: Seq<GroupView>,
    pub bindings: Seq<BindingView>,
}

impl View for Group {
    type V = GroupView;

    open spec fn view(&self) -> GroupView {
        GroupView { keys: self.keys@, description: optional_view(self.description) }
    }
}

impl View for Binding {
    type V = BindingView;

    open spec fn view(&self) -> BindingView {
        BindingView {
            keys: self.keys@,
            description: optional_view(self.description),
            command: optional_view(self.command),
        }
    }
}

pub open spec fn groups_view(groups: Seq<Group>) -> Seq<GroupView> {
    groups.map_values(|g: Group| g@)
}

pub open spec fn bindings_view(bindings: Seq<Binding>) -> Seq<BindingView> {
    bindings.map_values(|b: Binding| b@)
}

impl View for Config {
    type V = ConfigView;

    open spec fn view(&self) -> ConfigView {
        ConfigView { groups: groups_view(self.groups@), bindings: bindings_view(self.bindings@) }
    }
}

/// The two statements of the language.
#[derive(Clone, Copy, Debug, PartialEq, Eq, Structural)]
pub enum Statement {
    Group,
    Keybind,
}

/// What went wrong at a position of the source text. `S` is `String` in
/// values and `Seq<char>` in their views.
#[derive(Clone, Debug)]
pub enum SyntaxProblem<S> {
    UnknownStatement(S),
    ExpectedIdentifier,
    UnterminatedString,
    NewlineInString,
    UnterminatedEscape,
    UnsupportedEscape(char),
    ExpectedOpenParen,
    ExpectedComma,
    ExpectedQuote,
    DuplicateArgument(S),
}

/// What is wrong with the arguments of a statement that parsed.
#[derive(Clone, Debug)]
pub enum ArgumentProblem<S> {
    UnknownArgument(Statement, S),
    TooManyPositional(Statement),
    GivenTwice(Statement, S),
    AllByKeyword,
    MissingCommand,
}

/// A parse failure: syntax errors carry the line and column where they were
/// found, argument errors the line on which their statement starts.
#[derive(Clone, Debug)]
pub enum ParseFailure<S> {
    Syntax { line: usize, column: usize, problem: SyntaxProblem<S> },
    Argument { line: usize, reason: ArgumentProblem<S> },
}

pub type ParseError = ParseFailure<String>;

pub type ParseErrorView = ParseFailure<Seq<char>>;

impl View for SyntaxProblem<String> {
    type V = SyntaxProblem<Seq<char>>;

    open spec fn view(&self) -> SyntaxProblem<Seq<char>> {
        match self {
            SyntaxProblem::UnknownStatement(s) => SyntaxProblem::UnknownStatement(s@),
            SyntaxProblem::ExpectedIdentifier => SyntaxProblem::ExpectedIdentifier,
            SyntaxProblem::UnterminatedString => SyntaxProblem::UnterminatedString,
            SyntaxProblem::NewlineInString => SyntaxProblem::NewlineInString,
            SyntaxProblem::UnterminatedEscape => SyntaxProblem::UnterminatedEscape,
            SyntaxProblem::UnsupportedEscape(c) => SyntaxProblem::UnsupportedEscape(*c),
            SyntaxProblem::ExpectedOpenParen => SyntaxProblem::ExpectedOpenParen,
            SyntaxProblem::ExpectedComma => SyntaxProblem::ExpectedComma,
            SyntaxProblem::ExpectedQuote => SyntaxProblem::ExpectedQuote,
            SyntaxProblem::DuplicateArgument(s) => SyntaxProblem::DuplicateArgument(s@),
        }
    }
}

impl View for ArgumentProblem<String> {
    type V = ArgumentProblem<Seq<char>>;

    open spec fn view(&self) -> ArgumentProblem<Seq<char>> {
        match self {
            ArgumentProblem::UnknownArgument(st, s) => ArgumentProblem::UnknownArgument(*st, s@),
            ArgumentProblem::TooManyPositional(st) => ArgumentProblem::TooManyPositional(*st),
            ArgumentProblem::GivenTwice(st, s) => ArgumentProblem::GivenTwice(*st, s@),
            ArgumentProblem::AllByKeyword => ArgumentProblem::AllByKeyword,
            ArgumentProblem::MissingCommand => ArgumentProblem::MissingCommand,
        }
    }
}

impl View for ParseFailure<String> {
    type V = ParseFailure<Seq<char>>;

    open spec fn view(&self) -> ParseFailure<Seq<char>> {
        match self {
            ParseFailure::Syntax { line, column, problem } => ParseFailure::Syntax {
                line: *line,
                column: *column,
                problem: problem@,
            },
            ParseFailure::Argument { line, reason } => ParseFailure::Argument {
                line: *line,
                reason: reason@,
            },
        }
    }
}

// ---------------------------------------------------------------------------
// The grammar, over the characters of the source and character positions.
// ---------------------------------------------------------------------------

pub open spec fn char_at(s: Seq<char>, p: int) -> Option<char> {
    if 0 <= p < s.len() {
        Some(s[p])
    } else {
        None
    }
}

/// End of a `#` comment that continues at `p`: the next newline, or the end.
pub open spec fn comment_end(s: Seq<char>, p: int) -> int
    decreases s.len() - p,
{
    if 0 <= p < s.len() && s[p] != '\n' {
        comment_end(s, p + 1)
    } else {
        p
    }
}

pub proof fn lemma_comment_end(s: Seq<char>, p: int)
    ensures
        comment_end(s, p) >= p,
        p <= s.len() ==> comment_end(s, p) <= s.len(),
    decreases s.len() - p,
{
    if 0 <= p < s.len() && s[p] != '\n' {
        lemma_comment_end(s, p + 1);
    }
}

/// End of the whitespace and comments that start at `p`.
pub open spec fn trivia_end(s: Seq<char>, p: int) -> int
    decreases s.len() - p,
{
    if 0 <= p < s.len() && is_whitespace_char(s[p]) {
        trivia_end(s, p + 1)
    } else if 0 <= p < s.len() && s[p] == '#' {
        proof {
            lemma_comment_end(s, p + 1);
        }
        trivia_end(s, comment_end(s, p + 1))
    } else {
        p
    }
}

pub proof fn lemma_trivia_end(s: Seq<char>, p: int)
    ensures
        trivia_end(s, p) >= p,
        p <= s.len() ==> trivia_end(s, p) <= s.len(),
    decreases s.len() - p,
{
    if 0 <= p < s.len() && is_whitespace_char(s[p]) {
        lemma_trivia_end(s, p + 1);
    } else if 0 <= p < s.len() && s[p] == '#' {
        lemma_comment_end(s, p + 1);
        lemma_trivia_end(s, comment_end(s, p + 1));
    }
}

/// End of the identifier characters that start at `p`.
pub open spec fn identifier_end(s: Seq<char>, p: int) -> int
    decreases s.len() - p,
{
    if 0 <= p < s.len() && is_identifier_char(s[p]) {
        identifier_end(s, p + 1)
    } else {
        p
    }
}

pub proof fn lemma_identifier_end(s: Seq<char>, p: int)
    ensures
        identifier_end(s, p) >= p,
        identifier_end(s, p) <= s.len() || identifier_end(s, p) == p,
        forall|i: int| p <= i < identifier_end(s, p) ==> is_identifier_char(#[trigger] s[i]),
    decreases s.len() - p,
{
    if 0 <= p < s.len() && is_identifier_char(s[p]) {
        lemma_identifier_end(s, p + 1);
    }
}

/// The character that the escape `\e` stands for.
pub open spec fn escaped_char(e: char) -> Option<char> {
    if e == '"' {
        Some('"')
    } else if e == '\\' {
        Some('\\')
    } else if e == 'n' {
        Some('\n')
    } else if e == 'r' {
        Some('\r')
    } else if e == 't' {
        Some('\t')
    } else {
        None
    }
}

/// A scan's outcome: the value and the position after it, or a problem and
/// the position at which it was found.
pub type Scan<T> = Result<(T, int), (SyntaxProblem<Seq<char>>, int)>;

/// The rest of a string literal from `p`, with `value` read so far.
pub open spec fn string_rest(s: Seq<char>, p: int, value: Seq<char>) -> Scan<Seq<char>>
    decreases s.len() - p,
{
    if !(0 <= p < s.len()) {
        Err((SyntaxProblem::UnterminatedString, p))
    } else if s[p] == '"' {
        Ok((value, p + 1))
    } else if s[p] == '\n' || s[p] == '\r' {
        Err((SyntaxProblem::NewlineInString, p + 1))
    } else if s[p] == '\\' {
        if p + 1 >= s.len() {
            Err((SyntaxProblem::UnterminatedEscape, p + 1))
        } else {
            match escaped_char(s[p + 1]) {
                Some(c) => string_rest(s, p + 2, value.push(c)),
                None => Err((SyntaxProblem::UnsupportedEscape(s[p + 1]), p + 2)),
            }
        }
    } else {
        string_rest(s, p + 1, value.push(s[p]))
    }
}

/// A string literal that starts at `p`.
pub open spec fn string_literal(s: Seq<char>, p: int) -> Scan<Seq<char>> {
    if char_at(s, p) == Some('"') {
        string_rest(s, p + 1, seq![])
    } else {
        Err((SyntaxProblem::ExpectedQuote, p))
    }
}

pub proof fn lemma_string_rest(s: Seq<char>, p: int, value: Seq<char>)
    ensures
        string_rest(s, p, value) matches Ok((_, q)) ==> p < q <= s.len(),
        string_rest(s, p, value) matches Err((_, q)) ==> p <= q,
    decreases s.len() - p,
{
    if 0 <= p < s.len() && s[p] != '"' && s[p] != '\n' && s[p] != '\r' {
        if s[p] == '\\' {
            if p + 1 < s.len() {
                if let Some(c) = escaped_char(s[p + 1]) {
                    lemma_string_rest(s, p + 2, value.push(c));
                }
            }
        } else {
            lemma_string_rest(s, p + 1, value.push(s[p]));
        }
    }
}

pub proof fn lemma_string_literal(s: Seq<char>, p: int)
    ensures
        string_literal(s, p) matches Ok((_, q)) ==> p < q <= s.len(),
        string_literal(s, p) matches Err((_, q)) ==> p <= q,
{
    lemma_string_rest(s, p + 1, seq![]);
}

/// The arguments after the first string of a statement.
pub struct ArgumentsView {
    pub positional: Seq<Seq<char>>,
    pub keyword: Seq<(Seq<char>, Seq<char>)>,
}

/// The value given by keyword for `name`.
pub open spec fn keyword_value(keyword: Seq<(Seq<char>, Seq<char>)>, name: Seq<char>) -> Option<
    Seq<char>,
>
    decreases keyword.len(),
{
    if keyword.len() == 0 {
        None
    } else if keyword[0].0 == name {
        Some(keyword[0].1)
    } else {
        keyword_value(keyword.drop_first(), name)
    }
}

/// The arguments from `p` (just after the statement's first string) up to
/// and including the closing parenthesis.
pub open spec fn argument_list(s: Seq<char>, p: int, args: ArgumentsView) -> Scan<ArgumentsView>
    decreases s.len() - p,
{
    let p1 = trivia_end(s, p);
    if char_at(s, p1) == Some(')') {
        Ok((args, p1 + 1))
    } else if char_at(s, p1) != Some(',') {
        Err((SyntaxProblem::ExpectedComma, p1))
    } else {
        let p2 = trivia_end(s, p1 + 1);
        if char_at(s, p2) == Some(')') {
            Ok((args, p2 + 1))
        } else {
            let e = identifier_end(s, p2);
            let p3 = trivia_end(s, e);
            proof {
                lemma_trivia_end(s, p);
                lemma_trivia_end(s, p1 + 1);
                lemma_identifier_end(s, p2);
                lemma_trivia_end(s, e);
                lemma_trivia_end(s, p3 + 1);
                lemma_string_literal(s, trivia_end(s, p3 + 1));
                lemma_string_literal(s, p2);
            }
            if char_at(s, p3) == Some(':') {
                if e == p2 {
                    Err((SyntaxProblem::ExpectedIdentifier, p2))
                } else {
                    let name = s.subrange(p2, e);
                    match string_literal(s, trivia_end(s, p3 + 1)) {
                        Err(failure) => Err(failure),
                        Ok((value, p5)) => if keyword_value(args.keyword, name) is Some {
                            Err((SyntaxProblem::DuplicateArgument(name), p5))
                        } else {
                            argument_list(
                                s,
                                p5,
                                ArgumentsView {
                                    positional: args.positional,
                                    keyword: args.keyword.push((name, value)),
                                },
                            )
                        },
                    }
                }
            } else {
                match string_literal(s, p2) {
                    Err(failure) => Err(failure),
                    Ok((value, p5)) => argument_list(
                        s,
                        p5,
                        ArgumentsView {
                            positional: args.positional.push(value),
                            keyword: args.keyword,
                        },
                    ),
                }
            }
        }
    }
}

pub proof fn lemma_argument_list(s: Seq<char>, p: int, args: ArgumentsView)
    ensures
        argument_list(s, p, args) matches Ok((_, q)) ==> p < q <= s.len(),
        argument_list(s, p, args) matches Err((_, q)) ==> p <= q,
    decreases s.len() - p,
{
    let p1 = trivia_end(s, p);
    lemma_trivia_end(s, p);
    lemma_trivia_end(s, p1 + 1);
    let p2 = trivia_end(s, p1 + 1);
    let e = identifier_end(s, p2);
    lemma_identifier_end(s, p2);
    lemma_trivia_end(s, e);
    let p3 = trivia_end(s, e);
    lemma_trivia_end(s, p3 + 1);
    lemma_string_literal(s, trivia_end(s, p3 + 1));
    lemma_string_literal(s, p2);
    if char_at(s, p1) == Some(',') && char_at(s, p2) != Some(')') {
        if char_at(s, p3) == Some(':') {
            if e != p2 {
                let name = s.subrange(p2, e);
                if let Ok((value, p5)) = string_literal(s, trivia_end(s, p3 + 1)) {
                    if keyword_value(args.keyword, name) is None {
                        lemma_argument_list(
                            s,
                            p5,
                            ArgumentsView {
                                positional: args.positional,
                                keyword: args.keyword.push((name, value)),
                            },
                        );
                    }
                }
            }
        } else {
            if let Ok((value, p5)) = string_literal(s, p2) {
                lemma_argument_list(
                    s,
                    p5,
                    ArgumentsView { positional: args.positional.push(value), keyword: args.keyword },
                );
            }
        }
    }
}

pub open spec fn description_name() -> Seq<char> {
    "description"@
}

pub open spec fn command_name() -> Seq<char> {
    "command"@
}

/// Whether `statement` accepts an argument of this name by keyword.
pub open spec fn is_known_argument(statement: Statement, name: Seq<char>) -> bool {
    name == description_name() || (statement == Statement::Keybind && name == command_name())
}

/// `name` is an unknown keyword argument that no other unknown one precedes
/// in string order.
pub open spec fn is_first_unknown(
    keyword: Seq<(Seq<char>, Seq<char>)>,
    statement: Statement,
    name: Seq<char>,
) -> bool {
    &&& exists|i: int| 0 <= i < keyword.len() && #[trigger] keyword[i].0 == name
    &&& !is_known_argument(statement, name)
    &&& forall|i: int|
        0 <= i < keyword.len() && !is_known_argument(statement, #[trigger] keyword[i].0)
            ==> !seq_less(keyword[i].0, name)
}

/// The unknown keyword argument that is reported: the first in string order.
pub open spec fn unknown_argument(keyword: Seq<(Seq<char>, Seq<char>)>, statement: Statement) -> Option<
    Seq<char>,
> {
    if exists|i: int| 0 <= i < keyword.len() && !is_known_argument(statement, #[trigger] keyword[i].0) {
        Some(choose|name: Seq<char>| is_first_unknown(keyword, statement, name))
    } else {
        None
    }
}

/// An argument that may be given at most once, by position or by keyword.
pub open spec fn optional_value(
    positional: Seq<Seq<char>>,
    keyword: Seq<(Seq<char>, Seq<char>)>,
    name: Seq<char>,
    statement: Statement,
) -> Result<Option<Seq<char>>, ArgumentProblem<Seq<char>>> {
    if positional.len() > 1 {
        Err(ArgumentProblem::TooManyPositional(statement))
    } else {
        let by_position = if positional.len() == 1 {
            Some(positional[0])
        } else {
            None
        };
        match (by_position, keyword_value(keyword, name)) {
            (Some(_), Some(_)) => Err(ArgumentProblem::GivenTwice(statement, name)),
            (Some(value), None) => Ok(Some(value)),
            (None, Some(value)) => Ok(Some(value)),
            (None, None) => Ok(None),
        }
    }
}

/// The description of a group statement.
pub open spec fn group_arguments(args: ArgumentsView) -> Result<
    Option<Seq<char>>,
    ArgumentProblem<Seq<char>>,
> {
    match unknown_argument(args.keyword, Statement::Group) {
        Some(name) => Err(ArgumentProblem::UnknownArgument(Statement::Group, name)),
        None => optional_value(args.positional, args.keyword, description_name(), Statement::Group),
    }
}

/// The command and description of a keybind statement: the keyword
/// arguments are taken first, and the positional ones fill what is left,
/// description before command.
pub open spec fn keybind_values(args: ArgumentsView) -> Result<
    (Seq<char>, Option<Seq<char>>),
    ArgumentProblem<Seq<char>>,
> {
    let positional = args.positional;
    let n = positional.len();
    if n > 2 {
        Err(ArgumentProblem::TooManyPositional(Statement::Keybind))
    } else {
        match (
            keyword_value(args.keyword, description_name()),
            keyword_value(args.keyword, command_name()),
        ) {
            (Some(description), Some(command)) => if n > 0 {
                Err(ArgumentProblem::AllByKeyword)
            } else {
                Ok((command, Some(description)))
            },
            (Some(description), None) => if n == 0 {
                Err(ArgumentProblem::MissingCommand)
            } else if n == 1 {
                Ok((positional[0], Some(description)))
            } else {
                Err(ArgumentProblem::TooManyPositional(Statement::Keybind))
            },
            (None, Some(command)) => if n == 0 {
                Ok((command, None))
            } else if n == 1 {
                Ok((command, Some(positional[0])))
            } else {
                Err(ArgumentProblem::TooManyPositional(Statement::Keybind))
            },
            (None, None) => if n == 0 {
                Err(ArgumentProblem::MissingCommand)
            } else if n == 1 {
                Ok((positional[0], None))
            } else {
                Ok((positional[1], Some(positional[0])))
            },
        }
    }
}

/// The keybind statement's arguments, after the check for unknown ones.
pub open spec fn keybind_arguments_spec(args: ArgumentsView) -> Result<
    (Seq<char>, Option<Seq<char>>),
    ArgumentProblem<Seq<char>>,
> {
    match unknown_argument(args.keyword, Statement::Keybind) {
        Some(name) => Err(ArgumentProblem::UnknownArgument(Statement::Keybind, name)),
        None => keybind_values(args),
    }
}

/// Number of newlines in `s`.
pub open spec fn newline_count(s: Seq<char>) -> nat
    decreases s.len(),
{
    if s.len() == 0 {
        0
    } else {
        newline_count(s.drop_last()) + if s.last() == '\n' {
            1nat
        } else {
            0nat
        }
    }
}

/// Number of characters after the last newline of `s`.
pub open spec fn last_line_length(s: Seq<char>) -> nat
    decreases s.len(),
{
    if s.len() == 0 {
        0
    } else if s.last() == '\n' {
        0
    } else {
        last_line_length(s.drop_last()) + 1
    }
}

/// The 1-based line of position `p`.
pub open spec fn line_at(s: Seq<char>, p: int) -> int {
    newline_count(s.take(p)) as int + 1
}

/// The 1-based column of position `p`, counted in characters.
pub open spec fn column_at(s: Seq<char>, p: int) -> int {
    last_line_length(s.take(p)) as int + 1
}

/// A line or column number as `usize` holds it. (Positions count characters
/// of a string in memory, so no number reaches the cap.)
pub open spec fn capped(n: int) -> usize {
    if n < usize::MAX {
        n as usize
    } else {
        usize::MAX
    }
}

pub open spec fn syntax_error(s: Seq<char>, p: int, problem: SyntaxProblem<Seq<char>>) -> ParseErrorView {
    ParseFailure::Syntax { line: capped(line_at(s, p)), column: capped(column_at(s, p)), problem }
}

pub open spec fn empty_arguments() -> ArgumentsView {
    ArgumentsView { positional: seq![], keyword: seq![] }
}

/// The statements from `p`, which follows whitespace and comments, appended
/// to `config`.
pub open spec fn statements(s: Seq<char>, p: int, config: ConfigView) -> Result<
    ConfigView,
    ParseErrorView,
>
    decreases s.len() - p,
{
    if !(0 <= p < s.len()) {
        Ok(config)
    } else {
        let line = capped(line_at(s, p));
        let e = identifier_end(s, p);
        proof {
            lemma_identifier_end(s, p);
        }
        if e == p {
            Err(syntax_error(s, p, SyntaxProblem::ExpectedIdentifier))
        } else {
            let name = s.subrange(p, e);
            let q = trivia_end(s, e);
            if char_at(s, q) != Some('(') {
                Err(syntax_error(s, q, SyntaxProblem::ExpectedOpenParen))
            } else {
                match string_literal(s, trivia_end(s, q + 1)) {
                    Err((problem, at)) => Err(syntax_error(s, at, problem)),
                    Ok((keys, q3)) => match argument_list(s, q3, empty_arguments()) {
                        Err((problem, at)) => Err(syntax_error(s, at, problem)),
                        Ok((args, q4)) => {
                            proof {
                                lemma_identifier_end(s, p);
                                lemma_trivia_end(s, e);
                                lemma_trivia_end(s, q + 1);
                                lemma_string_literal(s, trivia_end(s, q + 1));
                                lemma_argument_list(s, q3, empty_arguments());
                                lemma_trivia_end(s, q4);
                            }
                            if name == "group"@ {
                                match group_arguments(args) {
                                    Err(reason) => Err(ParseFailure::Argument { line, reason }),
                                    Ok(description) => statements(
                                        s,
                                        trivia_end(s, q4),
                                        ConfigView {
                                            groups: config.groups.push(
                                                GroupView { keys, description },
                                            ),
                                            bindings: config.bindings,
                                        },
                                    ),
                                }
                            } else if name == "keybind"@ {
                                match keybind_arguments_spec(args) {
                                    Err(reason) => Err(ParseFailure::Argument { line, reason }),
                                    Ok((command, description)) => statements(
                                        s,
                                        trivia_end(s, q4),
                                        ConfigView {
                                            groups: config.groups,
                                            bindings: config.bindings.push(
                                                BindingView {
                                                    keys,
                                                    description,
                                                    command: Some(command),
                                                },
                                            ),
                                        },
                                    ),
                                }
                            } else {
                                Err(syntax_error(s, q4, SyntaxProblem::UnknownStatement(name)))
                            }
                        }
                    },
                }
            }
        }
    }
}

pub open spec fn empty_config() -> ConfigView {
    ConfigView { groups: seq![], bindings: seq![] }
}

/// What `parse` gives for a source text.
pub open spec fn parse_spec(s: Seq<char>) -> Result<ConfigView, ParseErrorView> {
    statements(s, trivia_end(s, 0), empty_config())
}


// ---------------------------------------------------------------------------
// Laws of the argument forms.
// ---------------------------------------------------------------------------

pub open spec fn arguments(positional: Seq<Seq<char>>, keyword: Seq<(Seq<char>, Seq<char>)>) -> ArgumentsView {
    ArgumentsView { positional, keyword }
}

proof fn lemma_argument_names_differ()
    ensures
        description_name() != command_name(),
{
    reveal_strlit("description");
    reveal_strlit("command");
    assert(description_name().len() != command_name().len());
}

/// Law: a keybind's description and command may be given by position, by
/// keyword in either order, or mixed; every form gives the same binding.
pub proof fn law_keybind_argument_forms(description: Seq<char>, command: Seq<char>)
    ensures
        keybind_arguments_spec(arguments(seq![description, command], seq![])) == Ok::<
            (Seq<char>, Option<Seq<char>>),
            ArgumentProblem<Seq<char>>,
        >((command, Some(description))),
        keybind_arguments_spec(arguments(seq![description], seq![(command_name(), command)]))
            == keybind_arguments_spec(arguments(seq![description, command], seq![])),
        keybind_arguments_spec(arguments(seq![command], seq![(description_name(), description)]))
            == keybind_arguments_spec(arguments(seq![description, command], seq![])),
        keybind_arguments_spec(
            arguments(
                seq![],
                seq![(description_name(), description), (command_name(), command)],
            ),
        ) == keybind_arguments_spec(arguments(seq![description, command], seq![])),
        keybind_arguments_spec(
            arguments(
                seq![],
                seq![(command_name(), command), (description_name(), description)],
            ),
        ) == keybind_arguments_spec(arguments(seq![description, command], seq![])),
{
    lemma_argument_names_differ();
    let both = seq![(description_name(), description), (command_name(), command)];
    let both_rev = seq![(command_name(), command), (description_name(), description)];
    assert(both.drop_first() =~= seq![(command_name(), command)]);
    assert(both_rev.drop_first() =~= seq![(description_name(), description)]);
    assert(seq![(command_name(), command)].drop_first() =~= Seq::<(Seq<char>, Seq<char>)>::empty());
    assert(seq![(description_name(), description)].drop_first() =~= Seq::<(Seq<char>, Seq<char>)>::empty());
}

/// Law: a keybind's description is optional, and its command may be given
/// by position or by keyword.
pub proof fn law_keybind_without_description(command: Seq<char>)
    ensures
        keybind_arguments_spec(arguments(seq![command], seq![])) == Ok::<
            (Seq<char>, Option<Seq<char>>),
            ArgumentProblem<Seq<char>>,
        >((command, None)),
        keybind_arguments_spec(arguments(seq![], seq![(command_name(), command)]))
            == keybind_arguments_spec(arguments(seq![command], seq![])),
{
    lemma_argument_names_differ();
    assert(seq![(command_name(), command)].drop_first() =~= Seq::<(Seq<char>, Seq<char>)>::empty());
}

/// Law: a group's description may be given by position or by keyword, or
/// left out.
pub proof fn law_group_argument_forms(description: Seq<char>)
    ensures
        group_arguments(arguments(seq![description], seq![])) == Ok::<
            Option<Seq<char>>,
            ArgumentProblem<Seq<char>>,
        >(Some(description)),
        group_arguments(arguments(seq![], seq![(description_name(), description)]))
            == group_arguments(arguments(seq![description], seq![])),
        group_arguments(arguments(seq![], seq![])) == Ok::<
            Option<Seq<char>>,
            ArgumentProblem<Seq<char>>,
        >(None),
{
}

/// Law: a keyword argument that the statement does not take is an error,
/// whatever else the statement holds.
pub proof fn law_unknown_keyword_rejected(args: ArgumentsView, statement: Statement, i: int)
    requires
        0 <= i < args.keyword.len(),
        !is_known_argument(statement, args.keyword[i].0),
    ensures
        statement == Statement::Group ==> group_arguments(args) matches Err(
            ArgumentProblem::UnknownArgument(Statement::Group, _),
        ),
        statement == Statement::Keybind ==> keybind_arguments_spec(args) matches Err(
            ArgumentProblem::UnknownArgument(Statement::Keybind, _),
        ),
{
    assert(unknown_argument(args.keyword, statement) is Some);
}

pub open spec fn all_have_commands(bindings: Seq<BindingView>) -> bool {
    forall|i: int| 0 <= i < bindings.len() ==> (#[trigger] bindings[i]).command is Some
}

proof fn lemma_statements_keep_commands(s: Seq<char>, p: int, config: ConfigView)
    requires
        all_have_commands(config.bindings),
    ensures
        statements(s, p, config) matches Ok(c) ==> all_have_commands(c.bindings),
    decreases s.len() - p,
{
    if 0 <= p < s.len() {
        let e = identifier_end(s, p);
        lemma_identifier_end(s, p);
        let q = trivia_end(s, e);
        lemma_trivia_end(s, e);
        lemma_trivia_end(s, q + 1);
        lemma_string_literal(s, trivia_end(s, q + 1));
        if e != p && char_at(s, q) == Some('(') {
            if let Ok((keys, q3)) = string_literal(s, trivia_end(s, q + 1)) {
                lemma_argument_list(s, q3, empty_arguments());
                if let Ok((args, q4)) = argument_list(s, q3, empty_arguments()) {
                    lemma_trivia_end(s, q4);
                    let name = s.subrange(p, e);
                    if name == "group"@ {
                        if let Ok(description) = group_arguments(args) {
                            lemma_statements_keep_commands(
                                s,
                                trivia_end(s, q4),
                                ConfigView {
                                    groups: config.groups.push(GroupView { keys, description }),
                                    bindings: config.bindings,
                                },
                            );
                        }
                    } else if name == "keybind"@ {
                        if let Ok((command, description)) = keybind_arguments_spec(args) {
                            let bindings = config.bindings.push(
                                BindingView { keys, description, command: Some(command) },
                            );
                            assert(all_have_commands(bindings));
                            lemma_statements_keep_commands(
                                s,
                                trivia_end(s, q4),
                                ConfigView { groups: config.groups, bindings },
                            );
                        }
                    }
                }
            }
        }
    }
}

/// Law: every binding that the parser gives has a command; a keybind
/// statement without one is an error.
pub proof fn law_parsed_bindings_have_commands(s: Seq<char>)
    ensures
        parse_spec(s) matches Ok(config) ==> all_have_commands(config.bindings),
{
    lemma_statements_keep_commands(s, trivia_end(s, 0), empty_config());
}

// ---------------------------------------------------------------------------
// Laws of the concrete syntax.
// ---------------------------------------------------------------------------

/// Law: skipping whitespace and comments stops at the end or before a
/// character that is neither, and skipping again from there moves nothing.
pub proof fn law_trivia_skip_settles(s: Seq<char>, p: int)
    requires
        0 <= p <= s.len(),
    ensures
        p <= trivia_end(s, p) <= s.len(),
        trivia_end(s, p) == s.len() || (!is_whitespace_char(s[trivia_end(s, p)]) && s[trivia_end(
            s,
            p,
        )] != '#'),
        trivia_end(s, trivia_end(s, p)) == trivia_end(s, p),
    decreases s.len() - p,
{
    lemma_trivia_end(s, p);
    if p < s.len() && is_whitespace_char(s[p]) {
        law_trivia_skip_settles(s, p + 1);
    } else if p < s.len() && s[p] == '#' {
        lemma_comment_end(s, p + 1);
        law_trivia_skip_settles(s, comment_end(s, p + 1));
    }
}

/// Law: an identifier is the longest run of identifier characters.
pub proof fn law_identifier_is_longest_run(s: Seq<char>, p: int)
    requires
        0 <= p <= s.len(),
    ensures
        p <= identifier_end(s, p) <= s.len(),
        forall|i: int| p <= i < identifier_end(s, p) ==> is_identifier_char(#[trigger] s[i]),
        identifier_end(s, p) == s.len() || !is_identifier_char(s[identifier_end(s, p)]),
    decreases s.len() - p,
{
    lemma_identifier_end(s, p);
    if p < s.len() && is_identifier_char(s[p]) {
        law_identifier_is_longest_run(s, p + 1);
    }
}

/// How a character is written inside a string literal.
pub open spec fn escape_char(c: char) -> Seq<char> {
    if c == '\\' {
        seq!['\\', '\\']
    } else if c == '"' {
        seq!['\\', '"']
    } else if c == '\n' {
        seq!['\\', 'n']
    } else if c == '\r' {
        seq!['\\', 'r']
    } else if c == '\t' {
        seq!['\\', 't']
    } else {
        seq![c]
    }
}

/// How a character is written when `raw` asks for it as it stands: a tab
/// may be written raw or as `\t`; every other character has one way only.
pub open spec fn escape_char_as(c: char, raw: bool) -> Seq<char> {
    if raw && c == '\t' {
        seq![c]
    } else {
        escape_char(c)
    }
}

/// The rest of a per-character choice, once its first character is written.
pub open spec fn rest_of(raw: Seq<bool>) -> Seq<bool> {
    if raw.len() > 0 {
        raw.drop_first()
    } else {
        raw
    }
}

/// The characters of a value written in a string literal, each as
/// `escape_char_as` writes it with the choice that `raw` makes for it
/// (missing choices write the escape).
pub open spec fn escaped_as(v: Seq<char>, raw: Seq<bool>) -> Seq<char>
    decreases v.len(),
{
    if v.len() == 0 {
        seq![]
    } else {
        escape_char_as(v[0], raw.len() > 0 && raw[0]) + escaped_as(v.drop_first(), rest_of(raw))
    }
}

/// A value written as a string literal, with the choices `raw` makes.
pub open spec fn quoted_as(v: Seq<char>, raw: Seq<bool>) -> Seq<char> {
    seq!['"'] + escaped_as(v, raw) + seq!['"']
}

/// A value written as a string literal, every tab escaped.
pub open spec fn quoted_text(v: Seq<char>) -> Seq<char> {
    quoted_as(v, seq![])
}

proof fn lemma_string_rest_escaped(
    s: Seq<char>,
    p: int,
    value: Seq<char>,
    v: Seq<char>,
    raw: Seq<bool>,
)
    requires
        0 <= p,
        p + escaped_as(v, raw).len() + 1 <= s.len(),
        s.subrange(p, p + escaped_as(v, raw).len() + 1) == escaped_as(v, raw).push('"'),
    ensures
        string_rest(s, p, value) == Ok::<(Seq<char>, int), (SyntaxProblem<Seq<char>>, int)>(
            (value + v, p + escaped_as(v, raw).len() + 1),
        ),
    decreases v.len(),
{
    let e = escaped_as(v, raw);
    assert(s[p] == s.subrange(p, p + e.len() + 1)[0]);
    if v.len() == 0 {
        assert(value + v =~= value);
    } else {
        let c = v[0];
        let rest = v.drop_first();
        let rr = rest_of(raw);
        let ec = escape_char_as(c, raw.len() > 0 && raw[0]);
        let er = escaped_as(rest, rr);
        assert(e == ec + er);
        assert(s.subrange(p + ec.len(), p + ec.len() + er.len() + 1) =~= er.push('"')) by {
            assert forall|k: int| 0 <= k < er.len() + 1 implies s.subrange(
                p + ec.len(),
                p + ec.len() + er.len() + 1,
            )[k] == er.push('"')[k] by {
                assert(s.subrange(p, p + e.len() + 1)[ec.len() + k] == s[p + ec.len() + k]);
            }
        }
        assert(s[p] == ec[0]);
        if ec.len() == 2 {
            assert(s[p + 1] == s.subrange(p, p + e.len() + 1)[1]);
            assert(s[p + 1] == ec[1]);
        }
        lemma_string_rest_escaped(s, p + ec.len(), value.push(c), rest, rr);
        assert(value.push(c) + rest =~= value + v);
    }
}

/// Law: a string literal reads back the value it was written from, whichever
/// way each of its tabs was written.
pub proof fn law_string_round_trip(s: Seq<char>, p: int, v: Seq<char>, raw: Seq<bool>)
    requires
        0 <= p,
        p + quoted_as(v, raw).len() <= s.len(),
        s.subrange(p, p + quoted_as(v, raw).len()) == quoted_as(v, raw),
    ensures
        string_literal(s, p) == Ok::<(Seq<char>, int), (SyntaxProblem<Seq<char>>, int)>(
            (v, p + quoted_as(v, raw).len()),
        ),
{
    let q = quoted_as(v, raw);
    let e = escaped_as(v, raw);
    assert(s[p] == s.subrange(p, p + q.len())[0]);
    assert(s.subrange(p + 1, p + 1 + e.len() + 1) =~= e.push('"')) by {
        assert forall|k: int| 0 <= k < e.len() + 1 implies s.subrange(
            p + 1,
            p + 1 + e.len() + 1,
        )[k] == e.push('"')[k] by {
            assert(s.subrange(p, p + q.len())[1 + k] == s[p + 1 + k]);
        }
    }
    lemma_string_rest_escaped(s, p + 1, seq![], v, raw);
    assert(Seq::<char>::empty() + v =~= v);
}

/// `t` stands in `s` at position `p`.
pub open spec fn text_at(s: Seq<char>, p: int, t: Seq<char>) -> bool {
    0 <= p && p + t.len() <= s.len() && s.subrange(p, p + t.len()) == t
}

proof fn lemma_text_at_middle(x: Seq<char>, t: Seq<char>, y: Seq<char>)
    ensures
        text_at(x + t + y, x.len() as int, t),
{
    assert((x + t + y).subrange(x.len() as int, (x.len() + t.len()) as int) =~= t);
}

proof fn lemma_text_at_split(s: Seq<char>, p: int, a: Seq<char>, b: Seq<char>)
    requires
        text_at(s, p, a + b),
    ensures
        text_at(s, p, a),
        text_at(s, p + a.len(), b),
{
    assert forall|k: int| 0 <= k < a.len() implies s.subrange(p, p + a.len())[k] == a[k] by {
        assert(s.subrange(p, p + (a + b).len())[k] == (a + b)[k]);
    }
    assert(s.subrange(p, p + a.len()) =~= a);
    assert forall|k: int| 0 <= k < b.len() implies s.subrange(p + a.len(), p + a.len() + b.len())[k]
        == b[k] by {
        assert(s.subrange(p, p + (a + b).len())[a.len() + k] == (a + b)[a.len() + k]);
    }
    assert(s.subrange(p + a.len(), p + a.len() + b.len()) =~= b);
}

proof fn lemma_text_at_char(s: Seq<char>, p: int, t: Seq<char>, k: int)
    requires
        text_at(s, p, t),
        0 <= k < t.len(),
    ensures
        s[p + k] == t[k],
{
    assert(s.subrange(p, p + t.len())[k] == s[p + k]);
}

proof fn lemma_identifier_run(s: Seq<char>, a: int, b: int)
    requires
        0 <= a <= b <= s.len(),
        forall|i: int| a <= i < b ==> is_identifier_char(#[trigger] s[i]),
        b == s.len() || !is_identifier_char(s[b]),
    ensures
        identifier_end(s, a) == b,
    decreases b - a,
{
    if a < b {
        lemma_identifier_run(s, a + 1, b);
    }
}

/// A nonempty run of identifier characters.
pub open spec fn is_identifier_text(t: Seq<char>) -> bool {
    t.len() > 0 && forall|i: int| 0 <= i < t.len() ==> is_identifier_char(#[trigger] t[i])
}

/// The name of the keybind statement.
pub open spec fn keybind_word() -> Seq<char> {
    seq!['k', 'e', 'y', 'b', 'i', 'n', 'd']
}

proof fn lemma_words()
    ensures
        keybind_word() == "keybind"@,
        keybind_word() != "group"@,
        is_identifier_text(keybind_word()),
        is_identifier_text(description_name()),
        is_identifier_text(command_name()),
        description_name() != command_name(),
{
    reveal_strlit("keybind");
    reveal_strlit("group");
    reveal_strlit("description");
    reveal_strlit("command");
    assert(keybind_word() =~= "keybind"@);
    assert(keybind_word().len() != "group"@.len());
    let d = description_name();
    let c = command_name();
    assert(d[0] == 'd');
    assert(d[1] == 'e');
    assert(d[2] == 's');
    assert(d[3] == 'c');
    assert(d[4] == 'r');
    assert(d[5] == 'i');
    assert(d[6] == 'p');
    assert(d[7] == 't');
    assert(d[8] == 'i');
    assert(d[9] == 'o');
    assert(d[10] == 'n');
    assert(c[0] == 'c');
    assert(c[1] == 'o');
    assert(c[2] == 'm');
    assert(c[3] == 'm');
    assert(c[4] == 'a');
    assert(c[5] == 'n');
    assert(c[6] == 'd');
    assert forall|i: int| 0 <= i < d.len() implies is_identifier_char(#[trigger] d[i]) by {
        assert(0 <= i < 11);
    }
    assert forall|i: int| 0 <= i < c.len() implies is_identifier_char(#[trigger] c[i]) by {
        assert(0 <= i < 7);
    }
    assert forall|i: int| 0 <= i < 7 implies is_identifier_char(#[trigger] keybind_word()[i]) by {
    }
    lemma_argument_names_differ();
}

/// `, "value"`: a positional argument.
pub open spec fn positional_text(v: Seq<char>) -> Seq<char> {
    seq![',', ' '] + quoted_text(v)
}

/// `, name: "value"`: a keyword argument.
pub open spec fn keyword_text(name: Seq<char>, v: Seq<char>) -> Seq<char> {
    seq![',', ' '] + name + seq![':', ' '] + quoted_text(v)
}

/// `keybind("keys"`: the start of a keybind statement.
pub open spec fn keybind_head(keys: Seq<char>) -> Seq<char> {
    keybind_word() + seq!['('] + quoted_text(keys)
}

proof fn lemma_positional_text(s: Seq<char>, p: int, args: ArgumentsView, v: Seq<char>)
    requires
        text_at(s, p, positional_text(v)),
    ensures
        argument_list(s, p, args) == argument_list(
            s,
            p + positional_text(v).len(),
            ArgumentsView { positional: args.positional.push(v), keyword: args.keyword },
        ),
{
    let q = quoted_text(v);
    lemma_text_at_split(s, p, seq![',', ' '], q);
    lemma_text_at_char(s, p, seq![',', ' '], 0);
    lemma_text_at_char(s, p, seq![',', ' '], 1);
    lemma_text_at_char(s, p + 2, q, 0);
    assert(s[p] == ',');
    assert(s[p + 1] == ' ');
    assert(s[p + 2] == '"');
    assert(trivia_end(s, p) == p);
    assert(trivia_end(s, p + 2) == p + 2);
    assert(trivia_end(s, p + 1) == p + 2);
    assert(identifier_end(s, p + 2) == p + 2);
    law_string_round_trip(s, p + 2, v, seq![]);
    assert(positional_text(v).len() == 2 + q.len());
}

proof fn lemma_keyword_text(
    s: Seq<char>,
    p: int,
    args: ArgumentsView,
    name: Seq<char>,
    v: Seq<char>,
)
    requires
        text_at(s, p, keyword_text(name, v)),
        is_identifier_text(name),
        keyword_value(args.keyword, name) is None,
    ensures
        argument_list(s, p, args) == argument_list(
            s,
            p + keyword_text(name, v).len(),
            ArgumentsView { positional: args.positional, keyword: args.keyword.push((name, v)) },
        ),
{
    let n = name.len() as int;
    let q = quoted_text(v);
    lemma_text_at_split(s, p, seq![',', ' '] + name + seq![':', ' '], q);
    lemma_text_at_split(s, p, seq![',', ' '] + name, seq![':', ' ']);
    lemma_text_at_split(s, p, seq![',', ' '], name);
    lemma_text_at_char(s, p, seq![',', ' '], 0);
    lemma_text_at_char(s, p, seq![',', ' '], 1);
    lemma_text_at_char(s, p + 2, name, 0);
    lemma_text_at_char(s, p + 2 + n, seq![':', ' '], 0);
    lemma_text_at_char(s, p + 2 + n, seq![':', ' '], 1);
    lemma_text_at_char(s, p + 4 + n, q, 0);
    assert(s[p] == ',');
    assert(s[p + 1] == ' ');
    assert(s[p + 2] == name[0]);
    assert(s[p + 2 + n] == ':');
    assert(s[p + 3 + n] == ' ');
    assert(s[p + 4 + n] == '"');
    assert(is_identifier_char(name[0]));
    assert forall|i: int| p + 2 <= i < p + 2 + n implies is_identifier_char(#[trigger] s[i]) by {
        lemma_text_at_char(s, p + 2, name, i - p - 2);
    }
    lemma_identifier_run(s, p + 2, p + 2 + n);
    assert(trivia_end(s, p) == p);
    assert(trivia_end(s, p + 2) == p + 2);
    assert(trivia_end(s, p + 1) == p + 2);
    assert(trivia_end(s, p + 2 + n) == p + 2 + n);
    assert(trivia_end(s, p + 4 + n) == p + 4 + n);
    assert(trivia_end(s, p + 3 + n) == p + 4 + n);
    assert(s.subrange(p + 2, p + 2 + n) == name);
    law_string_round_trip(s, p + 4 + n, v, seq![]);
    assert(keyword_text(name, v).len() == 4 + n + q.len());
}

proof fn lemma_close(s: Seq<char>, p: int, args: ArgumentsView)
    requires
        0 <= p < s.len(),
        s[p] == ')',
    ensures
        argument_list(s, p, args) == Ok::<(ArgumentsView, int), (SyntaxProblem<Seq<char>>, int)>(
            (args, p + 1),
        ),
{
}

proof fn lemma_keybind_statement(
    s: Seq<char>,
    p: int,
    config: ConfigView,
    keys: Seq<char>,
    args: ArgumentsView,
    q4: int,
    command: Seq<char>,
    description: Option<Seq<char>>,
)
    requires
        text_at(s, p, keybind_head(keys)),
        argument_list(s, p + keybind_head(keys).len(), empty_arguments()) == Ok::<
            (ArgumentsView, int),
            (SyntaxProblem<Seq<char>>, int),
        >((args, q4)),
        keybind_arguments_spec(args) == Ok::<
            (Seq<char>, Option<Seq<char>>),
            ArgumentProblem<Seq<char>>,
        >((command, description)),
    ensures
        statements(s, p, config) == statements(
            s,
            trivia_end(s, q4),
            ConfigView {
                groups: config.groups,
                bindings: config.bindings.push(
                    BindingView { keys, description, command: Some(command) },
                ),
            },
        ),
{
    lemma_words();
    let w = keybind_word();
    lemma_text_at_split(s, p, w + seq!['('], quoted_text(keys));
    lemma_text_at_split(s, p, w, seq!['(']);
    lemma_text_at_char(s, p + 7, seq!['('], 0);
    lemma_text_at_char(s, p + 8, quoted_text(keys), 0);
    lemma_text_at_char(s, p, w, 0);
    assert forall|i: int| p <= i < p + 7 implies is_identifier_char(#[trigger] s[i]) by {
        lemma_text_at_char(s, p, w, i - p);
    }
    lemma_identifier_run(s, p, p + 7);
    assert(s.subrange(p, p + 7) == w);
    law_string_round_trip(s, p + 8, keys, seq![]);
}

/// The source text of a keybind statement written with positional
/// arguments: `keybind("keys", "description", "command")`.
pub open spec fn keybind_source(keys: Seq<char>, description: Seq<char>, command: Seq<char>) -> Seq<
    char,
> {
    keybind_head(keys) + positional_text(description) + positional_text(command) + seq![')']
}

/// A configuration of one binding with a description and a command.
pub open spec fn single_binding(keys: Seq<char>, description: Seq<char>, command: Seq<char>) -> Result<
    ConfigView,
    ParseErrorView,
> {
    Ok(
        ConfigView {
            groups: seq![],
            bindings: seq![
                BindingView { keys, description: Some(description), command: Some(command) },
            ],
        },
    )
}

proof fn lemma_single_statement(s: Seq<char>, keys: Seq<char>, args: ArgumentsView, description: Seq<char>, command: Seq<char>)
    requires
        text_at(s, 0, keybind_head(keys)),
        argument_list(s, keybind_head(keys).len() as int, empty_arguments()) == Ok::<
            (ArgumentsView, int),
            (SyntaxProblem<Seq<char>>, int),
        >((args, s.len() as int)),
        keybind_arguments_spec(args) == Ok::<
            (Seq<char>, Option<Seq<char>>),
            ArgumentProblem<Seq<char>>,
        >((command, Some(description))),
    ensures
        parse_spec(s) == single_binding(keys, description, command),
{
    lemma_text_at_char(s, 0, keybind_head(keys), 0);
    lemma_keybind_statement(s, 0, empty_config(), keys, args, s.len() as int, command, Some(description));
    let expected = ConfigView {
        groups: seq![],
        bindings: seq![BindingView { keys, description: Some(description), command: Some(command) }],
    };
    assert(empty_config().bindings.push(
        BindingView { keys, description: Some(description), command: Some(command) },
    ) =~= expected.bindings);
}

/// Positional description and command.
proof fn lemma_keybind_form_positional_positional(keys: Seq<char>, description: Seq<char>, command: Seq<char>)
    ensures
        parse_spec(
            keybind_head(keys) + positional_text(description) + positional_text(command) + seq![')'],
        ) == single_binding(keys, description, command),
{
    lemma_words();
    law_keybind_argument_forms(description, command);
    let h = keybind_head(keys);
    let close = seq![')'];
    let e = empty_arguments();
    let pd = positional_text(description);
    let pc = positional_text(command);
    let s = h + pd + pc + close;
    lemma_text_at_middle(seq![], h, pd + pc + close);
    assert(seq![] + h + (pd + pc + close) =~= s);
    lemma_text_at_middle(h, pd, pc + close);
    assert(h + pd + (pc + close) =~= s);
    lemma_text_at_middle(h + pd, pc, close);
    lemma_positional_text(s, h.len() as int, e, description);
    let a1 = ArgumentsView { positional: e.positional.push(description), keyword: e.keyword };
    lemma_positional_text(s, (h.len() + pd.len()) as int, a1, command);
    let a2 = ArgumentsView { positional: a1.positional.push(command), keyword: a1.keyword };
    lemma_close(s, (h.len() + pd.len() + pc.len()) as int, a2);
    assert(a2 == arguments(seq![description, command], seq![])) by {
        assert(a2.positional =~= seq![description, command]);
        assert(a2.keyword =~= Seq::<(Seq<char>, Seq<char>)>::empty());
    }
    lemma_single_statement(s, keys, a2, description, command);
}

/// Positional description, command by keyword.
proof fn lemma_keybind_form_positional_keyword(keys: Seq<char>, description: Seq<char>, command: Seq<char>)
    ensures
        parse_spec(
            keybind_head(keys) + positional_text(description) + keyword_text(command_name(), command) + seq![')'],
        ) == single_binding(keys, description, command),
{
    lemma_words();
    law_keybind_argument_forms(description, command);
    let h = keybind_head(keys);
    let close = seq![')'];
    let e = empty_arguments();
    let pd = positional_text(description);
    let kc = keyword_text(command_name(), command);
    let s = h + pd + kc + close;
    lemma_text_at_middle(seq![], h, pd + kc + close);
    assert(seq![] + h + (pd + kc + close) =~= s);
    lemma_text_at_middle(h, pd, kc + close);
    assert(h + pd + (kc + close) =~= s);
    lemma_text_at_middle(h + pd, kc, close);
    lemma_positional_text(s, h.len() as int, e, description);
    let a1 = ArgumentsView { positional: e.positional.push(description), keyword: e.keyword };
    lemma_keyword_text(s, (h.len() + pd.len()) as int, a1, command_name(), command);
    let a2 = ArgumentsView {
        positional: a1.positional,
        keyword: a1.keyword.push((command_name(), command)),
    };
    lemma_close(s, (h.len() + pd.len() + kc.len()) as int, a2);
    assert(a2 == arguments(seq![description], seq![(command_name(), command)])) by {
        assert(a2.positional =~= seq![description]);
        assert(a2.keyword =~= seq![(command_name(), command)]);
    }
    lemma_single_statement(s, keys, a2, description, command);
}

/// Both by keyword, description first.
#[verifier::rlimit(40)]
proof fn lemma_keybind_form_keyword_keyword(keys: Seq<char>, description: Seq<char>, command: Seq<char>)
    ensures
        parse_spec(
            keybind_head(keys) + keyword_text(description_name(), description) + keyword_text(command_name(), command) + seq![')'],
        ) == single_binding(keys, description, command),
{
    lemma_words();
    law_keybind_argument_forms(description, command);
    let h = keybind_head(keys);
    let close = seq![')'];
    let e = empty_arguments();
    let kd = keyword_text(description_name(), description);
    let kc = keyword_text(command_name(), command);
    let s = h + kd + kc + close;
    lemma_text_at_middle(seq![], h, kd + kc + close);
    assert(seq![] + h + (kd + kc + close) =~= s);
    lemma_text_at_middle(h, kd, kc + close);
    assert(h + kd + (kc + close) =~= s);
    lemma_text_at_middle(h + kd, kc, close);
    lemma_keyword_text(s, h.len() as int, e, description_name(), description);
    let a1 = ArgumentsView {
        positional: e.positional,
        keyword: e.keyword.push((description_name(), description)),
    };
    assert(a1.keyword.drop_first() =~= Seq::<(Seq<char>, Seq<char>)>::empty());
    lemma_keyword_text(s, (h.len() + kd.len()) as int, a1, command_name(), command);
    let a2 = ArgumentsView {
        positional: a1.positional,
        keyword: a1.keyword.push((command_name(), command)),
    };
    lemma_close(s, (h.len() + kd.len() + kc.len()) as int, a2);
    assert(a2 == arguments(
        seq![],
        seq![(description_name(), description), (command_name(), command)],
    )) by {
        assert(a2.positional =~= Seq::<Seq<char>>::empty());
        assert(a2.keyword =~= seq![
            (description_name(), description),
            (command_name(), command),
        ]);
    }
    lemma_single_statement(s, keys, a2, description, command);
}

/// Both by keyword, command first.
proof fn lemma_keybind_form_keyword_keyword_reversed(keys: Seq<char>, description: Seq<char>, command: Seq<char>)
    ensures
        parse_spec(
            keybind_head(keys) + keyword_text(command_name(), command) + keyword_text(description_name(), description) + seq![')'],
        ) == single_binding(keys, description, command),
{
    lemma_words();
    law_keybind_argument_forms(description, command);
    let h = keybind_head(keys);
    let close = seq![')'];
    let e = empty_arguments();
    let kd = keyword_text(description_name(), description);
    let kc = keyword_text(command_name(), command);
    let s = h + kc + kd + close;
    lemma_text_at_middle(seq![], h, kc + kd + close);
    assert(seq![] + h + (kc + kd + close) =~= s);
    lemma_text_at_middle(h, kc, kd + close);
    assert(h + kc + (kd + close) =~= s);
    lemma_text_at_middle(h + kc, kd, close);
    lemma_keyword_text(s, h.len() as int, e, command_name(), command);
    let a1 = ArgumentsView {
        positional: e.positional,
        keyword: e.keyword.push((command_name(), command)),
    };
    assert(a1.keyword.drop_first() =~= Seq::<(Seq<char>, Seq<char>)>::empty());
    lemma_keyword_text(s, (h.len() + kc.len()) as int, a1, description_name(), description);
    let a2 = ArgumentsView {
        positional: a1.positional,
        keyword: a1.keyword.push((description_name(), description)),
    };
    lemma_close(s, (h.len() + kc.len() + kd.len()) as int, a2);
    assert(a2 == arguments(
        seq![],
        seq![(command_name(), command), (description_name(), description)],
    )) by {
        assert(a2.positional =~= Seq::<Seq<char>>::empty());
        assert(a2.keyword =~= seq![
            (command_name(), command),
            (description_name(), description),
        ]);
    }
    lemma_single_statement(s, keys, a2, description, command);
}

/// Description by keyword, positional command.
proof fn lemma_keybind_form_keyword_positional(keys: Seq<char>, description: Seq<char>, command: Seq<char>)
    ensures
        parse_spec(
            keybind_head(keys) + keyword_text(description_name(), description) + positional_text(command) + seq![')'],
        ) == single_binding(keys, description, command),
{
    lemma_words();
    law_keybind_argument_forms(description, command);
    let h = keybind_head(keys);
    let close = seq![')'];
    let e = empty_arguments();
    let pc = positional_text(command);
    let kd = keyword_text(description_name(), description);
    let s = h + kd + pc + close;
    lemma_text_at_middle(seq![], h, kd + pc + close);
    assert(seq![] + h + (kd + pc + close) =~= s);
    lemma_text_at_middle(h, kd, pc + close);
    assert(h + kd + (pc + close) =~= s);
    lemma_text_at_middle(h + kd, pc, close);
    lemma_keyword_text(s, h.len() as int, e, description_name(), description);
    let a1 = ArgumentsView {
        positional: e.positional,
        keyword: e.keyword.push((description_name(), description)),
    };
    lemma_positional_text(s, (h.len() + kd.len()) as int, a1, command);
    let a2 = ArgumentsView { positional: a1.positional.push(command), keyword: a1.keyword };
    lemma_close(s, (h.len() + kd.len() + pc.len()) as int, a2);
    assert(a2 == arguments(seq![command], seq![(description_name(), description)])) by {
        assert(a2.positional =~= seq![command]);
        assert(a2.keyword =~= seq![(description_name(), description)]);
    }
    lemma_single_statement(s, keys, a2, description, command);
}

/// Law: a keybind statement with quoted keys, description and command parses
/// to that one binding, whether its arguments are given by position, by
/// keyword in either order, or mixed.
pub proof fn law_keybind_statement_forms(keys: Seq<char>, description: Seq<char>, command: Seq<char>)
    ensures
        parse_spec(keybind_source(keys, description, command)) == single_binding(
            keys,
            description,
            command,
        ),
        parse_spec(
            keybind_head(keys) + positional_text(description) + keyword_text(command_name(), command)
                + seq![')'],
        ) == single_binding(keys, description, command),
        parse_spec(
            keybind_head(keys) + keyword_text(description_name(), description) + keyword_text(
                command_name(),
                command,
            ) + seq![')'],
        ) == single_binding(keys, description, command),
        parse_spec(
            keybind_head(keys) + keyword_text(command_name(), command) + keyword_text(
                description_name(),
                description,
            ) + seq![')'],
        ) == single_binding(keys, description, command),
        parse_spec(
            keybind_head(keys) + keyword_text(description_name(), description) + positional_text(
                command,
            ) + seq![')'],
        ) == single_binding(keys, description, command),
{
    lemma_keybind_form_positional_positional(keys, description, command);
    lemma_keybind_form_positional_keyword(keys, description, command);
    lemma_keybind_form_keyword_keyword(keys, description, command);
    lemma_keybind_form_keyword_keyword_reversed(keys, description, command);
    lemma_keybind_form_keyword_positional(keys, description, command);
}

// ---------------------------------------------------------------------------
// Whitespace and comments before a source.
// ---------------------------------------------------------------------------

/// A piece of whitespace and comments: one whitespace character, or a `#`
/// comment with its text, ended by a newline.
pub enum Trivia {
    Space(char),
    Comment(Seq<char>),
}

pub open spec fn trivia_piece_ok(piece: Trivia) -> bool {
    match piece {
        Trivia::Space(c) => is_whitespace_char(c),
        Trivia::Comment(text) => forall|i: int| 0 <= i < text.len() ==> #[trigger] text[i] != '\n',
    }
}

pub open spec fn trivia_piece_text(piece: Trivia) -> Seq<char> {
    match piece {
        Trivia::Space(c) => seq![c],
        Trivia::Comment(text) => seq!['#'] + text + seq!['\n'],
    }
}

/// The text of a run of whitespace and comments.
pub open spec fn trivia_text(pieces: Seq<Trivia>) -> Seq<char>
    decreases pieces.len(),
{
    if pieces.len() == 0 {
        seq![]
    } else {
        trivia_piece_text(pieces[0]) + trivia_text(pieces.drop_first())
    }
}

proof fn lemma_comment_run(s: Seq<char>, p: int, text: Seq<char>)
    requires
        text_at(s, p, text + seq!['\n']),
        forall|i: int| 0 <= i < text.len() ==> #[trigger] text[i] != '\n',
    ensures
        comment_end(s, p) == p + text.len(),
    decreases text.len(),
{
    lemma_text_at_char(s, p, text + seq!['\n'], 0);
    if text.len() > 0 {
        assert(text[0] != '\n');
        assert(seq![text[0]] + (text.drop_first() + seq!['\n']) =~= text + seq!['\n']);
        lemma_text_at_split(s, p, seq![text[0]], text.drop_first() + seq!['\n']);
        assert forall|i: int| 0 <= i < text.drop_first().len() implies #[trigger] text.drop_first()[i]
            != '\n' by {
            assert(text.drop_first()[i] == text[i + 1]);
        }
        lemma_comment_run(s, p + 1, text.drop_first());
    }
}

proof fn lemma_trivia_pieces(s: Seq<char>, p: int, pieces: Seq<Trivia>)
    requires
        text_at(s, p, trivia_text(pieces)),
        forall|i: int| 0 <= i < pieces.len() ==> trivia_piece_ok(#[trigger] pieces[i]),
    ensures
        trivia_end(s, p) == trivia_end(s, p + trivia_text(pieces).len()),
    decreases pieces.len(),
{
    if pieces.len() > 0 {
        let first = trivia_piece_text(pieces[0]);
        let rest = pieces.drop_first();
        assert(trivia_piece_ok(pieces[0]));
        assert forall|i: int| 0 <= i < rest.len() implies trivia_piece_ok(#[trigger] rest[i]) by {
            assert(rest[i] == pieces[i + 1]);
        }
        lemma_text_at_split(s, p, first, trivia_text(rest));
        lemma_trivia_pieces(s, p + first.len(), rest);
        lemma_text_at_char(s, p, first, 0);
        match pieces[0] {
            Trivia::Space(c) => {},
            Trivia::Comment(text) => {
                assert(seq!['#'] + (text + seq!['\n']) =~= first);
                lemma_text_at_split(s, p, seq!['#'], text + seq!['\n']);
                lemma_comment_run(s, p + 1, text);
                lemma_text_at_char(s, p + 1, text + seq!['\n'], text.len() as int);
                assert(s[p + 1 + text.len()] == '\n');
                assert(trivia_end(s, p + 1 + text.len()) == trivia_end(s, p + 2 + text.len()));
            },
        }
    }
}

/// A scan moved `n` characters to the right.
pub open spec fn shifted<T>(r: Scan<T>, n: int) -> Scan<T> {
    match r {
        Ok((v, q)) => Ok((v, q + n)),
        Err((problem, q)) => Err((problem, q + n)),
    }
}

proof fn lemma_shift_char(x: Seq<char>, s: Seq<char>, p: int)
    requires
        0 <= p,
    ensures
        char_at(x + s, p + x.len()) == char_at(s, p),
        p < s.len() ==> (x + s)[p + x.len()] == s[p],
{
}

proof fn lemma_shift_comment_end(x: Seq<char>, s: Seq<char>, p: int)
    requires
        0 <= p,
    ensures
        comment_end(x + s, p + x.len()) == comment_end(s, p) + x.len(),
    decreases s.len() - p,
{
    lemma_shift_char(x, s, p);
    if p < s.len() && s[p] != '\n' {
        lemma_shift_comment_end(x, s, p + 1);
    }
}

proof fn lemma_shift_trivia_end(x: Seq<char>, s: Seq<char>, p: int)
    requires
        0 <= p,
    ensures
        trivia_end(x + s, p + x.len()) == trivia_end(s, p) + x.len(),
    decreases s.len() - p,
{
    lemma_shift_char(x, s, p);
    if p < s.len() && is_whitespace_char(s[p]) {
        lemma_shift_trivia_end(x, s, p + 1);
    } else if p < s.len() && s[p] == '#' {
        lemma_shift_comment_end(x, s, p + 1);
        lemma_comment_end(s, p + 1);
        lemma_shift_trivia_end(x, s, comment_end(s, p + 1));
    }
}

proof fn lemma_shift_identifier_end(x: Seq<char>, s: Seq<char>, p: int)
    requires
        0 <= p,
    ensures
        identifier_end(x + s, p + x.len()) == identifier_end(s, p) + x.len(),
        x.len() + p <= x.len() + identifier_end(s, p) <= (x + s).len() || identifier_end(s, p) == p,
    decreases s.len() - p,
{
    lemma_shift_char(x, s, p);
    lemma_identifier_end(s, p);
    if p < s.len() && is_identifier_char(s[p]) {
        lemma_shift_identifier_end(x, s, p + 1);
    }
}

proof fn lemma_shift_string_rest(x: Seq<char>, s: Seq<char>, p: int, value: Seq<char>)
    requires
        0 <= p,
    ensures
        string_rest(x + s, p + x.len(), value) == shifted(string_rest(s, p, value), x.len() as int),
    decreases s.len() - p,
{
    lemma_shift_char(x, s, p);
    lemma_shift_char(x, s, p + 1);
    if p < s.len() && s[p] != '"' && s[p] != '\n' && s[p] != '\r' {
        if s[p] == '\\' {
            if p + 1 < s.len() {
                if let Some(c) = escaped_char(s[p + 1]) {
                    lemma_shift_string_rest(x, s, p + 2, value.push(c));
                }
            }
        } else {
            lemma_shift_string_rest(x, s, p + 1, value.push(s[p]));
        }
    }
}

proof fn lemma_shift_string_literal(x: Seq<char>, s: Seq<char>, p: int)
    requires
        0 <= p,
    ensures
        string_literal(x + s, p + x.len()) == shifted(string_literal(s, p), x.len() as int),
{
    lemma_shift_char(x, s, p);
    lemma_shift_string_rest(x, s, p + 1, seq![]);
}

proof fn lemma_shift_argument_list(x: Seq<char>, s: Seq<char>, p: int, args: ArgumentsView)
    requires
        0 <= p,
    ensures
        argument_list(x + s, p + x.len(), args) == shifted(argument_list(s, p, args), x.len() as int),
    decreases s.len() - p,
{
    let t = x + s;
    let n = x.len() as int;
    let p1 = trivia_end(s, p);
    lemma_trivia_end(s, p);
    lemma_shift_trivia_end(x, s, p);
    lemma_shift_char(x, s, p1);
    lemma_trivia_end(s, p1 + 1);
    lemma_shift_trivia_end(x, s, p1 + 1);
    let p2 = trivia_end(s, p1 + 1);
    lemma_shift_char(x, s, p2);
    let e = identifier_end(s, p2);
    lemma_identifier_end(s, p2);
    lemma_shift_identifier_end(x, s, p2);
    lemma_trivia_end(s, e);
    lemma_shift_trivia_end(x, s, e);
    let p3 = trivia_end(s, e);
    lemma_shift_char(x, s, p3);
    lemma_trivia_end(s, p3 + 1);
    lemma_shift_trivia_end(x, s, p3 + 1);
    let p4 = trivia_end(s, p3 + 1);
    lemma_shift_string_literal(x, s, p4);
    lemma_shift_string_literal(x, s, p2);
    lemma_string_literal(s, p4);
    lemma_string_literal(s, p2);
    if char_at(s, p1) == Some(',') && char_at(s, p2) != Some(')') {
        if char_at(s, p3) == Some(':') {
            if e != p2 {
                let name = s.subrange(p2, e);
                assert(t.subrange(p2 + n, e + n) =~= name);
                if let Ok((value, p5)) = string_literal(s, p4) {
                    if !(keyword_value(args.keyword, name) is Some) {
                        lemma_shift_argument_list(
                            x,
                            s,
                            p5,
                            ArgumentsView {
                                positional: args.positional,
                                keyword: args.keyword.push((name, value)),
                            },
                        );
                    }
                }
            }
        } else {
            if let Ok((value, p5)) = string_literal(s, p2) {
                lemma_shift_argument_list(
                    x,
                    s,
                    p5,
                    ArgumentsView { positional: args.positional.push(value), keyword: args.keyword },
                );
            }
        }
    }
}

/// The value of a successful result.
pub open spec fn success<T, E>(r: Result<T, E>) -> Option<T> {
    match r {
        Ok(v) => Some(v),
        Err(_) => None,
    }
}

#[verifier::rlimit(60)]
proof fn lemma_shift_statements(x: Seq<char>, s: Seq<char>, p: int, config: ConfigView)
    requires
        0 <= p,
    ensures
        success(statements(x + s, p + x.len(), config)) == success(statements(s, p, config)),
    decreases s.len() - p,
{
    let t = x + s;
    let n = x.len() as int;
    lemma_shift_char(x, s, p);
    if p < s.len() {
        let e = identifier_end(s, p);
        lemma_identifier_end(s, p);
        lemma_shift_identifier_end(x, s, p);
        lemma_trivia_end(s, e);
        lemma_shift_trivia_end(x, s, e);
        let q = trivia_end(s, e);
        lemma_shift_char(x, s, q);
        lemma_trivia_end(s, q + 1);
        lemma_shift_trivia_end(x, s, q + 1);
        let q2 = trivia_end(s, q + 1);
        lemma_shift_string_literal(x, s, q2);
        lemma_string_literal(s, q2);
        assert(t.subrange(p + n, e + n) =~= s.subrange(p, e));
        if e != p && char_at(s, q) == Some('(') {
            if let Ok((keys, q3)) = string_literal(s, q2) {
                lemma_shift_argument_list(x, s, q3, empty_arguments());
                lemma_argument_list(s, q3, empty_arguments());
                if let Ok((args, q4)) = argument_list(s, q3, empty_arguments()) {
                    lemma_trivia_end(s, q4);
                    lemma_shift_trivia_end(x, s, q4);
                    let name = s.subrange(p, e);
                    if name == "group"@ {
                        if let Ok(description) = group_arguments(args) {
                            lemma_shift_statements(
                                x,
                                s,
                                trivia_end(s, q4),
                                ConfigView {
                                    groups: config.groups.push(GroupView { keys, description }),
                                    bindings: config.bindings,
                                },
                            );
                        }
                    } else if name == "keybind"@ {
                        if let Ok((command, description)) = keybind_arguments_spec(args) {
                            lemma_shift_statements(
                                x,
                                s,
                                trivia_end(s, q4),
                                ConfigView {
                                    groups: config.groups,
                                    bindings: config.bindings.push(
                                        BindingView { keys, description, command: Some(command) },
                                    ),
                                },
                            );
                        }
                    }
                }
            }
        }
    }
}

/// Law: whitespace and comments before a source change nothing: with them,
/// the source parses to the same configuration, and fails where it failed.
/// A source made only of whitespace and comments is an empty configuration.
pub proof fn law_leading_trivia_is_ignored(pieces: Seq<Trivia>, source: Seq<char>)
    requires
        forall|i: int| 0 <= i < pieces.len() ==> trivia_piece_ok(#[trigger] pieces[i]),
    ensures
        success(parse_spec(trivia_text(pieces) + source)) == success(parse_spec(source)),
        parse_spec(trivia_text(pieces)) == Ok::<ConfigView, ParseErrorView>(empty_config()),
{
    let x = trivia_text(pieces);
    let t = x + source;
    lemma_text_at_middle(seq![], x, source);
    assert(seq![] + x + source =~= t);
    lemma_trivia_pieces(t, 0, pieces);
    lemma_shift_trivia_end(x, source, 0);
    lemma_trivia_end(source, 0);
    lemma_shift_statements(x, source, trivia_end(source, 0), empty_config());
    lemma_text_at_middle(seq![], x, seq![]);
    assert(seq![] + x + seq![] =~= x);
    lemma_trivia_pieces(x, 0, pieces);
}

// ---------------------------------------------------------------------------
// Whitespace and comments between the tokens of a statement.
// ---------------------------------------------------------------------------

pub open spec fn all_trivia_ok(pieces: Seq<Trivia>) -> bool {
    forall|i: int| 0 <= i < pieces.len() ==> trivia_piece_ok(#[trigger] pieces[i])
}

/// `t` is whitespace and comments that stand at `p` and are followed by `c`.
proof fn lemma_trivia_before(s: Seq<char>, p: int, t: Seq<Trivia>, c: char)
    requires
        text_at(s, p, trivia_text(t) + seq![c]),
        all_trivia_ok(t),
        !is_whitespace_char(c),
        c != '#',
    ensures
        trivia_end(s, p) == p + trivia_text(t).len(),
        s[p + trivia_text(t).len()] == c,
{
    lemma_text_at_split(s, p, trivia_text(t), seq![c]);
    lemma_trivia_pieces(s, p, t);
    lemma_text_at_char(s, p + trivia_text(t).len(), seq![c], 0);
}

/// `t1 , t2 "value"`: a positional argument with whitespace and comments
/// around its comma.
pub open spec fn spaced_positional(t1: Seq<Trivia>, t2: Seq<Trivia>, v: Seq<char>) -> Seq<char> {
    trivia_text(t1) + seq![','] + trivia_text(t2) + quoted_text(v)
}

/// The name that starts a statement.
pub open spec fn statement_word(statement: Statement) -> Seq<char> {
    match statement {
        Statement::Group => seq!['g', 'r', 'o', 'u', 'p'],
        Statement::Keybind => keybind_word(),
    }
}

/// `keybind t1 ( t2 "keys"` (or `group ...`): the start of a statement with
/// whitespace and comments between its tokens.
pub open spec fn spaced_head(
    statement: Statement,
    keys: Seq<char>,
    t1: Seq<Trivia>,
    t2: Seq<Trivia>,
) -> Seq<char> {
    statement_word(statement) + trivia_text(t1) + seq!['('] + trivia_text(t2) + quoted_text(keys)
}

/// `t7 )`, or `t7 , t8 )` with a trailing comma: the end of a statement.
pub open spec fn spaced_end(t7: Seq<Trivia>, t8: Seq<Trivia>, trailing_comma: bool) -> Seq<char> {
    if trailing_comma {
        trivia_text(t7) + seq![','] + trivia_text(t8) + seq![')']
    } else {
        trivia_text(t7) + seq![')']
    }
}

proof fn lemma_spaced_positional(
    s: Seq<char>,
    p: int,
    args: ArgumentsView,
    t1: Seq<Trivia>,
    t2: Seq<Trivia>,
    v: Seq<char>,
)
    requires
        text_at(s, p, spaced_positional(t1, t2, v)),
        all_trivia_ok(t1),
        all_trivia_ok(t2),
    ensures
        argument_list(s, p, args) == argument_list(
            s,
            p + spaced_positional(t1, t2, v).len(),
            ArgumentsView { positional: args.positional.push(v), keyword: args.keyword },
        ),
{
    let x1 = trivia_text(t1);
    let x2 = trivia_text(t2);
    let q = quoted_text(v);
    let n1 = x1.len() as int;
    let n2 = x2.len() as int;
    assert(spaced_positional(t1, t2, v) =~= (x1 + seq![',']) + (x2 + seq!['"']) + (q.drop_first()));
    lemma_text_at_split(s, p, (x1 + seq![',']) + (x2 + seq!['"']), q.drop_first());
    lemma_text_at_split(s, p, x1 + seq![','], x2 + seq!['"']);
    lemma_trivia_before(s, p, t1, ',');
    lemma_trivia_before(s, p + n1 + 1, t2, '"');
    assert(spaced_positional(t1, t2, v) =~= (x1 + seq![','] + x2) + q);
    lemma_text_at_split(s, p, x1 + seq![','] + x2, q);
    law_string_round_trip(s, p + n1 + 1 + n2, v, seq![]);
    assert(identifier_end(s, p + n1 + 1 + n2) == p + n1 + 1 + n2);
    assert(trivia_end(s, p + n1 + 1 + n2) == p + n1 + 1 + n2);
}

proof fn lemma_spaced_end(
    s: Seq<char>,
    p: int,
    args: ArgumentsView,
    t7: Seq<Trivia>,
    t8: Seq<Trivia>,
    trailing_comma: bool,
)
    requires
        text_at(s, p, spaced_end(t7, t8, trailing_comma)),
        all_trivia_ok(t7),
        all_trivia_ok(t8),
    ensures
        argument_list(s, p, args) == Ok::<(ArgumentsView, int), (SyntaxProblem<Seq<char>>, int)>(
            (args, p + spaced_end(t7, t8, trailing_comma).len()),
        ),
{
    if trailing_comma {
        let x7 = trivia_text(t7);
        let x8 = trivia_text(t8);
        assert(spaced_end(t7, t8, true) =~= (x7 + seq![',']) + (x8 + seq![')']));
        lemma_text_at_split(s, p, x7 + seq![','], x8 + seq![')']);
        lemma_trivia_before(s, p, t7, ',');
        lemma_trivia_before(s, p + x7.len() + 1, t8, ')');
    } else {
        lemma_trivia_before(s, p, t7, ')');
    }
}

/// `t1 , t2 name t3 : t4 "value"`: a keyword argument with whitespace and
/// comments around its tokens.
pub open spec fn spaced_keyword(
    t1: Seq<Trivia>,
    t2: Seq<Trivia>,
    name: Seq<char>,
    t3: Seq<Trivia>,
    t4: Seq<Trivia>,
    v: Seq<char>,
) -> Seq<char> {
    trivia_text(t1) + seq![','] + trivia_text(t2) + name + trivia_text(t3) + seq![':'] + trivia_text(
        t4,
    ) + quoted_text(v)
}

proof fn lemma_spaced_keyword(
    s: Seq<char>,
    p: int,
    args: ArgumentsView,
    t1: Seq<Trivia>,
    t2: Seq<Trivia>,
    name: Seq<char>,
    t3: Seq<Trivia>,
    t4: Seq<Trivia>,
    v: Seq<char>,
)
    requires
        text_at(s, p, spaced_keyword(t1, t2, name, t3, t4, v)),
        all_trivia_ok(t1),
        all_trivia_ok(t2),
        all_trivia_ok(t3),
        all_trivia_ok(t4),
        is_identifier_text(name),
        keyword_value(args.keyword, name) is None,
    ensures
        argument_list(s, p, args) == argument_list(
            s,
            p + spaced_keyword(t1, t2, name, t3, t4, v).len(),
            ArgumentsView { positional: args.positional, keyword: args.keyword.push((name, v)) },
        ),
{
    let x1 = trivia_text(t1);
    let x2 = trivia_text(t2);
    let x3 = trivia_text(t3);
    let x4 = trivia_text(t4);
    let q = quoted_text(v);
    let n1 = x1.len() as int;
    let n2 = x2.len() as int;
    let nn = name.len() as int;
    let n3 = x3.len() as int;
    let n4 = x4.len() as int;
    let at_name = p + n1 + 1 + n2;
    let at_colon = at_name + nn + n3;
    let at_value = at_colon + 1 + n4;
    assert(spaced_keyword(t1, t2, name, t3, t4, v) =~= (x1 + seq![',']) + (x2 + seq![name[0]]) + (
    name.drop_first() + (x3 + seq![':'])) + (x4 + seq!['"']) + q.drop_first());
    lemma_text_at_split(
        s,
        p,
        (x1 + seq![',']) + (x2 + seq![name[0]]) + (name.drop_first() + (x3 + seq![':'])) + (x4
            + seq!['"']),
        q.drop_first(),
    );
    lemma_text_at_split(
        s,
        p,
        (x1 + seq![',']) + (x2 + seq![name[0]]) + (name.drop_first() + (x3 + seq![':'])),
        x4 + seq!['"'],
    );
    lemma_text_at_split(
        s,
        p,
        (x1 + seq![',']) + (x2 + seq![name[0]]),
        name.drop_first() + (x3 + seq![':']),
    );
    lemma_text_at_split(s, p, x1 + seq![','], x2 + seq![name[0]]);
    lemma_trivia_before(s, p, t1, ',');
    assert(is_identifier_char(name[0]));
    lemma_trivia_before(s, p + n1 + 1, t2, name[0]);
    lemma_text_at_split(s, at_name + 1, name.drop_first(), x3 + seq![':']);
    lemma_trivia_before(s, at_name + nn, t3, ':');
    lemma_trivia_before(s, at_colon + 1, t4, '"');
    assert(spaced_keyword(t1, t2, name, t3, t4, v) =~= (x1 + seq![','] + x2) + name + (x3 + seq![':']
        + x4) + q);
    lemma_text_at_split(s, p, (x1 + seq![','] + x2) + name + (x3 + seq![':'] + x4), q);
    lemma_text_at_split(s, p, (x1 + seq![','] + x2) + name, x3 + seq![':'] + x4);
    lemma_text_at_split(s, p, x1 + seq![','] + x2, name);
    assert forall|i: int| at_name <= i < at_name + nn implies is_identifier_char(#[trigger] s[i]) by {
        lemma_text_at_char(s, at_name, name, i - at_name);
    }
    if n3 > 0 {
        let first = trivia_piece_text(t3[0]);
        assert(trivia_piece_ok(t3[0]));
        lemma_text_at_split(s, at_name + nn, x3, seq![':']);
        assert(x3 == first + trivia_text(t3.drop_first()));
        lemma_text_at_split(s, at_name + nn, first, trivia_text(t3.drop_first()));
        lemma_text_at_char(s, at_name + nn, first, 0);
    }
    assert(!is_identifier_char(s[at_name + nn]));
    lemma_identifier_run(s, at_name, at_name + nn);
    assert(s.subrange(at_name, at_name + nn) == name);
    law_string_round_trip(s, at_value, v, seq![]);
    assert(trivia_end(s, p) == p + n1);
    assert(trivia_end(s, p + n1 + 1) == at_name);
    assert(trivia_end(s, at_name + nn) == at_colon);
    assert(trivia_end(s, at_colon + 1) == at_value);
    assert(spaced_keyword(t1, t2, name, t3, t4, v).len() == at_value - p + q.len());
}

/// An argument with whitespace and comments around its tokens.
pub enum SpacedArgument {
    Positional(Seq<Trivia>, Seq<Trivia>, Seq<char>),
    Keyword(Seq<Trivia>, Seq<Trivia>, Seq<char>, Seq<Trivia>, Seq<Trivia>, Seq<char>),
}

pub open spec fn spaced_argument_text(a: SpacedArgument) -> Seq<char> {
    match a {
        SpacedArgument::Positional(t1, t2, v) => spaced_positional(t1, t2, v),
        SpacedArgument::Keyword(t1, t2, name, t3, t4, v) => spaced_keyword(t1, t2, name, t3, t4, v),
    }
}

pub open spec fn spaced_arguments_text(list: Seq<SpacedArgument>) -> Seq<char>
    decreases list.len(),
{
    if list.len() == 0 {
        seq![]
    } else {
        spaced_argument_text(list[0]) + spaced_arguments_text(list.drop_first())
    }
}

/// The arguments after `args` once `list` is read.
pub open spec fn collected(args: ArgumentsView, list: Seq<SpacedArgument>) -> ArgumentsView
    decreases list.len(),
{
    if list.len() == 0 {
        args
    } else {
        let next = match list[0] {
            SpacedArgument::Positional(_, _, v) => ArgumentsView {
                positional: args.positional.push(v),
                keyword: args.keyword,
            },
            SpacedArgument::Keyword(_, _, name, _, _, v) => ArgumentsView {
                positional: args.positional,
                keyword: args.keyword.push((name, v)),
            },
        };
        collected(next, list.drop_first())
    }
}

/// Every argument of `list` is well written after `args`: its whitespace and
/// comments are such, its name is an identifier, and no name comes twice.
pub open spec fn spaced_arguments_ok(args: ArgumentsView, list: Seq<SpacedArgument>) -> bool
    decreases list.len(),
{
    list.len() == 0 || ({
        let (ok, next) = match list[0] {
            SpacedArgument::Positional(t1, t2, v) => (
                all_trivia_ok(t1) && all_trivia_ok(t2),
                ArgumentsView { positional: args.positional.push(v), keyword: args.keyword },
            ),
            SpacedArgument::Keyword(t1, t2, name, t3, t4, v) => (
                all_trivia_ok(t1) && all_trivia_ok(t2) && all_trivia_ok(t3) && all_trivia_ok(t4)
                    && is_identifier_text(name) && keyword_value(args.keyword, name) is None,
                ArgumentsView { positional: args.positional, keyword: args.keyword.push((name, v)) },
            ),
        };
        ok && spaced_arguments_ok(next, list.drop_first())
    })
}

proof fn lemma_spaced_arguments(s: Seq<char>, p: int, args: ArgumentsView, list: Seq<SpacedArgument>)
    requires
        text_at(s, p, spaced_arguments_text(list)),
        spaced_arguments_ok(args, list),
    ensures
        argument_list(s, p, args) == argument_list(
            s,
            p + spaced_arguments_text(list).len(),
            collected(args, list),
        ),
    decreases list.len(),
{
    if list.len() > 0 {
        let first = spaced_argument_text(list[0]);
        let rest = list.drop_first();
        lemma_text_at_split(s, p, first, spaced_arguments_text(rest));
        match list[0] {
            SpacedArgument::Positional(t1, t2, v) => {
                lemma_spaced_positional(s, p, args, t1, t2, v);
                lemma_spaced_arguments(
                    s,
                    p + first.len(),
                    ArgumentsView { positional: args.positional.push(v), keyword: args.keyword },
                    rest,
                );
            },
            SpacedArgument::Keyword(t1, t2, name, t3, t4, v) => {
                lemma_spaced_keyword(s, p, args, t1, t2, name, t3, t4, v);
                lemma_spaced_arguments(
                    s,
                    p + first.len(),
                    ArgumentsView { positional: args.positional, keyword: args.keyword.push((name, v)) },
                    rest,
                );
            },
        }
    } else {
        assert(p + spaced_arguments_text(list).len() == p);
    }
}

proof fn lemma_statement_words(statement: Statement)
    ensures
        is_identifier_text(statement_word(statement)),
        statement == Statement::Group ==> statement_word(statement) == "group"@,
        statement == Statement::Keybind ==> statement_word(statement) == "keybind"@,
        statement == Statement::Keybind ==> statement_word(statement) != "group"@,
{
    lemma_words();
    reveal_strlit("group");
    assert(seq!['g', 'r', 'o', 'u', 'p'] =~= "group"@);
    let g = seq!['g', 'r', 'o', 'u', 'p'];
    assert forall|i: int| 0 <= i < g.len() implies is_identifier_char(#[trigger] g[i]) by {
        assert(0 <= i < 5);
    }
}

/// What one statement gives on its own: a configuration of its group or
/// binding, or the problem with its arguments.
pub open spec fn statement_outcome(statement: Statement, keys: Seq<char>, args: ArgumentsView) -> Result<
    ConfigView,
    ArgumentProblem<Seq<char>>,
> {
    match statement {
        Statement::Group => match group_arguments(args) {
            Ok(description) => Ok(
                ConfigView { groups: seq![GroupView { keys, description }], bindings: seq![] },
            ),
            Err(reason) => Err(reason),
        },
        Statement::Keybind => match keybind_arguments_spec(args) {
            Ok((command, description)) => Ok(
                ConfigView {
                    groups: seq![],
                    bindings: seq![BindingView { keys, description, command: Some(command) }],
                },
            ),
            Err(reason) => Err(reason),
        },
    }
}

/// A statement written at `p`, whose arguments end at `q4`: the statements
/// from `p` go on after it with what it gives, or fail with its problem on
/// its line.
proof fn lemma_spaced_statement_at(
    s: Seq<char>,
    p: int,
    config: ConfigView,
    statement: Statement,
    keys: Seq<char>,
    t1: Seq<Trivia>,
    t2: Seq<Trivia>,
    args: ArgumentsView,
    q4: int,
)
    requires
        text_at(s, p, spaced_head(statement, keys, t1, t2)),
        all_trivia_ok(t1),
        all_trivia_ok(t2),
        argument_list(s, p + spaced_head(statement, keys, t1, t2).len(), empty_arguments())
            == Ok::<(ArgumentsView, int), (SyntaxProblem<Seq<char>>, int)>((args, q4)),
    ensures
        statements(s, p, config) == match statement_outcome(statement, keys, args) {
            Ok(one) => statements(s, trivia_end(s, q4), joined(config, one)),
            Err(reason) => Err(ParseFailure::Argument { line: capped(line_at(s, p)), reason }),
        },
{
    lemma_statement_words(statement);
    let w = statement_word(statement);
    let wl = w.len() as int;
    let x1 = trivia_text(t1);
    let x2 = trivia_text(t2);
    let n1 = x1.len() as int;
    let n2 = x2.len() as int;
    let q = quoted_text(keys);
    let h = spaced_head(statement, keys, t1, t2);
    assert(h =~= w + (x1 + seq!['(']) + (x2 + seq!['"']) + q.drop_first());
    lemma_text_at_split(s, p, w + (x1 + seq!['(']) + (x2 + seq!['"']), q.drop_first());
    lemma_text_at_split(s, p, w + (x1 + seq!['(']), x2 + seq!['"']);
    lemma_text_at_split(s, p, w, x1 + seq!['(']);
    lemma_trivia_before(s, p + wl, t1, '(');
    lemma_trivia_before(s, p + wl + 1 + n1, t2, '"');
    assert(h =~= (w + x1 + seq!['('] + x2) + q);
    lemma_text_at_split(s, p, w + x1 + seq!['('] + x2, q);
    law_string_round_trip(s, p + wl + 1 + n1 + n2, keys, seq![]);
    lemma_text_at_char(s, p, w, 0);
    assert forall|i: int| p <= i < p + wl implies is_identifier_char(#[trigger] s[i]) by {
        lemma_text_at_char(s, p, w, i - p);
    }
    if n1 > 0 {
        assert(t1.len() > 0);
        let first = trivia_piece_text(t1[0]);
        assert(trivia_piece_ok(t1[0]));
        lemma_text_at_split(s, p + wl, x1, seq!['(']);
        assert(x1 == first + trivia_text(t1.drop_first()));
        lemma_text_at_split(s, p + wl, first, trivia_text(t1.drop_first()));
        lemma_text_at_char(s, p + wl, first, 0);
    }
    assert(!is_identifier_char(s[p + wl]));
    lemma_identifier_run(s, p, p + wl);
    assert(s.subrange(p, p + wl) == w);
    assert(identifier_end(s, p) == p + wl);
    assert(trivia_end(s, p + wl) == p + wl + n1);
    assert(s[p + wl + n1] == '(');
    assert(trivia_end(s, p + wl + 1 + n1) == p + wl + 1 + n1 + n2);
    assert(h.len() == wl + 1 + n1 + n2 + q.len());
    assert(string_literal(s, p + wl + 1 + n1 + n2) == Ok::<
        (Seq<char>, int),
        (SyntaxProblem<Seq<char>>, int),
    >((keys, p + h.len())));
    if statement == Statement::Keybind {
        if let Ok((command, description)) = keybind_arguments_spec(args) {
            let one = ConfigView {
                groups: seq![],
                bindings: seq![BindingView { keys, description, command: Some(command) }],
            };
            let next = ConfigView {
                groups: config.groups,
                bindings: config.bindings.push(BindingView { keys, description, command: Some(command) }),
            };
            assert(joined(config, one).groups =~= next.groups);
            assert(joined(config, one).bindings =~= next.bindings);
            assert(statements(s, p, config) == statements(s, trivia_end(s, q4), next));
        }
    } else {
        if let Ok(description) = group_arguments(args) {
            let one = ConfigView {
                groups: seq![GroupView { keys, description }],
                bindings: seq![],
            };
            let next = ConfigView {
                groups: config.groups.push(GroupView { keys, description }),
                bindings: config.bindings,
            };
            assert(joined(config, one).groups =~= next.groups);
            assert(joined(config, one).bindings =~= next.bindings);
            assert(statements(s, p, config) == statements(s, trivia_end(s, q4), next));
        }
    }
}

proof fn lemma_spaced_statement(
    s: Seq<char>,
    statement: Statement,
    keys: Seq<char>,
    t1: Seq<Trivia>,
    t2: Seq<Trivia>,
    args: ArgumentsView,
)
    requires
        text_at(s, 0, spaced_head(statement, keys, t1, t2)),
        all_trivia_ok(t1),
        all_trivia_ok(t2),
        argument_list(s, spaced_head(statement, keys, t1, t2).len() as int, empty_arguments())
            == Ok::<(ArgumentsView, int), (SyntaxProblem<Seq<char>>, int)>((args, s.len() as int)),
    ensures
        parse_spec(s) == statement_result(statement, keys, args),
{
    lemma_spaced_statement_at(s, 0, empty_config(), statement, keys, t1, t2, args, s.len() as int);
    lemma_statement_words(statement);
    lemma_text_at_char(s, 0, spaced_head(statement, keys, t1, t2), 0);
    assert(trivia_end(s, 0) == 0);
    assert(trivia_end(s, s.len() as int) == s.len());
    assert(s.take(0) =~= Seq::<char>::empty());
    assert(line_at(s, 0) == 1);
    if let Ok(one) = statement_outcome(statement, keys, args) {
        assert(joined(empty_config(), one).groups =~= one.groups);
        assert(joined(empty_config(), one).bindings =~= one.bindings);
    }
}

/// What a statement on the first line gives, from its keys and arguments.
pub open spec fn statement_result(statement: Statement, keys: Seq<char>, args: ArgumentsView) -> Result<
    ConfigView,
    ParseErrorView,
> {
    match statement_outcome(statement, keys, args) {
        Ok(one) => Ok(one),
        Err(reason) => Err(ParseFailure::Argument { line: 1, reason }),
    }
}

/// Law: whitespace and comments between the tokens of a statement change
/// nothing. `keybind ( "keys" , ... )` or `group ( "keys" , ... )`, with any
/// of them around each token, with its arguments by position or by keyword in
/// any order, and with or without a trailing comma, gives what its arguments
/// give, as `keybind_arguments_spec` or `group_arguments` reads them.
pub proof fn law_trivia_between_tokens(
    statement: Statement,
    keys: Seq<char>,
    t1: Seq<Trivia>,
    t2: Seq<Trivia>,
    list: Seq<SpacedArgument>,
    t7: Seq<Trivia>,
    t8: Seq<Trivia>,
    trailing_comma: bool,
)
    requires
        all_trivia_ok(t1),
        all_trivia_ok(t2),
        all_trivia_ok(t7),
        all_trivia_ok(t8),
        spaced_arguments_ok(empty_arguments(), list),
    ensures
        parse_spec(
            spaced_head(statement, keys, t1, t2) + spaced_arguments_text(list) + spaced_end(
                t7,
                t8,
                trailing_comma,
            ),
        ) == statement_result(statement, keys, collected(empty_arguments(), list)),
{
    let h = spaced_head(statement, keys, t1, t2);
    let rest = spaced_arguments_text(list) + spaced_end(t7, t8, trailing_comma);
    let s = h + rest;
    assert(s =~= h + spaced_arguments_text(list) + spaced_end(t7, t8, trailing_comma));
    lemma_text_at_middle(seq![], h, rest);
    assert(seq![] + h + rest =~= s);
    lemma_text_at_middle(h, rest, seq![]);
    assert(h + rest + seq![] =~= s);
    lemma_text_at_split(s, h.len() as int, spaced_arguments_text(list), spaced_end(t7, t8, trailing_comma));
    lemma_spaced_arguments(s, h.len() as int, empty_arguments(), list);
    let n = (h.len() + spaced_arguments_text(list).len()) as int;
    lemma_spaced_end(s, n, collected(empty_arguments(), list), t7, t8, trailing_comma);
    lemma_spaced_statement(s, statement, keys, t1, t2, collected(empty_arguments(), list));
}

// ---------------------------------------------------------------------------
// Sources of many statements.
// ---------------------------------------------------------------------------

/// A statement as written: its kind, keys and arguments, with whitespace and
/// comments around every token, and the whitespace and comments after it.
pub struct SpacedStatement {
    pub statement: Statement,
    pub keys: Seq<char>,
    pub t1: Seq<Trivia>,
    pub t2: Seq<Trivia>,
    pub arguments: Seq<SpacedArgument>,
    pub t7: Seq<Trivia>,
    pub t8: Seq<Trivia>,
    pub trailing_comma: bool,
    pub after: Seq<Trivia>,
}

/// The text of one statement, without what follows it.
pub open spec fn spaced_statement_text(st: SpacedStatement) -> Seq<char> {
    spaced_head(st.statement, st.keys, st.t1, st.t2) + spaced_arguments_text(st.arguments)
        + spaced_end(st.t7, st.t8, st.trailing_comma)
}

/// The statement is well written and its arguments are accepted.
pub open spec fn spaced_statement_ok(st: SpacedStatement) -> bool {
    &&& all_trivia_ok(st.t1)
    &&& all_trivia_ok(st.t2)
    &&& all_trivia_ok(st.t7)
    &&& all_trivia_ok(st.t8)
    &&& all_trivia_ok(st.after)
    &&& spaced_arguments_ok(empty_arguments(), st.arguments)
    &&& statement_outcome(st.statement, st.keys, collected(empty_arguments(), st.arguments)) is Ok
}

/// The statements one after the other, each followed by its whitespace and
/// comments.
pub open spec fn spaced_statements_text(list: Seq<SpacedStatement>) -> Seq<char>
    decreases list.len(),
{
    if list.len() == 0 {
        seq![]
    } else {
        spaced_statement_text(list[0]) + trivia_text(list[0].after) + spaced_statements_text(
            list.drop_first(),
        )
    }
}

/// The configuration that the statements give, in their order.
pub open spec fn spaced_statements_config(list: Seq<SpacedStatement>) -> ConfigView
    decreases list.len(),
{
    if list.len() == 0 {
        empty_config()
    } else {
        joined(
            statement_outcome(
                list[0].statement,
                list[0].keys,
                collected(empty_arguments(), list[0].arguments),
            )->Ok_0,
            spaced_statements_config(list.drop_first()),
        )
    }
}

proof fn lemma_spaced_statements(
    s: Seq<char>,
    p: int,
    config: ConfigView,
    list: Seq<SpacedStatement>,
)
    requires
        text_at(s, p, spaced_statements_text(list)),
        p + spaced_statements_text(list).len() == s.len(),
        forall|i: int| 0 <= i < list.len() ==> spaced_statement_ok(#[trigger] list[i]),
    ensures
        statements(s, p, config) == Ok::<ConfigView, ParseErrorView>(
            joined(config, spaced_statements_config(list)),
        ),
        list.len() > 0 ==> !is_whitespace_char(s[p]) && s[p] != '#',
    decreases list.len(),
{
    if list.len() == 0 {
        assert(joined(config, empty_config()).groups =~= config.groups);
        assert(joined(config, empty_config()).bindings =~= config.bindings);
    } else {
        let st = list[0];
        let rest = list.drop_first();
        assert(spaced_statement_ok(st));
        assert forall|i: int| 0 <= i < rest.len() implies spaced_statement_ok(#[trigger] rest[i]) by {
            assert(rest[i] == list[i + 1]);
        }
        let h = spaced_head(st.statement, st.keys, st.t1, st.t2);
        let a = spaced_arguments_text(st.arguments);
        let e = spaced_end(st.t7, st.t8, st.trailing_comma);
        let x = trivia_text(st.after);
        let r = spaced_statements_text(rest);
        assert(spaced_statements_text(list) =~= h + a + e + x + r);
        lemma_text_at_split(s, p, h + a + e + x, r);
        lemma_text_at_split(s, p, h + a + e, x);
        lemma_text_at_split(s, p, h + a, e);
        lemma_text_at_split(s, p, h, a);
        let args = collected(empty_arguments(), st.arguments);
        lemma_spaced_arguments(s, p + h.len(), empty_arguments(), st.arguments);
        lemma_spaced_end(s, p + h.len() + a.len(), args, st.t7, st.t8, st.trailing_comma);
        let q4 = p + h.len() + a.len() + e.len();
        lemma_spaced_statement_at(s, p, config, st.statement, st.keys, st.t1, st.t2, args, q4);
        let one = statement_outcome(st.statement, st.keys, args)->Ok_0;
        lemma_trivia_pieces(s, q4, st.after);
        let next = q4 + x.len();
        lemma_spaced_statements(s, next, joined(config, one), rest);
        if rest.len() == 0 {
            assert(next == s.len());
        }
        assert(trivia_end(s, next) == next);
        lemma_statement_words(st.statement);
        lemma_text_at_char(s, p, h, 0);
        assert(h[0] == statement_word(st.statement)[0]);
        let j1 = joined(joined(config, one), spaced_statements_config(rest));
        let j2 = joined(config, spaced_statements_config(list));
        assert(j1.groups =~= j2.groups);
        assert(j1.bindings =~= j2.bindings);
    }
}

/// Law: a source of statements parses to their configurations one after the
/// other, groups and bindings each in source order, one entry per statement,
/// with nothing merged or dropped. Each statement may be a group or a
/// keybind with its arguments in any accepted form, and whitespace and
/// comments may stand before the first statement, between any two tokens of
/// every statement, and between and after the statements.
pub proof fn law_statements_in_order(lead: Seq<Trivia>, list: Seq<SpacedStatement>)
    requires
        all_trivia_ok(lead),
        forall|i: int| 0 <= i < list.len() ==> spaced_statement_ok(#[trigger] list[i]),
    ensures
        parse_spec(trivia_text(lead) + spaced_statements_text(list)) == Ok::<
            ConfigView,
            ParseErrorView,
        >(spaced_statements_config(list)),
{
    let x = trivia_text(lead);
    let s = x + spaced_statements_text(list);
    lemma_text_at_middle(seq![], x, spaced_statements_text(list));
    assert(seq![] + x + spaced_statements_text(list) =~= s);
    lemma_text_at_middle(x, spaced_statements_text(list), seq![]);
    assert(x + spaced_statements_text(list) + seq![] =~= s);
    lemma_trivia_pieces(s, 0, lead);
    lemma_spaced_statements(s, x.len() as int, empty_config(), list);
    assert(trivia_end(s, x.len() as int) == x.len());
    let c = spaced_statements_config(list);
    assert(joined(empty_config(), c).groups =~= c.groups);
    assert(joined(empty_config(), c).bindings =~= c.bindings);
}

/// The two lists hold the same statements, with the same keys and the same
/// argument values, however their whitespace and comments differ.
pub open spec fn same_statements(a: Seq<SpacedStatement>, b: Seq<SpacedStatement>) -> bool {
    &&& a.len() == b.len()
    &&& forall|i: int|
        0 <= i < a.len() ==> {
            &&& (#[trigger] a[i]).statement == b[i].statement
            &&& a[i].keys == b[i].keys
            &&& collected(empty_arguments(), a[i].arguments) == collected(
                empty_arguments(),
                b[i].arguments,
            )
        }
}

proof fn lemma_same_statements_config(a: Seq<SpacedStatement>, b: Seq<SpacedStatement>)
    requires
        same_statements(a, b),
    ensures
        spaced_statements_config(a) == spaced_statements_config(b),
    decreases a.len(),
{
    if a.len() > 0 {
        assert(same_statements(a.drop_first(), b.drop_first())) by {
            assert forall|i: int| 0 <= i < a.drop_first().len() implies {
                &&& (#[trigger] a.drop_first()[i]).statement == b.drop_first()[i].statement
                &&& a.drop_first()[i].keys == b.drop_first()[i].keys
                &&& collected(empty_arguments(), a.drop_first()[i].arguments) == collected(
                    empty_arguments(),
                    b.drop_first()[i].arguments,
                )
            } by {
                assert(a.drop_first()[i] == a[i + 1]);
                assert(b.drop_first()[i] == b[i + 1]);
            }
        }
        lemma_same_statements_config(a.drop_first(), b.drop_first());
        assert(a[0].statement == b[0].statement);
    }
}

/// Law: whitespace and comments change nothing anywhere in a source: two
/// sources that hold the same statements, with the same keys and argument
/// values, parse to the same configuration, whatever whitespace and comments
/// stand before, between and inside their statements.
pub proof fn law_trivia_changes_nothing(
    lead: Seq<Trivia>,
    list: Seq<SpacedStatement>,
    other_lead: Seq<Trivia>,
    other: Seq<SpacedStatement>,
)
    requires
        all_trivia_ok(lead),
        all_trivia_ok(other_lead),
        forall|i: int| 0 <= i < list.len() ==> spaced_statement_ok(#[trigger] list[i]),
        forall|i: int| 0 <= i < other.len() ==> spaced_statement_ok(#[trigger] other[i]),
        same_statements(list, other),
    ensures
        parse_spec(trivia_text(lead) + spaced_statements_text(list)) == parse_spec(
            trivia_text(other_lead) + spaced_statements_text(other),
        ),
{
    law_statements_in_order(lead, list);
    law_statements_in_order(other_lead, other);
    lemma_same_statements_config(list, other);
}

/// The statement followed by the given whitespace and comments.
pub open spec fn followed_by(st: SpacedStatement, after: Seq<Trivia>) -> SpacedStatement {
    SpacedStatement {
        statement: st.statement,
        keys: st.keys,
        t1: st.t1,
        t2: st.t2,
        arguments: st.arguments,
        t7: st.t7,
        t8: st.t8,
        trailing_comma: st.trailing_comma,
        after,
    }
}

/// What a statement gives on its own, when it is accepted.
pub open spec fn spaced_statement_config(st: SpacedStatement) -> ConfigView {
    statement_outcome(st.statement, st.keys, collected(empty_arguments(), st.arguments))->Ok_0
}

#[verifier::spinoff_prover]
#[verifier::rlimit(50)]
proof fn lemma_two_statements(
    first: SpacedStatement,
    second: SpacedStatement,
    after: Seq<Trivia>,
    separator: Seq<char>,
)
    requires
        spaced_statement_ok(first),
        spaced_statement_ok(second),
        all_trivia_ok(after),
        trivia_text(after) == separator,
    ensures
        parse_spec(spaced_statement_text(first) + separator + spaced_statement_text(second))
            == Ok::<ConfigView, ParseErrorView>(
            joined(spaced_statement_config(first), spaced_statement_config(second)),
        ),
{
    let none = Seq::<Trivia>::empty();
    let a = followed_by(first, after);
    let b = followed_by(second, none);
    assert(trivia_text(none) =~= Seq::<char>::empty());
    assert(all_trivia_ok(none));
    assert(spaced_statement_ok(a));
    assert(spaced_statement_ok(b));
    let list = seq![a, b];
    assert(list.drop_first() =~= seq![b]);
    assert(seq![b].drop_first() =~= Seq::<SpacedStatement>::empty());
    assert(spaced_statements_text(Seq::<SpacedStatement>::empty()) == Seq::<char>::empty());
    assert(spaced_statement_text(b) == spaced_statement_text(second));
    assert(spaced_statements_text(seq![b]) == spaced_statement_text(b) + trivia_text(none)
        + spaced_statements_text(Seq::<SpacedStatement>::empty()));
    assert(spaced_statements_text(seq![b]) =~= spaced_statement_text(second));
    assert(spaced_statement_text(a) == spaced_statement_text(first));
    assert(spaced_statements_text(list) == spaced_statement_text(a) + trivia_text(after)
        + spaced_statements_text(seq![b]));
    assert(trivia_text(none) + spaced_statements_text(list) =~= spaced_statement_text(first)
        + trivia_text(after) + spaced_statement_text(second));
    assert forall|i: int| 0 <= i < list.len() implies spaced_statement_ok(#[trigger] list[i]) by {}
    law_statements_in_order(none, list);
    let c2 = spaced_statement_config(second);
    assert(spaced_statement_config(b) == c2);
    assert(spaced_statement_config(a) == spaced_statement_config(first));
    assert(spaced_statements_config(Seq::<SpacedStatement>::empty()) == empty_config());
    assert(spaced_statements_config(seq![b]) == joined(c2, empty_config()));
    assert(spaced_statements_config(list) == joined(
        spaced_statement_config(first),
        spaced_statements_config(seq![b]),
    ));
    assert(joined(c2, empty_config()).groups =~= c2.groups);
    assert(joined(c2, empty_config()).bindings =~= c2.bindings);
}

proof fn lemma_line_ending_pieces()
    ensures
        trivia_text(seq![Trivia::Space('\r'), Trivia::Space('\n')]) == seq!['\r', '\n'],
        trivia_text(seq![Trivia::Space('\r')]) == seq!['\r'],
        trivia_text(seq![Trivia::Space('\n')]) == seq!['\n'],
        all_trivia_ok(seq![Trivia::Space('\r'), Trivia::Space('\n')]),
        all_trivia_ok(seq![Trivia::Space('\r')]),
        all_trivia_ok(seq![Trivia::Space('\n')]),
{
    let crlf = seq![Trivia::Space('\r'), Trivia::Space('\n')];
    let cr = seq![Trivia::Space('\r')];
    let lf = seq![Trivia::Space('\n')];
    assert(trivia_text(lf) =~= seq!['\n']) by {
        assert(trivia_text(lf.drop_first()) =~= Seq::<char>::empty());
    }
    assert(trivia_text(cr) =~= seq!['\r']) by {
        assert(trivia_text(cr.drop_first()) =~= Seq::<char>::empty());
    }
    assert(trivia_text(crlf) =~= seq!['\r', '\n']) by {
        assert(crlf.drop_first() =~= lf);
    }
}

/// Law: a line ending of carriage return and line feed separates statements
/// as a line feed alone does, and so does a carriage return alone: two
/// statements on lines of their own parse to both of them, in order, with
/// every kind of line ending.
#[verifier::spinoff_prover]
pub proof fn law_line_endings(first: SpacedStatement, second: SpacedStatement)
    requires
        spaced_statement_ok(first),
        spaced_statement_ok(second),
    ensures
        parse_spec(spaced_statement_text(first) + seq!['\r', '\n'] + spaced_statement_text(second))
            == Ok::<ConfigView, ParseErrorView>(
            joined(spaced_statement_config(first), spaced_statement_config(second)),
        ),
        parse_spec(spaced_statement_text(first) + seq!['\r', '\n'] + spaced_statement_text(second))
            == parse_spec(spaced_statement_text(first) + seq!['\n'] + spaced_statement_text(second)),
        parse_spec(spaced_statement_text(first) + seq!['\r'] + spaced_statement_text(second))
            == parse_spec(spaced_statement_text(first) + seq!['\n'] + spaced_statement_text(second)),
{
    lemma_line_ending_pieces();
    lemma_two_statements(first, second, seq![Trivia::Space('\r'), Trivia::Space('\n')], seq!['\r', '\n']);
    lemma_two_statements(first, second, seq![Trivia::Space('\r')], seq!['\r']);
    lemma_two_statements(first, second, seq![Trivia::Space('\n')], seq!['\n']);
}

// ---------------------------------------------------------------------------
// Whitespace and comments after a source, and sources joined together.
// ---------------------------------------------------------------------------

/// The pieces hold a line break, so a comment that was open before them ends
/// inside them.
pub open spec fn breaks_line(pieces: Seq<Trivia>) -> bool
    decreases pieces.len(),
{
    pieces.len() > 0 && (pieces[0] is Comment || pieces[0] == Trivia::Space('\n') || breaks_line(
        pieces.drop_first(),
    ))
}

/// Inside a comment that reaches `p`, where whitespace and comments follow
/// that break the line (or reach the end): the comment and they are skipped
/// together.
proof fn lemma_comment_into_trivia(z: Seq<char>, p: int, pieces: Seq<Trivia>)
    requires
        text_at(z, p, trivia_text(pieces)),
        breaks_line(pieces) || p + trivia_text(pieces).len() == z.len(),
        forall|i: int| 0 <= i < pieces.len() ==> trivia_piece_ok(#[trigger] pieces[i]),
    ensures
        trivia_end(z, comment_end(z, p)) == trivia_end(z, p + trivia_text(pieces).len()),
    decreases pieces.len(),
{
    if pieces.len() > 0 {
        let first = trivia_piece_text(pieces[0]);
        let rest = pieces.drop_first();
        assert(trivia_piece_ok(pieces[0]));
        assert forall|i: int| 0 <= i < rest.len() implies trivia_piece_ok(#[trigger] rest[i]) by {
            assert(rest[i] == pieces[i + 1]);
        }
        lemma_text_at_split(z, p, first, trivia_text(rest));
        lemma_text_at_char(z, p, first, 0);
        lemma_trivia_pieces(z, p + first.len(), rest);
        match pieces[0] {
            Trivia::Space(c) => {
                if c == '\n' {
                    assert(trivia_end(z, p) == trivia_end(z, p + 1));
                } else {
                    lemma_comment_into_trivia(z, p + 1, rest);
                }
            },
            Trivia::Comment(text) => {
                assert(seq!['#'] + (text + seq!['\n']) =~= first);
                lemma_text_at_split(z, p, seq!['#'], text + seq!['\n']);
                lemma_comment_run(z, p + 1, text);
                lemma_text_at_char(z, p + 1, text + seq!['\n'], text.len() as int);
                assert(trivia_end(z, p + 1 + text.len()) == trivia_end(z, p + 2 + text.len()));
            },
        }
    }
}

proof fn lemma_prefix_comment_end(s: Seq<char>, y: Seq<char>, p: int)
    requires
        0 <= p <= s.len(),
    ensures
        comment_end(s, p) <= s.len(),
        comment_end(s, p) < s.len() ==> comment_end(s + y, p) == comment_end(s, p),
        comment_end(s, p) == s.len() ==> comment_end(s + y, p) == comment_end(s + y, s.len() as int),
    decreases s.len() - p,
{
    lemma_comment_end(s, p);
    if p < s.len() {
        assert((s + y)[p] == s[p]);
        if s[p] != '\n' {
            lemma_prefix_comment_end(s, y, p + 1);
        }
    }
}

/// Skipping whitespace and comments in `s + y` goes as in `s`, up to the end
/// of `s`; there it goes on, inside a comment or not.
proof fn lemma_prefix_trivia_end(s: Seq<char>, y: Seq<char>, p: int)
    requires
        0 <= p <= s.len(),
    ensures
        p <= trivia_end(s, p) <= s.len(),
        trivia_end(s, p) < s.len() ==> trivia_end(s + y, p) == trivia_end(s, p),
        trivia_end(s, p) == s.len() ==> (trivia_end(s + y, p) == trivia_end(s + y, s.len() as int)
            || trivia_end(s + y, p) == trivia_end(s + y, comment_end(s + y, s.len() as int))),
    decreases s.len() - p,
{
    let z = s + y;
    lemma_trivia_end(s, p);
    if p < s.len() {
        assert(z[p] == s[p]);
        if is_whitespace_char(s[p]) {
            lemma_prefix_trivia_end(s, y, p + 1);
            assert(trivia_end(z, p) == trivia_end(z, p + 1));
        } else if s[p] == '#' {
            lemma_prefix_comment_end(s, y, p + 1);
            lemma_comment_end(s, p + 1);
            let c = comment_end(s, p + 1);
            assert(trivia_end(s, p) == trivia_end(s, c));
            assert(trivia_end(z, p) == trivia_end(z, comment_end(z, p + 1)));
            if c < s.len() {
                lemma_prefix_trivia_end(s, y, c);
            }
        }
    }
}

/// Where whitespace and comments that break the line (or reach the end)
/// follow `s`, skipping from inside `s` to its end reaches past them.
proof fn lemma_settle_after(s: Seq<char>, pieces: Seq<Trivia>, b: Seq<char>, p: int)
    requires
        0 <= p <= s.len(),
        trivia_end(s, p) == s.len(),
        breaks_line(pieces) || b.len() == 0,
        forall|i: int| 0 <= i < pieces.len() ==> trivia_piece_ok(#[trigger] pieces[i]),
    ensures
        trivia_end(s + (trivia_text(pieces) + b), p) == trivia_end(
            s + (trivia_text(pieces) + b),
            (s.len() + trivia_text(pieces).len()) as int,
        ),
{
    let x = trivia_text(pieces);
    let z = s + (x + b);
    lemma_prefix_trivia_end(s, x + b, p);
    lemma_text_at_middle(s, x, b);
    assert(s + x + b =~= z);
    lemma_trivia_pieces(z, s.len() as int, pieces);
    lemma_comment_into_trivia(z, s.len() as int, pieces);
}

proof fn lemma_prefix_identifier_end(s: Seq<char>, y: Seq<char>, p: int)
    requires
        0 <= p <= s.len(),
        identifier_end(s, p) < s.len(),
    ensures
        identifier_end(s + y, p) == identifier_end(s, p),
    decreases s.len() - p,
{
    assert((s + y)[p] == s[p]);
    if is_identifier_char(s[p]) {
        lemma_prefix_identifier_end(s, y, p + 1);
    }
}

proof fn lemma_prefix_string_rest(s: Seq<char>, y: Seq<char>, p: int, value: Seq<char>)
    requires
        0 <= p,
        string_rest(s, p, value) is Ok,
    ensures
        string_rest(s + y, p, value) == string_rest(s, p, value),
    decreases s.len() - p,
{
    assert((s + y)[p] == s[p]);
    if s[p] == '\\' {
        assert((s + y)[p + 1] == s[p + 1]);
        if let Some(c) = escaped_char(s[p + 1]) {
            lemma_prefix_string_rest(s, y, p + 2, value.push(c));
        }
    } else if s[p] != '"' {
        lemma_prefix_string_rest(s, y, p + 1, value.push(s[p]));
    }
}

proof fn lemma_prefix_string_literal(s: Seq<char>, y: Seq<char>, p: int)
    requires
        0 <= p,
        string_literal(s, p) is Ok,
    ensures
        string_literal(s + y, p) == string_literal(s, p),
        p < s.len() && s[p] == '"',
{
    assert((s + y)[p] == s[p]);
    lemma_prefix_string_rest(s, y, p + 1, seq![]);
}

proof fn lemma_prefix_argument_list(s: Seq<char>, y: Seq<char>, p: int, args: ArgumentsView)
    requires
        0 <= p <= s.len(),
        argument_list(s, p, args) is Ok,
    ensures
        argument_list(s + y, p, args) == argument_list(s, p, args),
    decreases s.len() - p,
{
    let z = s + y;
    let p1 = trivia_end(s, p);
    lemma_prefix_trivia_end(s, y, p);
    assert(p1 < s.len());
    assert(z[p1] == s[p1]);
    if s[p1] == ',' {
        lemma_prefix_trivia_end(s, y, p1 + 1);
        let p2 = trivia_end(s, p1 + 1);
        assert(p2 < s.len());
        assert(z[p2] == s[p2]);
        if s[p2] != ')' {
            let e = identifier_end(s, p2);
            lemma_identifier_end(s, p2);
            lemma_trivia_end(s, e);
            let p3 = trivia_end(s, e);
            if char_at(s, p3) == Some(':') {
                lemma_prefix_identifier_end(s, y, p2);
                lemma_prefix_trivia_end(s, y, e);
                assert(z[p3] == s[p3]);
                lemma_prefix_trivia_end(s, y, p3 + 1);
                let p4 = trivia_end(s, p3 + 1);
                lemma_string_literal(s, p4);
                lemma_prefix_string_literal(s, y, p4);
                let name = s.subrange(p2, e);
                assert(z.subrange(p2, e) =~= name);
                let (value, p5) = string_literal(s, p4)->Ok_0;
                lemma_prefix_argument_list(
                    s,
                    y,
                    p5,
                    ArgumentsView {
                        positional: args.positional,
                        keyword: args.keyword.push((name, value)),
                    },
                );
            } else {
                lemma_string_literal(s, p2);
                lemma_prefix_string_literal(s, y, p2);
                assert(e == p2);
                assert(p3 == p2);
                lemma_prefix_identifier_end(s, y, p2);
                lemma_prefix_trivia_end(s, y, e);
                let (value, p5) = string_literal(s, p2)->Ok_0;
                lemma_prefix_argument_list(
                    s,
                    y,
                    p5,
                    ArgumentsView { positional: args.positional.push(value), keyword: args.keyword },
                );
            }
        }
    }
}

/// Statements of `s` that parse go the same way in `s` followed by
/// whitespace and comments that break the line (or reach the end) and more
/// text: the parse then goes on after the whitespace and comments.
#[verifier::rlimit(60)]
proof fn lemma_prefix_statements(
    s: Seq<char>,
    pieces: Seq<Trivia>,
    b: Seq<char>,
    p: int,
    config: ConfigView,
)
    requires
        0 <= p < s.len(),
        breaks_line(pieces) || b.len() == 0,
        forall|i: int| 0 <= i < pieces.len() ==> trivia_piece_ok(#[trigger] pieces[i]),
        statements(s, p, config) is Ok,
    ensures
        statements(s + (trivia_text(pieces) + b), p, config) == statements(
            s + (trivia_text(pieces) + b),
            trivia_end(s + (trivia_text(pieces) + b), (s.len() + trivia_text(pieces).len()) as int),
            statements(s, p, config)->Ok_0,
        ),
    decreases s.len() - p,
{
    let y = trivia_text(pieces) + b;
    let z = s + y;
    let e = identifier_end(s, p);
    lemma_identifier_end(s, p);
    lemma_trivia_end(s, e);
    let q = trivia_end(s, e);
    assert(q < s.len());
    lemma_prefix_identifier_end(s, y, p);
    lemma_prefix_trivia_end(s, y, e);
    assert(z[q] == s[q]);
    lemma_prefix_trivia_end(s, y, q + 1);
    let q2 = trivia_end(s, q + 1);
    lemma_string_literal(s, q2);
    lemma_prefix_string_literal(s, y, q2);
    let (keys, q3) = string_literal(s, q2)->Ok_0;
    lemma_prefix_argument_list(s, y, q3, empty_arguments());
    lemma_argument_list(s, q3, empty_arguments());
    let (args, q4) = argument_list(s, q3, empty_arguments())->Ok_0;
    lemma_prefix_trivia_end(s, y, q4);
    let name = s.subrange(p, e);
    assert(z.subrange(p, e) =~= name);
    let next = trivia_end(s, q4);
    assert(char_at(z, q) == char_at(s, q));
    assert(identifier_end(z, p) == e);
    assert(trivia_end(z, e) == q);
    assert(trivia_end(z, q + 1) == q2);
    assert(string_literal(z, q2) == string_literal(s, q2));
    assert(argument_list(z, q3, empty_arguments()) == argument_list(s, q3, empty_arguments()));
    if next == s.len() {
        lemma_settle_after(s, pieces, b, q4);
    } else {
        assert(trivia_end(z, q4) == next);
    }
    if name == "group"@ {
        let description = group_arguments(args)->Ok_0;
        let c = ConfigView {
            groups: config.groups.push(GroupView { keys, description }),
            bindings: config.bindings,
        };
        assert(statements(s, p, config) == statements(s, next, c));
        assert(statements(z, p, config) == statements(z, trivia_end(z, q4), c));
        if next < s.len() {
            lemma_prefix_statements(s, pieces, b, next, c);
        }
    } else {
        let (command, description) = keybind_arguments_spec(args)->Ok_0;
        let c = ConfigView {
            groups: config.groups,
            bindings: config.bindings.push(BindingView { keys, description, command: Some(command) }),
        };
        assert(name == "keybind"@);
        assert(statements(s, p, config) == statements(s, next, c));
        assert(statements(z, p, config) == statements(z, trivia_end(z, q4), c));
        if next < s.len() {
            lemma_prefix_statements(s, pieces, b, next, c);
        }
    }
}

/// A source that parses, followed by whitespace and comments that break the
/// line (or reach the end) and more text: the parse goes on after them with
/// what the source gave.
proof fn lemma_parse_prefix(a: Seq<char>, pieces: Seq<Trivia>, b: Seq<char>)
    requires
        breaks_line(pieces) || b.len() == 0,
        forall|i: int| 0 <= i < pieces.len() ==> trivia_piece_ok(#[trigger] pieces[i]),
        parse_spec(a) is Ok,
    ensures
        parse_spec(a + (trivia_text(pieces) + b)) == statements(
            a + (trivia_text(pieces) + b),
            trivia_end(a + (trivia_text(pieces) + b), (a.len() + trivia_text(pieces).len()) as int),
            parse_spec(a)->Ok_0,
        ),
{
    let y = trivia_text(pieces) + b;
    lemma_prefix_trivia_end(a, y, 0);
    let p = trivia_end(a, 0);
    if p < a.len() {
        lemma_prefix_statements(a, pieces, b, p, empty_config());
    } else {
        lemma_settle_after(a, pieces, b, 0);
    }
}

/// Law: whitespace and comments after a source that parses change nothing.
pub proof fn law_trailing_trivia_is_ignored(source: Seq<char>, pieces: Seq<Trivia>)
    requires
        forall|i: int| 0 <= i < pieces.len() ==> trivia_piece_ok(#[trigger] pieces[i]),
        parse_spec(source) is Ok,
    ensures
        parse_spec(source + trivia_text(pieces)) == parse_spec(source),
{
    let b = Seq::<char>::empty();
    assert(trivia_text(pieces) + b =~= trivia_text(pieces));
    lemma_parse_prefix(source, pieces, b);
    let z = source + trivia_text(pieces);
    assert(trivia_end(z, z.len() as int) == z.len());
}

/// Two configurations, one after the other.
pub open spec fn joined(first: ConfigView, second: ConfigView) -> ConfigView {
    ConfigView { groups: first.groups + second.groups, bindings: first.bindings + second.bindings }
}

/// What the statements from `p` give, after what came before.
pub open spec fn after(first: ConfigView, r: Result<ConfigView, ParseErrorView>) -> Result<
    ConfigView,
    ParseErrorView,
> {
    match r {
        Ok(second) => Ok(joined(first, second)),
        Err(error) => Err(error),
    }
}

#[verifier::rlimit(60)]
proof fn lemma_statements_after(s: Seq<char>, p: int, config: ConfigView)
    ensures
        statements(s, p, config) == after(config, statements(s, p, empty_config())),
    decreases s.len() - p,
{
    if 0 <= p < s.len() {
        let e = identifier_end(s, p);
        lemma_identifier_end(s, p);
        let q = trivia_end(s, e);
        let q2 = trivia_end(s, q + 1);
        if e != p && char_at(s, q) == Some('(') {
            if let Ok((keys, q3)) = string_literal(s, q2) {
                if let Ok((args, q4)) = argument_list(s, q3, empty_arguments()) {
                    lemma_identifier_end(s, p);
                    lemma_trivia_end(s, e);
                    lemma_trivia_end(s, q + 1);
                    lemma_string_literal(s, q2);
                    lemma_argument_list(s, q3, empty_arguments());
                    lemma_trivia_end(s, q4);
                    let next = trivia_end(s, q4);
                    let name = s.subrange(p, e);
                    if name == "group"@ {
                        if let Ok(description) = group_arguments(args) {
                            let g = GroupView { keys, description };
                            let one = ConfigView { groups: seq![g], bindings: seq![] };
                            let c = ConfigView {
                                groups: config.groups.push(g),
                                bindings: config.bindings,
                            };
                            assert(empty_config().groups.push(g) =~= one.groups);
                            lemma_statements_after(s, next, c);
                            lemma_statements_after(s, next, one);
                            if let Ok(v) = statements(s, next, empty_config()) {
                                assert(joined(c, v).groups =~= joined(config, joined(one, v)).groups);
                                assert(joined(c, v).bindings =~= joined(
                                    config,
                                    joined(one, v),
                                ).bindings);
                            }
                        }
                    } else if name == "keybind"@ {
                        if let Ok((command, description)) = keybind_arguments_spec(args) {
                            let k = BindingView { keys, description, command: Some(command) };
                            let one = ConfigView { groups: seq![], bindings: seq![k] };
                            let c = ConfigView {
                                groups: config.groups,
                                bindings: config.bindings.push(k),
                            };
                            assert(empty_config().bindings.push(k) =~= one.bindings);
                            lemma_statements_after(s, next, c);
                            lemma_statements_after(s, next, one);
                            if let Ok(v) = statements(s, next, empty_config()) {
                                assert(joined(c, v).groups =~= joined(config, joined(one, v)).groups);
                                assert(joined(c, v).bindings =~= joined(
                                    config,
                                    joined(one, v),
                                ).bindings);
                            }
                        }
                    }
                }
            }
        }
    } else {
        assert(joined(config, empty_config()) =~= config);
    }
}

proof fn lemma_join_tail(lead: Seq<char>, second: Seq<char>, first_config: ConfigView)
    ensures
        success(
            statements(lead + second, trivia_end(lead + second, lead.len() as int), first_config),
        ) == success(after(first_config, parse_spec(second))),
{
    lemma_shift_trivia_end(lead, second, 0);
    lemma_trivia_end(second, 0);
    lemma_shift_statements(lead, second, trivia_end(second, 0), first_config);
    lemma_statements_after(second, trivia_end(second, 0), first_config);
}

/// Law: two sources joined by whitespace and comments that break the line
/// parse to the two configurations one after the other: the statements of
/// the first, then those of the second, each in its order. Where the second
/// fails alone, the joined text fails too.
pub proof fn law_sources_join(first: Seq<char>, pieces: Seq<Trivia>, second: Seq<char>)
    requires
        breaks_line(pieces),
        forall|i: int| 0 <= i < pieces.len() ==> trivia_piece_ok(#[trigger] pieces[i]),
        parse_spec(first) is Ok,
    ensures
        success(parse_spec(first + trivia_text(pieces) + second)) == success(
            after(parse_spec(first)->Ok_0, parse_spec(second)),
        ),
{
    let x = trivia_text(pieces);
    let lead = first + x;
    assert(first + (x + second) =~= lead + second);
    assert(first + x + second =~= lead + second);
    lemma_parse_prefix(first, pieces, second);
    lemma_join_tail(lead, second, parse_spec(first)->Ok_0);
}

// ---------------------------------------------------------------------------
// Error messages.
// ---------------------------------------------------------------------------

pub open spec fn statement_name(statement: Statement) -> Seq<char> {
    match statement {
        Statement::Group => "group"@,
        Statement::Keybind => "keybind"@,
    }
}

/// A name between double quotes, as `{:?}` writes an identifier.
pub open spec fn quoted(name: Seq<char>) -> Seq<char> {
    seq!['"'] + name + seq!['"']
}

pub open spec fn syntax_message(problem: SyntaxProblem<Seq<char>>) -> Seq<char> {
    match problem {
        SyntaxProblem::UnknownStatement(name) => "unknown statement "@ + quoted(name),
        SyntaxProblem::ExpectedIdentifier => "expected an identifier"@,
        SyntaxProblem::UnterminatedString => "unterminated string"@,
        SyntaxProblem::NewlineInString => "strings cannot contain literal newlines"@,
        SyntaxProblem::UnterminatedEscape => "unterminated escape sequence"@,
        SyntaxProblem::UnsupportedEscape(c) => "unsupported escape \\"@.push(c),
        SyntaxProblem::ExpectedOpenParen => "expected '('"@,
        SyntaxProblem::ExpectedComma => "expected ','"@,
        SyntaxProblem::ExpectedQuote => "expected '\"'"@,
        SyntaxProblem::DuplicateArgument(name) => "duplicate argument "@ + quoted(name),
    }
}

pub open spec fn argument_message(reason: ArgumentProblem<Seq<char>>) -> Seq<char> {
    match reason {
        ArgumentProblem::UnknownArgument(statement, name) => statement_name(statement)
            + " has unknown argument "@ + quoted(name),
        ArgumentProblem::TooManyPositional(statement) => statement_name(statement)
            + " has too many positional arguments"@,
        ArgumentProblem::GivenTwice(statement, name) => statement_name(statement)
            + " specifies argument "@ + quoted(name) + " more than once"@,
        ArgumentProblem::AllByKeyword => "keybind specifies all arguments by keyword"@,
        ArgumentProblem::MissingCommand => "keybind is missing required argument \"command\""@,
    }
}

/// The text of a parse error: its position, then what went wrong.
pub open spec fn error_message(error: ParseErrorView) -> Seq<char> {
    match error {
        ParseFailure::Syntax { line, column, problem } => "line "@ + decimal(line as nat)
            + ", column "@ + decimal(column as nat) + ": "@ + syntax_message(problem),
        ParseFailure::Argument { line, reason } => "line "@ + decimal(line as nat) + ": "@
            + argument_message(reason),
    }
}

impl Statement {
    pub fn name(&self) -> (r: &'static str)
        ensures
            r@ == statement_name(*self),
    {
        match self {
            Statement::Group => "group",
            Statement::Keybind => "keybind",
        }
    }
}

fn push_quoted(text: &mut String, name: &String)
    ensures
        final(text)@ == old(text)@ + quoted(name@),
{
    text.push('"');
    text.append(name.as_str());
    text.push('"');
    assert(final(text)@ =~= old(text)@ + quoted(name@));
}

impl SyntaxProblem<String> {
    pub fn message(&self) -> (r: String)
        ensures
            r@ == syntax_message(self@),
    {
        match self {
            SyntaxProblem::UnknownStatement(name) => {
                let mut r = String::from_str("unknown statement ");
                push_quoted(&mut r, name);
                r
            },
            SyntaxProblem::ExpectedIdentifier => String::from_str("expected an identifier"),
            SyntaxProblem::UnterminatedString => String::from_str("unterminated string"),
            SyntaxProblem::NewlineInString => String::from_str(
                "strings cannot contain literal newlines",
            ),
            SyntaxProblem::UnterminatedEscape => String::from_str("unterminated escape sequence"),
            SyntaxProblem::UnsupportedEscape(c) => {
                let mut r = String::from_str("unsupported escape \\");
                r.push(*c);
                r
            },
            SyntaxProblem::ExpectedOpenParen => String::from_str("expected '('"),
            SyntaxProblem::ExpectedComma => String::from_str("expected ','"),
            SyntaxProblem::ExpectedQuote => String::from_str("expected '\"'"),
            SyntaxProblem::DuplicateArgument(name) => {
                let mut r = String::from_str("duplicate argument ");
                push_quoted(&mut r, name);
                r
            },
        }
    }
}

impl ArgumentProblem<String> {
    pub fn message(&self) -> (r: String)
        ensures
            r@ == argument_message(self@),
    {
        match self {
            ArgumentProblem::UnknownArgument(statement, name) => {
                let mut r = String::from_str(statement.name());
                r.append(" has unknown argument ");
                push_quoted(&mut r, name);
                r
            },
            ArgumentProblem::TooManyPositional(statement) => {
                let mut r = String::from_str(statement.name());
                r.append(" has too many positional arguments");
                r
            },
            ArgumentProblem::GivenTwice(statement, name) => {
                let mut r = String::from_str(statement.name());
                r.append(" specifies argument ");
                push_quoted(&mut r, name);
                r.append(" more than once");
                r
            },
            ArgumentProblem::AllByKeyword => String::from_str(
                "keybind specifies all arguments by keyword",
            ),
            ArgumentProblem::MissingCommand => String::from_str(
                "keybind is missing required argument \"command\"",
            ),
        }
    }
}

impl ParseFailure<String> {
    /// The error's text, as the command line reports it.
    pub fn message(&self) -> (r: String)
        ensures
            r@ == error_message(self@),
    {
        match self {
            ParseFailure::Syntax { line, column, problem } => {
                let mut r = String::from_str("line ");
                let l = decimal_string(*line);
                r.append(l.as_str());
                r.append(", column ");
                let c = decimal_string(*column);
                r.append(c.as_str());
                r.append(": ");
                let m = problem.message();
                r.append(m.as_str());
                r
            },
            ParseFailure::Argument { line, reason } => {
                let mut r = String::from_str("line ");
                let l = decimal_string(*line);
                r.append(l.as_str());
                r.append(": ");
                let m = reason.message();
                r.append(m.as_str());
                r
            },
        }
    }
}


// ---------------------------------------------------------------------------
// The parser.
// ---------------------------------------------------------------------------

/// Parses a configuration. Positions count characters; lines and columns
/// start at 1.
pub fn parse(source: &str) -> (r: Result<Config, ParseError>)
    ensures
        match r {
            Ok(config) => parse_spec(source@) == Ok::<ConfigView, ParseErrorView>(config@),
            Err(error) => parse_spec(source@) == Err::<ConfigView, ParseErrorView>(error@),
        },
{
    Parser::new(source).parse()
}

struct Parser {
    source: Vec<char>,
    position: usize,
}

struct Arguments {
    positional: Vec<String>,
    keyword: Vec<(String, String)>,
}

pub open spec fn strings_view(v: Seq<String>) -> Seq<Seq<char>> {
    v.map_values(|x: String| x@)
}

pub open spec fn keyword_view(v: Seq<(String, String)>) -> Seq<(Seq<char>, Seq<char>)> {
    v.map_values(|e: (String, String)| (e.0@, e.1@))
}

impl View for Arguments {
    type V = ArgumentsView;

    closed spec fn view(&self) -> ArgumentsView {
        ArgumentsView {
            positional: strings_view(self.positional@),
            keyword: keyword_view(self.keyword@),
        }
    }
}

spec fn expected_problem(c: char) -> SyntaxProblem<Seq<char>> {
    if c == '(' {
        SyntaxProblem::ExpectedOpenParen
    } else if c == ',' {
        SyntaxProblem::ExpectedComma
    } else {
        SyntaxProblem::ExpectedQuote
    }
}

impl Parser {
    spec fn wf(&self) -> bool {
        self.position <= self.source.len()
    }

    fn new(source: &str) -> (r: Parser)
        ensures
            r.source@ == source@,
            r.position == 0,
            r.wf(),
    {
        Parser { source: chars_of(source), position: 0 }
    }

    fn peek(&self) -> (r: Option<char>)
        requires
            self.wf(),
        ensures
            r == char_at(self.source@, self.position as int),
    {
        if self.position < self.source.len() {
            Some(self.source[self.position])
        } else {
            None
        }
    }

    fn advance(&mut self) -> (r: Option<char>)
        requires
            old(self).wf(),
        ensures
            final(self).wf(),
            final(self).source@ == old(self).source@,
            r == char_at(old(self).source@, old(self).position as int),
            final(self).position == if r is Some {
                old(self).position + 1
            } else {
                old(self).position as int
            },
    {
        let character = self.peek();
        if character.is_some() {
            self.position = self.position + 1;
        }
        character
    }

    fn consume(&mut self, expected: char) -> (r: bool)
        requires
            old(self).wf(),
        ensures
            final(self).wf(),
            final(self).source@ == old(self).source@,
            r == (char_at(old(self).source@, old(self).position as int) == Some(expected)),
            final(self).position == if r {
                old(self).position + 1
            } else {
                old(self).position as int
            },
    {
        if self.peek() == Some(expected) {
            self.advance();
            true
        } else {
            false
        }
    }

    fn expect(&mut self, expected: char) -> (r: Result<(), ParseError>)
        requires
            old(self).wf(),
            expected == '(' || expected == ',' || expected == '"',
        ensures
            final(self).wf(),
            final(self).source@ == old(self).source@,
            char_at(old(self).source@, old(self).position as int) == Some(expected) ==> r is Ok
                && final(self).position == old(self).position + 1,
            char_at(old(self).source@, old(self).position as int) != Some(expected) ==> (r matches Err(
                e,
            ) && e@ == syntax_error(
                old(self).source@,
                old(self).position as int,
                expected_problem(expected),
            )),
    {
        if self.consume(expected) {
            Ok(())
        } else {
            let problem = if expected == '(' {
                SyntaxProblem::ExpectedOpenParen
            } else if expected == ',' {
                SyntaxProblem::ExpectedComma
            } else {
                SyntaxProblem::ExpectedQuote
            };
            Err(self.error(problem))
        }
    }

    /// The line of the current position.
    fn line(&self) -> (r: usize)
        requires
            self.wf(),
        ensures
            r == capped(line_at(self.source@, self.position as int)),
    {
        let ghost s = self.source@;
        let mut count: usize = 0;
        let mut i: usize = 0;
        while i < self.position
            invariant
                self.wf(),
                s == self.source@,
                i <= self.position,
                count <= i,
                count == newline_count(s.take(i as int)),
            decreases self.position - i,
        {
            assert(s.take(i + 1).drop_last() =~= s.take(i as int));
            if self.source[i] == '\n' {
                count = count + 1;
            }
            i = i + 1;
        }
        if count < usize::MAX {
            count + 1
        } else {
            count
        }
    }

    /// A syntax error at the current position.
    fn error(&self, problem: SyntaxProblem<String>) -> (r: ParseError)
        requires
            self.wf(),
        ensures
            r@ == syntax_error(self.source@, self.position as int, problem@),
    {
        let ghost s = self.source@;
        let line = self.line();
        let mut column: usize = 0;
        let mut i: usize = 0;
        while i < self.position
            invariant
                self.wf(),
                s == self.source@,
                i <= self.position,
                column <= i,
                column == last_line_length(s.take(i as int)),
            decreases self.position - i,
        {
            assert(s.take(i + 1).drop_last() =~= s.take(i as int));
            if self.source[i] == '\n' {
                column = 0;
            } else {
                column = column + 1;
            }
            i = i + 1;
        }
        let column = if column < usize::MAX {
            column + 1
        } else {
            column
        };
        ParseFailure::Syntax { line, column, problem }
    }

    fn skip_trivia(&mut self)
        requires
            old(self).wf(),
        ensures
            final(self).wf(),
            final(self).source@ == old(self).source@,
            final(self).position == trivia_end(old(self).source@, old(self).position as int),
    {
        let ghost s = self.source@;
        let ghost target = trivia_end(s, self.position as int);
        loop
            invariant
                self.wf(),
                self.source@ == s,
                trivia_end(s, self.position as int) == target,
            ensures
                self.wf(),
                self.source@ == s,
                self.position == target,
            decreases s.len() - self.position,
        {
            match self.peek() {
                Some(c) => {
                    if is_whitespace(c) {
                        self.advance();
                    } else if c == '#' {
                        self.advance();
                        let ghost start = self.position;
                        loop
                            invariant
                                self.wf(),
                                self.source@ == s,
                                start <= self.position,
                                comment_end(s, self.position as int) == comment_end(s, start as int),
                            ensures
                                self.wf(),
                                self.source@ == s,
                                self.position == comment_end(s, start as int),
                            decreases s.len() - self.position,
                        {
                            match self.peek() {
                                Some(d) => {
                                    if d == '\n' {
                                        break ;
                                    }
                                    self.advance();
                                },
                                None => {
                                    break ;
                                },
                            }
                        }
                        proof {
                            lemma_comment_end(s, start as int);
                        }
                    } else {
                        break ;
                    }
                },
                None => {
                    break ;
                },
            }
        }
    }

    fn identifier(&mut self) -> (r: Result<String, ParseError>)
        requires
            old(self).wf(),
        ensures
            final(self).wf(),
            final(self).source@ == old(self).source@,
            final(self).position == identifier_end(old(self).source@, old(self).position as int),
            match r {
                Ok(name) => final(self).position > old(self).position && name@
                    == old(self).source@.subrange(
                    old(self).position as int,
                    final(self).position as int,
                ),
                Err(e) => final(self).position == old(self).position && e@ == syntax_error(
                    old(self).source@,
                    old(self).position as int,
                    SyntaxProblem::ExpectedIdentifier,
                ),
            },
    {
        let ghost s = self.source@;
        let start = self.position;
        let mut identifier = String::new();
        loop
            invariant
                self.wf(),
                self.source@ == s,
                start <= self.position,
                identifier_end(s, self.position as int) == identifier_end(s, start as int),
                identifier@ == s.subrange(start as int, self.position as int),
            ensures
                self.wf(),
                self.source@ == s,
                self.position == identifier_end(s, start as int),
                identifier@ == s.subrange(start as int, self.position as int),
            decreases s.len() - self.position,
        {
            match self.peek() {
                Some(c) => {
                    if is_identifier(c) {
                        identifier.push(c);
                        self.advance();
                        assert(identifier@ =~= s.subrange(start as int, self.position as int));
                    } else {
                        break ;
                    }
                },
                None => {
                    break ;
                },
            }
        }
        if self.position == start {
            Err(self.error(SyntaxProblem::ExpectedIdentifier))
        } else {
            Ok(identifier)
        }
    }

    fn string(&mut self) -> (r: Result<String, ParseError>)
        requires
            old(self).wf(),
        ensures
            final(self).wf(),
            final(self).source@ == old(self).source@,
            match string_literal(old(self).source@, old(self).position as int) {
                Ok((value, q)) => r matches Ok(v) && v@ == value && final(self).position == q,
                Err((problem, at)) => r matches Err(e) && e@ == syntax_error(
                    old(self).source@,
                    at,
                    problem,
                ),
            },
    {
        let ghost s = self.source@;
        match self.expect('"') {
            Ok(()) => {},
            Err(e) => {
                return Err(e);
            },
        }
        let ghost start = self.position;
        let mut value = String::new();
        loop
            invariant
                self.wf(),
                self.source@ == s,
                s == old(self).source@,
                start == old(self).position + 1,
                char_at(s, old(self).position as int) == Some('"'),
                string_rest(s, self.position as int, value@) == string_rest(
                    s,
                    start as int,
                    seq![],
                ),
            decreases s.len() - self.position,
        {
            let character = self.advance();
            match character {
                None => {
                    return Err(self.error(SyntaxProblem::UnterminatedString));
                },
                Some(c) => {
                    if c == '"' {
                        return Ok(value);
                    } else if c == '\n' || c == '\r' {
                        return Err(self.error(SyntaxProblem::NewlineInString));
                    } else if c == '\\' {
                        match self.advance() {
                            None => {
                                return Err(self.error(SyntaxProblem::UnterminatedEscape));
                            },
                            Some(escaped) => {
                                let v = if escaped == '"' {
                                    '"'
                                } else if escaped == '\\' {
                                    '\\'
                                } else if escaped == 'n' {
                                    '\n'
                                } else if escaped == 'r' {
                                    '\r'
                                } else if escaped == 't' {
                                    '\t'
                                } else {
                                    return Err(
                                        self.error(SyntaxProblem::UnsupportedEscape(escaped)),
                                    );
                                };
                                value.push(v);
                            },
                        }
                    } else {
                        value.push(c);
                    }
                },
            }
        }
    }

    fn arguments(&mut self) -> (r: Result<Arguments, ParseError>)
        requires
            old(self).wf(),
        ensures
            final(self).wf(),
            final(self).source@ == old(self).source@,
            match argument_list(old(self).source@, old(self).position as int, empty_arguments()) {
                Ok((args, q)) => r matches Ok(a) && a@ == args && final(self).position == q,
                Err((problem, at)) => r matches Err(e) && e@ == syntax_error(
                    old(self).source@,
                    at,
                    problem,
                ),
            },
    {
        let ghost s = self.source@;
        let ghost start = self.position;
        let mut positional: Vec<String> = Vec::new();
        let mut keyword: Vec<(String, String)> = Vec::new();
        assert(strings_view(positional@) =~= seq![]);
        assert(keyword_view(keyword@) =~= seq![]);
        loop
            invariant
                self.wf(),
                self.source@ == s,
                s == old(self).source@,
                start == old(self).position,
                argument_list(
                    s,
                    self.position as int,
                    ArgumentsView {
                        positional: strings_view(positional@),
                        keyword: keyword_view(keyword@),
                    },
                ) == argument_list(s, start as int, empty_arguments()),
            decreases s.len() - self.position,
        {
            let ghost p = self.position as int;
            let ghost args = ArgumentsView {
                positional: strings_view(positional@),
                keyword: keyword_view(keyword@),
            };
            self.skip_trivia();
            if self.consume(')') {
                let a = Arguments { positional, keyword };
                assert(a@ == args);
                return Ok(a);
            }
            match self.expect(',') {
                Ok(()) => {},
                Err(e) => {
                    return Err(e);
                },
            }
            self.skip_trivia();
            if self.consume(')') {
                let a = Arguments { positional, keyword };
                assert(a@ == args);
                return Ok(a);
            }
            let start = self.position;
            let name = self.identifier();
            proof {
                lemma_trivia_end(s, p);
                lemma_trivia_end(s, trivia_end(s, p) + 1);
                lemma_identifier_end(s, start as int);
                lemma_trivia_end(s, self.position as int);
            }
            self.skip_trivia();
            if self.consume(':') {
                proof {
                    lemma_trivia_end(s, self.position as int);
                }
                let name = match name {
                    Ok(n) => n,
                    Err(e) => {
                        return Err(e);
                    },
                };
                self.skip_trivia();
                proof {
                    lemma_string_literal(s, self.position as int);
                }
                let value = match self.string() {
                    Ok(v) => v,
                    Err(e) => {
                        return Err(e);
                    },
                };
                if keyword_index(&keyword, &name).is_some() {
                    return Err(self.error(SyntaxProblem::DuplicateArgument(name)));
                }
                keyword.push((name, value));
                assert(keyword_view(keyword@) =~= args.keyword.push((name@, value@)));
            } else {
                self.position = start;
                proof {
                    lemma_string_literal(s, self.position as int);
                }
                let value = match self.string() {
                    Ok(v) => v,
                    Err(e) => {
                        return Err(e);
                    },
                };
                positional.push(value);
                assert(strings_view(positional@) =~= args.positional.push(value@));
            }
        }
    }

    fn parse(self) -> (r: Result<Config, ParseError>)
        requires
            self.wf(),
            self.position == 0,
        ensures
            match r {
                Ok(config) => parse_spec(self.source@) == Ok::<ConfigView, ParseErrorView>(
                    config@,
                ),
                Err(error) => parse_spec(self.source@) == Err::<ConfigView, ParseErrorView>(
                    error@,
                ),
            },
    {
        let ghost s = self.source@;
        let mut parser = self;
        let mut config = Config { groups: Vec::new(), bindings: Vec::new() };
        assert(groups_view(config.groups@) =~= seq![]);
        assert(bindings_view(config.bindings@) =~= seq![]);
        assert(config@ == empty_config());
        parser.skip_trivia();
        loop
            invariant
                parser.wf(),
                parser.source@ == s,
                s == self.source@,
                statements(s, parser.position as int, config@) == parse_spec(s),
            decreases s.len() - parser.position,
        {
            if parser.peek().is_none() {
                return Ok(config);
            }
            let ghost p = parser.position as int;
            let statement_line = parser.line();
            let statement = match parser.identifier() {
                Ok(name) => name,
                Err(e) => {
                    return Err(e);
                },
            };
            parser.skip_trivia();
            match parser.expect('(') {
                Ok(()) => {},
                Err(e) => {
                    return Err(e);
                },
            }
            parser.skip_trivia();
            let keys = match parser.string() {
                Ok(k) => k,
                Err(e) => {
                    return Err(e);
                },
            };
            let ghost q3 = parser.position as int;
            let mut arguments = match parser.arguments() {
                Ok(a) => a,
                Err(e) => {
                    return Err(e);
                },
            };
            proof {
                lemma_argument_list(s, q3, empty_arguments());
                lemma_trivia_end(s, parser.position as int);
            }
            proof {
                lemma_identifier_end(s, p);
                lemma_trivia_end(s, identifier_end(s, p));
                lemma_trivia_end(s, trivia_end(s, identifier_end(s, p)) + 1);
                lemma_string_literal(s, trivia_end(s, trivia_end(s, identifier_end(s, p)) + 1));
            }
            let ghost old_config = config@;
            if statement == String::from_str("group") {
                match with_line(reject_unknown(&arguments.keyword, Statement::Group), statement_line) {
                    Ok(()) => {},
                    Err(e) => {
                        return Err(e);
                    },
                }
                let description = match with_line(
                    optional_argument_value(
                        &arguments.positional,
                        &mut arguments.keyword,
                        "description",
                        Statement::Group,
                    ),
                    statement_line,
                ) {
                    Ok(d) => d,
                    Err(e) => {
                        return Err(e);
                    },
                };
                let group = Group { keys, description };
                config.groups.push(group);
                assert(groups_view(config.groups@) =~= old_config.groups.push(group@));
            } else if statement == String::from_str("keybind") {
                match with_line(
                    reject_unknown(&arguments.keyword, Statement::Keybind),
                    statement_line,
                ) {
                    Ok(()) => {},
                    Err(e) => {
                        return Err(e);
                    },
                }
                let (command, description) = match with_line(
                    keybind_arguments(arguments),
                    statement_line,
                ) {
                    Ok(values) => values,
                    Err(e) => {
                        return Err(e);
                    },
                };
                let binding = Binding { keys, description, command: Some(command) };
                config.bindings.push(binding);
                assert(bindings_view(config.bindings@) =~= old_config.bindings.push(binding@));
            } else {
                return Err(parser.error(SyntaxProblem::UnknownStatement(statement)));
            }
            parser.skip_trivia();
        }
    }
}

/// Attaches the statement's line to an argument error.
fn with_line<T>(result: Result<T, ArgumentProblem<String>>, line: usize) -> (r: Result<
    T,
    ParseError,
>)
    ensures
        match result {
            Ok(v) => r == Ok::<T, ParseError>(v),
            Err(reason) => r matches Err(e) && e@ == ParseFailure::Argument {
                line,
                reason: reason@,
            },
        },
{
    match result {
        Ok(v) => Ok(v),
        Err(reason) => Err(ParseFailure::Argument { line, reason }),
    }
}

/// The index of the keyword argument called `name`, if there is one.
fn keyword_index(keyword: &Vec<(String, String)>, name: &String) -> (r: Option<usize>)
    ensures
        match r {
            Some(i) => i < keyword.len() && keyword_value(keyword_view(keyword@), name@) == Some(
                keyword@[i as int].1@,
            ),
            None => keyword_value(keyword_view(keyword@), name@) is None,
        },
{
    let ghost kv = keyword_view(keyword@);
    let mut i: usize = 0;
    assert(kv.skip(0) =~= kv);
    while i < keyword.len()
        invariant
            kv == keyword_view(keyword@),
            i <= keyword.len(),
            keyword_value(kv, name@) == keyword_value(kv.skip(i as int), name@),
        decreases keyword.len() - i,
    {
        assert(kv.skip(i as int)[0] == kv[i as int]);
        if keyword[i].0 == *name {
            return Some(i);
        }
        assert(kv.skip(i as int).drop_first() =~= kv.skip(i + 1));
        i = i + 1;
    }
    None
}

fn is_known(statement: Statement, name: &String) -> (r: bool)
    ensures
        r == is_known_argument(statement, name@),
{
    *name == String::from_str("description") || (statement == Statement::Keybind && *name
        == String::from_str("command"))
}

/// Rejects keyword arguments that the statement does not take, naming the
/// first of them in string order.
fn reject_unknown(keyword: &Vec<(String, String)>, statement: Statement) -> (r: Result<
    (),
    ArgumentProblem<String>,
>)
    ensures
        match unknown_argument(keyword_view(keyword@), statement) {
            Some(name) => r matches Err(e) && e@ == ArgumentProblem::UnknownArgument(
                statement,
                name,
            ),
            None => r is Ok,
        },
{
    let ghost kv = keyword_view(keyword@);
    let mut first: Option<usize> = None;
    let mut i: usize = 0;
    while i < keyword.len()
        invariant
            kv == keyword_view(keyword@),
            i <= keyword.len(),
            match first {
                Some(b) => b < i && !is_known_argument(statement, kv[b as int].0) && forall|j: int|
                    0 <= j < i && !is_known_argument(statement, #[trigger] kv[j].0) ==> !seq_less(
                        kv[j].0,
                        kv[b as int].0,
                    ),
                None => forall|j: int|
                    0 <= j < i ==> is_known_argument(statement, #[trigger] kv[j].0),
            },
        decreases keyword.len() - i,
    {
        if !is_known(statement, &keyword[i].0) {
            match first {
                None => {
                    first = Some(i);
                    proof {
                        lemma_seq_less_irreflexive(kv[i as int].0);
                    }
                },
                Some(b) => {
                    let candidate = chars_of(keyword[i].0.as_str());
                    let current = chars_of(keyword[b].0.as_str());
                    if chars_less(&candidate, &current) {
                        proof {
                            assert forall|j: int|
                                0 <= j < i + 1 && !is_known_argument(
                                    statement,
                                    #[trigger] kv[j].0,
                                ) implies !seq_less(kv[j].0, kv[i as int].0) by {
                                if j < i {
                                    if seq_less(kv[j].0, kv[i as int].0) {
                                        lemma_seq_less_transitive(
                                            kv[j].0,
                                            kv[i as int].0,
                                            kv[b as int].0,
                                        );
                                    }
                                } else {
                                    lemma_seq_less_irreflexive(kv[i as int].0);
                                }
                            }
                        }
                        first = Some(i);
                    }
                },
            }
        }
        i = i + 1;
    }
    match first {
        None => Ok(()),
        Some(b) => {
            let ghost name = kv[b as int].0;
            proof {
                assert(is_first_unknown(kv, statement, name));
                let chosen = choose|n: Seq<char>| is_first_unknown(kv, statement, n);
                let k = choose|k: int| 0 <= k < kv.len() && #[trigger] kv[k].0 == chosen;
                lemma_seq_less_total(chosen, name);
                assert(!seq_less(kv[k].0, name));
            }
            Err(ArgumentProblem::UnknownArgument(statement, keyword[b].0.clone()))
        },
    }
}

/// The keyword arguments other than `name`, in order.
pub open spec fn without_keyword(keyword: Seq<(Seq<char>, Seq<char>)>, name: Seq<char>) -> Seq<
    (Seq<char>, Seq<char>),
>
    decreases keyword.len(),
{
    if keyword.len() == 0 {
        seq![]
    } else {
        let rest = without_keyword(keyword.drop_last(), name);
        if keyword.last().0 == name {
            rest
        } else {
            rest.push(keyword.last())
        }
    }
}

/// Takes out of `keyword` the keyword arguments called `name`, keeping the
/// order of the others.
fn remove_keyword(keyword: &mut Vec<(String, String)>, name: &String)
    ensures
        keyword_view(final(keyword)@) == without_keyword(keyword_view(old(keyword)@), name@),
{
    let ghost kv = keyword_view(keyword@);
    let mut kept: Vec<(String, String)> = Vec::new();
    let mut i: usize = 0;
    assert(kv.take(0) =~= seq![]);
    assert(keyword_view(kept@) =~= seq![]);
    while i < keyword.len()
        invariant
            kv == keyword_view(keyword@),
            i <= keyword.len(),
            keyword_view(kept@) == without_keyword(kv.take(i as int), name@),
        decreases keyword.len() - i,
    {
        assert(kv.take(i + 1).drop_last() =~= kv.take(i as int));
        assert(kv.take(i + 1).last() == kv[i as int]);
        if keyword[i].0 != *name {
            let entry = (keyword[i].0.clone(), keyword[i].1.clone());
            let ghost before = kept@;
            kept.push(entry);
            assert(keyword_view(kept@) =~= keyword_view(before).push(kv[i as int]));
        }
        i = i + 1;
    }
    assert(kv.take(keyword.len() as int) =~= kv);
    *keyword = kept;
}

/// An argument that may be given at most once, by position or by keyword.
/// Unless there are too many positional arguments, the keyword argument
/// called `name` is taken out of `keyword`.
fn optional_argument_value(
    positional: &Vec<String>,
    keyword: &mut Vec<(String, String)>,
    name: &str,
    statement: Statement,
) -> (r: Result<Option<String>, ArgumentProblem<String>>)
    ensures
        match optional_value(strings_view(positional@), keyword_view(old(keyword)@), name@, statement) {
            Ok(value) => r matches Ok(v) && optional_view(v) == value,
            Err(reason) => r matches Err(e) && e@ == reason,
        },
        keyword_view(final(keyword)@) == if positional@.len() > 1 {
            keyword_view(old(keyword)@)
        } else {
            without_keyword(keyword_view(old(keyword)@), name@)
        },
{
    if positional.len() > 1 {
        return Err(ArgumentProblem::TooManyPositional(statement));
    }
    let name = String::from_str(name);
    let by_position = if positional.len() == 1 {
        Some(positional[0].clone())
    } else {
        None
    };
    let by_keyword = match keyword_index(keyword, &name) {
        Some(i) => Some(keyword[i].1.clone()),
        None => None,
    };
    remove_keyword(keyword, &name);
    match (by_position, by_keyword) {
        (Some(_), Some(_)) => Err(ArgumentProblem::GivenTwice(statement, name)),
        (Some(value), None) => Ok(Some(value)),
        (None, Some(value)) => Ok(Some(value)),
        (None, None) => Ok(None),
    }
}

/// The command and description of a keybind statement.
fn keybind_arguments(arguments: Arguments) -> (r: Result<
    (String, Option<String>),
    ArgumentProblem<String>,
>)
    ensures
        match keybind_values(arguments@) {
            Ok((command, description)) => r matches Ok((c, d)) && c@ == command && optional_view(d)
                == description,
            Err(reason) => r matches Err(e) && e@ == reason,
        },
{
    let ghost args = arguments@;
    let positional = arguments.positional;
    let keyword = arguments.keyword;
    let n = positional.len();
    if n > 2 {
        return Err(ArgumentProblem::TooManyPositional(Statement::Keybind));
    }
    let named_description = match keyword_index(&keyword, &String::from_str("description")) {
        Some(i) => Some(keyword[i].1.clone()),
        None => None,
    };
    let named_command = match keyword_index(&keyword, &String::from_str("command")) {
        Some(i) => Some(keyword[i].1.clone()),
        None => None,
    };
    match (named_description, named_command) {
        (Some(description), Some(command)) => {
            if n > 0 {
                Err(ArgumentProblem::AllByKeyword)
            } else {
                Ok((command, Some(description)))
            }
        },
        (Some(description), None) => {
            if n == 0 {
                Err(ArgumentProblem::MissingCommand)
            } else if n == 1 {
                Ok((positional[0].clone(), Some(description)))
            } else {
                Err(ArgumentProblem::TooManyPositional(Statement::Keybind))
            }
        },
        (None, Some(command)) => {
            if n == 0 {
                Ok((command, None))
            } else if n == 1 {
                Ok((command, Some(positional[0].clone())))
            } else {
                Err(ArgumentProblem::TooManyPositional(Statement::Keybind))
            }
        },
        (None, None) => {
            if n == 0 {
                Err(ArgumentProblem::MissingCommand)
            } else if n == 1 {
                Ok((positional[0].clone(), None))
            } else {
                Ok((positional[1].clone(), Some(positional[0].clone())))
            }
        },
    }
}

} // verus!
