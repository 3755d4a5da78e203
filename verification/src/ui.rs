//! The decisions of the interactive chooser: how descriptions are fitted to
//! the terminal, and what a key press does to the keys typed so far.

use vstd::prelude::*;

use crate::menu::{is_node, menu_command, Choice, Menu};
use crate::text::chars_of;

verus! {

// ---------------------------------------------------------------------------
// Display width.
// ---------------------------------------------------------------------------

/// Name of what `unicode_width::UnicodeWidthChar::width` returns for a
/// character: its column width, or `None` for a control character.
pub uninterp spec fn unicode_char_width(c: char) -> Option<usize>;

/// Name of what `unicode_width::UnicodeWidthStr::width` returns for a string:
/// its column width, which is not always the sum of its characters' widths.
pub uninterp spec fn unicode_str_width(s: Seq<char>) -> usize;

/// `UnicodeWidthChar::width`. The contract names the result and says no
/// more: the Unicode width tables are not restated here.
#[verifier::external_body]
fn char_width(c: char) -> (r: Option<usize>)
    ensures
        r == unicode_char_width(c),
{
    unicode_width::UnicodeWidthChar::width(c)
}

/// `UnicodeWidthStr::width`. The contract names the result and says no
/// more: the width rules for strings are not restated here.
#[verifier::external_body]
fn str_width(s: &str) -> (r: usize)
    ensures
        r == unicode_str_width(s@),
{
    unicode_width::UnicodeWidthStr::width(s)
}

/// The width counted for a character when fitting text: control characters
/// count as nothing.
pub open spec fn counted_width(c: char) -> nat {
    match unicode_char_width(c) {
        Some(w) => w as nat,
        None => 0,
    }
}

/// The total counted width of some characters.
pub open spec fn counted_total(s: Seq<char>) -> nat
    decreases s.len(),
{
    if s.len() == 0 {
        0
    } else {
        counted_width(s[0]) + counted_total(s.drop_first())
    }
}

/// How many leading characters fit in `budget` columns, taken one by one
/// until the first that does not fit.
pub open spec fn fitting_count(s: Seq<char>, budget: int) -> nat
    decreases s.len(),
{
    if s.len() == 0 || counted_width(s[0]) > budget {
        0
    } else {
        1 + fitting_count(s.drop_first(), budget - counted_width(s[0]))
    }
}

/// The column width reserved for the ellipsis.
pub open spec fn ellipsis_width() -> int {
    match unicode_char_width('…') {
        Some(w) => w as int,
        None => 1,
    }
}

/// A description cut to `max_width` columns: unchanged if it fits, empty if
/// no column is available, otherwise the characters that fit beside an
/// ellipsis, then the ellipsis.
pub open spec fn truncated(description: Seq<char>, max_width: int) -> Seq<char> {
    if unicode_str_width(description) <= max_width {
        description
    } else if max_width == 0 {
        seq![]
    } else {
        let content = if max_width >= ellipsis_width() {
            max_width - ellipsis_width()
        } else {
            0
        };
        description.take(fitting_count(description, content) as int).push('…')
    }
}

proof fn lemma_fitting_count_bound(s: Seq<char>, budget: int)
    ensures
        fitting_count(s, budget) <= s.len(),
    decreases s.len(),
{
    if s.len() > 0 && counted_width(s[0]) <= budget {
        lemma_fitting_count_bound(s.drop_first(), budget - counted_width(s[0]));
    }
}

/// Cuts a description to a display width.
pub fn truncate_description(description: &str, max_width: usize) -> (r: String)
    ensures
        r@ == truncated(description@, max_width as int),
{
    if str_width(description) <= max_width {
        return String::from_str(description);
    }
    if max_width == 0 {
        return String::new();
    }
    let ellipsis = '…';
    let ellipsis_columns = match char_width(ellipsis) {
        Some(w) => w,
        None => 1,
    };
    let content_width = max_width.saturating_sub(ellipsis_columns);
    let ghost content = content_width as int;
    let chars = chars_of(description);
    let ghost s = chars@;
    let mut result = String::new();
    let mut width: usize = 0;
    let mut i: usize = 0;
    assert(s.skip(0) =~= s);
    while i < chars.len()
        invariant
            s == chars@,
            s == description@,
            content == content_width,
            i <= chars.len(),
            width <= content_width,
            result@ == s.take(i as int),
            fitting_count(s, content) == i + fitting_count(s.skip(i as int), content - width),
        ensures
            result@ == s.take(i as int),
            fitting_count(s, content) == i,
        decreases chars.len() - i,
    {
        let character = chars[i];
        let character_width = match char_width(character) {
            Some(w) => w,
            None => 0,
        };
        let ghost rest = s.skip(i as int);
        assert(rest.len() > 0);
        assert(rest[0] == character);
        assert(character_width == counted_width(character));
        if character_width > content_width - width {
            assert(fitting_count(s.skip(i as int), content - width) == 0);
            break ;
        }
        assert(s.skip(i as int).drop_first() =~= s.skip(i + 1));
        assert(fitting_count(s.skip(i as int), content - width) == 1 + fitting_count(
            s.skip(i + 1),
            content - width - character_width,
        ));
        result.push(character);
        assert(result@ =~= s.take(i + 1));
        width = width + character_width;
        i = i + 1;
    }
    result.push(ellipsis);
    result
}

/// The characters kept by a cut take no more columns than the budget beside
/// the ellipsis.
pub proof fn law_truncation_fits(s: Seq<char>, budget: int)
    requires
        budget >= 0,
    ensures
        counted_total(s.take(fitting_count(s, budget) as int)) <= budget,
    decreases s.len(),
{
    if s.len() > 0 && counted_width(s[0]) <= budget {
        let rest = s.drop_first();
        law_truncation_fits(rest, budget - counted_width(s[0]));
        let n = fitting_count(s, budget) as int;
        lemma_fitting_count_bound(s, budget);
        assert(s.take(n).drop_first() =~= rest.take(n - 1));
        assert(s.take(n)[0] == s[0]);
    } else {
        assert(s.take(0) =~= seq![]);
    }
}

/// Law: a cut keeps the longest prefix that fits: one more character would
/// take more columns than the budget.
pub proof fn law_truncation_keeps_longest_fit(s: Seq<char>, budget: int, n: int)
    requires
        budget >= 0,
        fitting_count(s, budget) < n <= s.len(),
    ensures
        counted_total(s.take(n)) > budget,
    decreases s.len(),
{
    let rest = s.drop_first();
    assert(s.take(n).drop_first() =~= rest.take(n - 1));
    assert(s.take(n)[0] == s[0]);
    if counted_width(s[0]) <= budget {
        law_truncation_keeps_longest_fit(rest, budget - counted_width(s[0]), n - 1);
    }
}

} // verus!

verus! {

// ---------------------------------------------------------------------------
// Layout.
// ---------------------------------------------------------------------------

/// The widest of some keys, by counted width.
pub open spec fn widest_key(keys: Seq<char>) -> nat
    decreases keys.len(),
{
    if keys.len() == 0 {
        0
    } else {
        let w = counted_width(keys.last());
        let m = widest_key(keys.drop_last());
        if w > m {
            w
        } else {
            m
        }
    }
}

pub open spec fn choice_keys<'a>(choices: Seq<Choice<'a>>) -> Seq<char> {
    choices.map_values(|c: Choice<'a>| c.key)
}

pub open spec fn any_group<'a>(choices: Seq<Choice<'a>>) -> bool {
    exists|i: int| 0 <= i < choices.len() && #[trigger] choices[i].is_group
}

/// The columns left for descriptions: the terminal width less the key
/// column, two spaces and, when a choice is a group, a three-column arrow;
/// never more than the optional maximum.
pub open spec fn width_limit<'a>(
    choices: Seq<Choice<'a>>,
    terminal_width: int,
    max_description_width: Option<usize>,
) -> int {
    let arrow = if any_group(choices) {
        3int
    } else {
        0int
    };
    let rest = terminal_width - (widest_key(choice_keys(choices)) + 2 + arrow);
    let available = if rest < 0 {
        0
    } else {
        rest
    };
    match max_description_width {
        Some(limit) => if limit < available {
            limit as int
        } else {
            available
        },
        None => available,
    }
}

/// Law: the description width never exceeds the maximum the user gives,
/// whatever the choices are, groups among them or not; it never exceeds
/// what the terminal leaves without a maximum, and is that whenever the
/// maximum is no smaller; and a wider terminal never gives less room.
pub proof fn law_width_limit_bounds<'a>(
    choices: Seq<Choice<'a>>,
    terminal_width: int,
    wider: int,
    maximum: usize,
)
    requires
        terminal_width <= wider,
    ensures
        0 <= width_limit(choices, terminal_width, Some(maximum)) <= maximum,
        width_limit(choices, terminal_width, Some(maximum)) <= width_limit(
            choices,
            terminal_width,
            None,
        ),
        0 <= width_limit(choices, terminal_width, None) <= if terminal_width < 0 {
            0
        } else {
            terminal_width
        },
        maximum >= width_limit(choices, terminal_width, None) ==> width_limit(
            choices,
            terminal_width,
            Some(maximum),
        ) == width_limit(choices, terminal_width, None),
        width_limit(choices, terminal_width, None) <= width_limit(choices, wider, None),
        width_limit(choices, terminal_width, Some(maximum)) <= width_limit(
            choices,
            wider,
            Some(maximum),
        ),
{
}

/// Law: without a maximum, every further terminal column goes to the
/// descriptions once the key column fits; a group among the choices costs
/// them exactly the three columns of its arrow; and with no choices only the
/// two columns of separation are taken.
pub proof fn law_width_limit_columns<'a>(
    choices: Seq<Choice<'a>>,
    other: Seq<Choice<'a>>,
    terminal_width: int,
)
    ensures
        terminal_width >= widest_key(choice_keys(choices)) + 5 ==> width_limit(
            choices,
            terminal_width + 1,
            None,
        ) == width_limit(choices, terminal_width, None) + 1,
        (choice_keys(other) == choice_keys(choices) && any_group(choices) && !any_group(other)
            && terminal_width >= widest_key(choice_keys(choices)) + 5) ==> width_limit(
            other,
            terminal_width,
            None,
        ) == width_limit(choices, terminal_width, None) + 3,
        width_limit(Seq::<Choice<'a>>::empty(), terminal_width, None) == if terminal_width < 2 {
            0
        } else {
            terminal_width - 2
        },
{
    let none = Seq::<Choice<'a>>::empty();
    assert(choice_keys(none) =~= Seq::<char>::empty());
    assert(!any_group(none));
}

/// The width to which the descriptions of these choices are cut.
pub fn description_width_limit(
    choices: &Vec<Choice<'_>>,
    terminal_width: usize,
    max_description_width: Option<usize>,
) -> (r: usize)
    ensures
        r == width_limit(choices@, terminal_width as int, max_description_width),
{
    let ghost keys = choice_keys(choices@);
    let mut key_width: usize = 0;
    let mut has_group = false;
    let mut i: usize = 0;
    assert(keys.take(0) =~= seq![]);
    while i < choices.len()
        invariant
            keys == choice_keys(choices@),
            i <= choices.len(),
            key_width == widest_key(keys.take(i as int)),
            has_group == exists|j: int| 0 <= j < i && #[trigger] choices@[j].is_group,
        decreases choices.len() - i,
    {
        let w = match char_width(choices[i].key) {
            Some(w) => w,
            None => 0,
        };
        assert(keys.take(i + 1).drop_last() =~= keys.take(i as int));
        assert(keys.take(i + 1).last() == choices@[i as int].key);
        if w > key_width {
            key_width = w;
        }
        if choices[i].is_group {
            has_group = true;
        }
        i = i + 1;
    }
    assert(keys.take(choices.len() as int) =~= keys);
    let arrow: usize = if has_group {
        3
    } else {
        0
    };
    let available = terminal_width.saturating_sub(key_width).saturating_sub(2 + arrow);
    match max_description_width {
        Some(limit) => if limit < available {
            limit
        } else {
            available
        },
        None => available,
    }
}

// ---------------------------------------------------------------------------
// Key presses.
// ---------------------------------------------------------------------------

/// A key press, as the chooser distinguishes them.
#[derive(Clone, Copy, Debug, PartialEq, Eq, Structural)]
pub enum KeyInput {
    /// Escape or Ctrl-C.
    Cancel,
    Backspace,
    /// A character typed without modifiers, or with Shift only.
    Char(char),
    Other,
}

/// What the chooser does after a key press.
#[derive(Clone, Debug)]
pub enum KeyOutcome {
    /// Draw the menu for the keys typed so far and wait for the next key.
    Continue,
    /// The key leads nowhere: ring the bell and wait.
    Bell,
    /// Stop without a command.
    Cancelled,
    /// Stop with this command.
    Selected(String),
}

/// Applies one key press to the keys typed so far.
pub fn handle_key(menu: &Menu, prefix: &mut Vec<char>, input: KeyInput) -> (r: KeyOutcome)
    ensures
        match input {
            KeyInput::Cancel => r is Cancelled && final(prefix)@ == old(prefix)@,
            KeyInput::Backspace => r is Continue && final(prefix)@ == if old(prefix)@.len() > 0 {
                old(prefix)@.drop_last()
            } else {
                old(prefix)@
            },
            KeyInput::Char(c) => match menu_command(menu@, old(prefix)@.push(c)) {
                Some(command) => (r matches KeyOutcome::Selected(s) && s@ == command)
                    && final(prefix)@ == old(prefix)@.push(c),
                None => if is_node(menu@, old(prefix)@.push(c)) {
                    r is Continue && final(prefix)@ == old(prefix)@.push(c)
                } else {
                    r is Bell && final(prefix)@ == old(prefix)@
                },
            },
            KeyInput::Other => r is Continue && final(prefix)@ == old(prefix)@,
        },
        // The keys typed so far always lead somewhere.
        is_node(menu@, old(prefix)@) && (r is Continue || r is Bell) ==> is_node(
            menu@,
            final(prefix)@,
        ),
{
    proof {
        use_type_invariant(menu);
        menu.lemma_well_formed();
    }
    match input {
        KeyInput::Cancel => KeyOutcome::Cancelled,
        KeyInput::Backspace => {
            let ghost before = prefix@;
            if prefix.len() > 0 {
                prefix.pop();
                proof {
                    if before.len() > 1 {
                        assert(before.take(before.len() - 1) =~= before.drop_last());
                    }
                }
            }
            KeyOutcome::Continue
        },
        KeyInput::Char(c) => {
            prefix.push(c);
            match menu.command(prefix.as_slice()) {
                Some(command) => {
                    return KeyOutcome::Selected(String::from_str(command));
                },
                None => {},
            }
            if !menu.contains_prefix(prefix.as_slice()) {
                prefix.pop();
                return KeyOutcome::Bell;
            }
            KeyOutcome::Continue
        },
        KeyInput::Other => KeyOutcome::Continue,
    }
}

} // verus!
