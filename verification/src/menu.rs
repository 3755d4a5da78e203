//! The menu: a tree of key chords built from a configuration. Every binding's
//! keys are a path from the root; intermediate prefixes are inferred, groups
//! name them, and a binding may not be the prefix of another binding.

use vstd::prelude::*;

use crate::config::{optional_view, Binding, BindingView, Config, ConfigView, Group, GroupView};
use crate::text::{
    blank, char_at_index, chars_equal, chars_less, chars_of, chars_of_slice, copy_chars,
    debug_quoted, debug_text, is_blank, is_control, is_control_char, is_whitespace_char, lemma_seq_less_irreflexive,
    lemma_seq_less_total, lemma_seq_less_transitive, seq_less, string_of,
};

verus! {

/// What a node of the menu holds: the description shown for it, and the
/// command it runs, if it is a binding.
pub struct NodeView {
    pub description: Option<Seq<char>>,
    pub command: Option<Seq<char>>,
}

/// The menu as a map from the key path of each node (the root excepted) to
/// its contents.
pub type Tree = Map<Seq<char>, NodeView>;

/// Which kind of statement a key problem was found in.
#[derive(Clone, Copy, Debug, PartialEq, Eq, Structural)]
pub enum KeyKind {
    Binding,
    Group,
}

/// Why a configuration does not make a menu. `S` is `String` in values and
/// `Seq<char>` in their views.
#[derive(Clone, Debug)]
pub enum MenuFailure<S> {
    NoBindings,
    EmptyDescription(KeyKind, S),
    EmptyCommand(S),
    EmptyKeys(KeyKind),
    ControlCharacter(KeyKind, S),
    DuplicateBinding(S),
    DuplicateGroup(S),
    AmbiguousPrefix(S),
}

pub type MenuError = MenuFailure<String>;

pub type MenuErrorView = MenuFailure<Seq<char>>;

impl View for MenuFailure<String> {
    type V = MenuFailure<Seq<char>>;

    open spec fn view(&self) -> MenuFailure<Seq<char>> {
        match self {
            MenuFailure::NoBindings => MenuFailure::NoBindings,
            MenuFailure::EmptyDescription(k, s) => MenuFailure::EmptyDescription(*k, s@),
            MenuFailure::EmptyCommand(s) => MenuFailure::EmptyCommand(s@),
            MenuFailure::EmptyKeys(k) => MenuFailure::EmptyKeys(*k),
            MenuFailure::ControlCharacter(k, s) => MenuFailure::ControlCharacter(*k, s@),
            MenuFailure::DuplicateBinding(s) => MenuFailure::DuplicateBinding(s@),
            MenuFailure::DuplicateGroup(s) => MenuFailure::DuplicateGroup(s@),
            MenuFailure::AmbiguousPrefix(s) => MenuFailure::AmbiguousPrefix(s@),
        }
    }
}

/// Shown for a node that has no description.
pub const OMITTED: &'static str = "…";

/// Appended to the description of a binding that has no command.
pub const BROKEN_COMMAND: &'static str = "[missing command]";

pub open spec fn omitted() -> Seq<char> {
    OMITTED@
}

pub open spec fn broken_marker() -> Seq<char> {
    BROKEN_COMMAND@
}

/// The description a binding gives its node: its own, marked when the
/// command is missing, or else its command.
pub open spec fn binding_description(b: BindingView) -> Seq<char> {
    match (b.description, b.command) {
        (Some(d), Some(_)) => d,
        (Some(d), None) => d + " "@ + broken_marker(),
        (None, Some(c)) => c,
        (None, None) => broken_marker(),
    }
}

pub open spec fn has_control_char(keys: Seq<char>) -> bool {
    exists|i: int| 0 <= i < keys.len() && is_control_char(#[trigger] keys[i])
}

/// What is wrong with a statement's keys, if anything.
pub open spec fn key_problem(keys: Seq<char>, kind: KeyKind) -> Option<MenuErrorView> {
    if keys.len() == 0 {
        Some(MenuFailure::EmptyKeys(kind))
    } else if has_control_char(keys) {
        Some(MenuFailure::ControlCharacter(kind, keys))
    } else {
        None
    }
}

pub open spec fn empty_node() -> NodeView {
    NodeView { description: None, command: None }
}

/// `p` is a non-empty prefix of `keys`.
pub open spec fn is_prefix_path(p: Seq<char>, keys: Seq<char>) -> bool {
    0 < p.len() <= keys.len() && p == keys.take(p.len() as int)
}

/// The tree with a node for every non-empty prefix of `keys`; existing nodes
/// keep their contents, new ones are empty.
pub open spec fn with_path(tree: Tree, keys: Seq<char>) -> Tree {
    Map::new(
        |p: Seq<char>| tree.contains_key(p) || is_prefix_path(p, keys),
        |p: Seq<char>|
            if tree.contains_key(p) {
                tree[p]
            } else {
                empty_node()
            },
    )
}

/// Adds one binding.
pub open spec fn insert_binding_spec(tree: Tree, b: BindingView) -> Result<Tree, MenuErrorView> {
    if b.description matches Some(d) && is_blank(d) {
        Err(MenuFailure::EmptyDescription(KeyKind::Binding, b.keys))
    } else if b.command matches Some(c) && is_blank(c) {
        Err(MenuFailure::EmptyCommand(b.keys))
    } else {
        match key_problem(b.keys, KeyKind::Binding) {
            Some(e) => Err(e),
            None => {
                let t = with_path(tree, b.keys);
                if t[b.keys].command is Some {
                    Err(MenuFailure::DuplicateBinding(b.keys))
                } else {
                    Ok(
                        t.insert(
                            b.keys,
                            NodeView {
                                description: Some(binding_description(b)),
                                command: b.command,
                            },
                        ),
                    )
                }
            },
        }
    }
}

/// Names the node of one group. A group whose node does not exist, or is a
/// binding, changes nothing.
pub open spec fn insert_group_spec(tree: Tree, g: GroupView) -> Result<Tree, MenuErrorView> {
    if g.description matches Some(d) && is_blank(d) {
        Err(MenuFailure::EmptyDescription(KeyKind::Group, g.keys))
    } else {
        match key_problem(g.keys, KeyKind::Group) {
            Some(e) => Err(e),
            None => if !tree.contains_key(g.keys) || tree[g.keys].command is Some {
                Ok(tree)
            } else if tree[g.keys].description is Some {
                Err(MenuFailure::DuplicateGroup(g.keys))
            } else {
                Ok(
                    tree.insert(
                        g.keys,
                        NodeView {
                            description: Some(
                                match g.description {
                                    Some(d) => d,
                                    None => omitted(),
                                },
                            ),
                            command: None,
                        },
                    ),
                )
            },
        }
    }
}

/// Adds the bindings in order, stopping at the first error.
pub open spec fn fold_bindings(bindings: Seq<BindingView>, tree: Tree) -> Result<
    Tree,
    MenuErrorView,
>
    decreases bindings.len(),
{
    if bindings.len() == 0 {
        Ok(tree)
    } else {
        match insert_binding_spec(tree, bindings[0]) {
            Err(e) => Err(e),
            Ok(t) => fold_bindings(bindings.drop_first(), t),
        }
    }
}

/// Adds the groups in order, stopping at the first error.
pub open spec fn fold_groups(groups: Seq<GroupView>, tree: Tree) -> Result<Tree, MenuErrorView>
    decreases groups.len(),
{
    if groups.len() == 0 {
        Ok(tree)
    } else {
        match insert_group_spec(tree, groups[0]) {
            Err(e) => Err(e),
            Ok(t) => fold_groups(groups.drop_first(), t),
        }
    }
}

/// Some node's key path extended by `c`.
pub open spec fn has_children(tree: Tree, p: Seq<char>) -> bool {
    exists|c: char| #[trigger] tree.contains_key(p.push(c))
}

/// A binding whose keys are also the prefix of another node.
pub open spec fn is_ambiguous(tree: Tree, p: Seq<char>) -> bool {
    &&& tree.contains_key(p)
    &&& tree[p].command is Some
    &&& has_children(tree, p)
}

/// The ambiguous binding that is reported: the first in key order.
pub open spec fn is_first_ambiguous(tree: Tree, p: Seq<char>) -> bool {
    &&& is_ambiguous(tree, p)
    &&& forall|q: Seq<char>| #[trigger] is_ambiguous(tree, q) ==> !seq_less(q, p)
}

/// The menu that a configuration makes, or why it makes none: bindings first,
/// then groups, then the check that no binding is a prefix of another.
pub open spec fn menu_tree(config: ConfigView) -> Result<Tree, MenuErrorView> {
    if config.bindings.len() == 0 {
        Err(MenuFailure::NoBindings)
    } else {
        match fold_bindings(config.bindings, Map::empty()) {
            Err(e) => Err(e),
            Ok(t) => match fold_groups(config.groups, t) {
                Err(e) => Err(e),
                Ok(t2) => if exists|p: Seq<char>| is_ambiguous(t2, p) {
                    Err(MenuFailure::AmbiguousPrefix(choose|p: Seq<char>| is_first_ambiguous(t2, p)))
                } else {
                    Ok(t2)
                },
            },
        }
    }
}

/// The tree's nodes are non-empty paths whose prefixes are nodes too.
pub open spec fn tree_wf(tree: Tree) -> bool {
    forall|p: Seq<char>|
        #[trigger] tree.contains_key(p) ==> p.len() > 0 && forall|k: int|
            0 < k < p.len() ==> tree.contains_key(#[trigger] p.take(k))
}

/// The root, or a node of the tree.
pub open spec fn is_node(tree: Tree, keys: Seq<char>) -> bool {
    keys.len() == 0 || tree.contains_key(keys)
}

/// The command of the node at `keys`.
pub open spec fn menu_command(tree: Tree, keys: Seq<char>) -> Option<Seq<char>> {
    if keys.len() > 0 && tree.contains_key(keys) {
        tree[keys].command
    } else {
        None
    }
}

/// A node without a command and without children: a binding whose command
/// is missing.
pub open spec fn menu_is_broken(tree: Tree, keys: Seq<char>) -> bool {
    is_node(tree, keys) && menu_command(tree, keys) is None && !has_children(tree, keys)
}

/// The description shown for a node.
pub open spec fn shown_description(node: NodeView) -> Seq<char> {
    match node.description {
        Some(d) => d,
        None => omitted(),
    }
}

// ---------------------------------------------------------------------------
// The representation: one entry per node, the root excepted.
// ---------------------------------------------------------------------------

#[derive(Debug)]
struct Entry {
    path: Vec<char>,
    description: Option<String>,
    command: Option<String>,
}

spec fn node_of(e: Entry) -> NodeView {
    NodeView { description: optional_view(e.description), command: optional_view(e.command) }
}

spec fn entries_view(es: Seq<Entry>) -> Tree
    decreases es.len(),
{
    if es.len() == 0 {
        Map::empty()
    } else {
        entries_view(es.drop_last()).insert(es.last().path@, node_of(es.last()))
    }
}

spec fn unique_paths(es: Seq<Entry>) -> bool {
    forall|i: int, j: int|
        0 <= i < es.len() && 0 <= j < es.len() && i != j ==> #[trigger] es[i].path@
            != #[trigger] es[j].path@
}

proof fn lemma_entries_view(es: Seq<Entry>)
    requires
        unique_paths(es),
    ensures
        forall|p: Seq<char>|
            #[trigger] entries_view(es).contains_key(p) <==> exists|i: int|
                0 <= i < es.len() && #[trigger] es[i].path@ == p,
        forall|i: int|
            0 <= i < es.len() ==> #[trigger] entries_view(es)[es[i].path@] == node_of(es[i]),
    decreases es.len(),
{
    if es.len() > 0 {
        let init = es.drop_last();
        assert(unique_paths(init));
        lemma_entries_view(init);
        assert forall|p: Seq<char>|
            #[trigger] entries_view(es).contains_key(p) <==> exists|i: int|
                0 <= i < es.len() && #[trigger] es[i].path@ == p by {
            if entries_view(es).contains_key(p) {
                if p == es.last().path@ {
                    assert(es[es.len() - 1].path@ == p);
                } else {
                    let i = choose|i: int| 0 <= i < init.len() && #[trigger] init[i].path@ == p;
                    assert(es[i].path@ == p);
                }
            }
            if exists|i: int| 0 <= i < es.len() && #[trigger] es[i].path@ == p {
                let i = choose|i: int| 0 <= i < es.len() && #[trigger] es[i].path@ == p;
                if i < es.len() - 1 {
                    assert(init[i].path@ == p);
                }
            }
        }
        assert forall|i: int| 0 <= i < es.len() implies #[trigger] entries_view(es)[es[i].path@]
            == node_of(es[i]) by {
            if i < es.len() - 1 {
                assert(init[i] == es[i]);
                assert(es[i].path@ != es[es.len() - 1].path@);
            }
        }
    }
}

proof fn lemma_entries_view_push(es: Seq<Entry>, e: Entry)
    ensures
        entries_view(es.push(e)) == entries_view(es).insert(e.path@, node_of(e)),
{
    assert(es.push(e).drop_last() =~= es);
}

proof fn lemma_entries_view_update(es: Seq<Entry>, i: int, e: Entry)
    requires
        unique_paths(es),
        0 <= i < es.len(),
        e.path@ == es[i].path@,
    ensures
        entries_view(es.update(i, e)) == entries_view(es).insert(e.path@, node_of(e)),
        unique_paths(es.update(i, e)),
    decreases es.len(),
{
    let es2 = es.update(i, e);
    assert forall|a: int, b: int|
        0 <= a < es2.len() && 0 <= b < es2.len() && a != b implies #[trigger] es2[a].path@
        != #[trigger] es2[b].path@ by {
        assert(es2[a].path@ == es[a].path@);
        assert(es2[b].path@ == es[b].path@);
    }
    let init = es.drop_last();
    if i == es.len() - 1 {
        assert(es2.drop_last() =~= init);
        assert(entries_view(es2) =~= entries_view(es).insert(e.path@, node_of(e)));
    } else {
        assert(es2.drop_last() =~= init.update(i, e));
        assert(unique_paths(init));
        lemma_entries_view_update(init, i, e);
        assert(es[i].path@ != es[es.len() - 1].path@);
        assert(entries_view(es2) =~= entries_view(es).insert(e.path@, node_of(e)));
    }
}


// ---------------------------------------------------------------------------
// Building the menu.
// ---------------------------------------------------------------------------

proof fn lemma_with_path_wf(tree: Tree, keys: Seq<char>)
    requires
        tree_wf(tree),
    ensures
        tree_wf(with_path(tree, keys)),
{
    let t = with_path(tree, keys);
    assert forall|p: Seq<char>| #[trigger] t.contains_key(p) implies p.len() > 0 && forall|k: int|
        0 < k < p.len() ==> t.contains_key(#[trigger] p.take(k)) by {
        if !tree.contains_key(p) {
            assert forall|k: int| 0 < k < p.len() implies t.contains_key(#[trigger] p.take(k)) by {
                assert(p.take(k) =~= keys.take(k));
            }
        }
    }
}

proof fn lemma_insert_existing_wf(tree: Tree, p: Seq<char>, node: NodeView)
    requires
        tree_wf(tree),
        tree.contains_key(p),
    ensures
        tree_wf(tree.insert(p, node)),
        tree.insert(p, node).dom() == tree.dom(),
{
    assert(tree.insert(p, node).dom() =~= tree.dom());
}

/// The index of the entry for `path`.
fn find(entries: &Vec<Entry>, path: &Vec<char>) -> (r: Option<usize>)
    requires
        unique_paths(entries@),
    ensures
        match r {
            Some(i) => i < entries.len() && entries@[i as int].path@ == path@
                && entries_view(entries@).contains_key(path@) && entries_view(entries@)[path@]
                == node_of(entries@[i as int]),
            None => !entries_view(entries@).contains_key(path@),
        },
{
    let mut i: usize = 0;
    while i < entries.len()
        invariant
            unique_paths(entries@),
            i <= entries.len(),
            forall|j: int| 0 <= j < i ==> entries@[j].path@ != path@,
        decreases entries.len() - i,
    {
        if chars_equal(&entries[i].path, path) {
            proof {
                lemma_entries_view(entries@);
            }
            return Some(i);
        }
        i = i + 1;
    }
    proof {
        lemma_entries_view(entries@);
    }
    None
}

/// The characters of `keys`, or what is wrong with them.
fn validate_keys(keys: &String, kind: KeyKind) -> (r: Result<Vec<char>, MenuError>)
    ensures
        match key_problem(keys@, kind) {
            Some(e) => r matches Err(x) && x@ == e,
            None => r matches Ok(chars) && chars@ == keys@,
        },
{
    let chars = chars_of(keys.as_str());
    if chars.len() == 0 {
        return Err(MenuFailure::EmptyKeys(kind));
    }
    let mut i: usize = 0;
    while i < chars.len()
        invariant
            chars@ == keys@,
            i <= chars.len(),
            forall|j: int| 0 <= j < i ==> !is_control_char(#[trigger] chars@[j]),
        decreases chars.len() - i,
    {
        if is_control(chars[i]) {
            return Err(MenuFailure::ControlCharacter(kind, keys.clone()));
        }
        i = i + 1;
    }
    Ok(chars)
}

/// Makes sure that every non-empty prefix of `keys` has a node, and gives
/// the index of the node for `keys` itself.
fn key_path(entries: &mut Vec<Entry>, keys: &String, kind: KeyKind) -> (r: Result<usize, MenuError>)
    requires
        unique_paths(old(entries)@),
        tree_wf(entries_view(old(entries)@)),
    ensures
        match key_problem(keys@, kind) {
            Some(e) => r matches Err(x) && x@ == e && final(entries)@ == old(entries)@,
            None => r matches Ok(i) && i < final(entries).len() && final(entries)@[i as int].path@
                == keys@ && unique_paths(final(entries)@) && entries_view(final(entries)@)
                == with_path(entries_view(old(entries)@), keys@),
        },
        // A path that is already there adds nothing.
        entries_view(old(entries)@).contains_key(keys@) ==> final(entries)@ == old(entries)@,
{
    let ghost original_entries = entries@;
    let chars = match validate_keys(keys, kind) {
        Ok(c) => c,
        Err(e) => {
            return Err(e);
        },
    };
    let ghost tree = entries_view(entries@);
    let mut prefix: Vec<char> = Vec::new();
    let mut i: usize = 0;
    assert(with_path(tree, chars@.take(0)) =~= tree);
    while i < chars.len()
        invariant
            chars@ == keys@,
            i <= chars.len(),
            prefix@ == chars@.take(i as int),
            unique_paths(entries@),
            entries_view(entries@) == with_path(tree, chars@.take(i as int)),
            tree == entries_view(original_entries),
            tree_wf(tree),
            tree.contains_key(keys@) ==> entries@ == original_entries,
        decreases chars.len() - i,
    {
        prefix.push(chars[i]);
        let ghost current = entries_view(entries@);
        let ghost p = chars@.take(i + 1);
        assert(prefix@ =~= p);
        assert forall|q: Seq<char>| is_prefix_path(q, p) <==> (is_prefix_path(q, chars@.take(i as int))
            || q == p) by {
            if 0 < q.len() <= i {
                assert(p.take(q.len() as int) =~= chars@.take(q.len() as int));
                assert(chars@.take(i as int).take(q.len() as int) =~= chars@.take(q.len() as int));
            }
            if q.len() == i + 1 && is_prefix_path(q, p) {
                assert(p.take(q.len() as int) =~= p);
            }
            if q == p {
                assert(p.take(p.len() as int) =~= p);
            }
        }
        match find(entries, &prefix) {
            Some(_) => {
                assert(entries_view(entries@) =~= with_path(tree, p));
            },
            None => {
                proof {
                    if tree.contains_key(keys@) {
                        if i + 1 < chars.len() {
                            assert(tree.contains_key(keys@.take(i + 1)));
                        } else {
                            assert(p =~= keys@);
                        }
                        assert(current.contains_key(p));
                    }
                }
                let entry = Entry { path: copy_chars(&prefix), description: None, command: None };
                let ghost old_entries = entries@;
                proof {
                    lemma_entries_view(entries@);
                    lemma_entries_view_push(entries@, entry);
                }
                entries.push(entry);
                assert forall|a: int, b: int|
                    0 <= a < entries@.len() && 0 <= b < entries@.len() && a != b implies #[trigger] entries@[a].path@
                    != #[trigger] entries@[b].path@ by {
                    if a == entries@.len() - 1 {
                        assert(entries@[b] == old_entries[b]);
                        assert(current.contains_key(old_entries[b].path@));
                    } else if b == entries@.len() - 1 {
                        assert(entries@[a] == old_entries[a]);
                        assert(current.contains_key(old_entries[a].path@));
                    }
                }
                assert(entries_view(entries@) =~= with_path(tree, p));
            },
        }
        i = i + 1;
    }
    assert(chars@.take(chars.len() as int) =~= chars@);
    match find(entries, &chars) {
        Some(index) => Ok(index),
        None => {
            proof {
                assert(is_prefix_path(chars@, chars@));
            }
            Ok(0)
        },
    }
}


proof fn lemma_insert_binding_wf(tree: Tree, b: BindingView)
    requires
        tree_wf(tree),
    ensures
        insert_binding_spec(tree, b) matches Ok(t) ==> tree_wf(t),
{
    if key_problem(b.keys, KeyKind::Binding) is None {
        lemma_with_path_wf(tree, b.keys);
        let t = with_path(tree, b.keys);
        assert(b.keys.take(b.keys.len() as int) =~= b.keys);
        assert(is_prefix_path(b.keys, b.keys));
        lemma_insert_existing_wf(
            t,
            b.keys,
            NodeView { description: Some(binding_description(b)), command: b.command },
        );
    }
}

proof fn lemma_insert_group_wf(tree: Tree, g: GroupView)
    requires
        tree_wf(tree),
    ensures
        insert_group_spec(tree, g) matches Ok(t) ==> tree_wf(t),
{
    if tree.contains_key(g.keys) {
        lemma_insert_existing_wf(
            tree,
            g.keys,
            NodeView {
                description: Some(
                    match g.description {
                        Some(d) => d,
                        None => omitted(),
                    },
                ),
                command: None,
            },
        );
    }
}

fn copy_option(o: &Option<String>) -> (r: Option<String>)
    ensures
        optional_view(r) == optional_view(*o),
{
    match o {
        Some(s) => Some(s.clone()),
        None => None,
    }
}

/// Adds one binding: its node gets the binding's description and command.
fn insert_binding(entries: &mut Vec<Entry>, binding: &Binding) -> (r: Result<(), MenuError>)
    requires
        unique_paths(old(entries)@),
        tree_wf(entries_view(old(entries)@)),
    ensures
        match insert_binding_spec(entries_view(old(entries)@), binding@) {
            Ok(t) => r is Ok && entries_view(final(entries)@) == t && unique_paths(final(entries)@)
                && tree_wf(t),
            Err(e) => r matches Err(x) && x@ == e && final(entries)@ == old(entries)@,
        },
{
    proof {
        lemma_insert_binding_wf(entries_view(entries@), binding@);
    }
    match &binding.description {
        Some(d) => {
            if blank(d.as_str()) {
                return Err(MenuFailure::EmptyDescription(KeyKind::Binding, binding.keys.clone()));
            }
        },
        None => {},
    }
    match &binding.command {
        Some(c) => {
            if blank(c.as_str()) {
                return Err(MenuFailure::EmptyCommand(binding.keys.clone()));
            }
        },
        None => {},
    }
    let ghost before = entries@;
    let index = match key_path(entries, &binding.keys, KeyKind::Binding) {
        Ok(i) => i,
        Err(e) => {
            return Err(e);
        },
    };
    proof {
        lemma_entries_view(entries@);
    }
    if entries[index].command.is_some() {
        proof {
            let w = with_path(entries_view(before), binding.keys@);
            assert(entries_view(entries@)[binding.keys@] == node_of(entries@[index as int]));
            assert(w[binding.keys@].command is Some);
            assert(binding.keys@.take(binding.keys@.len() as int) =~= binding.keys@);
            if !entries_view(before).contains_key(binding.keys@) {
                assert(is_prefix_path(binding.keys@, binding.keys@));
                assert(w[binding.keys@] == empty_node());
            }
        }
        return Err(MenuFailure::DuplicateBinding(binding.keys.clone()));
    }
    let description = match (&binding.description, &binding.command) {
        (Some(d), Some(_)) => d.clone(),
        (Some(d), None) => {
            let mut text = d.clone();
            text.append(" ");
            text.append(BROKEN_COMMAND);
            text
        },
        (None, Some(c)) => c.clone(),
        (None, None) => String::from_str(BROKEN_COMMAND),
    };
    let entry = Entry {
        path: copy_chars(&entries[index].path),
        description: Some(description),
        command: copy_option(&binding.command),
    };
    proof {
        lemma_entries_view_update(entries@, index as int, entry);
    }
    entries.set(index, entry);
    Ok(())
}

/// Names the node of a group, where there is one that is not a binding.
fn insert_group(entries: &mut Vec<Entry>, group: &Group) -> (r: Result<(), MenuError>)
    requires
        unique_paths(old(entries)@),
        tree_wf(entries_view(old(entries)@)),
    ensures
        match insert_group_spec(entries_view(old(entries)@), group@) {
            Ok(t) => r is Ok && entries_view(final(entries)@) == t && unique_paths(final(entries)@)
                && tree_wf(t),
            Err(e) => r matches Err(x) && x@ == e && final(entries)@ == old(entries)@,
        },
{
    proof {
        lemma_insert_group_wf(entries_view(entries@), group@);
    }
    match &group.description {
        Some(d) => {
            if blank(d.as_str()) {
                return Err(MenuFailure::EmptyDescription(KeyKind::Group, group.keys.clone()));
            }
        },
        None => {},
    }
    let keys = match validate_keys(&group.keys, KeyKind::Group) {
        Ok(k) => k,
        Err(e) => {
            return Err(e);
        },
    };
    let index = match node_at_path_mut(entries, &keys) {
        Some(i) => i,
        None => {
            return Ok(());
        },
    };
    if entries[index].command.is_some() {
        return Ok(());
    }
    if entries[index].description.is_some() {
        return Err(MenuFailure::DuplicateGroup(group.keys.clone()));
    }
    let description = match &group.description {
        Some(d) => d.clone(),
        None => String::from_str(OMITTED),
    };
    let entry = Entry {
        path: copy_chars(&entries[index].path),
        description: Some(description),
        command: None,
    };
    proof {
        lemma_entries_view_update(entries@, index as int, entry);
    }
    entries.set(index, entry);
    Ok(())
}

/// The index of the node at `keys`, if it exists.
fn node_at_path_mut(entries: &Vec<Entry>, keys: &Vec<char>) -> (r: Option<usize>)
    requires
        unique_paths(entries@),
    ensures
        match r {
            Some(i) => i < entries.len() && entries@[i as int].path@ == keys@
                && entries_view(entries@).contains_key(keys@) && entries_view(entries@)[keys@]
                == node_of(entries@[i as int]),
            None => !entries_view(entries@).contains_key(keys@),
        },
{
    find(entries, keys)
}

/// Whether `prefix` is a prefix of `chars`.
fn starts_with(chars: &Vec<char>, prefix: &Vec<char>) -> (r: bool)
    ensures
        r == (prefix@.len() <= chars@.len() && chars@.take(prefix@.len() as int) == prefix@),
{
    if prefix.len() > chars.len() {
        return false;
    }
    let mut i: usize = 0;
    while i < prefix.len()
        invariant
            prefix.len() <= chars.len(),
            i <= prefix.len(),
            forall|j: int| 0 <= j < i ==> chars@[j] == prefix@[j],
        decreases prefix.len() - i,
    {
        if chars[i] != prefix[i] {
            assert(chars@.take(prefix@.len() as int)[i as int] != prefix@[i as int]);
            return false;
        }
        i = i + 1;
    }
    assert(chars@.take(prefix@.len() as int) =~= prefix@);
    true
}

/// Whether some node extends `path` by one key.
fn has_child(entries: &Vec<Entry>, path: &Vec<char>) -> (r: bool)
    requires
        unique_paths(entries@),
    ensures
        r == has_children(entries_view(entries@), path@),
{
    let ghost t = entries_view(entries@);
    proof {
        lemma_entries_view(entries@);
    }
    let mut j: usize = 0;
    while j < entries.len()
        invariant
            unique_paths(entries@),
            t == entries_view(entries@),
            j <= entries.len(),
            forall|k: int|
                0 <= k < j ==> !(entries@[k].path@.len() == path@.len() + 1 && #[trigger] entries@[
                    k
                ].path@.take(path@.len() as int) == path@),
        decreases entries.len() - j,
    {
        if entries[j].path.len() > path.len() && entries[j].path.len() - 1 == path.len() && starts_with(&entries[j].path, path) {
            let ghost q = entries@[j as int].path@;
            proof {
                lemma_entries_view(entries@);
                assert(q =~= path@.push(q.last()));
                assert(t.contains_key(path@.push(q.last())));
            }
            return true;
        }
        j = j + 1;
    }
    proof {
        lemma_entries_view(entries@);
        if has_children(t, path@) {
            let c = choose|c: char| #[trigger] t.contains_key(path@.push(c));
            let k = choose|k: int| 0 <= k < entries@.len() && #[trigger] entries@[k].path@ == path@.push(c);
            assert(entries@[k].path@.take(path@.len() as int) =~= path@);
        }
    }
    false
}

/// Rejects a binding that is also the prefix of another node, naming the
/// first such binding in key order.
fn validate(entries: &Vec<Entry>) -> (r: Result<(), MenuError>)
    requires
        unique_paths(entries@),
        tree_wf(entries_view(entries@)),
    ensures
        (exists|p: Seq<char>| is_ambiguous(entries_view(entries@), p)) ==> (r matches Err(x) && x@
            == MenuFailure::AmbiguousPrefix(
            choose|p: Seq<char>| is_first_ambiguous(entries_view(entries@), p),
        )),
        !(exists|p: Seq<char>| is_ambiguous(entries_view(entries@), p)) ==> r is Ok,
{
    let ghost t = entries_view(entries@);
    proof {
        lemma_entries_view(entries@);
    }
    let mut first: Option<usize> = None;
    let mut i: usize = 0;
    while i < entries.len()
        invariant
            unique_paths(entries@),
            t == entries_view(entries@),
            i <= entries.len(),
            forall|j: int| 0 <= j < entries.len() ==> #[trigger] t[entries@[j].path@] == node_of(entries@[j]),
            forall|j: int| 0 <= j < entries.len() ==> t.contains_key(#[trigger] entries@[j].path@),
            match first {
                Some(b) => b < i && is_ambiguous(t, entries@[b as int].path@) && forall|j: int|
                    0 <= j < i && is_ambiguous(t, #[trigger] entries@[j].path@) ==> !seq_less(
                        entries@[j].path@,
                        entries@[b as int].path@,
                    ),
                None => forall|j: int| 0 <= j < i ==> !is_ambiguous(t, #[trigger] entries@[j].path@),
            },
        decreases entries.len() - i,
    {
        if entries[i].command.is_some() && has_child(entries, &entries[i].path) {
            match first {
                None => {
                    proof {
                        lemma_seq_less_irreflexive(entries@[i as int].path@);
                    }
                    first = Some(i);
                },
                Some(b) => {
                    if chars_less(&entries[i].path, &entries[b].path) {
                        proof {
                            assert forall|j: int|
                                0 <= j < i + 1 && is_ambiguous(t, #[trigger] entries@[j].path@)
                                    implies !seq_less(entries@[j].path@, entries@[i as int].path@) by {
                                if j < i {
                                    if seq_less(entries@[j].path@, entries@[i as int].path@) {
                                        lemma_seq_less_transitive(
                                            entries@[j].path@,
                                            entries@[i as int].path@,
                                            entries@[b as int].path@,
                                        );
                                    }
                                } else {
                                    lemma_seq_less_irreflexive(entries@[i as int].path@);
                                }
                            }
                        }
                        first = Some(i);
                    }
                },
            }
        }
        i = i + 1;
    }
    match first {
        None => {
            proof {
                if exists|p: Seq<char>| is_ambiguous(t, p) {
                    let p = choose|p: Seq<char>| is_ambiguous(t, p);
                    let k = choose|k: int| 0 <= k < entries@.len() && #[trigger] entries@[k].path@ == p;
                    assert(!is_ambiguous(t, entries@[k].path@));
                }
            }
            Ok(())
        },
        Some(b) => {
            let ghost name = entries@[b as int].path@;
            proof {
                assert forall|q: Seq<char>| #[trigger] is_ambiguous(t, q) implies !seq_less(q, name) by {
                    let k = choose|k: int| 0 <= k < entries@.len() && #[trigger] entries@[k].path@ == q;
                    assert(is_ambiguous(t, entries@[k].path@));
                }
                assert(is_first_ambiguous(t, name));
                let chosen = choose|p: Seq<char>| is_first_ambiguous(t, p);
                lemma_seq_less_total(chosen, name);
            }
            Err(MenuFailure::AmbiguousPrefix(string_of(&entries[b].path)))
        },
    }
}


// ---------------------------------------------------------------------------
// The menu.
// ---------------------------------------------------------------------------

/// One entry of a menu level: the key that selects it, the description shown
/// beside it, and whether it leads to further keys.
#[derive(Clone, Copy, Debug)]
pub struct Choice<'a> {
    pub key: char,
    pub description: &'a str,
    pub is_group: bool,
}

/// The menu built from a configuration.
#[derive(Debug)]
pub struct Menu {
    entries: Vec<Entry>,
}

impl View for Menu {
    type V = Tree;

    closed spec fn view(&self) -> Tree {
        entries_view(self.entries@)
    }
}

impl Menu {
    #[verifier::type_invariant]
    pub closed spec fn well_formed(self) -> bool {
        &&& unique_paths(self.entries@)
        &&& tree_wf(entries_view(self.entries@))
    }

    /// Every menu's nodes are closed under prefixes.
    pub proof fn lemma_well_formed(self)
        requires
            self.well_formed(),
        ensures
            tree_wf(self@),
    {
    }

    /// Builds the menu: bindings in order, then groups in order, then the
    /// check that no binding is also a prefix.
    pub fn new(config: Config) -> (r: Result<Menu, MenuError>)
        ensures
            match menu_tree(config@) {
                Ok(t) => r matches Ok(m) && m@ == t,
                Err(e) => r matches Err(x) && x@ == e,
            },
            r matches Ok(m) ==> tree_wf(m@),
    {
        let ghost cv = config@;
        if config.bindings.len() == 0 {
            return Err(MenuFailure::NoBindings);
        }
        let mut entries: Vec<Entry> = Vec::new();
        let mut i: usize = 0;
        assert(cv.bindings.skip(0) =~= cv.bindings);
        while i < config.bindings.len()
            invariant
                cv == config@,
                cv.bindings.len() > 0,
                i <= config.bindings.len(),
                unique_paths(entries@),
                tree_wf(entries_view(entries@)),
                fold_bindings(cv.bindings, Map::empty()) == fold_bindings(
                    cv.bindings.skip(i as int),
                    entries_view(entries@),
                ),
            decreases config.bindings.len() - i,
        {
            assert(cv.bindings.skip(i as int)[0] == config.bindings@[i as int]@);
            assert(cv.bindings.skip(i as int).drop_first() =~= cv.bindings.skip(i + 1));
            match insert_binding(&mut entries, &config.bindings[i]) {
                Ok(()) => {},
                Err(e) => {
                    return Err(e);
                },
            }
            i = i + 1;
        }
        let ghost after_bindings = entries_view(entries@);
        assert(fold_bindings(cv.bindings.skip(i as int), after_bindings) == Ok::<Tree, MenuErrorView>(after_bindings));
        let mut j: usize = 0;
        assert(cv.groups.skip(0) =~= cv.groups);
        while j < config.groups.len()
            invariant
                cv == config@,
                cv.bindings.len() > 0,
                fold_bindings(cv.bindings, Map::empty()) == Ok::<Tree, MenuErrorView>(after_bindings),
                j <= config.groups.len(),
                unique_paths(entries@),
                tree_wf(entries_view(entries@)),
                fold_groups(cv.groups, after_bindings) == fold_groups(
                    cv.groups.skip(j as int),
                    entries_view(entries@),
                ),
            decreases config.groups.len() - j,
        {
            assert(cv.groups.skip(j as int)[0] == config.groups@[j as int]@);
            assert(cv.groups.skip(j as int).drop_first() =~= cv.groups.skip(j + 1));
            match insert_group(&mut entries, &config.groups[j]) {
                Ok(()) => {},
                Err(e) => {
                    return Err(e);
                },
            }
            j = j + 1;
        }
        assert(fold_groups(cv.groups.skip(j as int), entries_view(entries@)) == Ok::<Tree, MenuErrorView>(entries_view(entries@)));
        match validate(&entries) {
            Ok(()) => {},
            Err(e) => {
                return Err(e);
            },
        }
        Ok(Menu { entries })
    }

    /// The index of the entry for a non-empty key path.
    fn node(&self, keys: &[char]) -> (r: Option<usize>)
        ensures
            match r {
                Some(i) => i < self.entries.len() && self@.contains_key(keys@) && self@[keys@]
                    == node_of(self.entries@[i as int]),
                None => !self@.contains_key(keys@),
            },
    {
        proof {
            use_type_invariant(self);
        }
        let path = chars_of_slice(keys);
        find(&self.entries, &path)
    }

    /// The choices for the given children of `path`, in the given order.
    #[verifier::spinoff_prover]
    fn describe_children(&self, children: &Vec<usize>, path: &Vec<char>) -> (result: Vec<Choice<'_>>)
        requires
            unique_paths(self.entries@),
            forall|x: int|
                0 <= x < children.len() ==> {
                    let e = #[trigger] children@[x];
                    &&& e < self.entries.len()
                    &&& self.entries@[e as int].path@.len() == path@.len() + 1
                    &&& self.entries@[e as int].path@ == path@.push(
                        self.entries@[e as int].path@[path@.len() as int],
                    )
                },
        ensures
            result@.len() == children.len(),
            forall|x: int| 0 <= x < children.len() ==> #[trigger] result@[x].key == self.entries@[children@[x] as int].path@[path@.len() as int],
            forall|x: int|
                0 <= x < children.len() ==> {
                    let child = path@.push(#[trigger] result@[x].key);
                    &&& self@.contains_key(child)
                    &&& result@[x].description@ == shown_description(self@[child])
                    &&& result@[x].is_group == has_children(self@, child)
                },
    {
        let n = path.len();
        let mut result: Vec<Choice<'_>> = Vec::new();
        let mut k: usize = 0;
        while k < children.len()
            invariant
                n == path@.len(),
                unique_paths(self.entries@),
                k <= children.len(),
                result@.len() == k,
                forall|x: int|
                    0 <= x < children.len() ==> {
                        let e = #[trigger] children@[x];
                        &&& e < self.entries.len()
                        &&& self.entries@[e as int].path@.len() == n + 1
                    },
                forall|x: int|
                    0 <= x < k ==> #[trigger] result@[x].key == self.entries@[children@[x] as int].path@[n as int],
                forall|x: int|
                    0 <= x < k ==> #[trigger] result@[x].description@ == shown_description(
                        node_of(self.entries@[children@[x] as int]),
                    ),
                forall|x: int|
                    0 <= x < k ==> #[trigger] result@[x].is_group == has_children(
                        entries_view(self.entries@),
                        self.entries@[children@[x] as int].path@,
                    ),
            decreases children.len() - k,
        {
            let e = children[k];
            let key = char_at_index(&self.entries[e].path, n);
            let description: &str = match &self.entries[e].description {
                Some(d) => d.as_str(),
                None => OMITTED,
            };
            let is_group = has_child(&self.entries, &self.entries[e].path);
            let ghost before = result@;
            let choice = Choice { key, description, is_group };
            assert(choice.key == self.entries@[e as int].path@[n as int]);
            assert(choice.description@ == shown_description(node_of(self.entries@[e as int])));
            assert(choice.is_group == has_children(
                entries_view(self.entries@),
                self.entries@[e as int].path@,
            ));
            result.push(choice);
            proof {
                assert(result@ == before.push(choice));
                assert forall|x: int| 0 <= x < k implies #[trigger] result@[x] == before[x] by {}
                assert(result@[k as int] == choice);
            }
            k = k + 1;
        }
        proof {
            lemma_entries_view(self.entries@);
            assert forall|x: int| 0 <= x < children.len() implies {
                let child = path@.push(#[trigger] result@[x].key);
                &&& self@.contains_key(child)
                &&& result@[x].description@ == shown_description(self@[child])
                &&& result@[x].is_group == has_children(self@, child)
            } by {
                let e = children@[x] as int;
                assert(path@.push(result@[x].key) == self.entries@[e].path@);
            }
        }
        result
    }

    /// The choices offered after `prefix` has been typed, in key order.
    pub fn choices(&self, prefix: &[char]) -> (r: Vec<Choice<'_>>)
        ensures
            !is_node(self@, prefix@) ==> r.len() == 0,
            forall|i: int, j: int| 0 <= i < j < r.len() ==> r@[i].key < r@[j].key,
            forall|i: int|
                0 <= i < r.len() ==> {
                    let child = prefix@.push(#[trigger] r@[i].key);
                    &&& is_node(self@, prefix@)
                    &&& self@.contains_key(child)
                    &&& r@[i].description@ == shown_description(self@[child])
                    &&& r@[i].is_group == has_children(self@, child)
                },
            forall|c: char|
                is_node(self@, prefix@) && #[trigger] self@.contains_key(prefix@.push(c))
                    ==> exists|i: int| 0 <= i < r.len() && r@[i].key == c,
    {
        proof {
            use_type_invariant(self);
            lemma_entries_view(self.entries@);
        }
        let ghost t = self@;
        let path = chars_of_slice(prefix);
        if path.len() > 0 && find(&self.entries, &path).is_none() {
            return Vec::new();
        }
        let ghost p = prefix@;
        let n = path.len();
        // Indices of the children of `path`, ordered by their last key.
        let mut children: Vec<usize> = Vec::new();
        let mut j: usize = 0;
        while j < self.entries.len()
            invariant
                path@ == p,
                n == p.len(),
                t == entries_view(self.entries@),
                unique_paths(self.entries@),
                j <= self.entries.len(),
                forall|k: int|
                    0 <= k < children.len() ==> {
                        let e = #[trigger] children@[k];
                        &&& e < j
                        &&& self.entries@[e as int].path@.len() == n + 1
                        &&& self.entries@[e as int].path@ == p.push(
                            self.entries@[e as int].path@[n as int],
                        )
                    },
                forall|a: int, b: int|
                    0 <= a < b < children.len() ==> self.entries@[children@[a] as int].path@[n as int]
                        < self.entries@[children@[b] as int].path@[n as int],
                forall|k: int|
                    0 <= k < j && #[trigger] self.entries@[k].path@.len() == n + 1
                        && self.entries@[k].path@.take(n as int) == p ==> exists|x: int|
                        0 <= x < children.len() && children@[x] == k,
            decreases self.entries.len() - j,
        {
            let entry_path = &self.entries[j].path;
            if entry_path.len() > n && entry_path.len() - 1 == n && starts_with(entry_path, &path) {
                let key = entry_path[n];
                let ghost q = self.entries@[j as int].path@;
                assert(q =~= p.push(key));
                let mut pos: usize = 0;
                while pos < children.len() && self.entries[children[pos]].path[n] < key
                    invariant
                        pos <= children.len(),
                        j < self.entries.len(),
                        n == p.len(),
                        forall|k: int|
                            0 <= k < children.len() ==> {
                                let e = #[trigger] children@[k];
                                &&& e < j
                                &&& self.entries@[e as int].path@.len() == n + 1
                            },
                        forall|k: int|
                            0 <= k < pos ==> self.entries@[children@[k] as int].path@[n as int]
                                < key,
                        forall|a: int, b: int|
                            0 <= a < b < children.len() ==> self.entries@[children@[a] as int].path@[n as int]
                                < self.entries@[children@[b] as int].path@[n as int],
                    decreases children.len() - pos,
                {
                    pos = pos + 1;
                }
                let ghost before = children@;
                proof {
                    // No earlier child has the same key: its path would be the same.
                    assert forall|k: int| 0 <= k < before.len() implies self.entries@[before[k] as int].path@[n as int] != key by {
                        let e = before[k] as int;
                        if self.entries@[e].path@[n as int] == key {
                            assert(self.entries@[e].path@ =~= q);
                        }
                    }
                }
                children.insert(pos, j);
                proof {
                    assert forall|a: int, b: int|
                        0 <= a < b < children.len() implies self.entries@[children@[a] as int].path@[n as int]
                        < self.entries@[children@[b] as int].path@[n as int] by {
                        if b < pos {
                            assert(children@[a] == before[a] && children@[b] == before[b]);
                        } else if b == pos {
                            assert(children@[a] == before[a]);
                        } else if a < pos {
                            assert(children@[a] == before[a] && children@[b] == before[b - 1]);
                            if pos < before.len() {
                                assert(self.entries@[before[pos as int] as int].path@[n as int] >= key);
                                assert(self.entries@[before[pos as int] as int].path@[n as int] != key);
                            }
                        } else if a == pos {
                            assert(children@[b] == before[b - 1]);
                            assert(self.entries@[before[pos as int] as int].path@[n as int] != key);
                        } else {
                            assert(children@[a] == before[a - 1] && children@[b] == before[b - 1]);
                        }
                    }
                    assert forall|k: int|
                        0 <= k < j + 1 && #[trigger] self.entries@[k].path@.len() == n + 1
                            && self.entries@[k].path@.take(n as int) == p implies exists|x: int|
                            0 <= x < children.len() && children@[x] == k by {
                        if k == j {
                            assert(children@[pos as int] == j);
                        } else {
                            let x = choose|x: int| 0 <= x < before.len() && before[x] == k;
                            if x < pos {
                                assert(children@[x] == k);
                            } else {
                                assert(children@[x + 1] == k);
                            }
                        }
                    }
                    assert forall|k: int| 0 <= k < children.len() implies {
                        let e = #[trigger] children@[k];
                        &&& e < j + 1
                        &&& self.entries@[e as int].path@.len() == n + 1
                        &&& self.entries@[e as int].path@ == p.push(
                            self.entries@[e as int].path@[n as int],
                        )
                    } by {
                        if k < pos {
                            assert(children@[k] == before[k]);
                        } else if k > pos {
                            assert(children@[k] == before[k - 1]);
                        }
                    }
                }
            } else {
                proof {
                    if self.entries@[j as int].path@.len() == n + 1 {
                        if self.entries@[j as int].path@.take(n as int) == p {
                            assert(false);
                        }
                    }
                }
            }
            j = j + 1;
        }
        let result = self.describe_children(&children, &path);
        proof {
            assert forall|c: char|
                is_node(t, p) && #[trigger] t.contains_key(p.push(c)) implies exists|i: int| 0 <= i < result.len() && result@[i].key == c by {
                let e = choose|e: int| 0 <= e < self.entries@.len() && #[trigger] self.entries@[e].path@ == p.push(c);
                assert(self.entries@[e].path@.take(n as int) =~= p);
                let x = choose|x: int| 0 <= x < children.len() && children@[x] == e;
                assert(result@[x].key == c);
            }
        }
        result
    }

    /// The command bound to exactly these keys.
    pub fn command(&self, keys: &[char]) -> (r: Option<&str>)
        ensures
            match menu_command(self@, keys@) {
                Some(c) => r matches Some(x) && x@ == c,
                None => r is None,
            },
    {
        if keys.len() == 0 {
            return None;
        }
        match self.node(keys) {
            Some(i) => match &self.entries[i].command {
                Some(c) => Some(c.as_str()),
                None => None,
            },
            None => None,
        }
    }

    /// Whether the keys typed so far lead somewhere.
    pub fn contains_prefix(&self, keys: &[char]) -> (r: bool)
        ensures
            r == is_node(self@, keys@),
    {
        keys.len() == 0 || self.node(keys).is_some()
    }

    /// Whether the keys name a binding whose command is missing.
    pub fn is_broken(&self, keys: &[char]) -> (r: bool)
        ensures
            r == menu_is_broken(self@, keys@),
    {
        proof {
            use_type_invariant(self);
        }
        let path = chars_of_slice(keys);
        if keys.len() == 0 {
            !has_child(&self.entries, &path)
        } else {
            match self.node(keys) {
                Some(i) => self.entries[i].command.is_none() && !has_child(&self.entries, &path),
                None => false,
            }
        }
    }
}


// ---------------------------------------------------------------------------
// Laws of the menu model.
// ---------------------------------------------------------------------------

/// What adding bindings keeps: every binding with a command resolves to it,
/// every prefix of a binding's keys is a node, and every command in the tree
/// comes from a binding.
pub open spec fn bindings_recorded(tree: Tree, bindings: Seq<BindingView>) -> bool {
    &&& forall|i: int|
        0 <= i < bindings.len() && (#[trigger] bindings[i]).command is Some ==> tree.contains_key(
            bindings[i].keys,
        ) && tree[bindings[i].keys].command == bindings[i].command
            && tree[bindings[i].keys].description == Some(binding_description(bindings[i]))
    &&& forall|i: int, k: int|
        0 <= i < bindings.len() && 0 < k <= bindings[i].keys.len() ==> tree.contains_key(
            #[trigger] bindings[i].keys.take(k),
        )
    &&& forall|p: Seq<char>|
        #[trigger] tree.contains_key(p) && tree[p].command is Some ==> exists|i: int|
            0 <= i < bindings.len() && #[trigger] bindings[i].keys == p && bindings[i].command
                == tree[p].command
}

proof fn lemma_insert_binding_records(tree: Tree, done: Seq<BindingView>, b: BindingView)
    requires
        bindings_recorded(tree, done),
        insert_binding_spec(tree, b) is Ok,
    ensures
        insert_binding_spec(tree, b) matches Ok(t) && bindings_recorded(t, done.push(b)),
{
    let k = b.keys;
    let w = with_path(tree, k);
    let t = w.insert(k, NodeView { description: Some(binding_description(b)), command: b.command });
    assert(k.take(k.len() as int) =~= k);
    assert(is_prefix_path(k, k));
    let all = done.push(b);
    assert forall|i: int| 0 <= i < all.len() && (#[trigger] all[i]).command is Some implies t.contains_key(
        all[i].keys,
    ) && t[all[i].keys].command == all[i].command && t[all[i].keys].description == Some(
        binding_description(all[i]),
    ) by {
        if i < done.len() {
            assert(all[i] == done[i]);
            if done[i].keys == k {
                assert(w[k] == tree[k]);
            }
        }
    }
    assert forall|i: int, j: int| 0 <= i < all.len() && 0 < j <= all[i].keys.len() implies t.contains_key(
        #[trigger] all[i].keys.take(j),
    ) by {
        if i < done.len() {
            assert(all[i] == done[i]);
        } else {
            assert(is_prefix_path(k.take(j), k)) by {
                assert(k.take(j).take(j) =~= k.take(j));
            }
        }
    }
    assert forall|p: Seq<char>| #[trigger] t.contains_key(p) && t[p].command is Some implies exists|i: int|
        0 <= i < all.len() && #[trigger] all[i].keys == p && all[i].command == t[p].command by {
        if p == k {
            assert(all[all.len() - 1].keys == p);
        } else {
            assert(tree.contains_key(p));
            let i = choose|i: int| 0 <= i < done.len() && #[trigger] done[i].keys == p && done[i].command == tree[p].command;
            assert(all[i] == done[i]);
        }
    }
}

proof fn lemma_fold_bindings_records(todo: Seq<BindingView>, tree: Tree, done: Seq<BindingView>)
    requires
        bindings_recorded(tree, done),
        fold_bindings(todo, tree) is Ok,
    ensures
        fold_bindings(todo, tree) matches Ok(t) && bindings_recorded(t, done + todo),
    decreases todo.len(),
{
    if todo.len() == 0 {
        assert(done + todo =~= done);
    } else {
        lemma_insert_binding_records(tree, done, todo[0]);
        let t1 = insert_binding_spec(tree, todo[0])->Ok_0;
        lemma_fold_bindings_records(todo.drop_first(), t1, done.push(todo[0]));
        assert(done.push(todo[0]) + todo.drop_first() =~= done + todo);
    }
}

proof fn lemma_insert_group_records(tree: Tree, done: Seq<BindingView>, g: GroupView)
    requires
        bindings_recorded(tree, done),
        insert_group_spec(tree, g) is Ok,
    ensures
        insert_group_spec(tree, g) matches Ok(t) && bindings_recorded(t, done),
{
    let t = insert_group_spec(tree, g)->Ok_0;
    if t != tree {
        assert(t.dom() =~= tree.dom());
        assert forall|p: Seq<char>| #[trigger] t.contains_key(p) && t[p].command is Some implies exists|i: int|
            0 <= i < done.len() && #[trigger] done[i].keys == p && done[i].command == t[p].command by {
            assert(tree.contains_key(p));
        }
        assert forall|i: int| 0 <= i < done.len() && (#[trigger] done[i]).command is Some implies t.contains_key(
            done[i].keys,
        ) && t[done[i].keys].command == done[i].command && t[done[i].keys].description == Some(
            binding_description(done[i]),
        ) by {
            assert(tree.contains_key(done[i].keys));
        }
    }
}

proof fn lemma_fold_groups_records(todo: Seq<GroupView>, tree: Tree, done: Seq<BindingView>)
    requires
        bindings_recorded(tree, done),
        fold_groups(todo, tree) is Ok,
    ensures
        fold_groups(todo, tree) matches Ok(t) && bindings_recorded(t, done),
    decreases todo.len(),
{
    if todo.len() > 0 {
        lemma_insert_group_records(tree, done, todo[0]);
        let t1 = insert_group_spec(tree, todo[0])->Ok_0;
        lemma_fold_groups_records(todo.drop_first(), t1, done);
    }
}

proof fn lemma_menu_tree_records(config: ConfigView)
    requires
        menu_tree(config) is Ok,
    ensures
        menu_tree(config) matches Ok(t) && bindings_recorded(t, config.bindings),
{
    let empty = Map::<Seq<char>, NodeView>::empty();
    assert(bindings_recorded(empty, seq![]));
    lemma_fold_bindings_records(config.bindings, empty, seq![]);
    assert(seq![] + config.bindings =~= config.bindings);
    let t = fold_bindings(config.bindings, empty)->Ok_0;
    lemma_fold_groups_records(config.groups, t, config.bindings);
}

/// Law: in a menu made from a configuration, the keys of every binding that
/// has a command select that command.
pub proof fn law_bindings_select_their_commands(config: ConfigView, i: int)
    requires
        menu_tree(config) is Ok,
        0 <= i < config.bindings.len(),
        config.bindings[i].command is Some,
    ensures
        menu_tree(config) matches Ok(t) && menu_command(t, config.bindings[i].keys)
            == config.bindings[i].command,
{
    lemma_menu_tree_records(config);
    let t = menu_tree(config)->Ok_0;
    assert(config.bindings[i].keys.len() > 0) by {
        if config.bindings[i].keys.len() == 0 {
            lemma_empty_keys_fail(config);
        }
    }
}

/// Law: a binding with a command shows its own description beside its key,
/// or its command when it has no description.
pub proof fn law_bindings_show_their_descriptions(config: ConfigView, i: int)
    requires
        menu_tree(config) is Ok,
        0 <= i < config.bindings.len(),
        config.bindings[i].command is Some,
    ensures
        menu_tree(config) matches Ok(t) && t.contains_key(config.bindings[i].keys)
            && shown_description(t[config.bindings[i].keys]) == match config.bindings[i].description {
            Some(d) => d,
            None => config.bindings[i].command->0,
        },
{
    lemma_menu_tree_records(config);
}

pub open spec fn group_description(g: GroupView) -> Seq<char> {
    match g.description {
        Some(d) => d,
        None => omitted(),
    }
}

/// What adding groups keeps: a group whose node exists and is not a binding
/// names it.
pub open spec fn groups_recorded(tree: Tree, groups: Seq<GroupView>) -> bool {
    forall|j: int|
        0 <= j < groups.len() && #[trigger] tree.contains_key(groups[j].keys)
            && tree[groups[j].keys].command is None ==> tree[groups[j].keys].description == Some(
            group_description(groups[j]),
        )
}

proof fn lemma_fold_groups_names(todo: Seq<GroupView>, tree: Tree, done: Seq<GroupView>)
    requires
        groups_recorded(tree, done),
        fold_groups(todo, tree) is Ok,
    ensures
        fold_groups(todo, tree) matches Ok(t) && groups_recorded(t, done + todo),
    decreases todo.len(),
{
    if todo.len() == 0 {
        assert(done + todo =~= done);
    } else {
        let g = todo[0];
        let t1 = insert_group_spec(tree, g)->Ok_0;
        let all = done.push(g);
        assert forall|j: int|
            0 <= j < all.len() && #[trigger] t1.contains_key(all[j].keys)
                && t1[all[j].keys].command is None implies t1[all[j].keys].description == Some(
            group_description(all[j]),
        ) by {
            if j < done.len() {
                assert(all[j] == done[j]);
            }
        }
        lemma_fold_groups_names(todo.drop_first(), t1, all);
        assert(all + todo.drop_first() =~= done + todo);
    }
}

/// Law: a group names the node of its keys, when that node exists and is
/// not a binding; a group without a description shows an ellipsis.
pub proof fn law_groups_name_their_nodes(config: ConfigView, j: int)
    requires
        menu_tree(config) is Ok,
        0 <= j < config.groups.len(),
    ensures
        menu_tree(config) matches Ok(t) && (t.contains_key(config.groups[j].keys)
            && t[config.groups[j].keys].command is None ==> shown_description(
            t[config.groups[j].keys],
        ) == group_description(config.groups[j])),
{
    let t0 = fold_bindings(config.bindings, Map::empty())->Ok_0;
    assert(groups_recorded(t0, seq![]));
    lemma_fold_groups_names(config.groups, t0, seq![]);
    assert(seq![] + config.groups =~= config.groups);
}

/// Every node lies on the key path of some binding.
pub open spec fn nodes_from_bindings(tree: Tree, bindings: Seq<BindingView>) -> bool {
    forall|p: Seq<char>|
        #[trigger] tree.contains_key(p) ==> exists|i: int, k: int|
            0 <= i < bindings.len() && 0 < k <= bindings[i].keys.len() && #[trigger] bindings[i].keys.take(k)
                == p
}

/// Every described node is the node of a binding or of a group.
pub open spec fn descriptions_explained(
    tree: Tree,
    bindings: Seq<BindingView>,
    groups: Seq<GroupView>,
) -> bool {
    forall|p: Seq<char>|
        #[trigger] tree.contains_key(p) && tree[p].description is Some ==> (exists|i: int|
            0 <= i < bindings.len() && #[trigger] bindings[i].keys == p) || (exists|j: int|
            0 <= j < groups.len() && #[trigger] groups[j].keys == p)
}

proof fn lemma_insert_binding_nodes(tree: Tree, done: Seq<BindingView>, b: BindingView)
    requires
        nodes_from_bindings(tree, done),
        descriptions_explained(tree, done, seq![]),
        insert_binding_spec(tree, b) is Ok,
    ensures
        insert_binding_spec(tree, b) matches Ok(t) && nodes_from_bindings(t, done.push(b))
            && descriptions_explained(t, done.push(b), seq![]),
{
    let k = b.keys;
    let w = with_path(tree, k);
    let t = insert_binding_spec(tree, b)->Ok_0;
    let all = done.push(b);
    assert(k.take(k.len() as int) =~= k);
    assert forall|p: Seq<char>| #[trigger] t.contains_key(p) implies exists|i: int, j: int|
        0 <= i < all.len() && 0 < j <= all[i].keys.len() && #[trigger] all[i].keys.take(j) == p by {
        if tree.contains_key(p) {
            let (i, j) = choose|i: int, j: int|
                0 <= i < done.len() && 0 < j <= done[i].keys.len() && #[trigger] done[i].keys.take(j)
                    == p;
            assert(all[i] == done[i]);
        } else {
            assert(is_prefix_path(p, k));
            assert(all[all.len() - 1].keys.take(p.len() as int) == p);
        }
    }
    assert forall|p: Seq<char>| #[trigger] t.contains_key(p) && t[p].description is Some implies (exists|i: int|
        0 <= i < all.len() && #[trigger] all[i].keys == p) || (exists|j: int|
        0 <= j < Seq::<GroupView>::empty().len() && #[trigger] Seq::<GroupView>::empty()[j].keys == p) by {
        if p == k {
            assert(all[all.len() - 1].keys == p);
        } else {
            assert(tree.contains_key(p));
            let i = choose|i: int| 0 <= i < done.len() && #[trigger] done[i].keys == p;
            assert(all[i] == done[i]);
        }
    }
}

proof fn lemma_fold_bindings_nodes(todo: Seq<BindingView>, tree: Tree, done: Seq<BindingView>)
    requires
        nodes_from_bindings(tree, done),
        descriptions_explained(tree, done, seq![]),
        fold_bindings(todo, tree) is Ok,
    ensures
        fold_bindings(todo, tree) matches Ok(t) && nodes_from_bindings(t, done + todo)
            && descriptions_explained(t, done + todo, seq![]),
    decreases todo.len(),
{
    if todo.len() == 0 {
        assert(done + todo =~= done);
    } else {
        lemma_insert_binding_nodes(tree, done, todo[0]);
        let t1 = insert_binding_spec(tree, todo[0])->Ok_0;
        lemma_fold_bindings_nodes(todo.drop_first(), t1, done.push(todo[0]));
        assert(done.push(todo[0]) + todo.drop_first() =~= done + todo);
    }
}

proof fn lemma_fold_groups_nodes(
    todo: Seq<GroupView>,
    tree: Tree,
    bindings: Seq<BindingView>,
    done: Seq<GroupView>,
)
    requires
        nodes_from_bindings(tree, bindings),
        descriptions_explained(tree, bindings, done),
        fold_groups(todo, tree) is Ok,
    ensures
        fold_groups(todo, tree) matches Ok(t) && nodes_from_bindings(t, bindings)
            && descriptions_explained(t, bindings, done + todo),
    decreases todo.len(),
{
    if todo.len() == 0 {
        assert(done + todo =~= done);
    } else {
        let g = todo[0];
        let t1 = insert_group_spec(tree, g)->Ok_0;
        let all = done.push(g);
        assert(t1.dom() =~= tree.dom());
        assert forall|p: Seq<char>| #[trigger] t1.contains_key(p) && t1[p].description is Some implies (exists|i: int|
            0 <= i < bindings.len() && #[trigger] bindings[i].keys == p) || (exists|j: int|
            0 <= j < all.len() && #[trigger] all[j].keys == p) by {
            if p == g.keys {
                assert(all[all.len() - 1].keys == p);
            } else {
                assert(tree.contains_key(p) && tree[p] == t1[p]);
                if exists|j: int| 0 <= j < done.len() && #[trigger] done[j].keys == p {
                    let j = choose|j: int| 0 <= j < done.len() && #[trigger] done[j].keys == p;
                    assert(all[j] == done[j]);
                }
            }
        }
        lemma_fold_groups_nodes(todo.drop_first(), t1, bindings, all);
        assert(all + todo.drop_first() =~= done + todo);
    }
}

proof fn lemma_menu_tree_nodes(config: ConfigView)
    requires
        menu_tree(config) is Ok,
    ensures
        menu_tree(config) matches Ok(t) && nodes_from_bindings(t, config.bindings)
            && descriptions_explained(t, config.bindings, config.groups),
{
    let empty = Map::<Seq<char>, NodeView>::empty();
    lemma_fold_bindings_nodes(config.bindings, empty, seq![]);
    assert(seq![] + config.bindings =~= config.bindings);
    let t = fold_bindings(config.bindings, empty)->Ok_0;
    lemma_fold_groups_nodes(config.groups, t, config.bindings, seq![]);
    assert(Seq::<GroupView>::empty() + config.groups =~= config.groups);
}

/// Law: every node of a menu lies on the key path of some binding; groups add
/// no nodes.
pub proof fn law_nodes_lie_on_bindings(config: ConfigView, keys: Seq<char>)
    requires
        menu_tree(config) is Ok,
    ensures
        menu_tree(config) matches Ok(t) && (t.contains_key(keys) ==> exists|i: int, k: int|
            0 <= i < config.bindings.len() && 0 < k <= config.bindings[i].keys.len()
                && #[trigger] config.bindings[i].keys.take(k) == keys),
{
    lemma_menu_tree_nodes(config);
}

/// Law: a prefix that no binding and no group names shows an ellipsis.
pub proof fn law_unnamed_prefixes_show_ellipsis(config: ConfigView, keys: Seq<char>)
    requires
        menu_tree(config) is Ok,
        forall|i: int| 0 <= i < config.bindings.len() ==> (#[trigger] config.bindings[i]).keys != keys,
        forall|j: int| 0 <= j < config.groups.len() ==> (#[trigger] config.groups[j]).keys != keys,
    ensures
        menu_tree(config) matches Ok(t) && (t.contains_key(keys) ==> shown_description(t[keys])
            == omitted()),
{
    lemma_menu_tree_nodes(config);
}

/// `a` equals `b` or is a prefix of it.
pub open spec fn is_prefix_or_equal(a: Seq<char>, b: Seq<char>) -> bool {
    a.len() <= b.len() && b.take(a.len() as int) == a
}

/// A binding that `Menu::new` accepts on its own: a command, no blank text,
/// and keys that are non-empty and free of control characters.
pub open spec fn acceptable_binding(b: BindingView) -> bool {
    &&& b.command matches Some(c) && !is_blank(c)
    &&& !(b.description matches Some(d) && is_blank(d))
    &&& key_problem(b.keys, KeyKind::Binding) is None
}

/// A group that `Menu::new` accepts on its own.
pub open spec fn acceptable_group(g: GroupView) -> bool {
    &&& !(g.description matches Some(d) && is_blank(d))
    &&& key_problem(g.keys, KeyKind::Group) is None
}

/// A configuration whose bindings have commands, whose keys neither repeat
/// nor extend one another, and whose groups name distinct keys.
pub open spec fn unambiguous_config(config: ConfigView) -> bool {
    &&& config.bindings.len() > 0
    &&& forall|i: int| 0 <= i < config.bindings.len() ==> acceptable_binding(#[trigger] config.bindings[i])
    &&& forall|i: int, j: int|
        0 <= i < config.bindings.len() && 0 <= j < config.bindings.len() && i != j
            ==> !is_prefix_or_equal(#[trigger] config.bindings[i].keys, #[trigger] config.bindings[j].keys)
    &&& forall|j: int| 0 <= j < config.groups.len() ==> acceptable_group(#[trigger] config.groups[j])
    &&& forall|a: int, b: int|
        0 <= a < config.groups.len() && 0 <= b < config.groups.len() && a != b
            ==> #[trigger] config.groups[a].keys != #[trigger] config.groups[b].keys
}

proof fn lemma_fold_bindings_succeed(all: Seq<BindingView>, i: int, tree: Tree)
    requires
        0 <= i <= all.len(),
        bindings_recorded(tree, all.take(i)),
        forall|a: int| 0 <= a < all.len() ==> acceptable_binding(#[trigger] all[a]),
        forall|a: int, b: int|
            0 <= a < all.len() && 0 <= b < all.len() && a != b ==> !is_prefix_or_equal(
                #[trigger] all[a].keys,
                #[trigger] all[b].keys,
            ),
    ensures
        fold_bindings(all.skip(i), tree) is Ok,
    decreases all.len() - i,
{
    if i < all.len() {
        let b = all[i];
        let done = all.take(i);
        assert(all.skip(i)[0] == b);
        let w = with_path(tree, b.keys);
        assert(b.keys.take(b.keys.len() as int) =~= b.keys);
        assert(is_prefix_path(b.keys, b.keys));
        if w[b.keys].command is Some {
            assert(tree.contains_key(b.keys));
            let a = choose|a: int| 0 <= a < done.len() && #[trigger] done[a].keys == b.keys && done[a].command == tree[b.keys].command;
            assert(all[a] == done[a]);
            assert(is_prefix_or_equal(all[a].keys, all[i].keys));
        }
        lemma_insert_binding_records(tree, done, b);
        let t1 = insert_binding_spec(tree, b)->Ok_0;
        assert(done.push(b) =~= all.take(i + 1));
        assert(all.skip(i).drop_first() =~= all.skip(i + 1));
        lemma_fold_bindings_succeed(all, i + 1, t1);
    }
}

/// Nodes without a command and with a description were named by a group.
pub open spec fn unbound_descriptions_from_groups(tree: Tree, groups: Seq<GroupView>) -> bool {
    forall|p: Seq<char>|
        #[trigger] tree.contains_key(p) && tree[p].command is None && tree[p].description is Some
            ==> exists|j: int| 0 <= j < groups.len() && #[trigger] groups[j].keys == p
}

proof fn lemma_fold_groups_succeed(all: Seq<GroupView>, i: int, tree: Tree)
    requires
        0 <= i <= all.len(),
        unbound_descriptions_from_groups(tree, all.take(i)),
        forall|j: int| 0 <= j < all.len() ==> acceptable_group(#[trigger] all[j]),
        forall|a: int, b: int|
            0 <= a < all.len() && 0 <= b < all.len() && a != b ==> #[trigger] all[a].keys
                != #[trigger] all[b].keys,
    ensures
        fold_groups(all.skip(i), tree) is Ok,
    decreases all.len() - i,
{
    if i < all.len() {
        let g = all[i];
        let done = all.take(i);
        assert(all.skip(i)[0] == g);
        if tree.contains_key(g.keys) && tree[g.keys].command is None && tree[g.keys].description is Some {
            let a = choose|a: int| 0 <= a < done.len() && #[trigger] done[a].keys == g.keys;
            assert(all[a] == done[a]);
        }
        let t1 = insert_group_spec(tree, g)->Ok_0;
        assert(done.push(g) =~= all.take(i + 1));
        assert forall|p: Seq<char>|
            #[trigger] t1.contains_key(p) && t1[p].command is None && t1[p].description is Some implies exists|j: int|
                0 <= j < all.take(i + 1).len() && #[trigger] all.take(i + 1)[j].keys == p by {
            if p == g.keys {
                assert(all.take(i + 1)[i].keys == p);
            } else {
                assert(tree.contains_key(p) && tree[p] == t1[p]);
                let a = choose|a: int| 0 <= a < done.len() && #[trigger] done[a].keys == p;
                assert(all.take(i + 1)[a] == done[a]);
            }
        }
        assert(all.skip(i).drop_first() =~= all.skip(i + 1));
        lemma_fold_groups_succeed(all, i + 1, t1);
    }
}

proof fn lemma_bindings_phase(config: ConfigView)
    requires
        unambiguous_config(config),
    ensures
        fold_bindings(config.bindings, Map::empty()) matches Ok(t) && bindings_recorded(
            t,
            config.bindings,
        ) && nodes_from_bindings(t, config.bindings) && unbound_descriptions_from_groups(
            t,
            config.groups.take(0),
        ),
{
    let empty = Map::<Seq<char>, NodeView>::empty();
    let bs = config.bindings;
    assert(bs.take(0) =~= Seq::<BindingView>::empty());
    assert(bs.skip(0) =~= bs);
    lemma_fold_bindings_succeed(bs, 0, empty);
    let t = fold_bindings(bs, empty)->Ok_0;
    lemma_fold_bindings_records(bs, empty, seq![]);
    assert(Seq::<BindingView>::empty() + bs =~= bs);
    lemma_fold_bindings_nodes(bs, empty, seq![]);
    assert forall|p: Seq<char>|
        #[trigger] t.contains_key(p) && t[p].command is None && t[p].description is Some implies exists|j: int|
            0 <= j < config.groups.take(0).len() && #[trigger] config.groups.take(0)[j].keys == p by {
        let i = choose|i: int| 0 <= i < bs.len() && #[trigger] bs[i].keys == p;
        assert(acceptable_binding(bs[i]));
    }
}

proof fn lemma_no_ambiguity(tree: Tree, bs: Seq<BindingView>)
    requires
        bindings_recorded(tree, bs),
        nodes_from_bindings(tree, bs),
        forall|a: int, b: int|
            0 <= a < bs.len() && 0 <= b < bs.len() && a != b ==> !is_prefix_or_equal(
                #[trigger] bs[a].keys,
                #[trigger] bs[b].keys,
            ),
    ensures
        !exists|p: Seq<char>| is_ambiguous(tree, p),
{
    if exists|p: Seq<char>| is_ambiguous(tree, p) {
        let p = choose|p: Seq<char>| is_ambiguous(tree, p);
        let c = choose|c: char| #[trigger] tree.contains_key(p.push(c));
        let i = choose|i: int| 0 <= i < bs.len() && #[trigger] bs[i].keys == p && bs[i].command == tree[p].command;
        let (j, k) = choose|j: int, k: int|
            0 <= j < bs.len() && 0 < k <= bs[j].keys.len() && #[trigger] bs[j].keys.take(k) == p.push(c);
        assert(bs[j].keys.take(p.len() as int) =~= p.push(c).take(p.len() as int));
        assert(p.push(c).take(p.len() as int) =~= p);
        assert(is_prefix_or_equal(bs[i].keys, bs[j].keys));
    }
}

/// Law: `Menu::new` succeeds on every configuration whose bindings have
/// commands and non-blank text, whose keys are valid and neither repeat nor
/// extend one another, and whose groups have non-blank descriptions and
/// distinct valid keys.
pub proof fn law_unambiguous_configs_make_menus(config: ConfigView)
    requires
        unambiguous_config(config),
    ensures
        menu_tree(config) is Ok,
{
    lemma_bindings_phase(config);
    let bs = config.bindings;
    let t = fold_bindings(bs, Map::empty())->Ok_0;
    assert(config.groups.skip(0) =~= config.groups);
    lemma_fold_groups_succeed(config.groups, 0, t);
    let t2 = fold_groups(config.groups, t)->Ok_0;
    lemma_fold_groups_records(config.groups, t, bs);
    lemma_fold_groups_nodes(config.groups, t, bs, seq![]);
    lemma_no_ambiguity(t2, bs);
}

proof fn lemma_fold_bindings_split(a: Seq<BindingView>, b: Seq<BindingView>, tree: Tree)
    ensures
        fold_bindings(a + b, tree) == match fold_bindings(a, tree) {
            Ok(t) => fold_bindings(b, t),
            Err(e) => Err(e),
        },
    decreases a.len(),
{
    if a.len() == 0 {
        assert(a + b =~= b);
    } else {
        assert((a + b).drop_first() =~= a.drop_first() + b);
        assert((a + b)[0] == a[0]);
        if let Ok(t) = insert_binding_spec(tree, a[0]) {
            lemma_fold_bindings_split(a.drop_first(), b, t);
        }
    }
}

/// Two bindings with commands whose keys are the same: the later one is a
/// duplicate, so adding the bindings fails.
proof fn lemma_repeated_keys_fail(bs: Seq<BindingView>, i: int, j: int)
    requires
        0 <= i < j < bs.len(),
        bs[i].command is Some,
        bs[i].keys == bs[j].keys,
    ensures
        fold_bindings(bs, Map::empty()) is Err,
{
    let empty = Map::<Seq<char>, NodeView>::empty();
    let before = bs.take(j);
    let after = bs.skip(j);
    assert(before + after =~= bs);
    lemma_fold_bindings_split(before, after, empty);
    if let Ok(t) = fold_bindings(before, empty) {
        lemma_fold_bindings_records(before, empty, seq![]);
        assert(Seq::<BindingView>::empty() + before =~= before);
        assert(before[i] == bs[i]);
        assert(t.contains_key(bs[i].keys) && t[bs[i].keys].command is Some);
        assert(after[0] == bs[j]);
        let w = with_path(t, bs[j].keys);
        assert(w[bs[j].keys] == t[bs[j].keys]);
        assert(insert_binding_spec(t, bs[j]) is Err);
    }
}

/// Law: a configuration in which one binding's keys equal or begin another
/// binding's keys, both with commands, makes no menu.
pub proof fn law_ambiguous_configs_make_no_menus(config: ConfigView, i: int, j: int)
    requires
        0 <= i < config.bindings.len(),
        0 <= j < config.bindings.len(),
        i != j,
        config.bindings[i].command is Some,
        config.bindings[j].command is Some,
        is_prefix_or_equal(config.bindings[i].keys, config.bindings[j].keys),
    ensures
        menu_tree(config) is Err,
{
    let bs = config.bindings;
    let empty = Map::<Seq<char>, NodeView>::empty();
    if bs[i].keys.len() == bs[j].keys.len() {
        assert(bs[i].keys =~= bs[j].keys);
        if i < j {
            lemma_repeated_keys_fail(bs, i, j);
        } else {
            lemma_repeated_keys_fail(bs, j, i);
        }
    } else if let Ok(t) = fold_bindings(bs, empty) {
        if let Ok(t2) = fold_groups(config.groups, t) {
            lemma_fold_bindings_records(bs, empty, seq![]);
            assert(Seq::<BindingView>::empty() + bs =~= bs);
            lemma_fold_groups_records(config.groups, t, bs);
            let p = bs[i].keys;
            let q = bs[j].keys;
            let c = q[p.len() as int];
            assert(q.take(p.len() + 1int) =~= p.push(c));
            assert(t2.contains_key(q.take(p.len() + 1int)));
            assert(t2.contains_key(p.push(c)));
            assert(is_ambiguous(t2, p));
        }
    }
}

/// The failure names text that is empty or only whitespace, of a binding or
/// group in the lists that has those keys.
pub open spec fn blank_text_explained(
    e: MenuErrorView,
    bindings: Seq<BindingView>,
    groups: Seq<GroupView>,
) -> bool {
    &&& (e matches MenuFailure::EmptyCommand(k) ==> exists|i: int|
        0 <= i < bindings.len() && #[trigger] bindings[i].keys == k && (bindings[i].command matches Some(
            c,
        ) && forall|j: int| 0 <= j < c.len() ==> is_whitespace_char(#[trigger] c[j])))
    &&& (e matches MenuFailure::EmptyDescription(KeyKind::Binding, k) ==> exists|i: int|
        0 <= i < bindings.len() && #[trigger] bindings[i].keys == k && (bindings[i].description matches Some(
            d,
        ) && forall|j: int| 0 <= j < d.len() ==> is_whitespace_char(#[trigger] d[j])))
    &&& (e matches MenuFailure::EmptyDescription(KeyKind::Group, k) ==> exists|i: int|
        0 <= i < groups.len() && #[trigger] groups[i].keys == k && (groups[i].description matches Some(
            d,
        ) && forall|j: int| 0 <= j < d.len() ==> is_whitespace_char(#[trigger] d[j])))
}

proof fn lemma_fold_bindings_blank(todo: Seq<BindingView>, tree: Tree, groups: Seq<GroupView>)
    ensures
        fold_bindings(todo, tree) matches Err(e) ==> blank_text_explained(e, todo, groups),
    decreases todo.len(),
{
    if todo.len() > 0 {
        let b = todo[0];
        match insert_binding_spec(tree, b) {
            Err(e) => {
                if let MenuFailure::EmptyCommand(k) = e {
                    assert(todo[0].keys == k);
                }
                if let MenuFailure::EmptyDescription(KeyKind::Binding, k) = e {
                    assert(todo[0].keys == k);
                }
            },
            Ok(t) => {
                let rest = todo.drop_first();
                lemma_fold_bindings_blank(rest, t, groups);
                if let Err(e) = fold_bindings(rest, t) {
                    if let MenuFailure::EmptyCommand(k) = e {
                        let i = choose|i: int| 0 <= i < rest.len() && #[trigger] rest[i].keys == k && (
                        rest[i].command matches Some(c) && forall|j: int|
                            0 <= j < c.len() ==> is_whitespace_char(#[trigger] c[j]));
                        assert(todo[i + 1] == rest[i]);
                    }
                    if let MenuFailure::EmptyDescription(KeyKind::Binding, k) = e {
                        let i = choose|i: int| 0 <= i < rest.len() && #[trigger] rest[i].keys == k && (
                        rest[i].description matches Some(d) && forall|j: int|
                            0 <= j < d.len() ==> is_whitespace_char(#[trigger] d[j]));
                        assert(todo[i + 1] == rest[i]);
                    }
                }
            },
        }
    }
}

proof fn lemma_fold_groups_blank(todo: Seq<GroupView>, tree: Tree, bindings: Seq<BindingView>)
    ensures
        fold_groups(todo, tree) matches Err(e) ==> blank_text_explained(e, bindings, todo),
    decreases todo.len(),
{
    if todo.len() > 0 {
        let g = todo[0];
        match insert_group_spec(tree, g) {
            Err(e) => {
                if let MenuFailure::EmptyDescription(KeyKind::Group, k) = e {
                    assert(todo[0].keys == k);
                }
            },
            Ok(t) => {
                let rest = todo.drop_first();
                lemma_fold_groups_blank(rest, t, bindings);
                if let Err(e) = fold_groups(rest, t) {
                    if let MenuFailure::EmptyDescription(KeyKind::Group, k) = e {
                        let i = choose|i: int| 0 <= i < rest.len() && #[trigger] rest[i].keys == k && (
                        rest[i].description matches Some(d) && forall|j: int|
                            0 <= j < d.len() ==> is_whitespace_char(#[trigger] d[j]));
                        assert(todo[i + 1] == rest[i]);
                    }
                }
            },
        }
    }
}

/// Law: text is rejected as empty only when it is empty or all whitespace.
/// A failure for an empty command or description names the keys of a
/// binding or group whose text has no character but whitespace; a command
/// or description with any other character is never the reason.
pub proof fn law_only_blank_text_is_rejected(config: ConfigView)
    ensures
        menu_tree(config) matches Err(e) ==> blank_text_explained(e, config.bindings, config.groups),
{
    lemma_fold_bindings_blank(config.bindings, Map::empty(), config.groups);
    if let Ok(t) = fold_bindings(config.bindings, Map::empty()) {
        lemma_fold_groups_blank(config.groups, t, config.bindings);
    }
}

/// Law: a node with children is a group or a prefix, never a broken binding.
pub proof fn law_nodes_with_children_are_not_broken(tree: Tree, keys: Seq<char>)
    requires
        has_children(tree, keys),
    ensures
        !menu_is_broken(tree, keys),
{
}

proof fn lemma_no_broken_keys(t: Tree, bs: Seq<BindingView>, keys: Seq<char>)
    requires
        bs.len() > 0,
        bindings_recorded(t, bs),
        nodes_from_bindings(t, bs),
        forall|i: int| 0 <= i < bs.len() ==> (#[trigger] bs[i]).command is Some,
    ensures
        !menu_is_broken(t, keys),
{
    if keys.len() == 0 {
        let k0 = bs[0].keys;
        if k0.len() > 0 {
            assert(k0.take(1) =~= keys.push(k0[0]));
            assert(t.contains_key(bs[0].keys.take(1)));
            assert(t.contains_key(keys.push(k0[0])));
        } else {
            assert(bs[0].command is Some);
            assert(t.contains_key(bs[0].keys));
            assert(t.contains_key(k0));
        }
    } else if t.contains_key(keys) {
        let (i, k) = choose|i: int, k: int|
            0 <= i < bs.len() && 0 < k <= bs[i].keys.len() && #[trigger] bs[i].keys.take(k) == keys;
        if k < bs[i].keys.len() {
            let c = bs[i].keys[k];
            assert(bs[i].keys.take(k + 1) =~= keys.push(c));
            assert(t.contains_key(bs[i].keys.take(k + 1)));
            assert(t.contains_key(keys.push(c)));
        } else {
            assert(bs[i].keys.take(k) =~= bs[i].keys);
            assert(bs[i].command is Some);
        }
    }
}

/// Law: a menu built from bindings that all have commands has no broken key
/// path: every node is a binding with its command, or has children.
pub proof fn law_complete_configs_have_no_broken_keys(config: ConfigView, keys: Seq<char>)
    requires
        menu_tree(config) is Ok,
        forall|i: int| 0 <= i < config.bindings.len() ==> (#[trigger] config.bindings[i]).command is Some,
    ensures
        menu_tree(config) matches Ok(t) && !menu_is_broken(t, keys),
{
    let bs = config.bindings;
    lemma_menu_tree_nodes(config);
    let empty = Map::<Seq<char>, NodeView>::empty();
    let t1 = fold_bindings(bs, empty)->Ok_0;
    lemma_fold_bindings_records(bs, empty, seq![]);
    assert(Seq::<BindingView>::empty() + bs =~= bs);
    lemma_fold_groups_records(config.groups, t1, bs);
    lemma_no_broken_keys(menu_tree(config)->Ok_0, bs, keys);
}

/// Law: a binding without a command, whose keys no other binding repeats or
/// extends, is reported broken by the menu built around it.
pub proof fn law_bindings_without_commands_are_broken(config: ConfigView, i: int)
    requires
        menu_tree(config) is Ok,
        0 <= i < config.bindings.len(),
        config.bindings[i].command is None,
        forall|j: int|
            0 <= j < config.bindings.len() && j != i ==> !is_prefix_or_equal(
                config.bindings[i].keys,
                #[trigger] config.bindings[j].keys,
            ),
    ensures
        menu_tree(config) matches Ok(t) && menu_is_broken(t, config.bindings[i].keys),
{
    let bs = config.bindings;
    let keys = bs[i].keys;
    lemma_menu_tree_nodes(config);
    let empty = Map::<Seq<char>, NodeView>::empty();
    let t1 = fold_bindings(bs, empty)->Ok_0;
    lemma_fold_bindings_records(bs, empty, seq![]);
    assert(Seq::<BindingView>::empty() + bs =~= bs);
    lemma_fold_groups_records(config.groups, t1, bs);
    let t = menu_tree(config)->Ok_0;
    lemma_fold_bindings_keys(bs, empty, i);
    assert(keys.take(keys.len() as int) =~= keys);
    assert(t.contains_key(bs[i].keys.take(keys.len() as int)));
    if t[keys].command is Some {
        let j = choose|j: int| 0 <= j < bs.len() && #[trigger] bs[j].keys == keys && bs[j].command
            == t[keys].command;
        assert(keys.take(keys.len() as int) =~= bs[j].keys);
        assert(is_prefix_or_equal(keys, bs[j].keys));
    }
    if has_children(t, keys) {
        let c = choose|c: char| #[trigger] t.contains_key(keys.push(c));
        let (j, k) = choose|j: int, k: int|
            0 <= j < bs.len() && 0 < k <= bs[j].keys.len() && #[trigger] bs[j].keys.take(k)
                == keys.push(c);
        assert(bs[j].keys.take(keys.len() as int) =~= keys.push(c).take(keys.len() as int));
        assert(keys.push(c).take(keys.len() as int) =~= keys);
        assert(is_prefix_or_equal(keys, bs[j].keys));
    }
}

/// Law: every command that a menu selects is the command of a binding with
/// exactly those keys.
pub proof fn law_commands_come_from_bindings(config: ConfigView, keys: Seq<char>)
    requires
        menu_tree(config) is Ok,
    ensures
        menu_tree(config) matches Ok(t) && (menu_command(t, keys) is Some ==> exists|i: int|
            0 <= i < config.bindings.len() && config.bindings[i].keys == keys
                && config.bindings[i].command == menu_command(t, keys)),
{
    lemma_menu_tree_records(config);
}

/// Law: every prefix of every binding's keys leads somewhere in the menu.
pub proof fn law_binding_prefixes_are_nodes(config: ConfigView, i: int, k: int)
    requires
        menu_tree(config) is Ok,
        0 <= i < config.bindings.len(),
        0 <= k <= config.bindings[i].keys.len(),
    ensures
        menu_tree(config) matches Ok(t) && is_node(t, config.bindings[i].keys.take(k)),
{
    lemma_menu_tree_records(config);
}

/// Law: a key path that selects a command leads nowhere further: no binding
/// is the prefix of another node.
pub proof fn law_commands_are_leaves(config: ConfigView, keys: Seq<char>)
    requires
        menu_tree(config) is Ok,
    ensures
        menu_tree(config) matches Ok(t) && (menu_command(t, keys) is Some ==> !has_children(t, keys)),
{
    let t = menu_tree(config)->Ok_0;
    if menu_command(t, keys) is Some && has_children(t, keys) {
        assert(is_ambiguous(t, keys));
    }
}

/// A binding with empty keys makes the whole configuration fail.
proof fn lemma_empty_keys_fail(config: ConfigView)
    requires
        menu_tree(config) is Ok,
    ensures
        forall|i: int| 0 <= i < config.bindings.len() ==> (#[trigger] config.bindings[i]).keys.len() > 0,
{
    assert forall|i: int| 0 <= i < config.bindings.len() implies (#[trigger] config.bindings[i]).keys.len() > 0 by {
        lemma_fold_bindings_keys(config.bindings, Map::empty(), i);
    }
}

proof fn lemma_fold_bindings_keys(todo: Seq<BindingView>, tree: Tree, i: int)
    requires
        fold_bindings(todo, tree) is Ok,
        0 <= i < todo.len(),
    ensures
        todo[i].keys.len() > 0,
    decreases todo.len(),
{
    if i > 0 {
        let t1 = insert_binding_spec(tree, todo[0])->Ok_0;
        lemma_fold_bindings_keys(todo.drop_first(), t1, i - 1);
    }
}

/// Law: the nodes of a menu are closed under prefixes: a key path that leads
/// somewhere extends one that does.
pub proof fn law_prefixes_of_nodes_are_nodes(tree: Tree, keys: Seq<char>, c: char)
    requires
        tree_wf(tree),
        is_node(tree, keys.push(c)),
    ensures
        is_node(tree, keys),
{
    if keys.len() > 0 {
        assert(keys.push(c).take(keys.len() as int) =~= keys);
    }
}

// ---------------------------------------------------------------------------
// Error messages.
// ---------------------------------------------------------------------------

pub open spec fn kind_name(kind: KeyKind) -> Seq<char> {
    match kind {
        KeyKind::Binding => "binding"@,
        KeyKind::Group => "group"@,
    }
}

/// The text of a menu error; keys are written as `{:?}` writes them.
pub open spec fn menu_error_message(error: MenuErrorView) -> Seq<char> {
    match error {
        MenuFailure::NoBindings => "config must contain at least one keybind"@,
        MenuFailure::EmptyDescription(kind, keys) => kind_name(kind) + " "@ + debug_text(keys)
            + " has an empty description"@,
        MenuFailure::EmptyCommand(keys) => "binding "@ + debug_text(keys)
            + " has an empty command"@,
        MenuFailure::EmptyKeys(kind) => kind_name(kind) + " keys cannot be empty"@,
        MenuFailure::ControlCharacter(kind, keys) => kind_name(kind) + " "@ + debug_text(keys)
            + " contains a control character"@,
        MenuFailure::DuplicateBinding(keys) => "duplicate binding "@ + debug_text(keys),
        MenuFailure::DuplicateGroup(keys) => "duplicate group "@ + debug_text(keys),
        MenuFailure::AmbiguousPrefix(keys) => "binding "@ + debug_text(keys)
            + " is also a prefix of another binding"@,
    }
}

impl KeyKind {
    pub fn name(&self) -> (r: &'static str)
        ensures
            r@ == kind_name(*self),
    {
        match self {
            KeyKind::Binding => "binding",
            KeyKind::Group => "group",
        }
    }
}

impl MenuFailure<String> {
    /// The error's text, as the command line reports it.
    pub fn message(&self) -> (r: String)
        ensures
            r@ == menu_error_message(self@),
    {
        match self {
            MenuFailure::NoBindings => String::from_str("config must contain at least one keybind"),
            MenuFailure::EmptyDescription(kind, keys) => {
                let mut r = String::from_str(kind.name());
                r.append(" ");
                let q = debug_quoted(keys.as_str());
                r.append(q.as_str());
                r.append(" has an empty description");
                r
            },
            MenuFailure::EmptyCommand(keys) => {
                let mut r = String::from_str("binding ");
                let q = debug_quoted(keys.as_str());
                r.append(q.as_str());
                r.append(" has an empty command");
                r
            },
            MenuFailure::EmptyKeys(kind) => {
                let mut r = String::from_str(kind.name());
                r.append(" keys cannot be empty");
                r
            },
            MenuFailure::ControlCharacter(kind, keys) => {
                let mut r = String::from_str(kind.name());
                r.append(" ");
                let q = debug_quoted(keys.as_str());
                r.append(q.as_str());
                r.append(" contains a control character");
                r
            },
            MenuFailure::DuplicateBinding(keys) => {
                let mut r = String::from_str("duplicate binding ");
                let q = debug_quoted(keys.as_str());
                r.append(q.as_str());
                r
            },
            MenuFailure::DuplicateGroup(keys) => {
                let mut r = String::from_str("duplicate group ");
                let q = debug_quoted(keys.as_str());
                r.append(q.as_str());
                r
            },
            MenuFailure::AmbiguousPrefix(keys) => {
                let mut r = String::from_str("binding ");
                let q = debug_quoted(keys.as_str());
                r.append(q.as_str());
                r.append(" is also a prefix of another binding");
                r
            },
        }
    }
}

} // verus!
