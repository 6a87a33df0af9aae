//! The interactive menu: which graph representation is in use, and what each line that the
//! user types asks for.
use crate::text::{trim_by, trim_whitespace, white};
use vstd::prelude::*;

verus! {

/// The graph representation that the menu's operations run on.
#[derive(Clone, Copy, Debug, PartialEq, Eq, Structural)]
pub enum DagKind {
    Adj,
    Linked,
    EdgeList,
}

/// The name under which the menu shows a representation.
pub open spec fn kind_name(k: DagKind) -> Seq<char> {
    match k {
        DagKind::Adj => "adjacency matrix"@,
        DagKind::Linked => "pointer-based"@,
        DagKind::EdgeList => "edge list"@,
    }
}

/// The representation that switching moves to: adjacency matrix, then pointer-based, then
/// edge list, then back to the adjacency matrix.
pub open spec fn next_kind(k: DagKind) -> DagKind {
    match k {
        DagKind::Adj => DagKind::Linked,
        DagKind::Linked => DagKind::EdgeList,
        DagKind::EdgeList => DagKind::Adj,
    }
}

impl DagKind {
    /// The name under which the menu shows this representation.
    pub fn name(&self) -> (r: &'static str)
        ensures
            r@ == kind_name(*self),
    {
        match self {
            DagKind::Adj => "adjacency matrix",
            DagKind::Linked => "pointer-based",
            DagKind::EdgeList => "edge list",
        }
    }

    /// The representation that switching moves to.
    pub fn next(&self) -> (r: DagKind)
        ensures
            r == next_kind(*self),
    {
        match self {
            DagKind::Adj => DagKind::Linked,
            DagKind::Linked => DagKind::EdgeList,
            DagKind::EdgeList => DagKind::Adj,
        }
    }
}

/// Switching three times comes back to the representation in use, after visiting each of
/// the other two once.
pub proof fn lemma_switch_cycles(k: DagKind)
    ensures
        next_kind(next_kind(next_kind(k))) == k,
        next_kind(k) != k,
        next_kind(next_kind(k)) != k,
        next_kind(next_kind(k)) != next_kind(k),
{
}

/// What a line typed at the menu asks for.
pub enum MenuAction {
    /// `1`: list the papers that cite a paper and that it cites.
    ListRelated,
    /// `2`: the latest common ancestors of two papers.
    LatestCommonAncestor,
    /// `3`: the earliest common descendants of two papers.
    EarliestCommonDescendant,
    /// `4`: search the titles.
    Search,
    /// `5`: switch to the next representation.
    SwitchDag,
    /// `6`: leave.
    Exit,
    /// Anything else, as typed without surrounding white space.
    Unknown(String),
}

/// `a` is what the text `t`, already trimmed, asks for.
pub open spec fn action_for(t: Seq<char>, a: MenuAction) -> bool {
    match a {
        MenuAction::ListRelated => t == seq!['1'],
        MenuAction::LatestCommonAncestor => t == seq!['2'],
        MenuAction::EarliestCommonDescendant => t == seq!['3'],
        MenuAction::Search => t == seq!['4'],
        MenuAction::SwitchDag => t == seq!['5'],
        MenuAction::Exit => t == seq!['6'],
        MenuAction::Unknown(s) => s@ == t && !(t.len() == 1 && '1' <= t[0] && t[0] <= '6'),
    }
}

/// What the line `line` asks for, once white space at its ends is dropped.
pub fn parse_choice(line: &str) -> (r: MenuAction)
    ensures
        action_for(trim_by(line@, white()), r),
{
    let t = trim_whitespace(line);
    if t.as_str().unicode_len() == 1 {
        let c = t.as_str().get_char(0);
        assert(t@ =~= seq![c]);
        if c == '1' {
            return MenuAction::ListRelated;
        } else if c == '2' {
            return MenuAction::LatestCommonAncestor;
        } else if c == '3' {
            return MenuAction::EarliestCommonDescendant;
        } else if c == '4' {
            return MenuAction::Search;
        } else if c == '5' {
            return MenuAction::SwitchDag;
        } else if c == '6' {
            return MenuAction::Exit;
        }
    }
    MenuAction::Unknown(t)
}

/// One turn of the menu: what `line` asks for, and the representation in use afterwards,
/// which changes only when the line asks to switch.
pub fn menu_step(active: DagKind, line: &str) -> (r: (DagKind, MenuAction))
    ensures
        action_for(trim_by(line@, white()), r.1),
        r.0 == if r.1 is SwitchDag {
            next_kind(active)
        } else {
            active
        },
{
    let action = parse_choice(line);
    let next = match action {
        MenuAction::SwitchDag => active.next(),
        _ => active,
    };
    (next, action)
}

} // verus!
