//! The tree editor's actions: what each button or key does to the score's
//! tree and to the selection.
use vstd::prelude::*;
use vstd::string::StringExecFns;
use crate::ids::Token;
use crate::paths::prefix_vec;
use crate::score::{
    Score, dissolve_spec, move_adjacent_spec, next_sibling_spec, opt_path, prev_sibling_spec,
    promote_spec, swap_next_spec, swap_prev_spec, wrap_spec,
};
use crate::tree::{
    TrackView, lemma_children_len_bounded, lemma_insert_node_at, lemma_node_at_last, lemma_replace_at_same,
    retokenized, seq_count,
};

verus! {

#[derive(Clone, Copy, PartialEq, Eq, Structural, Debug)]
pub enum Action {
    NoAction,
    Mute,
    Delete,
    Clone,
    Parent,
    FirstChild,
    SelectUp,
    SelectDown,
    MoveUp,
    MoveDown,
    Wrap,
    Promote,
    Dissolve,
    GroupAbove,
    GroupBelow,
}

pub open spec fn action_label(a: Action) -> Seq<char> {
    match a {
        Action::NoAction => "None"@,
        Action::Delete => "Delete"@,
        Action::Clone => "Clone"@,
        Action::Parent => "Parent"@,
        Action::FirstChild => "First child"@,
        Action::SelectUp => "Select up"@,
        Action::SelectDown => "Select down"@,
        Action::MoveUp => "Move up"@,
        Action::MoveDown => "Move down"@,
        Action::Wrap => "Wrap"@,
        Action::Promote => "Promote"@,
        Action::Dissolve => "Dissolve"@,
        Action::GroupAbove => "Group above"@,
        Action::GroupBelow => "Group below"@,
        Action::Mute => "Mute"@,
    }
}

impl Action {
    /// The button label of the action, with the action.
    pub fn label_and_action(self) -> (r: (&'static str, Action))
        ensures
            r.0@ == action_label(self),
            r.1 == self,
    {
        proof {
            reveal_strlit("None");
            reveal_strlit("Delete");
            reveal_strlit("Clone");
            reveal_strlit("Parent");
            reveal_strlit("First child");
            reveal_strlit("Select up");
            reveal_strlit("Select down");
            reveal_strlit("Move up");
            reveal_strlit("Move down");
            reveal_strlit("Wrap");
            reveal_strlit("Promote");
            reveal_strlit("Dissolve");
            reveal_strlit("Group above");
            reveal_strlit("Group below");
            reveal_strlit("Mute");
        }
        match self {
            Action::NoAction => ("None", self),
            Action::Delete => ("Delete", self),
            Action::Clone => ("Clone", self),
            Action::Parent => ("Parent", self),
            Action::FirstChild => ("First child", self),
            Action::SelectUp => ("Select up", self),
            Action::SelectDown => ("Select down", self),
            Action::MoveUp => ("Move up", self),
            Action::MoveDown => ("Move down", self),
            Action::Wrap => ("Wrap", self),
            Action::Promote => ("Promote", self),
            Action::Dissolve => ("Dissolve", self),
            Action::GroupAbove => ("Group above", self),
            Action::GroupBelow => ("Group below", self),
            Action::Mute => ("Mute", self),
        }
    }
}

/// The action a button offers, by modifier: plain, with Ctrl, with Shift
/// (Shift wins over Ctrl).
pub open spec fn pick(shift: bool, ctrl: bool, plain: Action, with_ctrl: Action, with_shift: Action) -> Action {
    if shift {
        with_shift
    } else if ctrl {
        with_ctrl
    } else {
        plain
    }
}

pub fn up_variant(shift: bool, ctrl: bool) -> (r: (&'static str, Action))
    ensures
        r.1 == pick(shift, ctrl, Action::SelectUp, Action::MoveUp, Action::GroupAbove),
        r.0@ == action_label(r.1),
{
    if shift {
        Action::GroupAbove.label_and_action()
    } else if ctrl {
        Action::MoveUp.label_and_action()
    } else {
        Action::SelectUp.label_and_action()
    }
}

pub fn down_variant(shift: bool, ctrl: bool) -> (r: (&'static str, Action))
    ensures
        r.1 == pick(shift, ctrl, Action::SelectDown, Action::MoveDown, Action::GroupBelow),
        r.0@ == action_label(r.1),
{
    if shift {
        Action::GroupBelow.label_and_action()
    } else if ctrl {
        Action::MoveDown.label_and_action()
    } else {
        Action::SelectDown.label_and_action()
    }
}

pub fn parent_variant(shift: bool, ctrl: bool) -> (r: (&'static str, Action))
    ensures
        r.1 == pick(shift, ctrl, Action::Parent, Action::Promote, Action::Dissolve),
        r.0@ == action_label(r.1),
{
    if shift {
        Action::Dissolve.label_and_action()
    } else if ctrl {
        Action::Promote.label_and_action()
    } else {
        Action::Parent.label_and_action()
    }
}

pub fn first_child_variant(shift: bool, ctrl: bool) -> (r: (&'static str, Action))
    ensures
        r.1 == pick(shift, ctrl, Action::FirstChild, Action::Wrap, Action::Wrap),
        r.0@ == action_label(r.1),
{
    if shift || ctrl {
        Action::Wrap.label_and_action()
    } else {
        Action::FirstChild.label_and_action()
    }
}

/// The action chosen by the navigation keys pressed in a frame, starting
/// from `current`; a later key in the order up, down, first child, parent
/// overrides an earlier one.
pub open spec fn key_action_spec(
    current: Action,
    up: bool,
    down: bool,
    parent: bool,
    child: bool,
    shift: bool,
    ctrl: bool,
) -> Action {
    if parent {
        pick(shift, ctrl, Action::Parent, Action::Promote, Action::Dissolve)
    } else if child {
        pick(shift, ctrl, Action::FirstChild, Action::Wrap, Action::Wrap)
    } else if down {
        pick(shift, ctrl, Action::SelectDown, Action::MoveDown, Action::GroupBelow)
    } else if up {
        pick(shift, ctrl, Action::SelectUp, Action::MoveUp, Action::GroupAbove)
    } else {
        current
    }
}

pub fn key_action(
    current: Action,
    up: bool,
    down: bool,
    parent: bool,
    child: bool,
    shift: bool,
    ctrl: bool,
) -> (r: Action)
    ensures
        r == key_action_spec(current, up, down, parent, child, shift, ctrl),
{
    let mut action = current;
    if up {
        action = up_variant(shift, ctrl).1;
    }
    if down {
        action = down_variant(shift, ctrl).1;
    }
    if child {
        action = first_child_variant(shift, ctrl).1;
    }
    if parent {
        action = parent_variant(shift, ctrl).1;
    }
    action
}

/// Tooltip lines of a button: the key with no modifier, with `Ctrl+` and
/// with `Shift+`, each beside one of the given labels.
pub fn make_tooltips(key_name: &str, labels: [&'static str; 3]) -> (r: [(String, &'static str); 3])
    ensures
        r@[0].0@ == key_name@,
        r@[1].0@ == "Ctrl+"@ + key_name@,
        r@[2].0@ == "Shift+"@ + key_name@,
        r@[0].1 == labels@[0],
        r@[1].1 == labels@[1],
        r@[2].1 == labels@[2],
{
    let plain = String::from_str("").concat(key_name);
    let ctrl = String::from_str("Ctrl+").concat(key_name);
    let shift = String::from_str("Shift+").concat(key_name);
    proof {
        reveal_strlit("");
        assert(""@ + key_name@ =~= key_name@);
    }
    [(plain, labels[0]), (ctrl, labels[1]), (shift, labels[2])]
}

/// Which node to select after the node at `sel` was deleted: the sibling
/// that takes its place (or the new last one), else the parent, else
/// nothing.
pub open spec fn delete_selection(t: TrackView, sel: Seq<usize>) -> Option<Seq<usize>> {
    let idx = sel.last();
    let parent = sel.drop_last();
    let siblings = match t.node_at(parent) {
        Some(p) => p.children().len(),
        None => 0,
    };
    if siblings > 1 {
        Some(
            parent.push(
                if idx < siblings - 1 {
                    idx
                } else if idx > 0 {
                    (idx - 1) as usize
                } else {
                    0
                },
            ),
        )
    } else if parent.len() == 0 {
        None
    } else {
        Some(parent)
    }
}

/// The tree after a copy of the node at `path`, with fresh sequence tokens
/// counted from `gen`, was inserted right after it.
pub open spec fn clone_spec(t: TrackView, path: Seq<usize>, gen: usize) -> TrackView {
    if path.len() == 0 || t.node_at(path) is None {
        t
    } else {
        t.insert_node(
            path.drop_last().push((path.last() + 1) as usize),
            retokenized(t.node_at(path).unwrap(), gen as int),
        )
    }
}

/// The selection kept when an operation reports no new path.
pub open spec fn or_keep(r: Option<Seq<usize>>, sel: Seq<usize>) -> Option<Seq<usize>> {
    match r {
        Some(p) => Some(p),
        None => Some(sel),
    }
}

/// Tree, selection and token counter after the editor applies `action` to
/// the selection `sel`.
pub open spec fn action_spec(t: TrackView, sel: Seq<usize>, action: Action, gen: usize) -> (
    TrackView,
    Option<Seq<usize>>,
    int,
) {
    match action {
        Action::NoAction => (t, Some(sel), gen as int),
        Action::Delete => (t.remove_node(sel), delete_selection(t, sel), gen as int),
        Action::Clone => (
            clone_spec(t, sel, gen),
            Some(
                if sel.len() == 0 {
                    sel
                } else {
                    sel.drop_last().push((sel.last() + 1) as usize)
                },
            ),
            if sel.len() == 0 || t.node_at(sel) is None {
                gen as int
            } else {
                gen + seq_count(t.node_at(sel).unwrap())
            },
        ),
        Action::MoveUp => (swap_prev_spec(t, sel).0, or_keep(swap_prev_spec(t, sel).1, sel), gen as int),
        Action::MoveDown => (swap_next_spec(t, sel).0, or_keep(swap_next_spec(t, sel).1, sel), gen as int),
        Action::Wrap => {
            let w = wrap_spec(t, sel, "Group"@, Token((gen + 1) as usize));
            (w.0, or_keep(w.1, sel), if w.1 is Some {
                gen + 1
            } else {
                gen as int
            })
        },
        Action::Promote => (promote_spec(t, sel).0, or_keep(promote_spec(t, sel).1, sel), gen as int),
        Action::Dissolve => (dissolve_spec(t, sel).0, or_keep(dissolve_spec(t, sel).1, sel), gen as int),
        Action::GroupAbove => (
            move_adjacent_spec(t, sel, -1).0,
            or_keep(move_adjacent_spec(t, sel, -1).1, sel),
            gen as int,
        ),
        Action::GroupBelow => (
            move_adjacent_spec(t, sel, 1).0,
            or_keep(move_adjacent_spec(t, sel, 1).1, sel),
            gen as int,
        ),
        Action::SelectUp => (t, prev_sibling_spec(t, sel, true), gen as int),
        Action::SelectDown => (t, next_sibling_spec(t, sel, true), gen as int),
        Action::Parent => (t, if sel.len() == 0 {
            None
        } else {
            Some(sel.drop_last())
        }, gen as int),
        Action::FirstChild => (t, match t.node_at(sel) {
            Some(n) => if n.children().len() > 0 {
                Some(sel.push(0))
            } else {
                None
            },
            None => None,
        }, gen as int),
        Action::Mute => (match t.node_at(sel) {
            Some(n) => t.replace_at(sel, TrackView { muted: !n.muted, ..n }),
            None => t,
        }, Some(sel), gen as int),
    }
}

/// What an action needs of the tree and the selection to run without a
/// panic.
pub open spec fn action_allowed(t: TrackView, sel: Seq<usize>, action: Action, gen: usize) -> bool {
    match action {
        Action::Delete => sel.len() > 0,
        Action::Clone => (sel.len() > 0 ==> sel.last() < usize::MAX) && (sel.len() > 0
            && t.node_at(sel) is Some ==> gen + seq_count(t.node_at(sel).unwrap()) <= usize::MAX),
        Action::MoveUp => sel.len() > 0 && sel.last() > 0 && t.group_at(sel.drop_last())
            ==> sel.last() < t.children_at(sel.drop_last()).len(),
        Action::Wrap => gen < usize::MAX,
        Action::GroupBelow => sel.len() > 0 ==> sel.last() < usize::MAX,
        Action::SelectDown => sel.len() > 0 ==> sel.last() < usize::MAX,
        _ => true,
    }
}

impl Score {
    /// Insert a copy of the node at `path`, with fresh tokens for its
    /// sequences, right after it. Returns whether a copy was inserted.
    pub fn clone_node_at(&mut self, path: &[usize]) -> (r: bool)
        requires
            path.len() > 0 && old(self).track_root@.node_at(path@) is Some ==> old(self).last_token.0
                + seq_count(old(self).track_root@.node_at(path@).unwrap()) <= usize::MAX,
        ensures
            final(self).track_root@ == clone_spec(old(self).track_root@, path@, old(self).last_token.0),
            r == (path.len() > 0 && old(self).track_root@.node_at(path@) is Some),
            final(self).last_token.0 == if r {
                old(self).last_token.0 + seq_count(old(self).track_root@.node_at(path@).unwrap())
            } else {
                old(self).last_token.0 as int
            },
    {
        if path.len() == 0 {
            return false;
        }
        let ghost t = self.track_root@;
        let mut cloned = match self.track_root.get(path) {
            Some(n) => n.deep_clone(),
            None => return false,
        };
        cloned.retokenize(&mut self.last_token);
        let last = path[path.len() - 1];
        proof {
            lemma_node_at_last(t, path@);
            lemma_children_len_bounded(self.track_root, path@.drop_last());
        }
        let mut insert_path = prefix_vec(path, path.len() - 1);
        insert_path.push(last + 1);
        proof {
            assert(insert_path@.drop_last() =~= path@.drop_last());
            assert(path@.subrange(0, path.len() - 1) =~= path@.drop_last());
            assert(t.insertable(insert_path@));
        }
        let _ok = self.track_root.insert_at(&insert_path, cloned);
        true
    }

    /// Apply an editor action to the selection `sel`; returns the new
    /// selection.
    pub fn apply_action(&mut self, sel: &[usize], action: Action) -> (r: Option<Vec<usize>>)
        requires
            action_allowed(old(self).track_root@, sel@, action, old(self).last_token.0),
        ensures
            (final(self).track_root@, opt_path(r), final(self).last_token.0 as int) == action_spec(
                old(self).track_root@,
                sel@,
                action,
                old(self).last_token.0,
            ),
    {
        let ghost t = self.track_root@;
        proof {
            assert(sel@.subrange(0, sel@.len() as int) =~= sel@);
        }
        match action {
            Action::NoAction => Some(prefix_vec(sel, sel.len())),
            Action::Delete => {
                let idx = sel[sel.len() - 1];
                proof {
                    assert(sel@.subrange(0, sel.len() - 1) =~= sel@.drop_last());
                }
                let siblings = match self.track_root.get_from(sel, 0, sel.len() - 1) {
                    Some(p) => p.child_count(),
                    None => 0,
                };
                let parent_path = prefix_vec(sel, sel.len() - 1);
                let _removed = self.track_root.remove_at(sel);
                if siblings > 1 {
                    let mut p = parent_path;
                    let new_idx = if idx < siblings - 1 {
                        idx
                    } else if idx > 0 {
                        idx - 1
                    } else {
                        0
                    };
                    p.push(new_idx);
                    Some(p)
                } else if parent_path.len() == 0 {
                    None
                } else {
                    Some(parent_path)
                }
            },
            Action::Clone => {
                self.clone_node_at(sel);
                let mut s = prefix_vec(sel, sel.len());
                if s.len() > 0 {
                    let last = s.len() - 1;
                    let v = s[last] + 1;
                    s.set(last, v);
                    proof {
                        assert(s@ =~= sel@.drop_last().push((sel@.last() + 1) as usize));
                    }
                }
                Some(s)
            },
            Action::MoveUp => match self.swap_with_prev(sel) {
                Some(p) => Some(p),
                None => Some(prefix_vec(sel, sel.len())),
            },
            Action::MoveDown => match self.swap_with_next(sel) {
                Some(p) => Some(p),
                None => Some(prefix_vec(sel, sel.len())),
            },
            Action::Wrap => match self.wrap_into_group_at(sel, String::from_str("Group")) {
                Some(p) => Some(p),
                None => Some(prefix_vec(sel, sel.len())),
            },
            Action::Promote => match self.promote_one_rank(sel) {
                Some(p) => Some(p),
                None => Some(prefix_vec(sel, sel.len())),
            },
            Action::Dissolve => match self.dissolve_group_at(sel) {
                Some(p) => Some(p),
                None => Some(prefix_vec(sel, sel.len())),
            },
            Action::GroupAbove => match self.move_into_prev_group(sel) {
                Some(p) => Some(p),
                None => Some(prefix_vec(sel, sel.len())),
            },
            Action::GroupBelow => match self.move_into_next_group(sel) {
                Some(p) => Some(p),
                None => Some(prefix_vec(sel, sel.len())),
            },
            Action::SelectUp => self.prev_sibling(sel, true),
            Action::SelectDown => self.next_sibling(sel, true),
            Action::Parent => self.parent_of(sel),
            Action::FirstChild => self.first_child_of(sel),
            Action::Mute => {
                match self.track_root.get_mut(sel) {
                    Some(node) => {
                        node.toggle_mute();
                    },
                    None => {},
                }
                Some(prefix_vec(sel, sel.len()))
            },
        }
    }
}

} // verus!
