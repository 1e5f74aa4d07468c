//! The score's track tree together with its token generator, and the
//! editing operations of the tree editor: moving the selection, reordering
//! siblings, wrapping, promoting, dissolving and moving subtrees.
use vstd::prelude::*;
use crate::ids::{Token, TokenGen};
use crate::paths::{adjusted, adjust_path_for_removal, prefix_vec, starts_with};
use crate::tree::{
    AestheticLocks, GroupMode, KindView, NodeKind, TrackNode, TrackView, lemma_nodes_view,
    lemma_replace_at_same, lemma_remove_insert_is_replace, lemma_node_at_last,
    lemma_node_at_replace_ancestor, lemma_set_children_at, nodes_view, seq_swap,
};
use crate::laws::{law_insert_after_remove, law_removal_keeps_other_nodes};

verus! {

pub struct Score {
    pub track_root: TrackNode,
    pub last_token: TokenGen,
}

pub open spec fn opt_path(r: Option<Vec<usize>>) -> Option<Seq<usize>> {
    match r {
        Some(v) => Some(v@),
        None => None,
    }
}

/// A fresh group named `name` holding the single child `node`.
pub open spec fn wrapper_view(name: Seq<char>, id: Token, node: TrackView) -> TrackView {
    TrackView {
        name,
        muted: false,
        solo: false,
        kind: KindView::Group {
            id,
            collapsed: false,
            children: seq![node],
            mode: GroupMode::And,
            aesthetic: AestheticLocks { lock_volume: false, lock_pan: false, lock_hue: false },
        },
    }
}

pub open spec fn next_sibling_spec(t: TrackView, path: Seq<usize>, wrap: bool) -> Option<Seq<usize>> {
    if path.len() == 0 {
        None
    } else {
        let parent = path.drop_last();
        let idx = path.last();
        match t.node_at(parent) {
            None => None,
            Some(p) => {
                let n = p.children().len();
                if n == 0 {
                    None
                } else if idx + 1 < n {
                    Some(parent.push((idx + 1) as usize))
                } else if wrap {
                    Some(parent.push(0))
                } else {
                    None
                }
            },
        }
    }
}

pub open spec fn prev_sibling_spec(t: TrackView, path: Seq<usize>, wrap: bool) -> Option<Seq<usize>> {
    if path.len() == 0 {
        None
    } else {
        let parent = path.drop_last();
        let idx = path.last();
        match t.node_at(parent) {
            None => None,
            Some(p) => {
                let n = p.children().len();
                if n == 0 {
                    None
                } else if idx > 0 {
                    Some(parent.push((idx - 1) as usize))
                } else if wrap {
                    Some(parent.push((n - 1) as usize))
                } else {
                    None
                }
            },
        }
    }
}

/// Exchange the node at `path` with its previous sibling.
pub open spec fn swap_prev_spec(t: TrackView, path: Seq<usize>) -> (TrackView, Option<Seq<usize>>) {
    let parent = path.drop_last();
    let i = path.last();
    if path.len() > 0 && i > 0 && t.group_at(parent) {
        (
            t.set_children_at(parent, seq_swap(t.children_at(parent), i - 1, i as int)),
            Some(parent.push((i - 1) as usize)),
        )
    } else {
        (t, None)
    }
}

/// Exchange the node at `path` with its next sibling.
pub open spec fn swap_next_spec(t: TrackView, path: Seq<usize>) -> (TrackView, Option<Seq<usize>>) {
    let parent = path.drop_last();
    let i = path.last();
    if path.len() > 0 && t.group_at(parent) && i + 1 < t.children_at(parent).len() {
        (
            t.set_children_at(parent, seq_swap(t.children_at(parent), i as int, i + 1)),
            Some(parent.push((i + 1) as usize)),
        )
    } else {
        (t, None)
    }
}

/// Replace the node at `path` by a new group (named `name`, with id `id`)
/// holding it.
pub open spec fn wrap_spec(t: TrackView, path: Seq<usize>, name: Seq<char>, id: Token) -> (
    TrackView,
    Option<Seq<usize>>,
) {
    if t.removable(path) {
        (
            t.remove_node(path).insert_node(path, wrapper_view(name, id, t.node_at(path).unwrap())),
            Some(path),
        )
    } else {
        (t, None)
    }
}

/// Splice the children of the group at `path` into its parent in its place.
pub open spec fn dissolve_spec(t: TrackView, path: Seq<usize>) -> (TrackView, Option<Seq<usize>>) {
    let parent = path.drop_last();
    let idx = path.last() as int;
    let cs = t.children_at(parent);
    if path.len() == 0 || !t.group_at(parent) || idx >= cs.len() || !cs[idx].is_group() {
        (t, None)
    } else if cs[idx].children().len() == 0 {
        (t.set_children_at(parent, cs.remove(idx)), None)
    } else {
        (
            t.set_children_at(parent, cs.take(idx) + cs[idx].children() + cs.skip(idx + 1)),
            Some(path),
        )
    }
}

/// Move the node at `path` up one rank: into its grandparent, right after
/// its parent.
pub open spec fn promote_spec(t: TrackView, path: Seq<usize>) -> (TrackView, Option<Seq<usize>>) {
    if path.len() < 2 || !t.removable(path) {
        (t, None)
    } else {
        let grand = path.subrange(0, path.len() - 2);
        let new_path = grand.push((path[path.len() - 2] + 1) as usize);
        (t.remove_node(path).insert_node(new_path, t.node_at(path).unwrap()), Some(new_path))
    }
}

/// Move the node at `path` to the end of its previous (`dir == -1`) or next
/// (`dir == 1`) sibling, which must be a group.
pub open spec fn move_adjacent_spec(t: TrackView, path: Seq<usize>, dir: int) -> (
    TrackView,
    Option<Seq<usize>>,
) {
    let parent = path.drop_last();
    let idx = path.last() as int;
    let siblings = t.children_at(parent).len();
    if path.len() == 0 || t.node_at(parent) is None || !(dir == -1 || dir == 1) || (dir == -1
        && idx == 0) || (dir == 1 && idx + 1 >= siblings) || !t.group_at(
        parent.push((idx + dir) as usize),
    ) || !t.removable(path) {
        (t, None)
    } else {
        let t1 = t.remove_node(path);
        let target = parent.push((if dir == -1 {
            idx - 1
        } else {
            idx
        }) as usize);
        let cs = t1.children_at(target);
        (
            t1.set_children_at(target, cs.push(t.node_at(path).unwrap())),
            Some(target.push(cs.len() as usize)),
        )
    }
}

/// Move the node at `source` into the group at `target_parent`, at
/// `target_index` (or at its end if the index is past it).
pub open spec fn move_to_spec(
    t: TrackView,
    source: Seq<usize>,
    target_parent: Seq<usize>,
    target_index: usize,
) -> (TrackView, Option<Seq<usize>>) {
    let src_parent = source.drop_last();
    let src_idx = source.last();
    if source.len() == 0 || source.is_prefix_of(target_parent) || (target_parent == src_parent && (
    target_index == src_idx || target_index == src_idx + 1)) || !t.removable(source) {
        (t, None)
    } else {
        let ip = adjusted(target_parent, source);
        let t1 = t.remove_node(source);
        if !t1.group_at(ip) {
            (t, None)
        } else {
            let n = t1.children_at(ip).len();
            let idx = if target_index < n {
                target_index
            } else {
                n as usize
            };
            (t1.insert_node(ip.push(idx), t.node_at(source).unwrap()), Some(ip.push(idx)))
        }
    }
}

impl Score {
    /// A score whose tree is an empty root group.
    pub fn new() -> (s: Score)
        ensures
            s.last_token.0 == 1,
            s.track_root@.name == "Root"@,
            s.track_root@.kind == (KindView::Group {
                id: Token(1),
                collapsed: false,
                children: Seq::empty(),
                mode: GroupMode::And,
                aesthetic: AestheticLocks { lock_volume: false, lock_pan: false, lock_hue: false },
            }),
    {
        let mut last_token = TokenGen(0);
        let track_root = TrackNode::new_root(&mut last_token);
        Score { track_root, last_token }
    }

    /// Path of the next sibling of the node at `path`; at the last sibling,
    /// the first one if `wrap`, else `None`.
    pub fn next_sibling(&self, path: &[usize], wrap: bool) -> (r: Option<Vec<usize>>)
        requires
            path.len() > 0 ==> path[path.len() - 1] < usize::MAX,
        ensures
            opt_path(r) == next_sibling_spec(self.track_root@, path@, wrap),
    {
        if path.len() == 0 {
            return None;
        }
        let idx = path[path.len() - 1];
        let parent = match self.track_root.get_from(path, 0, path.len() - 1) {
            Some(p) => p,
            None => {
                proof {
                    assert(path@.subrange(0, path.len() - 1) =~= path@.drop_last());
                }
                return None;
            },
        };
        proof {
            assert(path@.subrange(0, path.len() - 1) =~= path@.drop_last());
        }
        let n = parent.child_count();
        if n == 0 {
            return None;
        }
        let next = if idx + 1 < n {
            idx + 1
        } else if wrap {
            0
        } else {
            return None;
        };
        let mut new_path = prefix_vec(path, path.len() - 1);
        new_path.push(next);
        Some(new_path)
    }

    /// Path of the previous sibling of the node at `path`; at the first
    /// sibling, the last one if `wrap`, else `None`.
    pub fn prev_sibling(&self, path: &[usize], wrap: bool) -> (r: Option<Vec<usize>>)
        ensures
            opt_path(r) == prev_sibling_spec(self.track_root@, path@, wrap),
    {
        if path.len() == 0 {
            return None;
        }
        let idx = path[path.len() - 1];
        proof {
            assert(path@.subrange(0, path.len() - 1) =~= path@.drop_last());
        }
        let parent = match self.track_root.get_from(path, 0, path.len() - 1) {
            Some(p) => p,
            None => return None,
        };
        let n = parent.child_count();
        if n == 0 {
            return None;
        }
        let prev = if idx > 0 {
            idx - 1
        } else if wrap {
            n - 1
        } else {
            return None;
        };
        let mut new_path = prefix_vec(path, path.len() - 1);
        new_path.push(prev);
        Some(new_path)
    }

    /// Path of the parent (`None` at the root).
    pub fn parent_of(&self, path: &[usize]) -> (r: Option<Vec<usize>>)
        ensures
            opt_path(r) == if path@.len() == 0 {
                None
            } else {
                Some(path@.drop_last())
            },
    {
        if path.len() == 0 {
            return None;
        }
        let p = prefix_vec(path, path.len() - 1);
        Some(p)
    }

    /// Path of the first child of the node at `path`, if it has one.
    pub fn first_child_of(&self, path: &[usize]) -> (r: Option<Vec<usize>>)
        ensures
            opt_path(r) == match self.track_root@.node_at(path@) {
                Some(n) => if n.children().len() > 0 {
                    Some(path@.push(0))
                } else {
                    None
                },
                None => None,
            },
    {
        let node = match self.track_root.get(path) {
            Some(n) => n,
            None => return None,
        };
        if node.child_count() == 0 {
            return None;
        }
        let mut p = prefix_vec(path, path.len());
        p.push(0);
        proof {
            assert(path@.subrange(0, path.len() as int) =~= path@);
        }
        Some(p)
    }

    /// Path of the last child of the node at `path`, if it has one.
    pub fn last_child_of(&self, path: &[usize]) -> (r: Option<Vec<usize>>)
        ensures
            opt_path(r) == match self.track_root@.node_at(path@) {
                Some(n) => if n.children().len() > 0 {
                    Some(path@.push((n.children().len() - 1) as usize))
                } else {
                    None
                },
                None => None,
            },
    {
        let node = match self.track_root.get(path) {
            Some(n) => n,
            None => return None,
        };
        let n = node.child_count();
        if n == 0 {
            return None;
        }
        let mut p = prefix_vec(path, path.len());
        p.push(n - 1);
        proof {
            assert(path@.subrange(0, path.len() as int) =~= path@);
        }
        Some(p)
    }

    /// Exchange the node at `path` with its previous sibling; returns its new
    /// path.
    pub fn swap_with_prev(&mut self, path: &[usize]) -> (r: Option<Vec<usize>>)
        requires
            path.len() > 0 && path@.last() > 0 && old(self).track_root@.group_at(path@.drop_last())
                ==> path@.last() < old(self).track_root@.children_at(path@.drop_last()).len(),
        ensures
            (final(self).track_root@, opt_path(r)) == swap_prev_spec(
                old(self).track_root@,
                path@,
            ),
            final(self).last_token == old(self).last_token,
    {
        if path.len() == 0 {
            return None;
        }
        let i = path[path.len() - 1];
        if i == 0 {
            return None;
        }
        let ghost t = self.track_root@;
        let ghost pp = path@.drop_last();
        proof {
            assert(path@.subrange(0, path.len() - 1) =~= pp);
            if t.node_at(pp).is_some() {
                lemma_replace_at_same(t, pp);
            }
        }
        let parent = match self.track_root.get_mut_from(path, 0, path.len() - 1) {
            Some(p) => p,
            None => return None,
        };
        let ghost pv = parent@;
        match parent.children_mut() {
            Some(children) => {
                proof {
                    lemma_nodes_view(children@);
                }
                let a = children.remove(i);
                children.insert(i - 1, a);
                proof {
                    lemma_nodes_view(children@);
                    assert(nodes_view(children@) =~= seq_swap(pv.children(), i - 1, i as int));
                }
                let mut np = prefix_vec(path, path.len() - 1);
                np.push(i - 1);
                Some(np)
            },
            None => None,
        }
    }

    /// Exchange the node at `path` with its next sibling; returns its new
    /// path.
    pub fn swap_with_next(&mut self, path: &[usize]) -> (r: Option<Vec<usize>>)
        ensures
            (final(self).track_root@, opt_path(r)) == swap_next_spec(
                old(self).track_root@,
                path@,
            ),
            final(self).last_token == old(self).last_token,
    {
        if path.len() == 0 {
            return None;
        }
        let i = path[path.len() - 1];
        let ghost t = self.track_root@;
        let ghost pp = path@.drop_last();
        proof {
            assert(path@.subrange(0, path.len() - 1) =~= pp);
            if t.node_at(pp).is_some() {
                lemma_replace_at_same(t, pp);
            }
        }
        let parent = match self.track_root.get_mut_from(path, 0, path.len() - 1) {
            Some(p) => p,
            None => return None,
        };
        let ghost pv = parent@;
        match parent.children_mut() {
            Some(children) => {
                proof {
                    lemma_nodes_view(children@);
                }
                if i >= children.len() || i + 1 >= children.len() {
                    return None;
                }
                let a = children.remove(i);
                children.insert(i + 1, a);
                proof {
                    lemma_nodes_view(children@);
                    assert(nodes_view(children@) =~= seq_swap(pv.children(), i as int, i + 1));
                }
                let mut np = prefix_vec(path, path.len() - 1);
                np.push(i + 1);
                Some(np)
            },
            None => None,
        }
    }
}

impl Score {
    /// Wrap the node at `path` into a new group inserted at the same index;
    /// returns the path of the new group.
    pub fn wrap_into_group_at(&mut self, path: &[usize], name: String) -> (r: Option<Vec<usize>>)
        requires
            old(self).last_token.0 < usize::MAX,
        ensures
            (final(self).track_root@, opt_path(r)) == wrap_spec(
                old(self).track_root@,
                path@,
                name@,
                Token((old(self).last_token.0 + 1) as usize),
            ),
            final(self).last_token.0 == old(self).last_token.0 + if r is Some {
                1usize
            } else {
                0
            },
    {
        if path.len() == 0 {
            return None;
        }
        let ghost t = self.track_root@;
        let node = match self.track_root.remove_at(path) {
            Some(n) => n,
            None => return None,
        };
        let id = self.last_token.next();
        let mut ch: Vec<TrackNode> = Vec::new();
        ch.push(node);
        let group = TrackNode {
            name,
            muted: false,
            solo: false,
            kind: NodeKind::Group {
                id,
                collapsed: false,
                children: ch,
                mode: GroupMode::And,
                aesthetic: AestheticLocks::default(),
            },
        };
        proof {
            lemma_remove_insert_is_replace(t, path@, group@);
            lemma_nodes_view(seq![node]);
            assert(nodes_view(seq![node]) =~= seq![node@]);
        }
        let new_path = prefix_vec(path, path.len());
        proof {
            assert(path@.subrange(0, path.len() as int) =~= path@);
        }
        proof {
            assert(group@ == wrapper_view(name@, id, t.node_at(path@).unwrap()));
            assert(self.track_root@.insertable(new_path@));
        }
        let ok = self.track_root.insert_at(&new_path, group);
        if ok {
            Some(new_path)
        } else {
            None
        }
    }

    /// Move the node at `path` up one rank: out of its parent, into its
    /// grandparent right after the parent. Returns its new path.
    pub fn promote_one_rank(&mut self, path: &[usize]) -> (r: Option<Vec<usize>>)
        ensures
            (final(self).track_root@, opt_path(r)) == promote_spec(old(self).track_root@, path@),
            r is Some ==> final(self).track_root@.node_at(opt_path(r).unwrap()) == old(
                self,
            ).track_root@.node_at(path@),
            final(self).last_token == old(self).last_token,
    {
        if path.len() < 2 {
            return None;
        }
        let ghost t = self.track_root@;
        let parent_idx = path[path.len() - 2];
        let node = match self.track_root.remove_at(path) {
            Some(n) => n,
            None => return None,
        };
        let ghost t1 = self.track_root@;
        let ghost q = path@.drop_last();
        let ghost g = path@.subrange(0, path.len() - 2);
        proof {
            lemma_node_at_last(t, path@);
            lemma_node_at_last(t, q);
            assert(q.drop_last() =~= g);
            assert(q =~= g + seq![parent_idx]);
            assert(path@ =~= g + seq![parent_idx, path@.last()]);
            let par = t.node_at(q).unwrap();
            let w = par.with_children(par.children().remove(path@.last() as int));
            lemma_node_at_replace_ancestor(t, g, seq![parent_idx], w);
            assert(t1 == t.replace_at(q, w));
            let gn = t.node_at(g).unwrap();
            assert(seq![parent_idx].drop_first() =~= Seq::<usize>::empty());
            assert(seq![parent_idx][0] == parent_idx);
            assert(gn.replace_at(seq![parent_idx], w).children().len() == gn.children().len());
            assert(t1.node_at(g) == Some(gn.replace_at(seq![parent_idx], w)));
        }
        proof {
            crate::tree::lemma_children_len_bounded(self.track_root, g);
        }
        let mut new_path = prefix_vec(path, path.len() - 2);
        new_path.push(parent_idx + 1);
        proof {
            assert(new_path@.drop_last() =~= g);
            assert(t1.insertable(new_path@));
            crate::tree::lemma_insert_node_at(t1, new_path@, node@);
        }
        let _ok = self.track_root.insert_at(&new_path, node);
        Some(new_path)
    }

    /// Dissolve the group at `path`: splice its children into its parent in
    /// its place. Returns the path of the first spliced child; `None` for an
    /// empty group (which is removed), for a node that is not a group (left
    /// in place) or for an invalid path.
    pub fn dissolve_group_at(&mut self, path: &[usize]) -> (r: Option<Vec<usize>>)
        ensures
            (final(self).track_root@, opt_path(r)) == dissolve_spec(old(self).track_root@, path@),
            final(self).last_token == old(self).last_token,
    {
        if path.len() == 0 {
            return None;
        }
        let idx = path[path.len() - 1];
        let ghost t = self.track_root@;
        let ghost pp = path@.drop_last();
        proof {
            assert(path@.subrange(0, path.len() - 1) =~= pp);
            if t.node_at(pp).is_some() {
                lemma_replace_at_same(t, pp);
            }
        }
        let parent = match self.track_root.get_mut_from(path, 0, path.len() - 1) {
            Some(p) => p,
            None => return None,
        };
        let ghost pv = parent@;
        let parent_children = match parent.children_mut() {
            Some(c) => c,
            None => return None,
        };
        proof {
            lemma_nodes_view(parent_children@);
        }
        if idx >= parent_children.len() {
            return None;
        }
        let ghost cs = pv.children();
        let node = parent_children.remove(idx);
        let ghost before = parent_children@;
        proof {
            lemma_nodes_view(before);
            assert(nodes_view(before) =~= cs.remove(idx as int));
        }
        match node.kind {
            NodeKind::Group { children: mut inner, .. } => {
                proof {
                    lemma_nodes_view(inner@);
                }
                if inner.len() == 0 {
                    return None;
                }
                let ghost orig = inner@;
                let n = inner.len();
                while inner.len() > 0
                    invariant
                        n == orig.len(),
                        inner.len() <= n,
                        inner@ == orig.take(inner.len() as int),
                        idx <= before.len(),
                        parent_children@ == before.take(idx as int) + orig.skip(
                            inner.len() as int,
                        ) + before.skip(idx as int),
                    decreases inner.len(),
                {
                    let ghost k = inner.len();
                    let ch = inner.pop().unwrap();
                    parent_children.insert(idx, ch);
                    proof {
                        assert(inner@ =~= orig.take(inner.len() as int));
                        assert(ch == orig[k - 1]);
                        assert(parent_children@ =~= before.take(idx as int) + orig.skip(
                            inner.len() as int,
                        ) + before.skip(idx as int));
                    }
                }
                proof {
                    assert(orig.skip(0) =~= orig);
                    lemma_nodes_view(parent_children@);
                    lemma_nodes_view(orig);
                    assert(nodes_view(parent_children@) =~= cs.take(idx as int) + cs[idx as int].children()
                        + cs.skip(idx + 1));
                }
                let mut new_path = prefix_vec(path, path.len() - 1);
                new_path.push(idx);
                proof {
                    assert(new_path@ =~= path@);
                }
                Some(new_path)
            },
            NodeKind::Sequence(t) => {
                let leaf = TrackNode { kind: NodeKind::Sequence(t), ..node };
                parent_children.insert(idx, leaf);
                proof {
                    lemma_nodes_view(parent_children@);
                    assert(nodes_view(parent_children@) =~= cs);
                }
                None
            },
        }
    }
}

impl Score {
    /// Move the node at `path` to the end of its previous (`dir == -1`) or
    /// next (`dir == 1`) sibling, which must be a group. Returns its new path.
    fn move_into_adjacent_group(&mut self, path: &[usize], dir: isize) -> (r: Option<Vec<usize>>)
        requires
            path.len() > 0 && dir == 1 ==> path[path.len() - 1] < usize::MAX,
        ensures
            (final(self).track_root@, opt_path(r)) == move_adjacent_spec(
                old(self).track_root@,
                path@,
                dir as int,
            ),
            final(self).last_token == old(self).last_token,
    {
        if path.len() == 0 {
            return None;
        }
        let ghost t = self.track_root@;
        let idx = path[path.len() - 1];
        let parent = prefix_vec(path, path.len() - 1);
        proof {
            assert(parent@ =~= path@.drop_last());
        }
        let siblings = match self.track_root.get(&parent) {
            Some(p) => p.child_count(),
            None => return None,
        };
        if dir == -1 {
            if idx == 0 {
                return None;
            }
        } else if dir == 1 {
            if idx + 1 >= siblings {
                return None;
            }
        } else {
            return None;
        }
        let mut target_before = prefix_vec(path, path.len() - 1);
        let target_idx_before = if dir == -1 { idx - 1 } else { idx + 1 };
        target_before.push(target_idx_before);
        let is_group = match self.track_root.get(&target_before) {
            Some(node) => node.is_group(),
            None => false,
        };
        if !is_group {
            return None;
        }
        let moved = match self.track_root.remove_at(path) {
            Some(n) => n,
            None => return None,
        };
        let mut target_after = prefix_vec(path, path.len() - 1);
        let target_idx_after = if dir == -1 { idx - 1 } else { idx };
        target_after.push(target_idx_after);
        proof {
            assert(target_before@.drop_last() =~= path@.drop_last());
            assert(target_after@.drop_last() =~= path@.drop_last());
            assert(!path@.is_prefix_of(target_before@)) by {
                if path@.is_prefix_of(target_before@) {
                    assert(target_before@[path.len() - 1] == path@[path.len() - 1]);
                }
            }
            assert(!target_before@.is_prefix_of(path@)) by {
                if target_before@.is_prefix_of(path@) {
                    assert(target_before@[path.len() - 1] == path@[path.len() - 1]);
                }
            }
            assert(adjusted(target_before@, path@) =~= target_after@) by {
                assert(target_before@.subrange(0, path.len() - 1) =~= path@.subrange(
                    0,
                    path.len() - 1,
                ));
            }
            law_removal_keeps_other_nodes(t, path@, target_before@);
        }
        let ghost t1 = self.track_root@;
        let ghost tv = t1.node_at(target_after@).unwrap();
        proof {
            lemma_replace_at_same(t1, target_after@);
        }
        match self.track_root.get_mut(&target_after) {
            Some(target_node) => {
                match target_node.children_mut() {
                    Some(children) => {
                        proof {
                            lemma_nodes_view(children@);
                        }
                        children.push(moved);
                        proof {
                            lemma_nodes_view(children@);
                            assert(nodes_view(children@) =~= tv.children().push(moved@));
                        }
                        let new_leaf = children.len() - 1;
                        let mut new_path = target_after;
                        new_path.push(new_leaf);
                        return Some(new_path);
                    },
                    None => {},
                }
            },
            None => {},
        }
        proof {
            assert(false);
        }
        None
    }

    /// Move the node at `path` into its previous sibling group.
    pub fn move_into_prev_group(&mut self, path: &[usize]) -> (r: Option<Vec<usize>>)
        ensures
            (final(self).track_root@, opt_path(r)) == move_adjacent_spec(
                old(self).track_root@,
                path@,
                -1,
            ),
            final(self).last_token == old(self).last_token,
    {
        self.move_into_adjacent_group(path, -1)
    }

    /// Move the node at `path` into its next sibling group.
    pub fn move_into_next_group(&mut self, path: &[usize]) -> (r: Option<Vec<usize>>)
        requires
            path.len() > 0 ==> path[path.len() - 1] < usize::MAX,
        ensures
            (final(self).track_root@, opt_path(r)) == move_adjacent_spec(
                old(self).track_root@,
                path@,
                1,
            ),
            final(self).last_token == old(self).last_token,
    {
        self.move_into_adjacent_group(path, 1)
    }

    /// Move the node at `source_path` into the group at `target_parent`, at
    /// `target_index` (clamped to its end). Never moves the root or a node
    /// into its own subtree; dropping a node right before or after itself
    /// changes nothing, and so does a move whose target is not a group once
    /// the node is taken out. Returns the new path of the moved node.
    pub fn move_node_to(
        &mut self,
        source_path: &[usize],
        target_parent: &[usize],
        target_index: usize,
    ) -> (r: Option<Vec<usize>>)
        requires
            source_path.len() > 0 && target_parent@ == source_path@.drop_last() && target_index
                != source_path@.last() ==> source_path@.last() < usize::MAX,
        ensures
            (final(self).track_root@, opt_path(r)) == move_to_spec(
                old(self).track_root@,
                source_path@,
                target_parent@,
                target_index,
            ),
            final(self).last_token == old(self).last_token,
    {
        if source_path.len() == 0 || starts_with(target_parent, source_path) {
            return None;
        }
        let ghost t = self.track_root@;
        let src_idx = source_path[source_path.len() - 1];
        let same_parent = target_parent.len() == source_path.len() - 1 && starts_with(
            source_path,
            target_parent,
        );
        proof {
            if target_parent.len() == source_path.len() - 1 {
                assert(target_parent@.is_prefix_of(source_path@) <==> target_parent@
                    == source_path@.drop_last());
            }
        }
        if same_parent && (target_index == src_idx || target_index == src_idx + 1) {
            return None;
        }
        let mut insert_parent = prefix_vec(target_parent, target_parent.len());
        proof {
            assert(insert_parent@ =~= target_parent@);
        }
        adjust_path_for_removal(&mut insert_parent, source_path);
        let node = match self.track_root.remove_at(source_path) {
            Some(n) => n,
            None => return None,
        };
        let ghost t1 = self.track_root@;
        let target_is_group = match self.track_root.get(&insert_parent) {
            Some(p) => p.is_group(),
            None => false,
        };
        if !target_is_group {
            // The target does not exist once the source is out: put it back.
            let _back = self.track_root.insert_at(source_path, node);
            proof {
                law_insert_after_remove(t, source_path@);
            }
            return None;
        }
        proof {
            if t1.node_at(insert_parent@).is_some() {
                lemma_replace_at_same(t1, insert_parent@);
            }
        }
        let parent = match self.track_root.get_mut(&insert_parent) {
            Some(p) => p,
            None => return None,
        };
        let ghost pv = parent@;
        let children = match parent.children_mut() {
            Some(c) => c,
            None => return None,
        };
        proof {
            lemma_nodes_view(children@);
        }
        let insert_idx = if target_index < children.len() {
            target_index
        } else {
            children.len()
        };
        children.insert(insert_idx, node);
        proof {
            lemma_nodes_view(children@);
            assert(nodes_view(children@) =~= pv.children().insert(insert_idx as int, node@));
        }
        let mut new_path = insert_parent;
        new_path.push(insert_idx);
        proof {
            assert(new_path@.drop_last() =~= insert_parent@);
        }
        Some(new_path)
    }
}

} // verus!
