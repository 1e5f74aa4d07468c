//! The track tree: groups and sequences arranged in a tree, addressed by
//! index paths from the root.
//!
//! Every node carries a [`Token`]: a group its id, a sequence leaf the token
//! of the sequence it stands for. Mixing parameters and the sequences' own
//! settings are kept by callers, keyed by these tokens.
use vstd::prelude::*;
use vstd::multiset::Multiset;
use crate::ids::{Token, TokenGen};

verus! {

/// How a group schedules its children: all of them, or one picked at random.
#[derive(Clone, Copy, PartialEq, Eq, Structural, Debug)]
pub enum GroupMode {
    And,
    Or,
}

impl GroupMode {
    pub fn default() -> (m: GroupMode)
        ensures
            m == GroupMode::And,
    {
        GroupMode::And
    }
}

/// Which aesthetic parameters a group imposes on its descendants.
#[derive(Clone, Copy, PartialEq, Eq, Structural, Debug)]
pub struct AestheticLocks {
    pub lock_volume: bool,
    pub lock_pan: bool,
    pub lock_hue: bool,
}

impl AestheticLocks {
    pub fn default() -> (a: AestheticLocks)
        ensures
            !a.lock_volume && !a.lock_pan && !a.lock_hue,
    {
        AestheticLocks { lock_volume: false, lock_pan: false, lock_hue: false }
    }
}

pub enum NodeKind {
    Group {
        id: Token,
        collapsed: bool,
        children: Vec<TrackNode>,
        mode: GroupMode,
        aesthetic: AestheticLocks,
    },
    Sequence(Token),
}

pub struct TrackNode {
    pub name: String,
    pub muted: bool,
    pub solo: bool,
    pub kind: NodeKind,
}

/// Mathematical picture of a node kind.
pub enum KindView {
    Group {
        id: Token,
        collapsed: bool,
        children: Seq<TrackView>,
        mode: GroupMode,
        aesthetic: AestheticLocks,
    },
    Sequence(Token),
}

/// Mathematical picture of a track tree.
pub struct TrackView {
    pub name: Seq<char>,
    pub muted: bool,
    pub solo: bool,
    pub kind: KindView,
}

pub open spec fn node_view(n: TrackNode) -> TrackView
    decreases n,
{
    TrackView {
        name: n.name@,
        muted: n.muted,
        solo: n.solo,
        kind: match n.kind {
            NodeKind::Group { id, collapsed, children, mode, aesthetic } => KindView::Group {
                id,
                collapsed,
                children: nodes_view(children@),
                mode,
                aesthetic,
            },
            NodeKind::Sequence(t) => KindView::Sequence(t),
        },
    }
}

pub open spec fn nodes_view(cs: Seq<TrackNode>) -> Seq<TrackView>
    decreases cs,
{
    if cs.len() == 0 {
        Seq::empty()
    } else {
        nodes_view(cs.drop_last()).push(node_view(cs.last()))
    }
}

impl View for TrackNode {
    type V = TrackView;

    open spec fn view(&self) -> TrackView {
        node_view(*self)
    }
}

pub proof fn lemma_nodes_view(cs: Seq<TrackNode>)
    ensures
        nodes_view(cs).len() == cs.len(),
        forall|i: int| 0 <= i < cs.len() ==> #[trigger] nodes_view(cs)[i] == cs[i]@,
    decreases cs.len(),
{
    if cs.len() > 0 {
        lemma_nodes_view(cs.drop_last());
    }
}

/// The views of a sequence of nodes follow a change of one element.
pub proof fn lemma_nodes_view_update(cs: Seq<TrackNode>, i: int)
    requires
        0 <= i < cs.len(),
    ensures
        forall|s: Seq<TrackNode>|
            s.len() == cs.len() && (forall|j: int| 0 <= j < cs.len() && j != i ==> s[j] == cs[j])
                ==> #[trigger] nodes_view(s) == nodes_view(cs).update(i, s[i]@),
{
    assert forall|s: Seq<TrackNode>|
        s.len() == cs.len() && (forall|j: int| 0 <= j < cs.len() && j != i ==> s[j] == cs[j])
        implies #[trigger] nodes_view(s) == nodes_view(cs).update(i, s[i]@) by {
        lemma_nodes_view(cs);
        lemma_nodes_view(s);
        assert(nodes_view(s) =~= nodes_view(cs).update(i, s[i]@));
    }
}

/// Exchange two entries of a sequence.
pub open spec fn seq_swap<A>(s: Seq<A>, i: int, j: int) -> Seq<A> {
    s.update(i, s[j]).update(j, s[i])
}

/// Some tree of the list has a node with solo enabled.
pub open spec fn any_solo_in(cs: Seq<TrackView>) -> bool
    decreases cs,
{
    if cs.len() == 0 {
        false
    } else {
        any_solo_in(cs.drop_last()) || cs.last().any_solo()
    }
}

pub proof fn lemma_any_solo_in(cs: Seq<TrackView>)
    ensures
        any_solo_in(cs) <==> exists|i: int| 0 <= i < cs.len() && #[trigger] cs[i].any_solo(),
    decreases cs.len(),
{
    if cs.len() > 0 {
        assert(any_solo_in(cs) == (any_solo_in(cs.drop_last()) || cs.last().any_solo()));
        lemma_any_solo_in(cs.drop_last());
        if any_solo_in(cs.drop_last()) {
            let i = choose|i: int| 0 <= i < cs.drop_last().len() && #[trigger] cs.drop_last()[i].any_solo();
            assert(cs[i] == cs.drop_last()[i]);
        }
        if exists|i: int| 0 <= i < cs.len() && #[trigger] cs[i].any_solo() {
            let i = choose|i: int| 0 <= i < cs.len() && #[trigger] cs[i].any_solo();
            if i < cs.len() - 1 {
                assert(cs.drop_last()[i] == cs[i]);
            }
        }
    }
}

impl TrackView {
    pub open spec fn children(self) -> Seq<TrackView> {
        match self.kind {
            KindView::Group { children, .. } => children,
            KindView::Sequence(_) => Seq::empty(),
        }
    }

    pub open spec fn is_group(self) -> bool {
        self.kind is Group
    }

    pub open spec fn token(self) -> Token {
        match self.kind {
            KindView::Group { id, .. } => id,
            KindView::Sequence(t) => t,
        }
    }

    pub open spec fn with_children(self, cs: Seq<TrackView>) -> TrackView {
        match self.kind {
            KindView::Group { id, collapsed, children, mode, aesthetic } => TrackView {
                kind: KindView::Group { id, collapsed, children: cs, mode, aesthetic },
                ..self
            },
            KindView::Sequence(_) => self,
        }
    }

    /// The subtree at `path`, if the path leads through groups to a node.
    pub open spec fn node_at(self, path: Seq<usize>) -> Option<TrackView>
        decreases path.len(),
    {
        if path.len() == 0 {
            Some(self)
        } else if self.is_group() && path[0] < self.children().len() {
            self.children()[path[0] as int].node_at(path.drop_first())
        } else {
            None
        }
    }

    /// The tree with the subtree at `path` replaced by `sub` (unchanged if
    /// the path leads nowhere).
    pub open spec fn replace_at(self, path: Seq<usize>, sub: TrackView) -> TrackView
        decreases path.len(),
    {
        if path.len() == 0 {
            sub
        } else if self.is_group() && path[0] < self.children().len() {
            let ix = path[0] as int;
            self.with_children(
                self.children().update(ix, self.children()[ix].replace_at(path.drop_first(), sub)),
            )
        } else {
            self
        }
    }

    /// The tree with the children of the group at `path` replaced by `cs`.
    pub open spec fn set_children_at(self, path: Seq<usize>, cs: Seq<TrackView>) -> TrackView {
        match self.node_at(path) {
            Some(n) => self.replace_at(path, n.with_children(cs)),
            None => self,
        }
    }

    /// The children of the node at `path` (empty where there is none).
    pub open spec fn children_at(self, path: Seq<usize>) -> Seq<TrackView> {
        match self.node_at(path) {
            Some(n) => n.children(),
            None => Seq::empty(),
        }
    }

    /// `path` leads to a group.
    pub open spec fn group_at(self, path: Seq<usize>) -> bool {
        self.node_at(path) matches Some(n) && n.is_group()
    }

    /// A node can be removed at `path`: it is not the root and it exists.
    pub open spec fn removable(self, path: Seq<usize>) -> bool {
        path.len() > 0 && self.node_at(path).is_some()
    }

    pub open spec fn remove_node(self, path: Seq<usize>) -> TrackView {
        if self.removable(path) {
            let parent = path.drop_last();
            self.set_children_at(parent, self.children_at(parent).remove(path.last() as int))
        } else {
            self
        }
    }

    /// A node can be inserted at `path`: its parent is a group and the last
    /// index is at most the parent's number of children.
    pub open spec fn insertable(self, path: Seq<usize>) -> bool {
        path.len() > 0 && self.group_at(path.drop_last()) && path.last() <= self.children_at(
            path.drop_last(),
        ).len()
    }

    pub open spec fn insert_node(self, path: Seq<usize>, sub: TrackView) -> TrackView {
        if self.insertable(path) {
            let parent = path.drop_last();
            self.set_children_at(parent, self.children_at(parent).insert(path.last() as int, sub))
        } else {
            self
        }
    }

    pub open spec fn any_solo(self) -> bool
        decreases self,
    {
        self.solo || match self.kind {
            KindView::Group { children, .. } => any_solo_in(children),
            KindView::Sequence(_) => false,
        }
    }

    /// Tokens of the nodes met when walking `path` from this node: this
    /// node's, then each child's while the path leads through groups.
    pub open spec fn tokens_along(self, path: Seq<usize>) -> Seq<Token>
        decreases path.len(),
    {
        if path.len() > 0 && self.is_group() && path[0] < self.children().len() {
            seq![self.token()] + self.children()[path[0] as int].tokens_along(path.drop_first())
        } else {
            seq![self.token()]
        }
    }

    /// The path leads to a node, and no group passed on the way there is
    /// collapsed; a sequence has no children, so no step leads below one.
    pub open spec fn visible(self, path: Seq<usize>) -> bool
        decreases path.len(),
    {
        if path.len() == 0 {
            true
        } else {
            match self.kind {
                KindView::Group { collapsed, children, .. } => !collapsed && path[0]
                    < children.len() && children[path[0] as int].visible(path.drop_first()),
                KindView::Sequence(_) => false,
            }
        }
    }
}

/// The tokens of the sequence leaves of a tree, counted with multiplicity.
pub open spec fn seq_tokens(t: TrackView) -> Multiset<Token>
    decreases t,
{
    match t.kind {
        KindView::Group { children, .. } => seq_tokens_list(children),
        KindView::Sequence(tok) => Multiset::singleton(tok),
    }
}

pub open spec fn seq_tokens_list(cs: Seq<TrackView>) -> Multiset<Token>
    decreases cs,
{
    if cs.len() == 0 {
        Multiset::empty()
    } else {
        seq_tokens_list(cs.drop_last()).add(seq_tokens(cs.last()))
    }
}

/// Number of sequence leaves in a tree.
pub open spec fn seq_count(t: TrackView) -> nat
    decreases t,
{
    match t.kind {
        KindView::Group { children, .. } => seq_count_list(children),
        KindView::Sequence(_) => 1,
    }
}

pub open spec fn seq_count_list(cs: Seq<TrackView>) -> nat
    decreases cs,
{
    if cs.len() == 0 {
        0
    } else {
        seq_count_list(cs.drop_last()) + seq_count(cs.last())
    }
}

/// The tree with its sequence leaves given the tokens `start + 1`,
/// `start + 2`, ... in preorder.
pub open spec fn retokenized(t: TrackView, start: int) -> TrackView
    decreases t,
{
    match t.kind {
        KindView::Group { children, .. } => t.with_children(retokenized_list(children, start)),
        KindView::Sequence(_) => TrackView { kind: KindView::Sequence(Token((start + 1) as usize)), ..t },
    }
}

pub open spec fn retokenized_list(cs: Seq<TrackView>, start: int) -> Seq<TrackView>
    decreases cs,
{
    if cs.len() == 0 {
        Seq::empty()
    } else {
        retokenized_list(cs.drop_last(), start).push(
            retokenized(cs.last(), start + seq_count_list(cs.drop_last())),
        )
    }
}

pub proof fn lemma_retokenized_list(cs: Seq<TrackView>, start: int)
    ensures
        retokenized_list(cs, start).len() == cs.len(),
        forall|j: int|
            0 <= j < cs.len() ==> #[trigger] retokenized_list(cs, start)[j] == retokenized(
                cs[j],
                start + seq_count_list(cs.take(j)),
            ),
    decreases cs.len(),
{
    if cs.len() > 0 {
        let init = cs.drop_last();
        lemma_retokenized_list(init, start);
        assert forall|j: int| 0 <= j < cs.len() implies #[trigger] retokenized_list(cs, start)[j]
            == retokenized(cs[j], start + seq_count_list(cs.take(j))) by {
            if j < cs.len() - 1 {
                assert(init.take(j) =~= cs.take(j));
                assert(retokenized_list(init, start)[j] == retokenized(init[j], start + seq_count_list(init.take(j))));
            } else {
                assert(init =~= cs.take(j));
            }
        }
    }
}

pub proof fn lemma_seq_count_take(cs: Seq<TrackView>, k: int)
    requires
        0 <= k <= cs.len(),
    ensures
        seq_count_list(cs.take(k)) <= seq_count_list(cs),
        k < cs.len() ==> seq_count_list(cs.take(k + 1)) == seq_count_list(cs.take(k)) + seq_count(cs[k]),
    decreases cs.len() - k,
{
    if k < cs.len() {
        assert(cs.take(k + 1).drop_last() =~= cs.take(k));
        lemma_seq_count_take(cs, k + 1);
    } else {
        assert(cs.take(k) =~= cs);
    }
}

// ---------------------------------------------------------------------------
// Lemmas on paths through a tree
// ---------------------------------------------------------------------------

/// Reading the place just written gives the written subtree.
pub proof fn lemma_node_at_replace_at(t: TrackView, p: Seq<usize>, s: TrackView)
    requires
        t.node_at(p).is_some(),
    ensures
        t.replace_at(p, s).node_at(p) == Some(s),
    decreases p.len(),
{
    if p.len() > 0 {
        let ix = p[0] as int;
        lemma_node_at_replace_at(t.children()[ix], p.drop_first(), s);
    }
}

/// Writing back what is there changes nothing.
pub proof fn lemma_replace_at_same(t: TrackView, p: Seq<usize>)
    requires
        t.node_at(p).is_some(),
    ensures
        t.replace_at(p, t.node_at(p).unwrap()) == t,
    decreases p.len(),
{
    if p.len() > 0 {
        let ix = p[0] as int;
        lemma_replace_at_same(t.children()[ix], p.drop_first());
        assert(t.children().update(ix, t.children()[ix]) =~= t.children());
    }
}

/// A second write to the same place overrides the first.
pub proof fn lemma_replace_at_twice(t: TrackView, p: Seq<usize>, s1: TrackView, s2: TrackView)
    requires
        t.node_at(p).is_some(),
    ensures
        t.replace_at(p, s1).replace_at(p, s2) == t.replace_at(p, s2),
    decreases p.len(),
{
    if p.len() > 0 {
        let ix = p[0] as int;
        lemma_replace_at_twice(t.children()[ix], p.drop_first(), s1, s2);
        assert(t.children().update(ix, t.children()[ix].replace_at(p.drop_first(), s1)).update(
            ix,
            t.children()[ix].replace_at(p.drop_first(), s1).replace_at(p.drop_first(), s2),
        ) =~= t.children().update(ix, t.children()[ix].replace_at(p.drop_first(), s2)));
    }
}

/// Following a path in two pieces.
pub proof fn lemma_node_at_concat(t: TrackView, p: Seq<usize>, q: Seq<usize>)
    ensures
        t.node_at(p + q) == (match t.node_at(p) {
            Some(n) => n.node_at(q),
            None => None,
        }),
    decreases p.len(),
{
    if p.len() > 0 {
        assert((p + q).drop_first() =~= p.drop_first() + q);
        assert((p + q)[0] == p[0]);
        if t.is_group() && p[0] < t.children().len() {
            lemma_node_at_concat(t.children()[p[0] as int], p.drop_first(), q);
        }
    } else {
        assert(p + q =~= q);
    }
}

/// Writing at a path in two pieces.
pub proof fn lemma_replace_at_concat(t: TrackView, p: Seq<usize>, q: Seq<usize>, s: TrackView)
    requires
        t.node_at(p).is_some(),
    ensures
        t.replace_at(p + q, s) == t.replace_at(p, t.node_at(p).unwrap().replace_at(q, s)),
    decreases p.len(),
{
    if p.len() > 0 {
        assert((p + q).drop_first() =~= p.drop_first() + q);
        assert((p + q)[0] == p[0]);
        lemma_replace_at_concat(t.children()[p[0] as int], p.drop_first(), q, s);
    } else {
        assert(p + q =~= q);
    }
}

/// The shape of a tree is kept where a write keeps the shape of the subtree.
pub proof fn lemma_node_at_replace_other(t: TrackView, p: Seq<usize>, s: TrackView, q: Seq<usize>)
    requires
        t.node_at(p).is_some(),
        q.len() <= p.len(),
        q != p.subrange(0, q.len() as int),
    ensures
        t.replace_at(p, s).node_at(q) == t.node_at(q),
    decreases q.len(),
{
    if q.len() > 0 {
        let ix = p[0] as int;
        if q[0] == p[0] {
            assert(q.drop_first() != p.drop_first().subrange(0, q.drop_first().len() as int)) by {
                if q.drop_first() == p.drop_first().subrange(0, q.drop_first().len() as int) {
                    assert forall|i: int| 0 <= i < q.len() implies q[i] == p.subrange(
                        0,
                        q.len() as int,
                    )[i] by {
                        if i > 0 {
                            assert(q[i] == q.drop_first()[i - 1]);
                            assert(p.drop_first().subrange(0, q.drop_first().len() as int)[i - 1]
                                == p[i]);
                        }
                    }
                    assert(q =~= p.subrange(0, q.len() as int));
                }
            }
            lemma_node_at_replace_other(t.children()[ix], p.drop_first(), s, q.drop_first());
        }
    } else {
        assert(q =~= p.subrange(0, 0));
    }
}

/// Writing a subtree does not change whether a path that does not reach
/// below it exists, and the subtree read there is the old one with the write
/// applied inside.
pub proof fn lemma_node_at_replace_ancestor(t: TrackView, q: Seq<usize>, r: Seq<usize>, s: TrackView)
    requires
        t.node_at(q + r).is_some(),
    ensures
        t.replace_at(q + r, s).node_at(q) == Some(t.node_at(q).unwrap().replace_at(r, s)),
{
    lemma_node_at_concat(t, q, r);
    lemma_replace_at_concat(t, q, r, s);
    lemma_node_at_replace_at(t, q, t.node_at(q).unwrap().replace_at(r, s));
}

/// A write below one branch leaves paths through another branch untouched.
pub proof fn lemma_node_at_replace_diverge(
    t: TrackView,
    w: Seq<usize>,
    s: TrackView,
    q: Seq<usize>,
    k: int,
)
    requires
        t.node_at(w).is_some(),
        0 <= k < w.len(),
        k < q.len(),
        w[k] != q[k],
    ensures
        t.replace_at(w, s).node_at(q) == t.node_at(q),
    decreases k,
{
    if w[0] == q[0] {
        let ix = w[0] as int;
        assert(w.drop_first()[k - 1] == w[k]);
        assert(q.drop_first()[k - 1] == q[k]);
        lemma_node_at_replace_diverge(t.children()[ix], w.drop_first(), s, q.drop_first(), k - 1);
    }
}

/// The node at a path is the child, at the path's last index, of the node at
/// the path without it.
pub proof fn lemma_node_at_last(t: TrackView, p: Seq<usize>)
    requires
        p.len() > 0,
    ensures
        t.node_at(p) == (match t.node_at(p.drop_last()) {
            Some(n) => if n.is_group() && p.last() < n.children().len() {
                Some(n.children()[p.last() as int])
            } else {
                None
            },
            None => None,
        }),
{
    let q = p.drop_last();
    let ix = p.last();
    assert(p =~= q + seq![ix]);
    lemma_node_at_concat(t, q, seq![ix]);
    assert(seq![ix].drop_first() =~= Seq::<usize>::empty());
    assert(seq![ix][0] == ix);
    if let Some(n) = t.node_at(q) {
        if n.is_group() && ix < n.children().len() {
            assert(n.children()[ix as int].node_at(Seq::empty()) == Some(n.children()[ix as int]));
        }
    }
}

/// Writing the children of the node at `q` and reading at `q` gives the
/// rewritten node.
pub proof fn lemma_set_children_at(t: TrackView, q: Seq<usize>, cs: Seq<TrackView>)
    requires
        t.group_at(q),
    ensures
        t.set_children_at(q, cs).node_at(q) == Some(t.node_at(q).unwrap().with_children(cs)),
        t.set_children_at(q, cs).group_at(q),
        t.set_children_at(q, cs).children_at(q) == cs,
{
    lemma_node_at_replace_at(t, q, t.node_at(q).unwrap().with_children(cs));
}

/// After a node was inserted at `p`, it is found there.
pub proof fn lemma_insert_node_at(t: TrackView, p: Seq<usize>, s: TrackView)
    requires
        t.insertable(p),
    ensures
        t.insert_node(p, s).node_at(p) == Some(s),
{
    let q = p.drop_last();
    let cs = t.children_at(q).insert(p.last() as int, s);
    lemma_set_children_at(t, q, cs);
    lemma_node_at_last(t.insert_node(p, s), p);
}

/// Taking a node out and inserting another one at the same path replaces it.
pub proof fn lemma_remove_insert_is_replace(t: TrackView, p: Seq<usize>, s: TrackView)
    requires
        t.removable(p),
    ensures
        t.remove_node(p).insertable(p),
        t.remove_node(p).insert_node(p, s) == t.replace_at(p, s),
{
    let q = p.drop_last();
    let ix = p.last() as int;
    lemma_node_at_last(t, p);
    let par = t.node_at(q).unwrap();
    let cs = par.children();
    let t1 = t.remove_node(p);
    lemma_set_children_at(t, q, cs.remove(ix));
    assert(t1.children_at(q) == cs.remove(ix));
    let cs2 = cs.remove(ix).insert(ix, s);
    assert(cs2 =~= cs.update(ix, s));
    let par1 = t1.node_at(q).unwrap();
    lemma_replace_at_twice(t, q, par.with_children(cs.remove(ix)), par1.with_children(cs2));
    assert(p =~= q + seq![p.last()]);
    lemma_replace_at_concat(t, q, seq![p.last()], s);
    assert(seq![p.last()].drop_first() =~= Seq::<usize>::empty());
    assert(seq![p.last()][0] == p.last());
    assert(par.replace_at(seq![p.last()], s) == par.with_children(cs.update(ix, cs[ix].replace_at(Seq::empty(), s))));
}

/// Every group of an executable tree has at most `usize::MAX` children.
pub proof fn lemma_children_len_bounded(n: TrackNode, p: Seq<usize>)
    ensures
        n@.node_at(p) matches Some(m) ==> m.children().len() <= usize::MAX,
    decreases p.len(),
{
    match n.kind {
        NodeKind::Group { children, .. } => {
            lemma_nodes_view(children@);
            assert(children@.len() == children.len());
            if p.len() > 0 && p[0] < children@.len() {
                assert(n@.children()[p[0] as int] == children@[p[0] as int]@);
                lemma_children_len_bounded(children@[p[0] as int], p.drop_first());
            }
        },
        NodeKind::Sequence(_) => {},
    }
}

// ---------------------------------------------------------------------------
// Executable operations
// ---------------------------------------------------------------------------

impl TrackNode {
    /// Root group with safe defaults.
    pub fn new_root(gen: &mut TokenGen) -> (n: TrackNode)
        requires
            old(gen).0 < usize::MAX,
        ensures
            final(gen).0 == old(gen).0 + 1,
            n@.name == "Root"@,
            n@.kind == (KindView::Group {
                id: Token(final(gen).0),
                collapsed: false,
                children: Seq::empty(),
                mode: GroupMode::And,
                aesthetic: AestheticLocks { lock_volume: false, lock_pan: false, lock_hue: false },
            }),
            !n@.muted && !n@.solo,
    {
        let name = String::from_str("Root");
        Self::new_node(gen, name)
    }

    /// New empty group with a fresh token and safe defaults.
    pub fn new_node(gen: &mut TokenGen, name: String) -> (n: TrackNode)
        requires
            old(gen).0 < usize::MAX,
        ensures
            final(gen).0 == old(gen).0 + 1,
            n@.name == name@,
            n@.kind == (KindView::Group {
                id: Token(final(gen).0),
                collapsed: false,
                children: Seq::empty(),
                mode: GroupMode::And,
                aesthetic: AestheticLocks { lock_volume: false, lock_pan: false, lock_hue: false },
            }),
            !n@.muted && !n@.solo,
    {
        let id = gen.next();
        let n = TrackNode {
            name,
            muted: false,
            solo: false,
            kind: NodeKind::Group {
                id,
                collapsed: false,
                children: Vec::new(),
                mode: GroupMode::And,
                aesthetic: AestheticLocks::default(),
            },
        };
        proof {
            assert(nodes_view(Seq::<TrackNode>::empty()) =~= Seq::<TrackView>::empty());
        }
        n
    }

    /// A leaf standing for the sequence with the given token.
    pub fn from_sequence(token: Token) -> (n: TrackNode)
        ensures
            n@ == (TrackView {
                name: Seq::empty(),
                muted: false,
                solo: false,
                kind: KindView::Sequence(token),
            }),
    {
        TrackNode { name: String::new(), muted: false, solo: false, kind: NodeKind::Sequence(token) }
    }

    /// The token of the sequence this leaf stands for.
    pub fn as_seq(&self) -> (r: Option<Token>)
        ensures
            r == (match self@.kind {
                KindView::Sequence(t) => Some(t),
                KindView::Group { .. } => None,
            }),
    {
        match &self.kind {
            NodeKind::Sequence(t) => Some(*t),
            NodeKind::Group { .. } => None,
        }
    }

    /// The group id or sequence token of this node.
    pub fn token(&self) -> (r: Token)
        ensures
            r == self@.token(),
    {
        match &self.kind {
            NodeKind::Sequence(t) => *t,
            NodeKind::Group { id, .. } => *id,
        }
    }

    pub fn is_group(&self) -> (r: bool)
        ensures
            r == self@.is_group(),
    {
        match &self.kind {
            NodeKind::Group { .. } => true,
            NodeKind::Sequence(_) => false,
        }
    }

    pub fn name(&self) -> (r: &str)
        ensures
            r@ == self@.name,
    {
        self.name.as_str()
    }

    pub fn child_count(&self) -> (r: usize)
        ensures
            r == self@.children().len(),
    {
        match &self.kind {
            NodeKind::Group { children, .. } => {
                proof {
                    lemma_nodes_view(children@);
                }
                children.len()
            },
            NodeKind::Sequence(_) => 0,
        }
    }

    /// The children of a group, `None` for a sequence.
    pub fn children(&self) -> (r: Option<&Vec<TrackNode>>)
        ensures
            r.is_some() == self@.is_group(),
            r matches Some(v) ==> nodes_view(v@) == self@.children(),
    {
        match &self.kind {
            NodeKind::Group { children, .. } => Some(children),
            NodeKind::Sequence(_) => None,
        }
    }

    /// Mutable access to the children of a group, `None` for a sequence.
    pub fn children_mut(&mut self) -> (r: Option<&mut Vec<TrackNode>>)
        ensures
            r.is_some() == old(self)@.is_group(),
            r matches Some(v) ==> {
                &&& nodes_view((*v)@) == old(self)@.children()
                &&& *v == old(self).kind->children
                &&& final(self)@ == old(self)@.with_children(nodes_view((*final(v))@))
            },
            r is None ==> final(self)@ == old(self)@,
    {
        match &mut self.kind {
            NodeKind::Group { children, .. } => Some(children),
            NodeKind::Sequence(_) => None,
        }
    }

    // ---------- Safe mutations on groups ----------
    /// Push a child at the end of a group; returns its index.
    pub fn push_child(&mut self, child: TrackNode) -> (r: Option<usize>)
        ensures
            old(self)@.is_group() ==> r == Some((old(self)@.children().len()) as usize)
                && final(self)@ == old(self)@.with_children(old(self)@.children().push(child@)),
            !old(self)@.is_group() ==> r is None && final(self)@ == old(self)@,
    {
        match self.children_mut() {
            Some(children) => {
                proof {
                    lemma_nodes_view(children@);
                }
                children.push(child);
                proof {
                    lemma_nodes_view(children@);
                    assert(nodes_view(children@) =~= old(self)@.children().push(child@));
                }
                Some(children.len() - 1)
            },
            None => None,
        }
    }

    /// Insert a child at `index` of a group; returns true on success.
    pub fn insert_child(&mut self, index: usize, child: TrackNode) -> (r: bool)
        ensures
            r == (old(self)@.is_group() && index <= old(self)@.children().len()),
            r ==> final(self)@ == old(self)@.with_children(
                old(self)@.children().insert(index as int, child@),
            ),
            !r ==> final(self)@ == old(self)@,
    {
        match self.children_mut() {
            Some(children) => {
                proof {
                    lemma_nodes_view(children@);
                }
                if index <= children.len() {
                    children.insert(index, child);
                    proof {
                        lemma_nodes_view(children@);
                        assert(nodes_view(children@) =~= old(self)@.children().insert(
                            index as int,
                            child@,
                        ));
                    }
                    true
                } else {
                    false
                }
            },
            None => false,
        }
    }

    pub(crate) fn get_from<'a>(&'a self, path: &[usize], k: usize, end: usize) -> (r: Option<&'a TrackNode>)
        requires
            k <= end <= path.len(),
        ensures
            r.is_some() == self@.node_at(path@.subrange(k as int, end as int)).is_some(),
            r matches Some(n) ==> n@ == self@.node_at(path@.subrange(k as int, end as int)).unwrap(),
        decreases end - k,
    {
        if k == end {
            return Some(self);
        }
        let ghost sp = path@.subrange(k as int, end as int);
        proof {
            assert(sp[0] == path[k as int]);
            assert(sp.drop_first() =~= path@.subrange(k + 1, end as int));
        }
        let ix = path[k];
        match self.children() {
            Some(children) => {
                proof {
                    lemma_nodes_view(children@);
                }
                if ix >= children.len() {
                    return None;
                }
                children[ix].get_from(path, k + 1, end)
            },
            None => None,
        }
    }

    /// The node at `path`, following child indices from this node.
    pub fn get<'a>(&'a self, path: &[usize]) -> (r: Option<&'a TrackNode>)
        ensures
            r.is_some() == self@.node_at(path@).is_some(),
            r matches Some(n) ==> n@ == self@.node_at(path@).unwrap(),
    {
        proof {
            assert(path@.subrange(0, path@.len() as int) =~= path@);
        }
        self.get_from(path, 0, path.len())
    }

    pub(crate) fn get_mut_from<'a>(&'a mut self, path: &[usize], k: usize, end: usize) -> (r: Option<
        &'a mut TrackNode,
    >)
        requires
            k <= end <= path.len(),
        ensures
            r.is_some() == old(self)@.node_at(path@.subrange(k as int, end as int)).is_some(),
            r matches Some(n) ==> {
                &&& (*n)@ == old(self)@.node_at(path@.subrange(k as int, end as int)).unwrap()
                &&& final(self)@ == old(self)@.replace_at(
                    path@.subrange(k as int, end as int),
                    (*final(n))@,
                )
            },
            r is None ==> final(self)@ == old(self)@,
        decreases end - k,
    {
        if k == end {
            return Some(self);
        }
        let ghost sp = path@.subrange(k as int, end as int);
        proof {
            assert(sp[0] == path[k as int]);
            assert(sp.drop_first() =~= path@.subrange(k + 1, end as int));
        }
        let ix = path[k];
        match self.children_mut() {
            Some(children) => {
                proof {
                    lemma_nodes_view(children@);
                }
                if ix >= children.len() {
                    return None;
                }
                proof {
                    lemma_nodes_view_update(children@, ix as int);
                }
                children[ix].get_mut_from(path, k + 1, end)
            },
            None => None,
        }
    }

    /// Mutable access to the node at `path`.
    pub fn get_mut<'a>(&'a mut self, path: &[usize]) -> (r: Option<&'a mut TrackNode>)
        ensures
            r.is_some() == old(self)@.node_at(path@).is_some(),
            r matches Some(n) ==> {
                &&& (*n)@ == old(self)@.node_at(path@).unwrap()
                &&& final(self)@ == old(self)@.replace_at(path@, (*final(n))@)
            },
            r is None ==> final(self)@ == old(self)@,
    {
        proof {
            assert(path@.subrange(0, path@.len() as int) =~= path@);
        }
        self.get_mut_from(path, 0, path.len())
    }

    /// Take out the node at `path` (never the root itself).
    pub fn remove_at(&mut self, path: &[usize]) -> (r: Option<TrackNode>)
        ensures
            r.is_some() == old(self)@.removable(path@),
            r matches Some(n) ==> n@ == old(self)@.node_at(path@).unwrap(),
            final(self)@ == old(self)@.remove_node(path@),
    {
        if path.len() == 0 {
            return None;
        }
        let ix = path[path.len() - 1];
        let ghost pp = path@.drop_last();
        proof {
            assert(path@.subrange(0, path.len() - 1) =~= pp);
            assert(path@ =~= pp + seq![ix]);
            lemma_node_at_concat(old(self)@, pp, seq![ix]);
            assert(seq![ix].drop_first() =~= Seq::<usize>::empty());
            if old(self)@.node_at(pp).is_some() {
                lemma_replace_at_same(old(self)@, pp);
            }
        }
        let parent = match self.get_mut_from(path, 0, path.len() - 1) {
            Some(p) => p,
            None => return None,
        };
        let ghost pv = parent@;
        match parent.children_mut() {
            Some(children) => {
                proof {
                    lemma_nodes_view(children@);
                }
                proof {
                    assert(seq![ix].drop_first() =~= Seq::<usize>::empty());
                    assert(seq![ix][0] == ix);
                    if ix < pv.children().len() {
                        assert(pv.children()[ix as int].node_at(Seq::empty()) == Some(
                            pv.children()[ix as int],
                        ));
                    }
                    assert(pv.node_at(seq![ix]) == if ix < pv.children().len() {
                        Some(pv.children()[ix as int])
                    } else {
                        None
                    });
                }
                if ix < children.len() {
                    let n = children.remove(ix);
                    proof {
                        lemma_nodes_view(children@);
                        assert(nodes_view(children@) =~= pv.children().remove(ix as int));
                    }
                    Some(n)
                } else {
                    None
                }
            },
            None => None,
        }
    }

    /// Insert `node` at `path`: its parent must be a group and the last index
    /// at most its number of children. Returns true on success.
    pub fn insert_at(&mut self, path: &[usize], node: TrackNode) -> (r: bool)
        ensures
            r == old(self)@.insertable(path@),
            final(self)@ == old(self)@.insert_node(path@, node@),
    {
        if path.len() == 0 {
            return false;
        }
        let ix = path[path.len() - 1];
        let ghost pp = path@.drop_last();
        proof {
            assert(path@.subrange(0, path.len() - 1) =~= pp);
            if old(self)@.node_at(pp).is_some() {
                lemma_replace_at_same(old(self)@, pp);
            }
        }
        let parent = match self.get_mut_from(path, 0, path.len() - 1) {
            Some(p) => p,
            None => return false,
        };
        parent.insert_child(ix, node)
    }

    pub fn toggle_mute(&mut self)
        ensures
            final(self)@ == (TrackView { muted: !old(self)@.muted, ..old(self)@ }),
    {
        self.muted = !self.muted;
    }

    pub fn is_mute(&self) -> (r: bool)
        ensures
            r == self@.muted,
    {
        self.muted
    }

    pub fn toggle_solo(&mut self)
        ensures
            final(self)@ == (TrackView { solo: !old(self)@.solo, ..old(self)@ }),
    {
        self.solo = !self.solo;
    }

    pub fn is_solo(&self) -> (r: bool)
        ensures
            r == self@.solo,
    {
        self.solo
    }

    /// Whether any node in the tree has solo enabled.
    pub fn has_any_solo(&self) -> (r: bool)
        ensures
            r == self@.any_solo(),
        decreases self,
    {
        if self.solo {
            return true;
        }
        match &self.kind {
            NodeKind::Sequence(_) => false,
            NodeKind::Group { children, .. } => {
                proof {
                    lemma_nodes_view(children@);
                    assert forall|j: int| 0 <= j < children.len() implies decreases_to!(
                        self => children[j]
                    ) by {
                        vstd::std_specs::vec::axiom_vec_index_decreases(*children, j);
                        assert(decreases_to!(self => self.kind));
                        assert(decreases_to!(self.kind => self.kind->children));
                    }
                }
                let ghost cv = nodes_view(children@);
                let mut i: usize = 0;
                while i < children.len()
                    invariant
                        0 <= i <= children.len(),
                        forall|j: int| 0 <= j < children.len() ==> decreases_to!(
                            self => children[j]
                        ),
                        cv == nodes_view(children@),
                        cv == self@.children(),
                        self@.is_group(),
                        cv.len() == children.len(),
                        forall|j: int| 0 <= j < children.len() ==> #[trigger] cv[j] == children@[j]@,
                        !any_solo_in(cv.take(i as int)),
                    decreases children.len() - i,
                {
                    proof {
                        assert(cv.take(i + 1).drop_last() =~= cv.take(i as int));
                        assert(cv.take(i + 1).last() == cv[i as int]);
                    }
                    if children[i].has_any_solo() {
                        proof {
                            lemma_any_solo_in(cv);
                            assert(cv[i as int].any_solo());
                            assert(any_solo_in(cv));
                        }
                        return true;
                    }
                    i = i + 1;
                }
                proof {
                    assert(cv.take(i as int) =~= cv);
                }
                false
            },
        }
    }

    /// Tokens of the nodes from this one along `path`, as far as the path
    /// leads: the chain whose overrides a node inherits.
    pub fn path_tokens(&self, path: &[usize]) -> (r: Vec<Token>)
        ensures
            r@ == self@.tokens_along(path@),
    {
        let mut out: Vec<Token> = Vec::new();
        let mut node = self;
        let mut k: usize = 0;
        proof {
            assert(path@.skip(0) =~= path@);
        }
        loop
            invariant
                0 <= k <= path.len(),
                out@ + node@.tokens_along(path@.skip(k as int)) == self@.tokens_along(path@),
            decreases path.len() - k,
        {
            let ghost sp = path@.skip(k as int);
            out.push(node.token());
            if k == path.len() {
                proof {
                    assert(sp.len() == 0);
                }
                return out;
            }
            proof {
                assert(sp[0] == path[k as int]);
                assert(sp.drop_first() =~= path@.skip(k + 1));
            }
            let idx = path[k];
            match node.children() {
                Some(children) => {
                    proof {
                        lemma_nodes_view(children@);
                    }
                    if idx >= children.len() {
                        return out;
                    }
                    node = &children[idx];
                    proof {
                        assert(out@ + node@.tokens_along(path@.skip(k + 1)) =~= self@.tokens_along(path@));
                    }
                },
                None => {
                    return out;
                },
            }
            k = k + 1;
        }
    }

    /// A copy of the whole subtree.
    pub fn deep_clone(&self) -> (r: TrackNode)
        ensures
            r@ == self@,
        decreases self,
    {
        let kind = match &self.kind {
            NodeKind::Group { id, collapsed, children, mode, aesthetic } => {
                proof {
                    assert forall|j: int| 0 <= j < children.len() implies decreases_to!(
                        self => children[j]
                    ) by {
                        vstd::std_specs::vec::axiom_vec_index_decreases(*children, j);
                        assert(decreases_to!(self => self.kind));
                        assert(decreases_to!(self.kind => self.kind->children));
                    }
                }
                let mut cs: Vec<TrackNode> = Vec::new();
                let mut i: usize = 0;
                while i < children.len()
                    invariant
                        0 <= i <= children.len(),
                        forall|j: int| 0 <= j < children.len() ==> decreases_to!(
                            self => children[j]
                        ),
                        cs@.len() == i,
                        forall|j: int| 0 <= j < i ==> (#[trigger] cs@[j])@ == children@[j]@,
                    decreases children.len() - i,
                {
                    let c = children[i].deep_clone();
                    cs.push(c);
                    i = i + 1;
                }
                proof {
                    lemma_nodes_view(cs@);
                    lemma_nodes_view(children@);
                    assert(nodes_view(cs@) =~= nodes_view(children@));
                }
                NodeKind::Group {
                    id: *id,
                    collapsed: *collapsed,
                    children: cs,
                    mode: *mode,
                    aesthetic: *aesthetic,
                }
            },
            NodeKind::Sequence(t) => NodeKind::Sequence(*t),
        };
        TrackNode { name: self.name.clone(), muted: self.muted, solo: self.solo, kind }
    }

    /// Give every sequence leaf a fresh token from `gen`, in preorder.
    pub fn retokenize(&mut self, gen: &mut TokenGen)
        requires
            old(gen).0 + seq_count(old(self)@) <= usize::MAX,
        ensures
            final(self)@ == retokenized(old(self)@, old(gen).0 as int),
            final(gen).0 == old(gen).0 + seq_count(old(self)@),
        decreases *old(self),
    {
        if self.as_seq().is_some() {
            let t = gen.next();
            self.kind = NodeKind::Sequence(t);
            return;
        }
        let ghost g0 = gen.0;
        let ghost sv = self@;
        let ghost orig_node = *self;
        match self.children_mut() {
            Some(children) => {
                let ghost orig = children@;
                let ghost ov = nodes_view(orig);
                proof {
                    lemma_nodes_view(orig);
                    assert forall|j: int| 0 <= j < orig.len() implies decreases_to!(
                        orig_node => orig[j]
                    ) by {
                        vstd::std_specs::vec::axiom_vec_index_decreases(orig_node.kind->children, j);
                        assert(decreases_to!(orig_node => orig_node.kind));
                        assert(decreases_to!(orig_node.kind => orig_node.kind->children));
                    }
                    lemma_retokenized_list(ov, g0 as int);
                    assert(sv.children() == ov);
                }
                let mut i: usize = 0;
                while i < children.len()
                    invariant
                        0 <= i <= children.len(),
                        children@.len() == orig.len(),
                        ov == nodes_view(orig),
                        ov.len() == orig.len(),
                        forall|j: int| 0 <= j < orig.len() ==> #[trigger] ov[j] == orig[j]@,
                        forall|j: int| 0 <= j < orig.len() ==> decreases_to!(orig_node => orig[j]),
                        orig_node == *old(self),
                        g0 == old(gen).0,
                        sv == old(self)@,
                        sv.children() == ov,
                        g0 + seq_count(sv) <= usize::MAX,
                        seq_count(sv) == seq_count_list(ov),
                        forall|j: int| i <= j < orig.len() ==> #[trigger] children@[j] == orig[j],
                        forall|j: int|
                            0 <= j < i ==> (#[trigger] children@[j])@ == retokenized(
                                ov[j],
                                g0 + seq_count_list(ov.take(j)),
                            ),
                        gen.0 == g0 + seq_count_list(ov.take(i as int)),
                    decreases children.len() - i,
                {
                    proof {
                        lemma_seq_count_take(ov, i as int);
                        lemma_seq_count_take(ov, i + 1);
                    }
                    children[i].retokenize(gen);
                    i = i + 1;
                }
                proof {
                    lemma_nodes_view(children@);
                    assert(ov.take(i as int) =~= ov);
                    assert(nodes_view(children@) =~= retokenized_list(ov, g0 as int));
                }
            },
            None => {},
        }
    }

    /// Whether the node at `path` should be shown: the path leads to a node
    /// and no group passed on the way there is collapsed.
    pub fn path_visible(&self, path: &[usize]) -> (r: bool)
        ensures
            r == self@.visible(path@),
    {
        let mut node = self;
        let mut depth: usize = 0;
        proof {
            assert(path@.skip(0) =~= path@);
        }
        while depth < path.len()
            invariant
                0 <= depth <= path.len(),
                self@.visible(path@) == node@.visible(path@.skip(depth as int)),
            decreases path.len() - depth,
        {
            let ghost sp = path@.skip(depth as int);
            proof {
                assert(sp[0] == path[depth as int]);
                assert(sp.drop_first() =~= path@.skip(depth + 1));
            }
            let idx = path[depth];
            match &node.kind {
                NodeKind::Group { collapsed, children, .. } => {
                    proof {
                        lemma_nodes_view(children@);
                    }
                    if *collapsed {
                        return false;
                    }
                    if idx >= children.len() {
                        return false;
                    }
                    node = &children[idx];
                },
                NodeKind::Sequence(_) => {
                    return false;
                },
            }
            depth = depth + 1;
        }
        proof {
            assert(path@.skip(depth as int).len() == 0);
        }
        true
    }
}

/// Display settings for a textual rendering of the tree.
#[derive(Clone, Copy)]
pub struct TreePrintOptions {
    /// Use only ASCII characters instead of box-drawing ones.
    pub ascii_only: bool,
    /// Show the index path of each node.
    pub show_path: bool,
    /// Show extra details for sequences and groups.
    pub show_details: bool,
}

impl TreePrintOptions {
    pub fn default() -> (o: TreePrintOptions)
        ensures
            o.ascii_only && o.show_path && o.show_details,
    {
        TreePrintOptions { ascii_only: true, show_path: true, show_details: true }
    }
}

} // verus!
