//! Which sequences a walk of the track tree draws. Every node is addressed by
//! its position in preorder; for each position the caller hands in whether
//! the node is ready (a sequence is idle, a group's wait is over), the coin
//! tossed with the node's probability, and, for a group that picks one child,
//! the child it picked. An And group walks all its children; an Or group,
//! only when every sequence below it is idle, walks the picked child and
//! then keeps the other children busy as long as the picked one.
use vstd::prelude::*;
use crate::ids::Token;
use crate::tree::{GroupMode, KindView, NodeKind, TrackNode, TrackView, lemma_nodes_view, nodes_view};
use crate::tree_text::{node_count, node_count_list};

verus! {

/// Every sequence of the subtree `t`, which starts at preorder position
/// `pos`, is ready.
pub open spec fn subtree_idle(t: TrackView, ready: Seq<bool>, pos: int) -> bool
    decreases t,
{
    match t.kind {
        KindView::Sequence(_) => ready[pos],
        KindView::Group { children, .. } => children_idle(children, ready, pos + 1),
    }
}

/// Every sequence below the children `cs`, the first of which starts at
/// `start`, is ready.
pub open spec fn children_idle(cs: Seq<TrackView>, ready: Seq<bool>, start: int) -> bool
    decreases cs,
{
    if cs.len() == 0 {
        true
    } else {
        children_idle(cs.drop_last(), ready, start) && subtree_idle(
            cs.last(),
            ready,
            start + node_count_list(cs.drop_last()),
        )
    }
}

/// The tokens of the sequences of `t`, in preorder.
pub open spec fn leaf_tokens(t: TrackView) -> Seq<Token>
    decreases t,
{
    match t.kind {
        KindView::Sequence(tok) => seq![tok],
        KindView::Group { children, .. } => leaf_tokens_list(children),
    }
}

pub open spec fn leaf_tokens_list(cs: Seq<TrackView>) -> Seq<Token>
    decreases cs,
{
    if cs.len() == 0 {
        Seq::empty()
    } else {
        leaf_tokens_list(cs.drop_last()) + leaf_tokens(cs.last())
    }
}

/// The tokens of the sequences of the children `cs`, except child `skip`.
pub open spec fn leaves_except(cs: Seq<TrackView>, skip: int) -> Seq<Token>
    decreases cs.len(),
{
    if cs.len() == 0 {
        Seq::empty()
    } else {
        leaves_except(cs.drop_last(), skip) + if cs.len() - 1 == skip {
            Seq::empty()
        } else {
            leaf_tokens(cs.last())
        }
    }
}

/// The child an Or group at `pos` walks: the picked one, when it exists and
/// every sequence below the group is idle.
pub open spec fn or_choice(
    children: Seq<TrackView>,
    ready: Seq<bool>,
    pick: Seq<Option<usize>>,
    pos: int,
) -> Option<int> {
    match pick[pos] {
        Some(i) => if i < children.len() && children_idle(children, ready, pos + 1) {
            Some(i as int)
        } else {
            None
        },
        None => None,
    }
}

/// The group at `pos` takes part: it is ready and its coin came up.
pub open spec fn group_on(ready: Seq<bool>, coin: Seq<bool>, pos: int) -> bool {
    ready[pos] && coin[pos]
}

/// The tokens of the sequences that the walk of `t`, starting at preorder
/// position `pos`, draws, in the order it draws them.
pub open spec fn drawn_tokens(
    t: TrackView,
    ready: Seq<bool>,
    coin: Seq<bool>,
    pick: Seq<Option<usize>>,
    pos: int,
) -> Seq<Token>
    decreases t,
{
    match t.kind {
        KindView::Sequence(tok) => if ready[pos] {
            seq![tok]
        } else {
            Seq::empty()
        },
        KindView::Group { children, mode, .. } => if !group_on(ready, coin, pos) {
            Seq::empty()
        } else {
            match mode {
                GroupMode::And => children_drawn(children, ready, coin, pick, pos + 1),
                GroupMode::Or => match or_choice(children, ready, pick, pos) {
                    Some(i) => drawn_tokens(
                        children[i],
                        ready,
                        coin,
                        pick,
                        pos + 1 + node_count_list(children.take(i)),
                    ),
                    None => Seq::empty(),
                },
            }
        },
    }
}

pub open spec fn children_drawn(
    cs: Seq<TrackView>,
    ready: Seq<bool>,
    coin: Seq<bool>,
    pick: Seq<Option<usize>>,
    start: int,
) -> Seq<Token>
    decreases cs,
{
    if cs.len() == 0 {
        Seq::empty()
    } else {
        children_drawn(cs.drop_last(), ready, coin, pick, start) + drawn_tokens(
            cs.last(),
            ready,
            coin,
            pick,
            start + node_count_list(cs.drop_last()),
        )
    }
}

/// The tokens of the sequences the walk of `t` keeps busy, in order: below
/// each Or group that walked a child, first what that child's walk keeps
/// busy, then the sequences of the group's other children.
pub open spec fn busy_tokens(
    t: TrackView,
    ready: Seq<bool>,
    coin: Seq<bool>,
    pick: Seq<Option<usize>>,
    pos: int,
) -> Seq<Token>
    decreases t,
{
    match t.kind {
        KindView::Sequence(_) => Seq::empty(),
        KindView::Group { children, mode, .. } => if !group_on(ready, coin, pos) {
            Seq::empty()
        } else {
            match mode {
                GroupMode::And => children_busy(children, ready, coin, pick, pos + 1),
                GroupMode::Or => match or_choice(children, ready, pick, pos) {
                    Some(i) => busy_tokens(
                        children[i],
                        ready,
                        coin,
                        pick,
                        pos + 1 + node_count_list(children.take(i)),
                    ) + leaves_except(children, i),
                    None => Seq::empty(),
                },
            }
        },
    }
}

pub open spec fn children_busy(
    cs: Seq<TrackView>,
    ready: Seq<bool>,
    coin: Seq<bool>,
    pick: Seq<Option<usize>>,
    start: int,
) -> Seq<Token>
    decreases cs,
{
    if cs.len() == 0 {
        Seq::empty()
    } else {
        children_busy(cs.drop_last(), ready, coin, pick, start) + busy_tokens(
            cs.last(),
            ready,
            coin,
            pick,
            start + node_count_list(cs.drop_last()),
        )
    }
}

proof fn lemma_count_take_step(cs: Seq<TrackView>, j: int)
    requires
        0 <= j < cs.len(),
    ensures
        cs.take(j + 1).drop_last() == cs.take(j),
        cs.take(j + 1).last() == cs[j],
        node_count_list(cs.take(j + 1)) == node_count_list(cs.take(j)) + node_count(cs[j]),
{
    assert(cs.take(j + 1).drop_last() =~= cs.take(j));
}

proof fn lemma_count_take_le(cs: Seq<TrackView>, j: int)
    requires
        0 <= j <= cs.len(),
    ensures
        node_count_list(cs.take(j)) <= node_count_list(cs),
    decreases cs.len() - j,
{
    if j < cs.len() {
        lemma_count_take_step(cs, j);
        lemma_count_take_le(cs, j + 1);
    } else {
        assert(cs.take(j) =~= cs);
    }
}

/// Whether every sequence of `node` (at position `pos`) is ready, and the
/// position after its subtree.
fn idle_from(node: &TrackNode, ready: &Vec<bool>, pos: usize) -> (r: (bool, usize))
    requires
        pos + node_count(node@) <= ready@.len(),
    ensures
        r.0 == subtree_idle(node@, ready@, pos as int),
        r.1 == pos + node_count(node@),
    decreases node,
{
    match &node.kind {
        NodeKind::Sequence(_) => {
            let n = ready.len();
            assert(pos + 1 <= n);
            (ready[pos], pos + 1)
        },
        NodeKind::Group { children, .. } => {
            proof {
                lemma_nodes_view(children@);
                assert(decreases_to!(node => node.kind));
                assert(decreases_to!(node.kind => node.kind->children));
                assert(decreases_to!(node => *children));
            }
            let n = ready.len();
            assert(pos + 1 <= n);
            idle_children(children, ready, pos + 1)
        },
    }
}

fn idle_children(children: &Vec<TrackNode>, ready: &Vec<bool>, start: usize) -> (r: (bool, usize))
    requires
        start + node_count_list(nodes_view(children@)) <= ready@.len(),
    ensures
        r.0 == children_idle(nodes_view(children@), ready@, start as int),
        r.1 == start + node_count_list(nodes_view(children@)),
    decreases children,
{
    let ghost cv = nodes_view(children@);
    proof {
        lemma_nodes_view(children@);
        assert(cv.take(0) =~= Seq::<TrackView>::empty());
    }
    let mut all = true;
    let mut p = start;
    let mut j: usize = 0;
    while j < children.len()
        invariant
            0 <= j <= children.len(),
            cv == nodes_view(children@),
            cv.len() == children.len(),
            forall|k: int| 0 <= k < children.len() ==> #[trigger] cv[k] == children@[k]@,
            start + node_count_list(cv) <= ready@.len(),
            p == start + node_count_list(cv.take(j as int)),
            all == children_idle(cv.take(j as int), ready@, start as int),
        decreases children.len() - j,
    {
        proof {
            lemma_count_take_step(cv, j as int);
            lemma_count_take_le(cv, j + 1);
            vstd::std_specs::vec::axiom_vec_index_decreases(*children, j as int);
        }
        let (idle, next) = idle_from(&children[j], ready, p);
        all = all && idle;
        p = next;
        j = j + 1;
    }
    proof {
        assert(cv.take(j as int) =~= cv);
    }
    (all, p)
}

/// Append the tokens of the sequences of `node`, in preorder.
fn leaves_into(node: &TrackNode, out: &mut Vec<Token>)
    ensures
        final(out)@ == old(out)@ + leaf_tokens(node@),
    decreases node,
{
    match &node.kind {
        NodeKind::Sequence(t) => {
            out.push(*t);
        },
        NodeKind::Group { children, .. } => {
            proof {
                lemma_nodes_view(children@);
                assert(decreases_to!(node => node.kind));
                assert(decreases_to!(node.kind => node.kind->children));
            }
            let ghost cv = nodes_view(children@);
            let ghost o0 = out@;
            proof {
                assert(cv.take(0) =~= Seq::<TrackView>::empty());
                assert(o0 + leaf_tokens_list(cv.take(0)) =~= o0);
            }
            let mut j: usize = 0;
            while j < children.len()
                invariant
                    0 <= j <= children.len(),
                    cv == nodes_view(children@),
                    cv.len() == children.len(),
                    forall|k: int| 0 <= k < children.len() ==> #[trigger] cv[k] == children@[k]@,
                    forall|k: int| 0 <= k < children.len() ==> decreases_to!(node => children[k]),
                    out@ == o0 + leaf_tokens_list(cv.take(j as int)),
                decreases children.len() - j,
            {
                proof {
                    lemma_count_take_step(cv, j as int);
                }
                leaves_into(&children[j], out);
                j = j + 1;
                proof {
                    assert(out@ =~= o0 + leaf_tokens_list(cv.take(j as int)));
                }
            }
            proof {
                assert(cv.take(j as int) =~= cv);
            }
        },
    }
}

/// Append the tokens of the sequences of every child but `skip`.
fn leaves_except_into(children: &Vec<TrackNode>, skip: usize, out: &mut Vec<Token>)
    ensures
        final(out)@ == old(out)@ + leaves_except(nodes_view(children@), skip as int),
{
    let ghost cv = nodes_view(children@);
    let ghost o0 = out@;
    proof {
        lemma_nodes_view(children@);
        assert(cv.take(0) =~= Seq::<TrackView>::empty());
        assert(o0 + leaves_except(cv.take(0), skip as int) =~= o0);
    }
    let mut j: usize = 0;
    while j < children.len()
        invariant
            0 <= j <= children.len(),
            cv == nodes_view(children@),
            cv.len() == children.len(),
            forall|k: int| 0 <= k < children.len() ==> #[trigger] cv[k] == children@[k]@,
            out@ == o0 + leaves_except(cv.take(j as int), skip as int),
        decreases children.len() - j,
    {
        proof {
            lemma_count_take_step(cv, j as int);
        }
        if j != skip {
            leaves_into(&children[j], out);
        }
        j = j + 1;
        proof {
            assert(out@ =~= o0 + leaves_except(cv.take(j as int), skip as int));
        }
    }
    proof {
        assert(cv.take(j as int) =~= cv);
    }
}

/// The walk of `node` (at position `pos`): appends what it draws to `drawn`
/// and what it keeps busy to `busy`; returns the position after the subtree.
fn walk(
    node: &TrackNode,
    ready: &Vec<bool>,
    coin: &Vec<bool>,
    pick: &Vec<Option<usize>>,
    pos: usize,
    drawn: &mut Vec<Token>,
    busy: &mut Vec<Token>,
) -> (next: usize)
    requires
        pos + node_count(node@) <= ready@.len(),
        coin@.len() == ready@.len(),
        pick@.len() == ready@.len(),
    ensures
        final(drawn)@ == old(drawn)@ + drawn_tokens(node@, ready@, coin@, pick@, pos as int),
        final(busy)@ == old(busy)@ + busy_tokens(node@, ready@, coin@, pick@, pos as int),
        next == pos + node_count(node@),
    decreases node,
{
    match &node.kind {
        NodeKind::Sequence(t) => {
            let n = ready.len();
            assert(pos + 1 <= n);
            if ready[pos] {
                drawn.push(*t);
            }
            proof {
                assert(busy@ =~= old(busy)@ + Seq::<Token>::empty());
                if !ready@[pos as int] {
                    assert(drawn@ =~= old(drawn)@ + Seq::<Token>::empty());
                }
            }
            pos + 1
        },
        NodeKind::Group { children, mode, .. } => {
            proof {
                lemma_nodes_view(children@);
                assert(decreases_to!(node => node.kind));
                assert(decreases_to!(node.kind => node.kind->children));
                assert(decreases_to!(node => *children));
                assert forall|k: int| 0 <= k < children.len() implies decreases_to!(
                    node => children[k]
                ) by {
                    vstd::std_specs::vec::axiom_vec_index_decreases(*children, k);
                }
            }
            let ghost cv = nodes_view(children@);
            let n = ready.len();
            assert(pos + 1 <= n);
            if !(ready[pos] && coin[pos]) {
                let (_idle, next) = idle_children(children, ready, pos + 1);
                proof {
                    assert(drawn@ =~= old(drawn)@ + Seq::<Token>::empty());
                    assert(busy@ =~= old(busy)@ + Seq::<Token>::empty());
                }
                return next;
            }
            match mode {
                GroupMode::And => walk_children(children, ready, coin, pick, pos + 1, drawn, busy),
                GroupMode::Or => {
                    let (all_idle, next) = idle_children(children, ready, pos + 1);
                    let choice = match pick[pos] {
                        Some(i) => if i < children.len() && all_idle {
                            Some(i)
                        } else {
                            None
                        },
                        None => None,
                    };
                    match choice {
                        Some(i) => {
                            // Position of the picked child.
                            let mut p = pos + 1;
                            let mut j: usize = 0;
                            proof {
                                assert(cv.take(0) =~= Seq::<TrackView>::empty());
                                lemma_count_take_le(cv, i as int);
                            }
                            while j < i
                                invariant
                                    0 <= j <= i < children.len(),
                                    cv == nodes_view(children@),
                                    cv.len() == children.len(),
                                    forall|k: int|
                                        0 <= k < children.len() ==> #[trigger] cv[k]
                                            == children@[k]@,
                                    pos + 1 + node_count_list(cv) <= ready@.len(),
                                    node_count_list(cv.take(i as int)) <= node_count_list(cv),
                                    p == pos + 1 + node_count_list(cv.take(j as int)),
                                decreases i - j,
                            {
                                proof {
                                    lemma_count_take_step(cv, j as int);
                                    lemma_count_take_le(cv, j + 1);
                                }
                                let (_idle, q) = idle_from(&children[j], ready, p);
                                p = q;
                                j = j + 1;
                            }
                            proof {
                                lemma_count_take_step(cv, i as int);
                                lemma_count_take_le(cv, i + 1);
                            }
                            let _after = walk(&children[i], ready, coin, pick, p, drawn, busy);
                            leaves_except_into(children, i, busy);
                            proof {
                                assert(or_choice(cv, ready@, pick@, pos as int) == Some(i as int));
                            }
                            next
                        },
                        None => {
                            proof {
                                assert(or_choice(cv, ready@, pick@, pos as int) is None);
                                assert(drawn@ =~= old(drawn)@ + Seq::<Token>::empty());
                                assert(busy@ =~= old(busy)@ + Seq::<Token>::empty());
                            }
                            next
                        },
                    }
                },
            }
        },
    }
}

fn walk_children(
    children: &Vec<TrackNode>,
    ready: &Vec<bool>,
    coin: &Vec<bool>,
    pick: &Vec<Option<usize>>,
    start: usize,
    drawn: &mut Vec<Token>,
    busy: &mut Vec<Token>,
) -> (next: usize)
    requires
        start + node_count_list(nodes_view(children@)) <= ready@.len(),
        coin@.len() == ready@.len(),
        pick@.len() == ready@.len(),
    ensures
        final(drawn)@ == old(drawn)@ + children_drawn(
            nodes_view(children@),
            ready@,
            coin@,
            pick@,
            start as int,
        ),
        final(busy)@ == old(busy)@ + children_busy(
            nodes_view(children@),
            ready@,
            coin@,
            pick@,
            start as int,
        ),
        next == start + node_count_list(nodes_view(children@)),
    decreases children,
{
    let ghost cv = nodes_view(children@);
    let ghost d0 = drawn@;
    let ghost b0 = busy@;
    proof {
        lemma_nodes_view(children@);
        assert(cv.take(0) =~= Seq::<TrackView>::empty());
        assert(d0 + children_drawn(cv.take(0), ready@, coin@, pick@, start as int) =~= d0);
        assert(b0 + children_busy(cv.take(0), ready@, coin@, pick@, start as int) =~= b0);
    }
    let mut p = start;
    let mut j: usize = 0;
    while j < children.len()
        invariant
            0 <= j <= children.len(),
            cv == nodes_view(children@),
            cv.len() == children.len(),
            forall|k: int| 0 <= k < children.len() ==> #[trigger] cv[k] == children@[k]@,
            start + node_count_list(cv) <= ready@.len(),
            coin@.len() == ready@.len(),
            pick@.len() == ready@.len(),
            p == start + node_count_list(cv.take(j as int)),
            drawn@ == d0 + children_drawn(cv.take(j as int), ready@, coin@, pick@, start as int),
            busy@ == b0 + children_busy(cv.take(j as int), ready@, coin@, pick@, start as int),
        decreases children.len() - j,
    {
        proof {
            lemma_count_take_step(cv, j as int);
            lemma_count_take_le(cv, j + 1);
            vstd::std_specs::vec::axiom_vec_index_decreases(*children, j as int);
        }
        p = walk(&children[j], ready, coin, pick, p, drawn, busy);
        j = j + 1;
        proof {
            assert(drawn@ =~= d0 + children_drawn(
                cv.take(j as int),
                ready@,
                coin@,
                pick@,
                start as int,
            ));
            assert(busy@ =~= b0 + children_busy(
                cv.take(j as int),
                ready@,
                coin@,
                pick@,
                start as int,
            ));
        }
    }
    proof {
        assert(cv.take(j as int) =~= cv);
    }
    p
}

/// The sequences one walk of the tree draws, in the order it draws them.
/// `ready`, `coin` and `pick` hold, for each node in preorder, whether it is
/// ready, the coin tossed with its probability, and the child an Or group
/// picked.
pub fn sequences_to_draw(
    root: &TrackNode,
    ready: &Vec<bool>,
    coin: &Vec<bool>,
    pick: &Vec<Option<usize>>,
) -> (r: Vec<Token>)
    requires
        ready@.len() == node_count(root@),
        coin@.len() == node_count(root@),
        pick@.len() == node_count(root@),
    ensures
        r@ == drawn_tokens(root@, ready@, coin@, pick@, 0),
{
    let mut drawn: Vec<Token> = Vec::new();
    let mut busy: Vec<Token> = Vec::new();
    let _next = walk(root, ready, coin, pick, 0, &mut drawn, &mut busy);
    proof {
        assert(drawn@ =~= drawn_tokens(root@, ready@, coin@, pick@, 0));
    }
    drawn
}

/// The sequences the same walk keeps busy as long as the child its Or group
/// picked: below each Or group that walked a child, the sequences of the
/// group's other children.
pub fn sequences_to_mark_busy(
    root: &TrackNode,
    ready: &Vec<bool>,
    coin: &Vec<bool>,
    pick: &Vec<Option<usize>>,
) -> (r: Vec<Token>)
    requires
        ready@.len() == node_count(root@),
        coin@.len() == node_count(root@),
        pick@.len() == node_count(root@),
    ensures
        r@ == busy_tokens(root@, ready@, coin@, pick@, 0),
{
    let mut drawn: Vec<Token> = Vec::new();
    let mut busy: Vec<Token> = Vec::new();
    let _next = walk(root, ready, coin, pick, 0, &mut drawn, &mut busy);
    proof {
        assert(busy@ =~= busy_tokens(root@, ready@, coin@, pick@, 0));
    }
    busy
}

} // verus!
