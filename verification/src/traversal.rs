//! Depth-first listings of the track tree: every node, or every sequence
//! leaf, with the path that leads to it.
use vstd::prelude::*;
use crate::ids::Token;
use crate::paths::prefix_vec;
use crate::tree::{KindView, NodeKind, TrackNode, TrackView, lemma_nodes_view, nodes_view};

verus! {

/// All nodes of `t` in preorder, each with its path (prefixed by `prefix`)
/// and its token.
pub open spec fn node_entries(t: TrackView, prefix: Seq<usize>) -> Seq<(Seq<usize>, Token)>
    decreases t,
{
    seq![(prefix, t.token())] + match t.kind {
        KindView::Group { children, .. } => node_entries_list(children, prefix),
        KindView::Sequence(_) => Seq::empty(),
    }
}

/// The preorder listings of the trees `cs`, the children of the node at
/// `prefix`, one after the other.
pub open spec fn node_entries_list(cs: Seq<TrackView>, prefix: Seq<usize>) -> Seq<
    (Seq<usize>, Token),
>
    decreases cs,
{
    if cs.len() == 0 {
        Seq::empty()
    } else {
        node_entries_list(cs.drop_last(), prefix) + node_entries(
            cs.last(),
            prefix.push((cs.len() - 1) as usize),
        )
    }
}

/// All sequence leaves of `t` in preorder, each with its path (prefixed by
/// `prefix`) and its token.
pub open spec fn seq_entries(t: TrackView, prefix: Seq<usize>) -> Seq<(Seq<usize>, Token)>
    decreases t,
{
    match t.kind {
        KindView::Group { children, .. } => seq_entries_list(children, prefix),
        KindView::Sequence(tok) => seq![(prefix, tok)],
    }
}

pub open spec fn seq_entries_list(cs: Seq<TrackView>, prefix: Seq<usize>) -> Seq<
    (Seq<usize>, Token),
>
    decreases cs,
{
    if cs.len() == 0 {
        Seq::empty()
    } else {
        seq_entries_list(cs.drop_last(), prefix) + seq_entries(
            cs.last(),
            prefix.push((cs.len() - 1) as usize),
        )
    }
}

pub open spec fn entries_view(v: Seq<(Vec<usize>, Token)>) -> Seq<(Seq<usize>, Token)> {
    v.map_values(|e: (Vec<usize>, Token)| (e.0@, e.1))
}

pub open spec fn paths_view(v: Seq<Vec<usize>>) -> Seq<Seq<usize>> {
    v.map_values(|p: Vec<usize>| p@)
}

proof fn lemma_children_decrease(n: &TrackNode, children: &Vec<TrackNode>)
    requires
        n.kind is Group,
        n.kind->children == *children,
    ensures
        forall|j: int| 0 <= j < children.len() ==> decreases_to!(n => children[j]),
{
    assert forall|j: int| 0 <= j < children.len() implies decreases_to!(n => children[j]) by {
        vstd::std_specs::vec::axiom_vec_index_decreases(*children, j);
        assert(decreases_to!(n => n.kind));
        assert(decreases_to!(n.kind => n.kind->children));
    }
}

fn collect_nodes(node: &TrackNode, cur: &mut Vec<usize>, out: &mut Vec<(Vec<usize>, Token)>)
    ensures
        final(cur)@ == old(cur)@,
        entries_view(final(out)@) == entries_view(old(out)@) + node_entries(node@, old(cur)@),
    decreases node,
{
    let here = prefix_vec(cur.as_slice(), cur.len());
    proof {
        assert(cur@.subrange(0, cur@.len() as int) =~= cur@);
    }
    let ghost out0 = entries_view(out@);
    out.push((here, node.token()));
    proof {
        assert(entries_view(out@) =~= out0 + seq![(cur@, node@.token())]);
    }
    match &node.kind {
        NodeKind::Group { children, .. } => {
            proof {
                lemma_nodes_view(children@);
                lemma_children_decrease(node, children);
            }
            let ghost cv = nodes_view(children@);
            let ghost cur0 = cur@;
            let mut i: usize = 0;
            while i < children.len()
                invariant
                    0 <= i <= children.len(),
                    forall|j: int| 0 <= j < children.len() ==> decreases_to!(node => children[j]),
                    cv == nodes_view(children@),
                    cv.len() == children.len(),
                    forall|j: int| 0 <= j < children.len() ==> #[trigger] cv[j] == children@[j]@,
                    cur@ == cur0,
                    entries_view(out@) == out0 + seq![(cur0, node@.token())] + node_entries_list(
                        cv.take(i as int),
                        cur0,
                    ),
                decreases children.len() - i,
            {
                let ghost before = entries_view(out@);
                cur.push(i);
                collect_nodes(&children[i], cur, out);
                cur.pop();
                proof {
                    assert(cur@ =~= cur0);
                    assert(cv.take(i + 1).drop_last() =~= cv.take(i as int));
                    assert(cv.take(i + 1).last() == cv[i as int]);
                    assert(cur0.push(i) == cur0.push((cv.take(i + 1).len() - 1) as usize));
                }
                i = i + 1;
            }
            proof {
                assert(cv.take(i as int) =~= cv);
                assert(node@.kind->children == cv);
            }
        },
        NodeKind::Sequence(_) => {
            proof {
                assert(entries_view(out@) =~= out0 + node_entries(node@, cur@));
            }
        },
    }
}

fn collect_sequences(node: &TrackNode, cur: &mut Vec<usize>, out: &mut Vec<(Vec<usize>, Token)>)
    ensures
        final(cur)@ == old(cur)@,
        entries_view(final(out)@) == entries_view(old(out)@) + seq_entries(node@, old(cur)@),
    decreases node,
{
    let ghost out0 = entries_view(out@);
    match &node.kind {
        NodeKind::Group { children, .. } => {
            proof {
                lemma_nodes_view(children@);
                lemma_children_decrease(node, children);
            }
            let ghost cv = nodes_view(children@);
            let ghost cur0 = cur@;
            let mut i: usize = 0;
            while i < children.len()
                invariant
                    0 <= i <= children.len(),
                    forall|j: int| 0 <= j < children.len() ==> decreases_to!(node => children[j]),
                    cv == nodes_view(children@),
                    cv.len() == children.len(),
                    forall|j: int| 0 <= j < children.len() ==> #[trigger] cv[j] == children@[j]@,
                    cur@ == cur0,
                    entries_view(out@) == out0 + seq_entries_list(cv.take(i as int), cur0),
                decreases children.len() - i,
            {
                cur.push(i);
                collect_sequences(&children[i], cur, out);
                cur.pop();
                proof {
                    assert(cur@ =~= cur0);
                    assert(cv.take(i + 1).drop_last() =~= cv.take(i as int));
                    assert(cv.take(i + 1).last() == cv[i as int]);
                    assert(cur0.push(i) == cur0.push((cv.take(i + 1).len() - 1) as usize));
                }
                i = i + 1;
            }
            proof {
                assert(cv.take(i as int) =~= cv);
                assert(node@.kind->children == cv);
            }
        },
        NodeKind::Sequence(tok) => {
            let here = prefix_vec(cur.as_slice(), cur.len());
            proof {
                assert(cur@.subrange(0, cur@.len() as int) =~= cur@);
            }
            out.push((here, *tok));
            proof {
                assert(entries_view(out@) =~= out0 + seq_entries(node@, cur@));
            }
        },
    }
}

/// Every node of the tree in preorder, with its path from `root` and its
/// token.
pub fn nodes_with_paths(root: &TrackNode) -> (r: Vec<(Vec<usize>, Token)>)
    ensures
        entries_view(r@) == node_entries(root@, Seq::empty()),
{
    let mut out: Vec<(Vec<usize>, Token)> = Vec::new();
    let mut cur: Vec<usize> = Vec::new();
    proof {
        assert(entries_view(out@) =~= Seq::empty());
    }
    collect_nodes(root, &mut cur, &mut out);
    proof {
        assert(cur@ =~= Seq::<usize>::empty());
        assert(Seq::<(Seq<usize>, Token)>::empty() + node_entries(root@, Seq::empty()) =~= node_entries(root@, Seq::empty()));
    }
    out
}

/// The path of every node of the tree, in preorder.
pub fn all_paths(root: &TrackNode) -> (r: Vec<Vec<usize>>)
    ensures
        paths_view(r@) == node_entries(root@, Seq::empty()).map_values(
            |e: (Seq<usize>, Token)| e.0,
        ),
{
    let entries = nodes_with_paths(root);
    let mut out: Vec<Vec<usize>> = Vec::new();
    let mut i: usize = 0;
    while i < entries.len()
        invariant
            0 <= i <= entries.len(),
            paths_view(out@) == entries_view(entries@).take(i as int).map_values(
                |e: (Seq<usize>, Token)| e.0,
            ),
        decreases entries.len() - i,
    {
        let p = prefix_vec(entries[i].0.as_slice(), entries[i].0.len());
        proof {
            assert(entries[i as int].0@.subrange(0, entries[i as int].0@.len() as int)
                =~= entries[i as int].0@);
        }
        let ghost ov = paths_view(out@);
        out.push(p);
        proof {
            assert(entries_view(entries@)[i as int].0 == entries@[i as int].0@);
            assert(paths_view(out@) =~= ov.push(p@));
        }
        i = i + 1;
        proof {
            assert(paths_view(out@) =~= entries_view(entries@).take(i as int).map_values(
                |e: (Seq<usize>, Token)| e.0,
            ));
        }
    }
    proof {
        assert(entries_view(entries@).take(i as int) =~= entries_view(entries@));
    }
    out
}

impl TrackNode {
    /// Every sequence leaf below this node in preorder, with its path and
    /// its token.
    pub fn sequences_with_paths(&self) -> (r: Vec<(Vec<usize>, Token)>)
        ensures
            entries_view(r@) == seq_entries(self@, Seq::empty()),
    {
        let mut out: Vec<(Vec<usize>, Token)> = Vec::new();
        let mut cur: Vec<usize> = Vec::new();
        proof {
            assert(entries_view(out@) =~= Seq::empty());
        }
        collect_sequences(self, &mut cur, &mut out);
        proof {
            assert(cur@ =~= Seq::<usize>::empty());
            assert(Seq::<(Seq<usize>, Token)>::empty() + seq_entries(self@, Seq::empty()) =~= seq_entries(self@, Seq::empty()));
        }
        out
    }

    /// The tokens of every sequence leaf below this node, in preorder.
    pub fn sequences(&self) -> (r: Vec<Token>)
        ensures
            r@ == seq_entries(self@, Seq::empty()).map_values(|e: (Seq<usize>, Token)| e.1),
    {
        let entries = self.sequences_with_paths();
        let mut out: Vec<Token> = Vec::new();
        let mut i: usize = 0;
        while i < entries.len()
            invariant
                0 <= i <= entries.len(),
                out@ == entries_view(entries@).take(i as int).map_values(
                    |e: (Seq<usize>, Token)| e.1,
                ),
            decreases entries.len() - i,
        {
            out.push(entries[i].1);
            i = i + 1;
            proof {
                assert(out@ =~= entries_view(entries@).take(i as int).map_values(
                    |e: (Seq<usize>, Token)| e.1,
                ));
            }
        }
        proof {
            assert(entries_view(entries@).take(i as int) =~= entries_view(entries@));
        }
        out
    }
}

} // verus!
