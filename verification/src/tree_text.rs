//! The track tree drawn as text, in the layout of the `tree` command: one
//! line per node in preorder, each child line led by the connectors of its
//! ancestors. The caller supplies the label of every node, in preorder.
use vstd::prelude::*;
use vstd::string::StringExecFns;
use crate::tree::{KindView, NodeKind, TrackNode, TrackView, TreePrintOptions, lemma_nodes_view, nodes_view};

verus! {

/// Connector before a child that has a later sibling.
pub open spec fn tee(ascii: bool) -> Seq<char> {
    if ascii {
        "+-- "@
    } else {
        "├── "@
    }
}

/// Connector before the last child of a group.
pub open spec fn elbow(ascii: bool) -> Seq<char> {
    if ascii {
        "'-- "@
    } else {
        "└── "@
    }
}

/// Prefix segment below a child that has a later sibling.
pub open spec fn bar(ascii: bool) -> Seq<char> {
    if ascii {
        "|   "@
    } else {
        "│   "@
    }
}

/// Prefix segment below the last child of a group.
pub open spec fn blank() -> Seq<char> {
    "    "@
}

/// Number of nodes of a tree.
pub open spec fn node_count(t: TrackView) -> nat
    decreases t,
{
    match t.kind {
        KindView::Group { children, .. } => 1 + node_count_list(children),
        KindView::Sequence(_) => 1,
    }
}

pub open spec fn node_count_list(cs: Seq<TrackView>) -> nat
    decreases cs,
{
    if cs.len() == 0 {
        0
    } else {
        node_count_list(cs.drop_last()) + node_count(cs.last())
    }
}

/// Lines of the subtree `t`, whose node has label `labels[start]` and the
/// following labels for its descendants in preorder; `prefix` is what its
/// ancestors put before the connector, `is_last` whether it closes its
/// group.
pub open spec fn subtree_text(
    t: TrackView,
    labels: Seq<Seq<char>>,
    start: int,
    prefix: Seq<char>,
    is_last: bool,
    ascii: bool,
) -> Seq<char>
    decreases t,
{
    let line = prefix + (if is_last {
        elbow(ascii)
    } else {
        tee(ascii)
    }) + labels[start] + "\n"@;
    match t.kind {
        KindView::Group { children, .. } => line + children_text(
            children,
            children.len(),
            labels,
            start + 1,
            prefix + if is_last {
                blank()
            } else {
                bar(ascii)
            },
            ascii,
        ),
        KindView::Sequence(_) => line,
    }
}

/// Lines of the children `cs` of a group of `total` children, the first of
/// them labelled `labels[start]`.
pub open spec fn children_text(
    cs: Seq<TrackView>,
    total: nat,
    labels: Seq<Seq<char>>,
    start: int,
    prefix: Seq<char>,
    ascii: bool,
) -> Seq<char>
    decreases cs,
{
    if cs.len() == 0 {
        Seq::empty()
    } else {
        let k = cs.len() - 1;
        children_text(cs.drop_last(), total, labels, start, prefix, ascii) + subtree_text(
            cs[k],
            labels,
            start + node_count_list(cs.drop_last()),
            prefix,
            k + 1 == total,
            ascii,
        )
    }
}

/// The whole drawing: the root's label on a line of its own, then its
/// children.
pub open spec fn tree_text_spec(t: TrackView, labels: Seq<Seq<char>>, ascii: bool) -> Seq<char> {
    labels[0] + "\n"@ + match t.kind {
        KindView::Group { children, .. } => children_text(
            children,
            children.len(),
            labels,
            1,
            Seq::empty(),
            ascii,
        ),
        KindView::Sequence(_) => Seq::empty(),
    }
}

pub open spec fn labels_view(labels: Seq<String>) -> Seq<Seq<char>> {
    labels.map_values(|s: String| s@)
}

fn connector(is_last: bool, ascii: bool) -> (r: &'static str)
    ensures
        r@ == if is_last {
            elbow(ascii)
        } else {
            tee(ascii)
        },
{
    if is_last {
        if ascii {
            "'-- "
        } else {
            "└── "
        }
    } else {
        if ascii {
            "+-- "
        } else {
            "├── "
        }
    }
}

fn segment(is_last: bool, ascii: bool) -> (r: &'static str)
    ensures
        r@ == if is_last {
            blank()
        } else {
            bar(ascii)
        },
{
    if is_last {
        "    "
    } else if ascii {
        "|   "
    } else {
        "│   "
    }
}

/// Append the lines of the children of a group, labelled from
/// `labels[start]` on; returns the index of the label after them.
fn append_children(
    children: &Vec<TrackNode>,
    labels: &Vec<String>,
    start: usize,
    out: &mut String,
    prefix: &str,
    ascii: bool,
) -> (next: usize)
    requires
        start + node_count_list(nodes_view(children@)) <= labels@.len(),
    ensures
        final(out)@ == old(out)@ + children_text(
            nodes_view(children@),
            children@.len(),
            labels_view(labels@),
            start as int,
            prefix@,
            ascii,
        ),
        next == start + node_count_list(nodes_view(children@)),
    decreases children,
{
    let ghost cv = nodes_view(children@);
    let ghost lv = labels_view(labels@);
    let ghost out0 = old(out)@;
    proof {
        lemma_nodes_view(children@);
        lemma_count_list_prefix(cv, children@.len() as int);
        assert(cv.take(cv.len() as int) =~= cv);
        assert(cv.take(0) =~= Seq::<TrackView>::empty());
    }
    let mut idx = start;
    let mut i: usize = 0;
    while i < children.len()
        invariant
            0 <= i <= children.len(),
            cv == nodes_view(children@),
            lv == labels_view(labels@),
            cv.len() == children.len(),
            forall|j: int| 0 <= j < children.len() ==> #[trigger] cv[j] == children@[j]@,
            start + node_count_list(cv) <= labels@.len(),
            forall|j: int| 0 <= j <= cv.len() ==> node_count_list(#[trigger] cv.take(j)) <= node_count_list(cv),
            idx == start + node_count_list(cv.take(i as int)),
            out@ == out0 + children_text(
                cv.take(i as int),
                children@.len(),
                lv,
                start as int,
                prefix@,
                ascii,
            ),
        decreases children.len() - i,
    {
        proof {
            assert(cv.take(i + 1).drop_last() =~= cv.take(i as int));
            assert(cv.take(i + 1)[i as int] == cv[i as int]);
            assert(cv.take(i + 1).last() == cv[i as int]);
            assert(node_count_list(cv.take(i + 1)) == node_count_list(cv.take(i as int))
                + node_count(cv[i as int]));
            vstd::std_specs::vec::axiom_vec_index_decreases(*children, i as int);
        }
        let last = i + 1 == children.len();
        idx = append_subtree(&children[i], labels, idx, out, prefix, last, ascii);
        i = i + 1;
        proof {
            assert(out@ =~= out0 + children_text(
                cv.take(i as int),
                children@.len(),
                lv,
                start as int,
                prefix@,
                ascii,
            ));
        }
    }
    proof {
        assert(cv.take(i as int) =~= cv);
    }
    idx
}

proof fn lemma_count_list_prefix(cs: Seq<TrackView>, n: int)
    requires
        0 <= n <= cs.len(),
    ensures
        forall|j: int| 0 <= j <= n ==> node_count_list(#[trigger] cs.take(j)) <= node_count_list(cs.take(n)),
    decreases n,
{
    if n > 0 {
        lemma_count_list_prefix(cs, n - 1);
        assert(cs.take(n).drop_last() =~= cs.take(n - 1));
    }
    assert(cs.take(cs.len() as int) =~= cs);
}

/// Append the lines of the subtree `node`, labelled from `labels[start]`
/// on; returns the index of the label after them.
fn append_subtree(
    node: &TrackNode,
    labels: &Vec<String>,
    start: usize,
    out: &mut String,
    prefix: &str,
    is_last: bool,
    ascii: bool,
) -> (next: usize)
    requires
        start + node_count(node@) <= labels@.len(),
    ensures
        final(out)@ == old(out)@ + subtree_text(
            node@,
            labels_view(labels@),
            start as int,
            prefix@,
            is_last,
            ascii,
        ),
        next == start + node_count(node@),
    decreases node,
{
    let ghost lv = labels_view(labels@);
    let ghost out0 = old(out)@;
    out.append(prefix);
    out.append(connector(is_last, ascii));
    out.append(labels[start].as_str());
    out.append("\n");
    proof {
        assert(lv[start as int] == labels@[start as int]@);
    }
    match &node.kind {
        NodeKind::Group { children, .. } => {
            let new_prefix = String::from_str(prefix).concat(segment(is_last, ascii));
            proof {
                assert(decreases_to!(node => node.kind));
                assert(decreases_to!(node.kind => node.kind->children));
                assert(decreases_to!(node => *children));
            }
            proof {
                lemma_nodes_view(children@);
                assert(node@.kind == (KindView::Group {
                    id: node@.kind->id,
                    collapsed: node@.kind->collapsed,
                    children: nodes_view(children@),
                    mode: node@.kind->mode,
                    aesthetic: node@.kind->aesthetic,
                }));
                assert(node_count(node@) == 1 + node_count_list(nodes_view(children@)));
            }
            let n = labels.len();
            assert(start + 1 <= n);
            let next = append_children(children, labels, start + 1, out, new_prefix.as_str(), ascii);
            proof {
                assert(out@ =~= out0 + subtree_text(
                    node@,
                    lv,
                    start as int,
                    prefix@,
                    is_last,
                    ascii,
                ));
            }
            next
        },
        NodeKind::Sequence(_) => {
            let n = labels.len();
            assert(start + 1 <= n);
            proof {
                assert(out@ =~= out0 + subtree_text(
                    node@,
                    lv,
                    start as int,
                    prefix@,
                    is_last,
                    ascii,
                ));
            }
            start + 1
        },
    }
}

/// The tree drawn as text: the root's label, then one line per descendant
/// in preorder, led by the connectors of its ancestors (ASCII when
/// `opts.ascii_only`, else box drawing characters). `labels` holds the label
/// of every node in preorder.
pub fn tracknode_to_tree(root: &TrackNode, labels: &Vec<String>, opts: TreePrintOptions) -> (r: String)
    requires
        labels@.len() == node_count(root@),
    ensures
        r@ == tree_text_spec(root@, labels_view(labels@), opts.ascii_only),
{
    let ascii = opts.ascii_only;
    proof {
        reveal_strlit("");
        assert(labels_view(labels@)[0] == labels@[0]@);
    }
    let mut out = String::from_str(labels[0].as_str());
    out.append("\n");
    match &root.kind {
        NodeKind::Group { children, .. } => {
            proof {
                lemma_nodes_view(children@);
                assert(root@.kind == (KindView::Group {
                    id: root@.kind->id,
                    collapsed: root@.kind->collapsed,
                    children: nodes_view(children@),
                    mode: root@.kind->mode,
                    aesthetic: root@.kind->aesthetic,
                }));
            }
            let ghost before = out@;
            let _next = append_children(children, labels, 1, &mut out, "", ascii);
            proof {
                assert(""@ =~= Seq::<char>::empty());
                assert(out@ == before + children_text(
                    nodes_view(children@),
                    nodes_view(children@).len(),
                    labels_view(labels@),
                    1,
                    Seq::empty(),
                    ascii,
                ));
            }
        },
        NodeKind::Sequence(_) => {},
    }
    proof {
        assert(out@ =~= tree_text_spec(root@, labels_view(labels@), ascii));
    }
    out
}

} // verus!
