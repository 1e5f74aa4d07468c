//! Properties that relate the library's operations to one another: edits of
//! the track tree, parameter inheritance, time quanta and rhythm steps.
use vstd::prelude::*;
use vstd::multiset::Multiset;
use crate::paths::adjusted;
use crate::score::{
    dissolve_spec, move_to_spec, next_sibling_spec, prev_sibling_spec, swap_next_spec,
    swap_prev_spec, wrap_spec, wrapper_view,
};
use crate::ids::Token;
use crate::time_quantum::{from_raw_spec, valid_component, clamp_component_spec};
use crate::schedule::{
    leaf_tokens, leaf_tokens_list, leaves_except, busy_tokens, group_on, or_choice, drawn_tokens,
    children_drawn,
};
use crate::tree_text::{node_count_list, children_text, subtree_text, elbow, tee, bar, blank};
use crate::harmony::{affinity_sum, direction, melodic_affinity_spec};
use crate::rhythm::{step_selected_spec, divided_by_any, selected_steps_spec};
use crate::sequencer::{Entry, Message, message_effect};
use crate::params::{ParamResolution, first_override, fold_overrides, lemma_first_override, resolve_spec};
use crate::tree::{
    seq_tokens, seq_tokens_list, KindView, GroupMode,
    seq_swap, lemma_replace_at_twice, lemma_node_at_replace_ancestor,
    TrackView, lemma_node_at_concat, lemma_node_at_last, lemma_node_at_replace_at,
    lemma_node_at_replace_diverge, lemma_remove_insert_is_replace, lemma_replace_at_same,
    lemma_set_children_at, lemma_insert_node_at, retokenized, retokenized_list, seq_count,
    seq_count_list
};
use crate::editor::{Action, action_allowed, action_spec, clone_spec};
use crate::chord::{
    tension2_by_overlap_spec, family_term, row_sum, cross_sum, pair_row, pair_sum, tension_family_spec,
};

verus! {

/// Taking out the node at `removed` leaves every node outside its subtree in
/// place, at the path that `adjust_path_for_removal` computes: a node
/// neither above nor below the removed one is found again at the adjusted
/// path.
pub proof fn law_removal_keeps_other_nodes(t: TrackView, removed: Seq<usize>, p: Seq<usize>)
    requires
        t.removable(removed),
        t.node_at(p).is_some(),
        !removed.is_prefix_of(p),
        !p.is_prefix_of(removed),
    ensures
        t.remove_node(removed).node_at(adjusted(p, removed)) == t.node_at(p),
{
    let d = removed.len() - 1;
    let q = removed.drop_last();
    let ix = removed.last() as int;
    lemma_node_at_last(t, removed);
    let par = t.node_at(q).unwrap();
    let cs = par.children();
    let t1 = t.remove_node(removed);
    assert(t1 == t.replace_at(q, par.with_children(cs.remove(ix))));
    if p.len() <= d || p.subrange(0, d) != removed.subrange(0, d) {
        assert(adjusted(p, removed) == p);
        // `p` leaves the parent's path somewhere before its end.
        let k = choose|k: int| 0 <= k < p.len() && k < d && p[k] != q[k];
        assert(exists|k: int| 0 <= k < p.len() && k < d && p[k] != q[k]) by {
            if p.len() <= d {
                if forall|k: int| 0 <= k < p.len() ==> p[k] == removed[k] {
                    assert(p =~= removed.subrange(0, p.len() as int));
                }
                let k = choose|k: int| 0 <= k < p.len() && p[k] != removed[k];
                assert(q[k] == removed[k]);
            } else {
                if forall|k: int| 0 <= k < d ==> p[k] == q[k] {
                    assert(p.subrange(0, d) =~= removed.subrange(0, d));
                }
                let k = choose|k: int| 0 <= k < d && p[k] != q[k];
            }
        }
        lemma_node_at_replace_diverge(t, q, par.with_children(cs.remove(ix)), p, k);
    } else {
        assert(p.subrange(0, d) =~= q);
        let j = p[d] as int;
        if j == ix {
            assert(removed =~= p.subrange(0, removed.len() as int));
        }
        let rest = p.skip(d + 1);
        let jj: int = if j > ix {
            j - 1
        } else {
            j
        };
        let ap = adjusted(p, removed);
        assert(p =~= q + (seq![j as usize] + rest));
        assert(ap =~= q + (seq![jj as usize] + rest));
        lemma_node_at_concat(t, q, seq![j as usize] + rest);
        lemma_node_at_concat(t1, q, seq![jj as usize] + rest);
        lemma_node_at_replace_at(t, q, par.with_children(cs.remove(ix)));
        let par1 = par.with_children(cs.remove(ix));
        lemma_node_at_concat(par, seq![j as usize], rest);
        lemma_node_at_concat(par1, seq![jj as usize], rest);
        assert(seq![j as usize].drop_first() =~= Seq::<usize>::empty());
        assert(seq![jj as usize].drop_first() =~= Seq::<usize>::empty());
        assert(seq![j as usize][0] == j);
        assert(seq![jj as usize][0] == jj);
        assert((seq![j as usize] + rest)[0] == j);
        assert(par.is_group() && j < cs.len());
        assert(cs[j].node_at(Seq::empty()) == Some(cs[j]));
        assert(cs.remove(ix)[jj] == cs[j]);
        assert(par.node_at(seq![j as usize]) == Some(cs[j]));
        assert(par1.node_at(seq![jj as usize]) == Some(cs[j]));
    }
}

/// Inserting the node just taken out, at the path it was taken from, gives
/// back the tree it was taken from.
pub proof fn law_insert_after_remove(t: TrackView, p: Seq<usize>)
    requires
        t.removable(p),
    ensures
        t.remove_node(p).insert_node(p, t.node_at(p).unwrap()) == t,
{
    lemma_remove_insert_is_replace(t, p, t.node_at(p).unwrap());
    lemma_replace_at_same(t, p);
}

/// A node inserted at `p` is found at `p`, and taking it out again gives back
/// the tree it was inserted into.
pub proof fn law_remove_after_insert(t: TrackView, p: Seq<usize>, s: TrackView)
    requires
        t.insertable(p),
    ensures
        t.insert_node(p, s).node_at(p) == Some(s),
        t.insert_node(p, s).remove_node(p) == t,
{
    lemma_insert_node_at(t, p, s);
    let q = p.drop_last();
    let ix = p.last() as int;
    let cs = t.children_at(q);
    let t1 = t.insert_node(p, s);
    lemma_set_children_at(t, q, cs.insert(ix, s));
    lemma_node_at_last(t1, p);
    assert(t1.removable(p));
    let t2 = t1.remove_node(p);
    assert(cs.insert(ix, s).remove(ix) =~= cs);
    let par = t.node_at(q).unwrap();
    crate::tree::lemma_replace_at_twice(t, q, par.with_children(cs.insert(ix, s)), par.with_children(cs));
    assert(par.with_children(cs) == par);
    lemma_replace_at_same(t, q);
}

/// Exchanging a node with its next sibling and then exchanging it back
/// with its (new) previous sibling gives back the tree and the path.
pub proof fn law_swap_next_then_prev(t: TrackView, p: Seq<usize>)
    requires
        swap_next_spec(t, p).1 is Some,
        p.last() < usize::MAX,
    ensures
        swap_prev_spec(swap_next_spec(t, p).0, swap_next_spec(t, p).1.unwrap()) == (t, Some(p)),
{
    let q = p.drop_last();
    let i = p.last() as int;
    let cs = t.children_at(q);
    let sw = seq_swap(cs, i, i + 1);
    let t1 = swap_next_spec(t, p).0;
    let p1 = q.push((i + 1) as usize);
    assert(p1.drop_last() =~= q);
    lemma_set_children_at(t, q, sw);
    assert(seq_swap(sw, i, i + 1) =~= cs);
    let par = t.node_at(q).unwrap();
    lemma_replace_at_twice(t, q, par.with_children(sw), par.with_children(sw).with_children(cs));
    assert(par.with_children(sw).with_children(cs) == par);
    lemma_replace_at_same(t, q);
    assert(p =~= q.push(i as usize));
}

/// Exchanging a node with its previous sibling and then exchanging it back
/// with its (new) next sibling gives back the tree and the path.
pub proof fn law_swap_prev_then_next(t: TrackView, p: Seq<usize>)
    requires
        swap_prev_spec(t, p).1 is Some,
        p.last() < t.children_at(p.drop_last()).len(),
    ensures
        swap_next_spec(swap_prev_spec(t, p).0, swap_prev_spec(t, p).1.unwrap()) == (t, Some(p)),
{
    let q = p.drop_last();
    let i = p.last() as int;
    let cs = t.children_at(q);
    let sw = seq_swap(cs, i - 1, i);
    let p1 = q.push((i - 1) as usize);
    assert(p1.drop_last() =~= q);
    lemma_set_children_at(t, q, sw);
    assert(seq_swap(sw, i - 1, i) =~= cs);
    let par = t.node_at(q).unwrap();
    lemma_replace_at_twice(t, q, par.with_children(sw), par.with_children(sw).with_children(cs));
    assert(par.with_children(sw).with_children(cs) == par);
    lemma_replace_at_same(t, q);
    assert(p =~= q.push(i as usize));
}

/// Without wrap-around, the previous sibling of the next sibling is the node
/// itself.
pub proof fn law_next_then_prev_sibling(t: TrackView, p: Seq<usize>)
    requires
        next_sibling_spec(t, p, false) is Some,
        p.last() < usize::MAX,
    ensures
        prev_sibling_spec(t, next_sibling_spec(t, p, false).unwrap(), false) == Some(p),
{
    let q = p.drop_last();
    let p1 = next_sibling_spec(t, p, false).unwrap();
    assert(p1.drop_last() =~= q);
    assert(p =~= q.push(p.last()));
}

/// Without wrap-around, the next sibling of the previous sibling is the node
/// itself, when the node exists.
pub proof fn law_prev_then_next_sibling(t: TrackView, p: Seq<usize>)
    requires
        prev_sibling_spec(t, p, false) is Some,
        t.node_at(p).is_some(),
    ensures
        next_sibling_spec(t, prev_sibling_spec(t, p, false).unwrap(), false) == Some(p),
{
    let q = p.drop_last();
    let p1 = prev_sibling_spec(t, p, false).unwrap();
    lemma_node_at_last(t, p);
    assert(p1.drop_last() =~= q);
    assert(p =~= q.push(p.last()));
}

/// Dissolving the group that wrapping a node created gives back the tree
/// before wrapping, with the node at its old path. This holds for every
/// tree, path, name and group id; `Score::wrap_into_group_at` only needs a
/// token counter below its maximum, since taking the next token past it
/// overflows.
pub proof fn law_wrap_then_dissolve(t: TrackView, p: Seq<usize>, name: Seq<char>, id: Token)
    requires
        wrap_spec(t, p, name, id).1 is Some,
    ensures
        dissolve_spec(wrap_spec(t, p, name, id).0, p) == (t, Some(p)),
{
    let n = t.node_at(p).unwrap();
    let w = wrapper_view(name, id, n);
    lemma_remove_insert_is_replace(t, p, w);
    let t1 = t.replace_at(p, w);
    let q = p.drop_last();
    let ix = p.last() as int;
    lemma_node_at_last(t, p);
    let par = t.node_at(q).unwrap();
    let cs = par.children();
    assert(p =~= q + seq![p.last()]);
    lemma_node_at_replace_ancestor(t, q, seq![p.last()], w);
    assert(seq![p.last()].drop_first() =~= Seq::<usize>::empty());
    assert(seq![p.last()][0] == p.last());
    assert(cs[ix].replace_at(Seq::empty(), w) == w);
    let par1 = par.replace_at(seq![p.last()], w);
    assert(par1 == par.with_children(cs.update(ix, w)));
    assert(t1.node_at(q) == Some(par1));
    let cs1 = cs.update(ix, w);
    assert(t1.children_at(q) == cs1);
    assert(cs1.take(ix) + cs1[ix].children() + cs1.skip(ix + 1) =~= cs);
    assert(t1 == t.replace_at(q, par1)) by {
        crate::tree::lemma_replace_at_concat(t, q, seq![p.last()], w);
    }
    lemma_replace_at_twice(t, q, par1, par1.with_children(cs));
    assert(par1.with_children(cs) == par);
    lemma_replace_at_same(t, q);
}

/// After a successful move, the moved subtree is found at the returned path.
pub proof fn law_move_places_node(t: TrackView, source: Seq<usize>, target_parent: Seq<usize>, target_index: usize)
    requires
        move_to_spec(t, source, target_parent, target_index).1 is Some,
    ensures
        move_to_spec(t, source, target_parent, target_index).0.node_at(
            move_to_spec(t, source, target_parent, target_index).1.unwrap(),
        ) == t.node_at(source),
{
    let ip = adjusted(target_parent, source);
    let t1 = t.remove_node(source);
    let n = t1.children_at(ip).len();
    let idx = if target_index < n { target_index } else { n as usize };
    assert(ip.push(idx).drop_last() =~= ip);
    lemma_insert_node_at(t1, ip.push(idx), t.node_at(source).unwrap());
}

/// Folding the overrides along a path from the root down, first one wins
/// (as note generation does), gives the same value and source depth as
/// resolving the parameter for that path (as the editor shows it).
pub proof fn law_fold_matches_resolution<T>(chain: Seq<Option<T>>, fallback: T)
    requires
        chain.len() <= usize::MAX + 1,
    ensures
        fold_overrides(ParamResolution { value: fallback, source_depth: None }, chain)
            == resolve_spec(chain, fallback),
    decreases chain.len(),
{
    if chain.len() > 0 {
        let init = chain.drop_last();
        law_fold_matches_resolution(init, fallback);
        lemma_first_override(chain);
        lemma_first_override(init);
        assert forall|j: int| 0 <= j < init.len() implies init[j] == chain[j] by {}
        match first_override(init) {
            Some(i) => {
                assert(init[i] is Some);
                assert(chain[i] is Some);
                match first_override(chain) {
                    Some(k) => {
                        if k < i {
                            assert(init[k] is None);
                        }
                        if k > i {
                            assert(chain[i] is None);
                        }
                    },
                    None => {
                        assert(chain[i] is None);
                    },
                }
            },
            None => {
                let last = chain.len() - 1;
                match first_override(chain) {
                    Some(k) => {
                        if k < last {
                            assert(init[k] is None);
                        }
                    },
                    None => {
                        assert(chain[last] is None);
                    },
                }
            },
        }
    }
}

proof fn lemma_tokens_single(x: TrackView)
    ensures
        seq_tokens_list(seq![x]) == seq_tokens(x),
{
    broadcast use vstd::multiset::group_multiset_axioms;

    assert(seq![x].drop_last() =~= Seq::<TrackView>::empty());
    assert(seq![x].last() == x);
    assert(seq_tokens_list(Seq::<TrackView>::empty()) == Multiset::<Token>::empty());
    assert(seq_tokens_list(seq![x]) =~= seq_tokens(x));
}

proof fn lemma_tokens_concat(a: Seq<TrackView>, b: Seq<TrackView>)
    ensures
        seq_tokens_list(a + b) == seq_tokens_list(a).add(seq_tokens_list(b)),
    decreases b.len(),
{
    broadcast use vstd::multiset::group_multiset_axioms;

    if b.len() == 0 {
        assert(a + b =~= a);
        assert(seq_tokens_list(a).add(Multiset::empty()) =~= seq_tokens_list(a));
    } else {
        lemma_tokens_concat(a, b.drop_last());
        assert((a + b).drop_last() =~= a + b.drop_last());
        assert((a + b).last() == b.last());
        assert(seq_tokens_list(a + b) =~= seq_tokens_list(a).add(seq_tokens_list(b)));
    }
}

proof fn lemma_tokens_split(cs: Seq<TrackView>, i: int)
    requires
        0 <= i < cs.len(),
    ensures
        seq_tokens_list(cs) == seq_tokens_list(cs.take(i)).add(seq_tokens(cs[i])).add(
            seq_tokens_list(cs.skip(i + 1)),
        ),
        seq_tokens_list(cs.remove(i)) == seq_tokens_list(cs.take(i)).add(
            seq_tokens_list(cs.skip(i + 1)),
        ),
{
    broadcast use vstd::multiset::group_multiset_axioms;

    assert(cs =~= cs.take(i) + (seq![cs[i]] + cs.skip(i + 1)));
    lemma_tokens_concat(cs.take(i), seq![cs[i]] + cs.skip(i + 1));
    lemma_tokens_concat(seq![cs[i]], cs.skip(i + 1));
    lemma_tokens_single(cs[i]);
    assert(seq_tokens_list(cs) =~= seq_tokens_list(cs.take(i)).add(seq_tokens(cs[i])).add(
        seq_tokens_list(cs.skip(i + 1)),
    ));
    assert(cs.remove(i) =~= cs.take(i) + cs.skip(i + 1));
    lemma_tokens_concat(cs.take(i), cs.skip(i + 1));
}

proof fn lemma_tokens_update(cs: Seq<TrackView>, i: int, x: TrackView)
    requires
        0 <= i < cs.len(),
    ensures
        seq_tokens_list(cs.update(i, x)).add(seq_tokens(cs[i])) == seq_tokens_list(cs).add(
            seq_tokens(x),
        ),
{
    broadcast use vstd::multiset::group_multiset_axioms;

    lemma_tokens_split(cs, i);
    lemma_tokens_split(cs.update(i, x), i);
    assert(cs.update(i, x).take(i) =~= cs.take(i));
    assert(cs.update(i, x).skip(i + 1) =~= cs.skip(i + 1));
    assert(seq_tokens_list(cs.update(i, x)).add(seq_tokens(cs[i])) =~= seq_tokens_list(cs).add(
        seq_tokens(x),
    ));
}

proof fn lemma_tokens_group(t: TrackView, cs: Seq<TrackView>)
    requires
        t.is_group(),
    ensures
        seq_tokens(t.with_children(cs)) == seq_tokens_list(cs),
        seq_tokens(t) == seq_tokens_list(t.children()),
{
}

/// Writing `s` at `p` trades the tokens of the old subtree for those of `s`.
proof fn lemma_tokens_replace(t: TrackView, p: Seq<usize>, s: TrackView)
    requires
        t.node_at(p).is_some(),
    ensures
        seq_tokens(t.replace_at(p, s)).add(seq_tokens(t.node_at(p).unwrap())) == seq_tokens(t).add(
            seq_tokens(s),
        ),
    decreases p.len(),
{
    broadcast use vstd::multiset::group_multiset_axioms;

    if p.len() == 0 {
        assert(seq_tokens(s).add(seq_tokens(t)) =~= seq_tokens(t).add(seq_tokens(s)));
    } else {
        let ix = p[0] as int;
        let cs = t.children();
        let c = cs[ix];
        let rest = p.drop_first();
        let c2 = c.replace_at(rest, s);
        let n = t.node_at(p).unwrap();
        assert(t.node_at(p) == c.node_at(rest));
        assert(t.replace_at(p, s) == t.with_children(cs.update(ix, c2)));
        lemma_tokens_replace(c, rest, s);
        lemma_tokens_update(cs, ix, c2);
        lemma_tokens_group(t, cs.update(ix, c2));
        let lu = seq_tokens_list(cs.update(ix, c2));
        let l = seq_tokens_list(cs);
        assert forall|v: Token| lu.add(seq_tokens(n)).count(v) == l.add(seq_tokens(s)).count(v) by {
            assert(lu.add(seq_tokens(c)).count(v) == l.add(seq_tokens(c2)).count(v));
            assert(seq_tokens(c2).add(seq_tokens(n)).count(v) == seq_tokens(c).add(seq_tokens(s)).count(v));
        }
        assert(lu.add(seq_tokens(n)) =~= l.add(seq_tokens(s)));
    }
}

/// Writing new children at `q` trades the tokens of the old children for
/// those of the new ones.
proof fn lemma_tokens_set_children(t: TrackView, q: Seq<usize>, cs: Seq<TrackView>)
    requires
        t.group_at(q),
    ensures
        seq_tokens(t.set_children_at(q, cs)).add(seq_tokens_list(t.children_at(q))) == seq_tokens(
            t,
        ).add(seq_tokens_list(cs)),
{
    let n = t.node_at(q).unwrap();
    lemma_tokens_replace(t, q, n.with_children(cs));
    lemma_tokens_group(n, cs);
}

/// Taking out the node at `p` takes out exactly the tokens below it.
pub proof fn law_remove_tokens(t: TrackView, p: Seq<usize>)
    requires
        t.removable(p),
    ensures
        seq_tokens(t.remove_node(p)).add(seq_tokens(t.node_at(p).unwrap())) == seq_tokens(t),
{
    broadcast use vstd::multiset::group_multiset_axioms;

    let q = p.drop_last();
    let ix = p.last() as int;
    lemma_node_at_last(t, p);
    let cs = t.children_at(q);
    let n = t.node_at(p).unwrap();
    assert(n == cs[ix]);
    lemma_tokens_set_children(t, q, cs.remove(ix));
    lemma_tokens_split(cs, ix);
    let r = seq_tokens(t.remove_node(p));
    assert forall|v: Token| r.add(seq_tokens(n)).count(v) == seq_tokens(t).count(v) by {
        assert(r.add(seq_tokens_list(cs)).count(v) == seq_tokens(t).add(seq_tokens_list(cs.remove(ix))).count(v));
    }
    assert(r.add(seq_tokens(n)) =~= seq_tokens(t));
}

/// Inserting `s` at `p` adds exactly the tokens below `s`.
pub proof fn law_insert_tokens(t: TrackView, p: Seq<usize>, s: TrackView)
    requires
        t.insertable(p),
    ensures
        seq_tokens(t.insert_node(p, s)) == seq_tokens(t).add(seq_tokens(s)),
{
    broadcast use vstd::multiset::group_multiset_axioms;

    let q = p.drop_last();
    let ix = p.last() as int;
    let cs = t.children_at(q);
    lemma_tokens_set_children(t, q, cs.insert(ix, s));
    assert(cs.insert(ix, s) =~= cs.take(ix) + (seq![s] + cs.skip(ix)));
    assert(cs =~= cs.take(ix) + cs.skip(ix));
    lemma_tokens_concat(cs.take(ix), seq![s] + cs.skip(ix));
    lemma_tokens_concat(seq![s], cs.skip(ix));
    lemma_tokens_concat(cs.take(ix), cs.skip(ix));
    lemma_tokens_single(s);
    let r = seq_tokens(t.insert_node(p, s));
    assert forall|v: Token| r.count(v) == seq_tokens(t).add(seq_tokens(s)).count(v) by {
        assert(r.add(seq_tokens_list(cs)).count(v) == seq_tokens(t).add(seq_tokens_list(cs.insert(ix, s))).count(v));
    }
    assert(r =~= seq_tokens(t).add(seq_tokens(s)));
}

/// Exchanging a node with a sibling keeps every sequence of the tree.
pub proof fn law_swaps_keep_sequences(t: TrackView, p: Seq<usize>)
    requires
        p.len() > 0 && p.last() > 0 && t.group_at(p.drop_last()) ==> p.last() < t.children_at(
            p.drop_last(),
        ).len(),
    ensures
        seq_tokens(swap_prev_spec(t, p).0) == seq_tokens(t),
        seq_tokens(swap_next_spec(t, p).0) == seq_tokens(t),
{
    let q = p.drop_last();
    let cs = t.children_at(q);
    if swap_prev_spec(t, p).1 is Some {
        let i = p.last() as int;
        lemma_swap_tokens(cs, i - 1, i);
        lemma_tokens_set_children_same(t, q, seq_swap(cs, i - 1, i));
    }
    if swap_next_spec(t, p).1 is Some {
        let i = p.last() as int;
        lemma_swap_tokens(cs, i, i + 1);
        lemma_tokens_set_children_same(t, q, seq_swap(cs, i, i + 1));
    }
}

proof fn lemma_swap_tokens(cs: Seq<TrackView>, i: int, j: int)
    requires
        0 <= i < cs.len(),
        0 <= j < cs.len(),
    ensures
        seq_tokens_list(seq_swap(cs, i, j)) == seq_tokens_list(cs),
{
    broadcast use vstd::multiset::group_multiset_axioms;

    lemma_tokens_update(cs, i, cs[j]);
    lemma_tokens_update(cs.update(i, cs[j]), j, cs[i]);
    let a = seq_tokens_list(cs.update(i, cs[j]));
    let b = seq_tokens_list(seq_swap(cs, i, j));
    assert forall|v: Token| b.count(v) == seq_tokens_list(cs).count(v) by {
        assert(a.add(seq_tokens(cs[i])).count(v) == seq_tokens_list(cs).add(seq_tokens(cs[j])).count(v));
        if i != j {
            assert(cs.update(i, cs[j])[j] == cs[j]);
        }
        assert(b.add(seq_tokens(cs.update(i, cs[j])[j])).count(v) == a.add(seq_tokens(cs[i])).count(v));
    }
    assert(b =~= seq_tokens_list(cs));
}

/// Children with the same tokens leave the tokens of the tree unchanged.
proof fn lemma_tokens_set_children_same(t: TrackView, q: Seq<usize>, cs: Seq<TrackView>)
    requires
        t.group_at(q),
        seq_tokens_list(cs) == seq_tokens_list(t.children_at(q)),
    ensures
        seq_tokens(t.set_children_at(q, cs)) == seq_tokens(t),
{
    broadcast use vstd::multiset::group_multiset_axioms;

    lemma_tokens_set_children(t, q, cs);
    let r = seq_tokens(t.set_children_at(q, cs));
    assert forall|v: Token| r.count(v) == seq_tokens(t).count(v) by {
        assert(r.add(seq_tokens_list(cs)).count(v) == seq_tokens(t).add(seq_tokens_list(cs)).count(v));
    }
    assert(r =~= seq_tokens(t));
}

/// Wrapping a node into a new group keeps every sequence of the tree.
pub proof fn law_wrap_keeps_sequences(t: TrackView, p: Seq<usize>, name: Seq<char>, id: Token)
    ensures
        seq_tokens(wrap_spec(t, p, name, id).0) == seq_tokens(t),
{
    broadcast use vstd::multiset::group_multiset_axioms;

    if t.removable(p) {
        let n = t.node_at(p).unwrap();
        let w = wrapper_view(name, id, n);
        law_remove_tokens(t, p);
        lemma_remove_insert_is_replace(t, p, w);
        law_insert_tokens(t.remove_node(p), p, w);
        lemma_tokens_single(n);
        assert(seq_tokens(w) == seq_tokens(n));
        let r = seq_tokens(t.remove_node(p));
        assert(r.add(seq_tokens(n)) =~= seq_tokens(t));
    }
}

/// Dissolving a group keeps every sequence of the tree.
pub proof fn law_dissolve_keeps_sequences(t: TrackView, p: Seq<usize>)
    ensures
        seq_tokens(dissolve_spec(t, p).0) == seq_tokens(t),
{
    broadcast use vstd::multiset::group_multiset_axioms;

    if p.len() > 0 {
        let q = p.drop_last();
        let cs = t.children_at(q);
        let idx = p.last() as int;
        if t.group_at(q) && idx < cs.len() && cs[idx].is_group() {
            let g = cs[idx];
            lemma_tokens_split(cs, idx);
            lemma_tokens_group(g, g.children());
            if g.children().len() == 0 {
                assert(seq_tokens_list(g.children()) =~= Multiset::<Token>::empty());
                assert(seq_tokens_list(cs.remove(idx)) =~= seq_tokens_list(cs));
                lemma_tokens_set_children_same(t, q, cs.remove(idx));
            } else {
                let ncs = cs.take(idx) + g.children() + cs.skip(idx + 1);
                lemma_tokens_concat(cs.take(idx) + g.children(), cs.skip(idx + 1));
                lemma_tokens_concat(cs.take(idx), g.children());
                assert(seq_tokens_list(ncs) =~= seq_tokens_list(cs));
                lemma_tokens_set_children_same(t, q, ncs);
            }
        }
    }
}

/// Promoting a node keeps every sequence of the tree.
pub proof fn law_promote_keeps_sequences(t: TrackView, p: Seq<usize>)
    ensures
        seq_tokens(crate::score::promote_spec(t, p).0) == seq_tokens(t),
{
    broadcast use vstd::multiset::group_multiset_axioms;

    if p.len() >= 2 && t.removable(p) {
        let grand = p.subrange(0, p.len() - 2);
        let np = grand.push((p[p.len() - 2] + 1) as usize);
        let t1 = t.remove_node(p);
        law_remove_tokens(t, p);
        lemma_promote_insertable(t, p);
        law_insert_tokens(t1, np, t.node_at(p).unwrap());
        assert(seq_tokens(crate::score::promote_spec(t, p).0) =~= seq_tokens(t));
    }
}

proof fn lemma_promote_insertable(t: TrackView, p: Seq<usize>)
    requires
        p.len() >= 2,
        t.removable(p),
    ensures
        t.remove_node(p).insertable(
            p.subrange(0, p.len() - 2).push((p[p.len() - 2] + 1) as usize),
        ),
{
    let q = p.drop_last();
    let g = p.subrange(0, p.len() - 2);
    let pidx = p[p.len() - 2];
    lemma_node_at_last(t, p);
    lemma_node_at_last(t, q);
    assert(q.drop_last() =~= g);
    assert(q =~= g + seq![pidx]);
    let par = t.node_at(q).unwrap();
    let w = par.with_children(par.children().remove(p.last() as int));
    lemma_node_at_replace_ancestor(t, g, seq![pidx], w);
    let gn = t.node_at(g).unwrap();
    assert(seq![pidx].drop_first() =~= Seq::<usize>::empty());
    assert(seq![pidx][0] == pidx);
    assert(gn.replace_at(seq![pidx], w).children().len() == gn.children().len());
    let np = g.push((pidx + 1) as usize);
    assert(np.drop_last() =~= g);
}

/// Moving a node into a neighbouring group keeps every sequence of the
/// tree.
pub proof fn law_move_adjacent_keeps_sequences(t: TrackView, p: Seq<usize>, dir: int)
    requires
        p.len() > 0 ==> p.last() < usize::MAX,
    ensures
        seq_tokens(crate::score::move_adjacent_spec(t, p, dir).0) == seq_tokens(t),
{
    broadcast use vstd::multiset::group_multiset_axioms;

    let r = crate::score::move_adjacent_spec(t, p, dir);
    if r.1 is Some {
        let parent = p.drop_last();
        let idx = p.last() as int;
        let t1 = t.remove_node(p);
        let target = parent.push((if dir == -1 { idx - 1 } else { idx }) as usize);
        let before = parent.push((idx + dir) as usize);
        law_remove_tokens(t, p);
        assert(!p.is_prefix_of(before)) by {
            if p.is_prefix_of(before) {
                assert(before[p.len() - 1] == p[p.len() - 1]);
            }
        }
        assert(!before.is_prefix_of(p)) by {
            if before.is_prefix_of(p) {
                assert(before[p.len() - 1] == p[p.len() - 1]);
            }
        }
        assert(adjusted(before, p) =~= target) by {
            assert(before.subrange(0, p.len() - 1) =~= p.subrange(0, p.len() - 1));
        }
        law_removal_keeps_other_nodes(t, p, before);
        let cs = t1.children_at(target);
        let n = t.node_at(p).unwrap();
        lemma_tokens_set_children(t1, target, cs.push(n));
        assert(cs.push(n) =~= cs + seq![n]);
        lemma_tokens_concat(cs, seq![n]);
        lemma_tokens_single(n);
        let rt = seq_tokens(r.0);
        let r1 = seq_tokens(t1);
        assert forall|v: Token| rt.count(v) == seq_tokens(t).count(v) by {
            assert(rt.add(seq_tokens_list(cs)).count(v) == r1.add(seq_tokens_list(cs.push(n))).count(v));
            assert(r1.add(seq_tokens(n)).count(v) == seq_tokens(t).count(v));
        }
        assert(rt =~= seq_tokens(t));
    }
}

/// A successful move to another place keeps every sequence of the tree.
pub proof fn law_move_keeps_sequences(t: TrackView, source: Seq<usize>, target_parent: Seq<usize>, target_index: usize)
    requires
        move_to_spec(t, source, target_parent, target_index).1 is Some,
    ensures
        seq_tokens(move_to_spec(t, source, target_parent, target_index).0) == seq_tokens(t),
{
    broadcast use vstd::multiset::group_multiset_axioms;

    let ip = adjusted(target_parent, source);
    let t1 = t.remove_node(source);
    let n = t1.children_at(ip).len();
    let idx = if target_index < n { target_index } else { n as usize };
    assert(ip.push(idx).drop_last() =~= ip);
    law_remove_tokens(t, source);
    law_insert_tokens(t1, ip.push(idx), t.node_at(source).unwrap());
    assert(seq_tokens(move_to_spec(t, source, target_parent, target_index).0) =~= seq_tokens(t));
}

/// `from_raw` accepts a pair of components exactly when both lie in
/// `1..=128`, and then keeps them as given.
pub proof fn law_from_raw_accepts_range(numer: u16, denom: u16)
    ensures
        from_raw_spec(numer, denom) is Ok <==> valid_component(numer) && valid_component(denom),
        from_raw_spec(numer, denom) is Ok ==> from_raw_spec(numer, denom) == Ok::<
            (u16, u16),
            crate::time_quantum::TimeQuantumError,
        >((numer, denom)),
{
}

/// Clamped components are always accepted: `from_raw` of two clamped
/// values succeeds, and clamping leaves a valid component unchanged.
pub proof fn law_clamped_components_accepted(numer: u16, denom: u16)
    ensures
        from_raw_spec(clamp_component_spec(numer), clamp_component_spec(denom)) is Ok,
        valid_component(numer) ==> clamp_component_spec(numer) == numer,
{
}

/// The first step of a loop (the step at the beat offset) always carries a
/// note when there is at least one inclusion generator and every exclusion
/// generator is at least 2, as the random exclusion generators are: every
/// generator divides 0, and none of them divides 1.
pub proof fn law_first_step_kept(beat_offset: int, inclusions: Seq<usize>, exclusions: Seq<usize>)
    requires
        inclusions.len() > 0,
        forall|i: int| 0 <= i < inclusions.len() ==> #[trigger] inclusions[i] >= 1,
        forall|i: int| 0 <= i < exclusions.len() ==> #[trigger] exclusions[i] >= 2,
    ensures
        step_selected_spec(beat_offset, beat_offset, inclusions, exclusions),
{
    let g = inclusions[0];
    assert(g >= 1);
    vstd::arithmetic::div_mod::lemma_small_mod(0, g as nat);
    assert(beat_offset - beat_offset == 0);
    assert((beat_offset - beat_offset) % (inclusions[0] as int) == 0);
    assert(divided_by_any(beat_offset - beat_offset, inclusions));
    assert forall|i: int| 0 <= i < exclusions.len() implies #[trigger] ((beat_offset + 1
        - beat_offset) % (exclusions[i] as int)) != 0 by {
        assert(exclusions[i] >= 2);
        vstd::arithmetic::div_mod::lemma_small_mod(1, exclusions[i] as nat);
        assert(beat_offset + 1 - beat_offset == 1);
    }
}

/// An override locks the nodes below it: once a node on the path provides
/// a parameter, whatever a deeper node sets is ignored, and the resolution
/// reports the parameter as locked at every deeper depth.
pub proof fn law_override_locks_descendants<T>(
    chain: Seq<Option<T>>,
    fallback: T,
    depth: int,
    value: Option<T>,
)
    requires
        first_override(chain) matches Some(i) && i < depth < chain.len(),
    ensures
        resolve_spec(chain.update(depth, value), fallback) == resolve_spec(chain, fallback),
        resolve_spec(chain, fallback).source_depth matches Some(src) && src < depth,
{
    let changed = chain.update(depth, value);
    lemma_first_override(chain);
    lemma_first_override(changed);
    let i = first_override(chain).unwrap();
    assert(changed[i] == chain[i]);
    match first_override(changed) {
        Some(k) => {
            if k < i {
                assert(changed[k] == chain[k]);
            }
            if k > i {
                assert(changed[i] is None);
            }
        },
        None => {
            assert(changed[i] is None);
        },
    }
}

/// Swapping the same two sequences twice gives back the list.
pub proof fn law_swap_sequences_twice<T>(entries: Seq<Entry<T>>, a: usize, b: usize)
    requires
        a < entries.len(),
        b < entries.len(),
    ensures
        message_effect(
            message_effect(entries, Message::SwapSequences(a, b)).0,
            Message::SwapSequences(a, b),
        ).0 == entries,
{
    let once = message_effect(entries, Message::SwapSequences(a, b)).0;
    assert(message_effect(once, Message::SwapSequences(a, b)).0 =~= entries);
}

/// Deleting the sequence just appended gives back the list, and drops the
/// notes of its token.
pub proof fn law_delete_after_new<T>(entries: Seq<Entry<T>>, e: Entry<T>)
    requires
        entries.len() <= usize::MAX,
    ensures
        message_effect(
            message_effect(entries, Message::NewSequence(e)).0,
            Message::DeleteSequence(entries.len() as usize),
        ) == (entries, seq![crate::sequencer::Step::RemoveNotes(e.token)]),
{
    let grown = entries.push(e);
    assert(grown.remove(entries.len() as int) =~= entries);
    assert(grown[entries.len() as int] == e);
}

/// The sequence tokens of a tree are distinct, and none is above `bound`.
pub open spec fn tokens_unique_below(t: TrackView, bound: int) -> bool {
    forall|x: Token|
        #[trigger] seq_tokens(t).count(x) > 0 ==> seq_tokens(t).count(x) == 1 && x.0 <= bound
}

proof fn lemma_retokenized_tokens(t: TrackView, s: int)
    requires
        0 <= s,
        s + seq_count(t) <= usize::MAX,
    ensures
        forall|x: Token|
            #[trigger] seq_tokens(retokenized(t, s)).count(x) == if s < x.0 <= s + seq_count(t) {
                1nat
            } else {
                0nat
            },
    decreases t,
{
    broadcast use vstd::multiset::group_multiset_axioms;

    match t.kind {
        KindView::Group { children, .. } => {
            lemma_retokenized_list_tokens(children, s);
            lemma_tokens_group(t, retokenized_list(children, s));
            assert(seq_count(t) == seq_count_list(children));
        },
        KindView::Sequence(_) => {
            assert forall|x: Token| #[trigger] seq_tokens(retokenized(t, s)).count(x) == if s < x.0
                <= s + seq_count(t) {
                1nat
            } else {
                0nat
            } by {
                if x.0 == s + 1 {
                    assert(x == Token((s + 1) as usize));
                }
            }
        },
    }
}

proof fn lemma_retokenized_list_tokens(cs: Seq<TrackView>, s: int)
    requires
        0 <= s,
        s + seq_count_list(cs) <= usize::MAX,
    ensures
        forall|x: Token|
            #[trigger] seq_tokens_list(retokenized_list(cs, s)).count(x) == if s < x.0 <= s
                + seq_count_list(cs) {
                1nat
            } else {
                0nat
            },
    decreases cs,
{
    broadcast use vstd::multiset::group_multiset_axioms;

    if cs.len() > 0 {
        let init = cs.drop_last();
        let c1 = seq_count_list(init);
        lemma_retokenized_list_tokens(init, s);
        lemma_retokenized_tokens(cs.last(), s + c1);
        let rl = retokenized_list(cs, s);
        assert(rl.drop_last() =~= retokenized_list(init, s));
        assert(rl.last() == retokenized(cs.last(), s + c1));
        assert(rl.len() > 0);
        assert(seq_tokens_list(rl) == seq_tokens_list(retokenized_list(init, s)).add(
            seq_tokens(retokenized(cs.last(), s + c1)),
        ));
        assert(seq_count_list(cs) == c1 + seq_count(cs.last()));
        assert forall|x: Token| #[trigger] seq_tokens_list(rl).count(x) == if s < x.0 <= s
            + seq_count_list(cs) {
            1nat
        } else {
            0nat
        } by {
            assert(seq_tokens_list(rl).count(x) == seq_tokens_list(retokenized_list(init, s)).count(x)
                + seq_tokens(retokenized(cs.last(), s + c1)).count(x));
        }
    } else {
        assert(retokenized_list(cs, s) =~= Seq::<TrackView>::empty());
        assert(seq_tokens_list(Seq::<TrackView>::empty()) == Multiset::<Token>::empty());
    }
}

/// Cloning a node gives the sequences of the copy fresh tokens above the
/// counter: the sequence tokens stay distinct and within the new counter.
pub proof fn law_clone_keeps_tokens_unique(t: TrackView, path: Seq<usize>, gen: usize)
    requires
        tokens_unique_below(t, gen as int),
        path.len() > 0 && t.node_at(path) is Some ==> gen + seq_count(t.node_at(path).unwrap())
            <= usize::MAX,
        path.len() > 0 ==> path.last() < usize::MAX,
    ensures
        tokens_unique_below(
            clone_spec(t, path, gen),
            if path.len() > 0 && t.node_at(path) is Some {
                gen + seq_count(t.node_at(path).unwrap())
            } else {
                gen as int
            },
        ),
{
    broadcast use vstd::multiset::group_multiset_axioms;

    if path.len() > 0 && t.node_at(path) is Some {
        let n = t.node_at(path).unwrap();
        let k = seq_count(n);
        let ip = path.drop_last().push((path.last() + 1) as usize);
        lemma_node_at_last(t, path);
        assert(ip.drop_last() =~= path.drop_last());
        assert(t.insertable(ip));
        law_insert_tokens(t, ip, retokenized(n, gen as int));
        lemma_retokenized_tokens(n, gen as int);
        let after = clone_spec(t, path, gen);
        assert forall|x: Token| #[trigger] seq_tokens(after).count(x) > 0 implies seq_tokens(
            after,
        ).count(x) == 1 && x.0 <= gen + k by {
            assert(seq_tokens(after).count(x) == seq_tokens(t).count(x) + seq_tokens(
                retokenized(n, gen as int),
            ).count(x));
            if seq_tokens(t).count(x) > 0 {
                assert(x.0 <= gen);
            }
        }
    }
}

/// Every action of the tree editor keeps the sequence tokens of the tree
/// distinct and no greater than the token counter: edits that move nodes
/// keep the same sequences, deleting drops some, cloning adds fresh ones.
pub proof fn law_actions_keep_tokens_unique(t: TrackView, sel: Seq<usize>, action: Action, gen: usize)
    requires
        tokens_unique_below(t, gen as int),
        action_allowed(t, sel, action, gen),
        sel.len() > 0 ==> sel.last() < usize::MAX,
    ensures
        tokens_unique_below(action_spec(t, sel, action, gen).0, action_spec(t, sel, action, gen).2),
{
    broadcast use vstd::multiset::group_multiset_axioms;

    let r = action_spec(t, sel, action, gen);
    match action {
        Action::Delete => {
            if t.removable(sel) {
                law_remove_tokens(t, sel);
                assert forall|x: Token| #[trigger] seq_tokens(r.0).count(x) > 0 implies seq_tokens(
                    r.0,
                ).count(x) == 1 && x.0 <= gen by {
                    assert(seq_tokens(r.0).add(seq_tokens(t.node_at(sel).unwrap())).count(x)
                        == seq_tokens(t).count(x));
                }
            }
        },
        Action::Clone => {
            law_clone_keeps_tokens_unique(t, sel, gen);
        },
        Action::MoveUp => {
            law_swaps_keep_sequences(t, sel);
        },
        Action::MoveDown => {
            let q = sel.drop_last();
            let cs = t.children_at(q);
            if swap_next_spec(t, sel).1 is Some {
                let i = sel.last() as int;
                lemma_swap_tokens(cs, i, i + 1);
                lemma_tokens_set_children_same(t, q, seq_swap(cs, i, i + 1));
            }
        },
        Action::Wrap => {
            law_wrap_keeps_sequences(t, sel, "Group"@, Token((gen + 1) as usize));
        },
        Action::Promote => {
            law_promote_keeps_sequences(t, sel);
        },
        Action::Dissolve => {
            law_dissolve_keeps_sequences(t, sel);
        },
        Action::GroupAbove => {
            law_move_adjacent_keeps_sequences(t, sel, -1);
        },
        Action::GroupBelow => {
            law_move_adjacent_keeps_sequences(t, sel, 1);
        },
        Action::Mute => {
            match t.node_at(sel) {
                Some(n) => {
                    let m = TrackView { muted: !n.muted, ..n };
                    lemma_tokens_replace(t, sel, m);
                    assert(seq_tokens(m) == seq_tokens(n));
                    assert forall|x: Token| #[trigger] seq_tokens(r.0).count(x) == seq_tokens(t).count(x) by {
                        assert(seq_tokens(r.0).add(seq_tokens(n)).count(x) == seq_tokens(t).add(
                            seq_tokens(m),
                        ).count(x));
                    }
                },
                None => {},
            }
        },
        _ => {},
    }
}


// ---------------------------------------------------------------------------
// Rhythm steps
// ---------------------------------------------------------------------------

/// The steps of a loop of `n_steps` steps that carry a note are exactly the
/// steps `k` in `0..n_steps` for which `step_selected_spec` holds, whatever
/// their position relative to the beat offset; they come in increasing
/// order, without repetition.
pub proof fn law_selected_steps_members(
    n_steps: int,
    beat_offset: int,
    inclusions: Seq<usize>,
    exclusions: Seq<usize>,
)
    requires
        n_steps <= i32::MAX + 1,
    ensures
        forall|k: int|
            0 <= k < n_steps ==> (selected_steps_spec(
                n_steps,
                beat_offset,
                inclusions,
                exclusions,
            ).contains(k as usize) <==> step_selected_spec(k, beat_offset, inclusions, exclusions)),
        forall|i: int|
            0 <= i < selected_steps_spec(n_steps, beat_offset, inclusions, exclusions).len()
                ==> #[trigger] selected_steps_spec(n_steps, beat_offset, inclusions, exclusions)[i]
                < n_steps,
        forall|i: int, j: int|
            0 <= i < j < selected_steps_spec(n_steps, beat_offset, inclusions, exclusions).len()
                ==> #[trigger] selected_steps_spec(n_steps, beat_offset, inclusions, exclusions)[i]
                < #[trigger] selected_steps_spec(n_steps, beat_offset, inclusions, exclusions)[j],
    decreases n_steps,
{
    if n_steps > 0 {
        let k0 = n_steps - 1;
        law_selected_steps_members(k0, beat_offset, inclusions, exclusions);
        let before = selected_steps_spec(k0, beat_offset, inclusions, exclusions);
        let r = selected_steps_spec(n_steps, beat_offset, inclusions, exclusions);
        if step_selected_spec(k0, beat_offset, inclusions, exclusions) {
            assert(r == before.push(k0 as usize));
            assert forall|k: int| 0 <= k < n_steps implies (r.contains(k as usize)
                <==> step_selected_spec(k, beat_offset, inclusions, exclusions)) by {
                if k < k0 {
                    if r.contains(k as usize) {
                        let i = choose|i: int| 0 <= i < r.len() && r[i] == k as usize;
                        if i == before.len() {
                            assert(r[i] == k0 as usize);
                        } else {
                            assert(before[i] == k as usize);
                        }
                    }
                    if before.contains(k as usize) {
                        let i = choose|i: int| 0 <= i < before.len() && before[i] == k as usize;
                        assert(r[i] == k as usize);
                    }
                } else {
                    assert(r[before.len() as int] == k0 as usize);
                }
            }
        } else {
            assert(r == before);
            assert forall|k: int| 0 <= k < n_steps implies (r.contains(k as usize)
                <==> step_selected_spec(k, beat_offset, inclusions, exclusions)) by {
                if k == k0 && r.contains(k as usize) {
                    let i = choose|i: int| 0 <= i < r.len() && r[i] == k as usize;
                    assert(before[i] < k0);
                }
            }
        }
    }
}

// ---------------------------------------------------------------------------
// Melodic affinity
// ---------------------------------------------------------------------------

/// Whether a note lies above `p`.
pub open spec fn above(p: i32) -> spec_fn(i32) -> bool {
    |n: i32| n > p
}

/// Whether a note lies below `p`.
pub open spec fn below(p: i32) -> spec_fn(i32) -> bool {
    |n: i32| n < p
}

proof fn lemma_affinity_split(
    combo: Seq<i32>,
    prev: i32,
    dir: int,
    melodiser: Seq<i32>,
    order_affinity: i32,
)
    ensures
        dir > 0 ==> affinity_sum(combo, prev, dir, melodiser, order_affinity) == affinity_sum(
            combo,
            prev,
            0,
            melodiser,
            order_affinity,
        ) + order_affinity * combo.filter(above(prev)).len(),
        dir < 0 ==> affinity_sum(combo, prev, dir, melodiser, order_affinity) == affinity_sum(
            combo,
            prev,
            0,
            melodiser,
            order_affinity,
        ) + order_affinity * combo.filter(below(prev)).len(),
        dir == 0 ==> forall|o2: i32|
            affinity_sum(combo, prev, dir, melodiser, order_affinity) == #[trigger] affinity_sum(
                combo,
                prev,
                0,
                melodiser,
                o2,
            ),
    decreases combo.len(),
{
    if combo.len() == 0 {
        assert(combo.filter(above(prev)) =~= Seq::<i32>::empty());
        assert(combo.filter(below(prev)) =~= Seq::<i32>::empty());
    } else {
        let init = combo.drop_last();
        let x = combo.last();
        lemma_affinity_split(init, prev, dir, melodiser, order_affinity);
        assert(combo =~= init + seq![x]);
        let up = above(prev);
        let down = below(prev);
        Seq::filter_distributes_over_add(init, seq![x], up);
        Seq::filter_distributes_over_add(init, seq![x], down);
        reveal_with_fuel(Seq::filter, 2);
        assert(seq![x].drop_last() =~= Seq::<i32>::empty());
        assert(seq![x].filter(up) =~= if x > prev { seq![x] } else { Seq::<i32>::empty() });
        assert(seq![x].filter(down) =~= if x < prev { seq![x] } else { Seq::<i32>::empty() });
        if dir > 0 {
            assert(combo.filter(up).len() == init.filter(up).len() + if x > prev { 1int } else { 0 });
            assert(order_affinity * combo.filter(up).len() == order_affinity * init.filter(up).len()
                + if x > prev { order_affinity as int } else { 0 }) by (nonlinear_arith)
                requires
                    combo.filter(up).len() == init.filter(up).len() + if x > prev { 1int } else { 0 },
            ;
        }
        if dir < 0 {
            assert(combo.filter(down).len() == init.filter(down).len() + if x < prev { 1int } else { 0 });
            assert(order_affinity * combo.filter(down).len() == order_affinity * init.filter(
                down,
            ).len() + if x < prev { order_affinity as int } else { 0 }) by (nonlinear_arith)
                requires
                    combo.filter(down).len() == init.filter(down).len() + if x < prev { 1int } else { 0 },
            ;
        }
        if dir == 0 {
            assert forall|o2: i32| affinity_sum(combo, prev, dir, melodiser, order_affinity)
                == #[trigger] affinity_sum(combo, prev, 0, melodiser, o2) by {
                assert(affinity_sum(init, prev, dir, melodiser, order_affinity) == affinity_sum(
                    init,
                    prev,
                    0,
                    melodiser,
                    o2,
                ));
            }
        }
    }
}

/// Without a previous note the melodic affinity is zero.
pub proof fn law_affinity_without_previous_note(
    combo: Seq<i32>,
    prev_prev_note: Option<i32>,
    melodiser: Seq<i32>,
    order_affinity: i32,
)
    ensures
        melodic_affinity_spec(combo, None, prev_prev_note, melodiser, order_affinity) == 0,
{
}

/// A repeated previous note gives no direction: the affinity is the one
/// computed without the note before it.
pub proof fn law_repeated_note_has_no_direction(
    combo: Seq<i32>,
    prev: i32,
    melodiser: Seq<i32>,
    order_affinity: i32,
)
    ensures
        melodic_affinity_spec(combo, Some(prev), Some(prev), melodiser, order_affinity)
            == melodic_affinity_spec(combo, Some(prev), None, melodiser, order_affinity),
{
}

/// Without a direction, the order affinity plays no part.
pub proof fn law_order_affinity_needs_direction(
    combo: Seq<i32>,
    prev: i32,
    melodiser: Seq<i32>,
    o1: i32,
    o2: i32,
)
    ensures
        melodic_affinity_spec(combo, Some(prev), None, melodiser, o1) == melodic_affinity_spec(
            combo,
            Some(prev),
            None,
            melodiser,
            o2,
        ),
{
    lemma_affinity_split(combo, prev, 0, melodiser, o1);
    lemma_affinity_split(combo, prev, 0, melodiser, o2);
}

/// After a rising step, every note of the chord above the previous note adds
/// the order affinity once; after a falling step, every note below it does.
pub proof fn law_order_affinity_follows_the_step(
    combo: Seq<i32>,
    prev: i32,
    prev_prev: i32,
    melodiser: Seq<i32>,
    order_affinity: i32,
)
    ensures
        prev_prev < prev ==> melodic_affinity_spec(
            combo,
            Some(prev),
            Some(prev_prev),
            melodiser,
            order_affinity,
        ) == melodic_affinity_spec(combo, Some(prev), None, melodiser, order_affinity)
            + order_affinity * combo.filter(above(prev)).len(),
        prev_prev > prev ==> melodic_affinity_spec(
            combo,
            Some(prev),
            Some(prev_prev),
            melodiser,
            order_affinity,
        ) == melodic_affinity_spec(combo, Some(prev), None, melodiser, order_affinity)
            + order_affinity * combo.filter(below(prev)).len(),
{
    lemma_affinity_split(combo, prev, direction(prev, Some(prev_prev)), melodiser, order_affinity);
}

// ---------------------------------------------------------------------------
// Scheduling walk
// ---------------------------------------------------------------------------

/// The sequence tokens a tree lists in preorder are exactly its sequences,
/// counted with multiplicity, nested groups included.
pub proof fn law_leaf_tokens_are_the_sequences(t: TrackView)
    ensures
        leaf_tokens(t).to_multiset() == seq_tokens(t),
    decreases t,
{
    match t.kind {
        KindView::Group { children, .. } => {
            lemma_leaf_tokens_list_multiset(children);
        },
        KindView::Sequence(tok) => {
            broadcast use vstd::multiset::group_multiset_axioms;
            broadcast use vstd::seq_lib::to_multiset_build;
            assert(seq![tok] =~= Seq::<Token>::empty().push(tok));
            assert(Seq::<Token>::empty().to_multiset() =~= Multiset::<Token>::empty()) by {
                broadcast use vstd::seq_lib::to_multiset_len;
                assert(Seq::<Token>::empty().to_multiset().len() == 0);
            }
            assert(leaf_tokens(t).to_multiset() =~= Multiset::singleton(tok));
        },
    }
}

proof fn lemma_leaf_tokens_list_multiset(cs: Seq<TrackView>)
    ensures
        leaf_tokens_list(cs).to_multiset() == seq_tokens_list(cs),
    decreases cs,
{
    broadcast use vstd::multiset::group_multiset_axioms;

    if cs.len() == 0 {
        assert(leaf_tokens_list(cs).to_multiset().len() == 0) by {
            broadcast use vstd::seq_lib::to_multiset_len;
        }
        assert(leaf_tokens_list(cs).to_multiset() =~= Multiset::<Token>::empty());
    } else {
        lemma_leaf_tokens_list_multiset(cs.drop_last());
        law_leaf_tokens_are_the_sequences(cs.last());
        vstd::seq_lib::lemma_multiset_commutative(
            leaf_tokens_list(cs.drop_last()),
            leaf_tokens(cs.last()),
        );
    }
}

proof fn lemma_leaves_except_covers(cs: Seq<TrackView>, skip: int, j: int, tok: Token)
    requires
        0 <= j < cs.len(),
        j != skip,
    ensures
        seq_tokens(cs[j]).count(tok) <= leaves_except(cs, skip).to_multiset().count(tok),
    decreases cs.len(),
{
    broadcast use vstd::multiset::group_multiset_axioms;

    let init = cs.drop_last();
    let last_part = if cs.len() - 1 == skip {
        Seq::<Token>::empty()
    } else {
        leaf_tokens(cs.last())
    };
    vstd::seq_lib::lemma_multiset_commutative(leaves_except(init, skip), last_part);
    if j == cs.len() - 1 {
        law_leaf_tokens_are_the_sequences(cs.last());
    } else {
        lemma_leaves_except_covers(init, skip, j, tok);
        assert(init[j] == cs[j]);
    }
}

/// When an Or group walks one of its children, every sequence below each of
/// its other children, nested groups included, is kept busy.
pub proof fn law_or_group_keeps_other_children_busy(
    t: TrackView,
    ready: Seq<bool>,
    coin: Seq<bool>,
    pick: Seq<Option<usize>>,
    pos: int,
    j: int,
    tok: Token,
)
    requires
        t.kind is Group,
        t.kind->mode == GroupMode::Or,
        group_on(ready, coin, pos),
        or_choice(t.children(), ready, pick, pos) is Some,
        0 <= j < t.children().len(),
        j != or_choice(t.children(), ready, pick, pos).unwrap(),
    ensures
        seq_tokens(t.children()[j]).count(tok) <= busy_tokens(
            t,
            ready,
            coin,
            pick,
            pos,
        ).to_multiset().count(tok),
{
    broadcast use vstd::multiset::group_multiset_axioms;

    let children = t.children();
    let i = or_choice(children, ready, pick, pos).unwrap();
    let mine = busy_tokens(children[i], ready, coin, pick, pos + 1 + node_count_list(children.take(i)));
    assert(busy_tokens(t, ready, coin, pick, pos) == mine + leaves_except(children, i));
    vstd::seq_lib::lemma_multiset_commutative(mine, leaves_except(children, i));
    lemma_leaves_except_covers(children, i, j, tok);
}

proof fn lemma_child_tokens_in_list(cs: Seq<TrackView>, j: int, tok: Token)
    requires
        0 <= j < cs.len(),
    ensures
        seq_tokens(cs[j]).count(tok) <= seq_tokens_list(cs).count(tok),
    decreases cs.len(),
{
    broadcast use vstd::multiset::group_multiset_axioms;

    if j < cs.len() - 1 {
        lemma_child_tokens_in_list(cs.drop_last(), j, tok);
        assert(cs.drop_last()[j] == cs[j]);
    }
}

/// A walk draws only sequences of the tree it walks, each at most as often
/// as it occurs there.
pub proof fn law_walk_draws_only_sequences(
    t: TrackView,
    ready: Seq<bool>,
    coin: Seq<bool>,
    pick: Seq<Option<usize>>,
    pos: int,
    tok: Token,
)
    ensures
        drawn_tokens(t, ready, coin, pick, pos).to_multiset().count(tok) <= seq_tokens(t).count(tok),
    decreases t,
{
    broadcast use vstd::multiset::group_multiset_axioms;
    broadcast use vstd::seq_lib::to_multiset_len;
    broadcast use vstd::seq_lib::to_multiset_build;

    match t.kind {
        KindView::Sequence(s) => {
            assert(seq![s] =~= Seq::<Token>::empty().push(s));
            assert(Seq::<Token>::empty().to_multiset().len() == 0);
            assert(Seq::<Token>::empty().to_multiset() =~= Multiset::<Token>::empty());
        },
        KindView::Group { children, mode, .. } => {
            if !group_on(ready, coin, pos) {
                assert(Seq::<Token>::empty().to_multiset().len() == 0);
            } else {
                match mode {
                    GroupMode::And => {
                        lemma_children_drawn_in_list(children, ready, coin, pick, pos + 1, tok);
                    },
                    GroupMode::Or => {
                        match or_choice(children, ready, pick, pos) {
                            Some(i) => {
                                law_walk_draws_only_sequences(
                                    children[i],
                                    ready,
                                    coin,
                                    pick,
                                    pos + 1 + node_count_list(children.take(i)),
                                    tok,
                                );
                                lemma_child_tokens_in_list(children, i, tok);
                            },
                            None => {
                                assert(Seq::<Token>::empty().to_multiset().len() == 0);
                            },
                        }
                    },
                }
            }
        },
    }
}

proof fn lemma_children_drawn_in_list(
    cs: Seq<TrackView>,
    ready: Seq<bool>,
    coin: Seq<bool>,
    pick: Seq<Option<usize>>,
    start: int,
    tok: Token,
)
    ensures
        children_drawn(cs, ready, coin, pick, start).to_multiset().count(tok) <= seq_tokens_list(
            cs,
        ).count(tok),
    decreases cs,
{
    broadcast use vstd::multiset::group_multiset_axioms;

    if cs.len() == 0 {
        broadcast use vstd::seq_lib::to_multiset_len;
        assert(children_drawn(cs, ready, coin, pick, start).to_multiset().len() == 0);
    } else {
        let init = cs.drop_last();
        let off = start + node_count_list(init);
        lemma_children_drawn_in_list(init, ready, coin, pick, start, tok);
        law_walk_draws_only_sequences(cs.last(), ready, coin, pick, off, tok);
        vstd::seq_lib::lemma_multiset_commutative(
            children_drawn(init, ready, coin, pick, start),
            drawn_tokens(cs.last(), ready, coin, pick, off),
        );
    }
}

/// An Or group that walks its picked child draws only sequences below that
/// child.
pub proof fn law_or_group_draws_only_the_picked_child(
    t: TrackView,
    ready: Seq<bool>,
    coin: Seq<bool>,
    pick: Seq<Option<usize>>,
    pos: int,
    tok: Token,
)
    requires
        t.kind is Group,
        t.kind->mode == GroupMode::Or,
        or_choice(t.children(), ready, pick, pos) is Some,
    ensures
        drawn_tokens(t, ready, coin, pick, pos).to_multiset().count(tok) <= seq_tokens(
            t.children()[or_choice(t.children(), ready, pick, pos).unwrap()],
        ).count(tok),
{
    broadcast use vstd::multiset::group_multiset_axioms;

    let children = t.children();
    let i = or_choice(children, ready, pick, pos).unwrap();
    if group_on(ready, coin, pos) {
        law_walk_draws_only_sequences(
            children[i],
            ready,
            coin,
            pick,
            pos + 1 + node_count_list(children.take(i)),
            tok,
        );
    } else {
        broadcast use vstd::seq_lib::to_multiset_len;
        assert(drawn_tokens(t, ready, coin, pick, pos).to_multiset().len() == 0);
    }
}

proof fn lemma_children_drawn_has_child(
    cs: Seq<TrackView>,
    ready: Seq<bool>,
    coin: Seq<bool>,
    pick: Seq<Option<usize>>,
    start: int,
    j: int,
    tok: Token,
)
    requires
        0 <= j < cs.len(),
    ensures
        drawn_tokens(cs[j], ready, coin, pick, start + node_count_list(cs.take(j))).to_multiset().count(
            tok,
        ) <= children_drawn(cs, ready, coin, pick, start).to_multiset().count(tok),
    decreases cs.len(),
{
    broadcast use vstd::multiset::group_multiset_axioms;

    let init = cs.drop_last();
    let off = start + node_count_list(init);
    vstd::seq_lib::lemma_multiset_commutative(
        children_drawn(init, ready, coin, pick, start),
        drawn_tokens(cs.last(), ready, coin, pick, off),
    );
    if j == cs.len() - 1 {
        assert(cs.take(j) =~= init);
    } else {
        lemma_children_drawn_has_child(init, ready, coin, pick, start, j, tok);
        assert(init.take(j) =~= cs.take(j));
        assert(init[j] == cs[j]);
    }
}

/// An And group that takes part draws everything each of its children's
/// walks draws.
pub proof fn law_and_group_draws_every_child(
    t: TrackView,
    ready: Seq<bool>,
    coin: Seq<bool>,
    pick: Seq<Option<usize>>,
    pos: int,
    j: int,
    tok: Token,
)
    requires
        t.kind is Group,
        t.kind->mode == GroupMode::And,
        group_on(ready, coin, pos),
        0 <= j < t.children().len(),
    ensures
        drawn_tokens(
            t.children()[j],
            ready,
            coin,
            pick,
            pos + 1 + node_count_list(t.children().take(j)),
        ).to_multiset().count(tok) <= drawn_tokens(t, ready, coin, pick, pos).to_multiset().count(
            tok,
        ),
{
    lemma_children_drawn_has_child(t.children(), ready, coin, pick, pos + 1, j, tok);
}

// ---------------------------------------------------------------------------
// Tree drawing
// ---------------------------------------------------------------------------

proof fn lemma_prefix_concat(a: Seq<char>, b: Seq<char>, c: Seq<char>)
    requires
        a.is_prefix_of(b),
    ensures
        a.is_prefix_of(b + c),
{
    assert((b + c).subrange(0, a.len() as int) =~= b.subrange(0, a.len() as int));
}

proof fn lemma_prefix_front(x: Seq<char>, a: Seq<char>, b: Seq<char>)
    requires
        a.is_prefix_of(b),
    ensures
        (x + a).is_prefix_of(x + b),
{
    assert((x + b).subrange(0, (x + a).len() as int) =~= x + a);
}

/// The text of a group's children starts with their common prefix.
proof fn lemma_children_text_starts_with_prefix(
    cs: Seq<TrackView>,
    total: nat,
    labels: Seq<Seq<char>>,
    start: int,
    prefix: Seq<char>,
    ascii: bool,
)
    requires
        cs.len() > 0,
    ensures
        prefix.is_prefix_of(children_text(cs, total, labels, start, prefix, ascii)),
    decreases cs.len(),
{
    let init = cs.drop_last();
    let k = cs.len() - 1;
    let last = subtree_text(cs[k], labels, start + node_count_list(init), prefix, k + 1 == total, ascii);
    let conn = if k + 1 == total { elbow(ascii) } else { tee(ascii) };
    let line = prefix + conn + labels[start + node_count_list(init)] + "\n"@;
    assert(prefix.is_prefix_of(line)) by {
        assert(line.subrange(0, prefix.len() as int) =~= prefix);
    }
    assert(line.is_prefix_of(last)) by {
        match cs[k].kind {
            KindView::Group { .. } => {
                assert(last.subrange(0, line.len() as int) =~= line);
            },
            KindView::Sequence(_) => {
                assert(last =~= line);
            },
        }
    }
    assert(prefix.is_prefix_of(last)) by {
        assert(last.subrange(0, prefix.len() as int) =~= line.subrange(0, prefix.len() as int));
    }
    if init.len() == 0 {
        assert(children_text(init, total, labels, start, prefix, ascii) == Seq::<char>::empty());
        assert(children_text(cs, total, labels, start, prefix, ascii) =~= last);
    } else {
        lemma_children_text_starts_with_prefix(init, total, labels, start, prefix, ascii);
        lemma_prefix_concat(prefix, children_text(init, total, labels, start, prefix, ascii), last);
    }
}

/// Below a group drawn as the last child of its parent, the lines of its
/// children continue the parent's prefix with four spaces; below a group
/// that has a later sibling, with a vertical bar. The group's own line is
/// the prefix, the connector (an elbow for the last child, a tee
/// otherwise) and its label.
pub proof fn law_children_lines_continue_the_prefix(
    t: TrackView,
    labels: Seq<Seq<char>>,
    start: int,
    prefix: Seq<char>,
    is_last: bool,
    ascii: bool,
)
    requires
        t.kind is Group,
        t.children().len() > 0,
    ensures
        (prefix + (if is_last {
            if ascii {
                "'-- "@
            } else {
                "└── "@
            }
        } else {
            if ascii {
                "+-- "@
            } else {
                "├── "@
            }
        }) + labels[start] + "\n"@ + prefix + (if is_last {
            "    "@
        } else {
            if ascii {
                "|   "@
            } else {
                "│   "@
            }
        })).is_prefix_of(subtree_text(t, labels, start, prefix, is_last, ascii)),
{
    let children = t.children();
    let seg = if is_last { blank() } else { bar(ascii) };
    let conn = if is_last { elbow(ascii) } else { tee(ascii) };
    let line = prefix + conn + labels[start] + "\n"@;
    lemma_children_text_starts_with_prefix(
        children,
        children.len(),
        labels,
        start + 1,
        prefix + seg,
        ascii,
    );
    lemma_prefix_front(
        line,
        prefix + seg,
        children_text(children, children.len(), labels, start + 1, prefix + seg, ascii),
    );
    assert(line + (prefix + seg) =~= prefix + conn + labels[start] + "\n"@ + prefix + seg);
}

// ---------------------------------------------------------------------------
// Chord tension
// ---------------------------------------------------------------------------

/// Sum of the overlapping weights between `x` and the first `m` degrees of
/// `combo`.
pub open spec fn weights_against(combo: Seq<i32>, x: i32, harmoniser: [[u32; 7]; 2], m: int) -> int
    decreases m,
{
    if m <= 0 {
        0
    } else {
        weights_against(combo, x, harmoniser, m - 1) + tension2_by_overlap_spec(
            combo[m - 1],
            x,
            true,
            harmoniser,
        )
    }
}

/// Sum of the terms of the first `m` surrounding notes against degree `x`.
pub open spec fn terms_against(others: Seq<(i32, u32)>, x: i32, harmoniser: [[u32; 7]; 2], m: int) -> int
    decreases m,
{
    if m <= 0 {
        0
    } else {
        terms_against(others, x, harmoniser, m - 1) + family_term(
            others[m - 1].0,
            others[m - 1].1,
            x,
            harmoniser,
        )
    }
}

proof fn lemma_row_sum_push(
    n: i32,
    overlap: u32,
    combo: Seq<i32>,
    x: i32,
    harmoniser: [[u32; 7]; 2],
    m: int,
)
    requires
        m <= combo.len(),
    ensures
        row_sum(n, overlap, combo.push(x), harmoniser, m) == row_sum(n, overlap, combo, harmoniser, m),
    decreases m,
{
    if m > 0 {
        lemma_row_sum_push(n, overlap, combo, x, harmoniser, m - 1);
        assert(combo.push(x)[m - 1] == combo[m - 1]);
    }
}

proof fn lemma_cross_sum_push(
    others: Seq<(i32, u32)>,
    combo: Seq<i32>,
    x: i32,
    harmoniser: [[u32; 7]; 2],
    m: int,
)
    ensures
        cross_sum(others, combo.push(x), harmoniser, m) == cross_sum(others, combo, harmoniser, m)
            + terms_against(others, x, harmoniser, m),
    decreases m,
{
    if m > 0 {
        lemma_cross_sum_push(others, combo, x, harmoniser, m - 1);
        let c2 = combo.push(x);
        lemma_row_sum_push(others[m - 1].0, others[m - 1].1, combo, x, harmoniser, combo.len() as int);
        assert(c2[combo.len() as int] == x);
        assert(row_sum(others[m - 1].0, others[m - 1].1, c2, harmoniser, c2.len() as int) == row_sum(
            others[m - 1].0,
            others[m - 1].1,
            c2,
            harmoniser,
            combo.len() as int,
        ) + family_term(others[m - 1].0, others[m - 1].1, x, harmoniser));
    }
}

proof fn lemma_pair_row_push(combo: Seq<i32>, x: i32, harmoniser: [[u32; 7]; 2], i: int, m: int)
    requires
        0 <= i,
        m <= combo.len(),
    ensures
        pair_row(combo.push(x), harmoniser, i, m) == pair_row(combo, harmoniser, i, m),
    decreases m - i,
{
    if m > i + 1 {
        lemma_pair_row_push(combo, x, harmoniser, i, m - 1);
        assert(combo.push(x)[m - 1] == combo[m - 1]);
        assert(combo.push(x)[i] == combo[i]);
    }
}

proof fn lemma_pair_sum_push(combo: Seq<i32>, x: i32, harmoniser: [[u32; 7]; 2], m: int)
    requires
        m <= combo.len(),
    ensures
        pair_sum(combo.push(x), harmoniser, m) == pair_sum(combo, harmoniser, m) + weights_against(
            combo,
            x,
            harmoniser,
            m,
        ),
    decreases m,
{
    if m > 0 {
        lemma_pair_sum_push(combo, x, harmoniser, m - 1);
        let c2 = combo.push(x);
        let n = combo.len() as int;
        lemma_pair_row_push(combo, x, harmoniser, m - 1, n);
        assert(c2[n] == x);
        assert(c2[m - 1] == combo[m - 1]);
        assert(pair_row(c2, harmoniser, m - 1, n + 1) == pair_row(c2, harmoniser, m - 1, n)
            + tension2_by_overlap_spec(combo[m - 1], x, true, harmoniser));
    }
}

/// A chord without degrees has no tension.
pub proof fn law_tension_family_empty(others: Seq<(i32, u32)>, harmoniser: [[u32; 7]; 2])
    ensures
        tension_family_spec(others, Seq::empty(), harmoniser) == 0,
{
    lemma_cross_empty(others, harmoniser, others.len() as int);
}

proof fn lemma_cross_empty(others: Seq<(i32, u32)>, harmoniser: [[u32; 7]; 2], m: int)
    ensures
        cross_sum(others, Seq::empty(), harmoniser, m) == 0,
    decreases m,
{
    if m > 0 {
        lemma_cross_empty(others, harmoniser, m - 1);
    }
}

/// Adding a degree `x` to a chord adds its tension against every
/// surrounding note and against every degree already in the chord, each
/// pair counted once, whatever their positions.
pub proof fn law_tension_family_push(
    others: Seq<(i32, u32)>,
    combo: Seq<i32>,
    x: i32,
    harmoniser: [[u32; 7]; 2],
)
    ensures
        tension_family_spec(others, combo.push(x), harmoniser) == tension_family_spec(
            others,
            combo,
            harmoniser,
        ) + terms_against(others, x, harmoniser, others.len() as int) + weights_against(
            combo,
            x,
            harmoniser,
            combo.len() as int,
        ),
{
    let c2 = combo.push(x);
    let n = combo.len() as int;
    lemma_cross_sum_push(others, combo, x, harmoniser, others.len() as int);
    lemma_pair_sum_push(combo, x, harmoniser, n);
    assert(pair_row(c2, harmoniser, n, n + 1) == 0);
    assert(pair_sum(c2, harmoniser, n + 1) == pair_sum(c2, harmoniser, n) + pair_row(
        c2,
        harmoniser,
        n,
        n + 1,
    ));
}

} // verus!
