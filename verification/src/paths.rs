//! Index paths into the track tree: prefixes, lexicographic order, and how a
//! path moves when a node is taken out of the tree.
use vstd::prelude::*;

verus! {

/// `a` is strictly greater than `b` in lexicographic order.
pub open spec fn lex_gt(a: Seq<usize>, b: Seq<usize>) -> bool
    decreases a.len(),
{
    if a.len() == 0 {
        false
    } else if b.len() == 0 {
        true
    } else if a[0] != b[0] {
        a[0] > b[0]
    } else {
        lex_gt(a.drop_first(), b.drop_first())
    }
}

/// Where the node at `path` stands once the node at `removed` has been taken
/// out: a later sibling of `removed`, or anything below one, moves up by one.
pub open spec fn adjusted(path: Seq<usize>, removed: Seq<usize>) -> Seq<usize> {
    if removed.len() == 0 {
        path
    } else {
        let d = removed.len() - 1;
        if path.len() <= d {
            path
        } else if path.subrange(0, d) != removed.subrange(0, d) {
            path
        } else if path[d] > removed[d] {
            path.update(d, (path[d] - 1) as usize)
        } else {
            path
        }
    }
}

/// Whether `prefix` is a prefix of `a`.
pub fn starts_with(a: &[usize], prefix: &[usize]) -> (r: bool)
    ensures
        r == prefix@.is_prefix_of(a@),
{
    if prefix.len() > a.len() {
        return false;
    }
    let mut i: usize = 0;
    while i < prefix.len()
        invariant
            prefix.len() <= a.len(),
            0 <= i <= prefix.len(),
            forall|j: int| 0 <= j < i ==> a@[j] == prefix@[j],
        decreases prefix.len() - i,
    {
        if a[i] != prefix[i] {
            proof {
                assert(a@.subrange(0, prefix@.len() as int)[i as int] != prefix@[i as int]);
            }
            return false;
        }
        i = i + 1;
    }
    proof {
        assert(prefix@ =~= a@.subrange(0, prefix@.len() as int));
    }
    true
}

/// Whether `a` comes strictly after `b` in lexicographic order.
pub fn path_lex_gt(a: &[usize], b: &[usize]) -> (r: bool)
    ensures
        r == lex_gt(a@, b@),
{
    let mut i: usize = 0;
    proof {
        assert(a@.skip(0) =~= a@);
        assert(b@.skip(0) =~= b@);
    }
    while i < a.len() && i < b.len()
        invariant
            0 <= i <= a.len(),
            i <= b.len(),
            forall|j: int| 0 <= j < i ==> a@[j] == b@[j],
            lex_gt(a@, b@) == lex_gt(a@.skip(i as int), b@.skip(i as int)),
        decreases a.len() - i,
    {
        proof {
            assert(a@.skip(i as int)[0] == a@[i as int]);
            assert(b@.skip(i as int)[0] == b@[i as int]);
            assert(a@.skip(i as int).drop_first() =~= a@.skip(i + 1));
            assert(b@.skip(i as int).drop_first() =~= b@.skip(i + 1));
        }
        if a[i] != b[i] {
            return a[i] > b[i];
        }
        i = i + 1;
    }
    proof {
        assert(a@.skip(i as int).len() == a@.len() - i);
        assert(b@.skip(i as int).len() == b@.len() - i);
    }
    i < a.len()
}

/// The first `end` entries of `path`, as a new vector.
pub fn prefix_vec(path: &[usize], end: usize) -> (r: Vec<usize>)
    requires
        end <= path.len(),
    ensures
        r@ == path@.subrange(0, end as int),
{
    let mut r: Vec<usize> = Vec::new();
    let mut i: usize = 0;
    while i < end
        invariant
            0 <= i <= end,
            end <= path.len(),
            r@ == path@.subrange(0, i as int),
        decreases end - i,
    {
        r.push(path[i]);
        i = i + 1;
        proof {
            assert(r@ =~= path@.subrange(0, i as int));
        }
    }
    r
}

/// Adjust `path` for the removal of the node at `removed`, so that it keeps
/// pointing at the same node.
pub fn adjust_path_for_removal(path: &mut Vec<usize>, removed: &[usize])
    ensures
        final(path)@ == adjusted(old(path)@, removed@),
{
    if removed.len() == 0 {
        return;
    }
    let parent_depth = removed.len() - 1;
    if path.len() <= parent_depth {
        return;
    }
    let mut i: usize = 0;
    while i < parent_depth
        invariant
            0 <= i <= parent_depth,
            parent_depth == removed.len() - 1,
            parent_depth < path.len(),
            path@ == old(path)@,
            forall|j: int| 0 <= j < i ==> path@[j] == removed@[j],
        decreases parent_depth - i,
    {
        if path[i] != removed[i] {
            proof {
                assert(path@.subrange(0, parent_depth as int)[i as int] != removed@.subrange(
                    0,
                    parent_depth as int,
                )[i as int]);
            }
            return;
        }
        i = i + 1;
    }
    proof {
        assert(path@.subrange(0, parent_depth as int) =~= removed@.subrange(
            0,
            parent_depth as int,
        ));
    }
    if path[parent_depth] > removed[parent_depth] {
        let v = path[parent_depth] - 1;
        path.set(parent_depth, v);
    }
}

/// Index of the first entry of `s` that satisfies `pred`.
pub open spec fn first_index(s: Seq<Seq<usize>>, pred: spec_fn(Seq<usize>) -> bool) -> Option<int>
    decreases s.len(),
{
    if s.len() == 0 {
        None
    } else if pred(s[0]) {
        Some(0)
    } else {
        match first_index(s.drop_first(), pred) {
            Some(i) => Some(i + 1),
            None => None,
        }
    }
}

pub proof fn lemma_first_index(s: Seq<Seq<usize>>, pred: spec_fn(Seq<usize>) -> bool)
    ensures
        first_index(s, pred) matches Some(i) ==> 0 <= i < s.len() && pred(s[i]) && forall|j: int|
            0 <= j < i ==> !pred(#[trigger] s[j]),
        first_index(s, pred) is None ==> forall|j: int| 0 <= j < s.len() ==> !pred(#[trigger] s[j]),
    decreases s.len(),
{
    if s.len() > 0 && !pred(s[0]) {
        lemma_first_index(s.drop_first(), pred);
        assert forall|j: int| 1 <= j < s.len() implies s[j] == s.drop_first()[j - 1] by {}
    }
}

/// Where regeneration starts after the node at `path` was edited, given the
/// paths of all sequences in preorder: at the sequence `path` itself, else
/// at the first sequence inside it, else at the first sequence after it.
pub open spec fn regeneration_start_spec(paths: Seq<Seq<usize>>, path: Seq<usize>) -> Option<int> {
    match first_index(paths, equal_to(path)) {
        Some(i) => Some(i),
        None => match first_index(paths, inside_of(path)) {
            Some(i) => Some(i),
            None => first_index(paths, after(path)),
        },
    }
}

pub open spec fn equal_to(path: Seq<usize>) -> spec_fn(Seq<usize>) -> bool {
    |p: Seq<usize>| p == path
}

pub open spec fn inside_of(path: Seq<usize>) -> spec_fn(Seq<usize>) -> bool {
    |p: Seq<usize>| path.is_prefix_of(p)
}

pub open spec fn after(path: Seq<usize>) -> spec_fn(Seq<usize>) -> bool {
    |p: Seq<usize>| lex_gt(p, path)
}

fn slices_equal(a: &[usize], b: &[usize]) -> (r: bool)
    ensures
        r == (a@ == b@),
{
    if a.len() != b.len() {
        return false;
    }
    let r = starts_with(a, b);
    proof {
        if r {
            assert(a@ =~= b@);
        }
    }
    r
}

/// Index into `seq_paths` of the first sequence to regenerate after the node
/// at `path` was replaced (see [`regeneration_start_spec`]).
pub fn regeneration_start(seq_paths: &Vec<Vec<usize>>, path: &[usize]) -> (r: Option<usize>)
    ensures
        (match r {
            Some(i) => Some(i as int),
            None => None,
        }) == regeneration_start_spec(seq_paths@.map_values(|p: Vec<usize>| p@), path@),
{
    let ghost ps = seq_paths@.map_values(|p: Vec<usize>| p@);
    let ghost eq_pred = equal_to(path@);
    let ghost in_pred = inside_of(path@);
    let ghost gt_pred = after(path@);
    proof {
        lemma_first_index(ps, eq_pred);
        lemma_first_index(ps, in_pred);
        lemma_first_index(ps, gt_pred);
    }
    let mut i: usize = 0;
    while i < seq_paths.len()
        invariant
            0 <= i <= seq_paths.len(),
            ps == seq_paths@.map_values(|p: Vec<usize>| p@),
            eq_pred == equal_to(path@),
            in_pred == inside_of(path@),
            gt_pred == after(path@),
            forall|j: int| 0 <= j < i ==> !eq_pred(#[trigger] ps[j]),
        decreases seq_paths.len() - i,
    {
        proof {
            assert(ps[i as int] == seq_paths@[i as int]@);
        }
        if slices_equal(seq_paths[i].as_slice(), path) {
            proof {
                lemma_first_index(ps, eq_pred);
                lemma_first_index(ps, in_pred);
                lemma_first_index(ps, gt_pred);
            }
            return Some(i);
        }
        i = i + 1;
    }
    let mut i: usize = 0;
    while i < seq_paths.len()
        invariant
            0 <= i <= seq_paths.len(),
            ps == seq_paths@.map_values(|p: Vec<usize>| p@),
            eq_pred == equal_to(path@),
            in_pred == inside_of(path@),
            gt_pred == after(path@),
            first_index(ps, eq_pred) is None,
            forall|j: int| 0 <= j < i ==> !in_pred(#[trigger] ps[j]),
        decreases seq_paths.len() - i,
    {
        proof {
            assert(ps[i as int] == seq_paths@[i as int]@);
        }
        if starts_with(seq_paths[i].as_slice(), path) {
            proof {
                lemma_first_index(ps, eq_pred);
                lemma_first_index(ps, in_pred);
                lemma_first_index(ps, gt_pred);
            }
            return Some(i);
        }
        i = i + 1;
    }
    let mut i: usize = 0;
    while i < seq_paths.len()
        invariant
            0 <= i <= seq_paths.len(),
            ps == seq_paths@.map_values(|p: Vec<usize>| p@),
            eq_pred == equal_to(path@),
            in_pred == inside_of(path@),
            gt_pred == after(path@),
            first_index(ps, eq_pred) is None,
            first_index(ps, in_pred) is None,
            forall|j: int| 0 <= j < i ==> !gt_pred(#[trigger] ps[j]),
        decreases seq_paths.len() - i,
    {
        proof {
            assert(ps[i as int] == seq_paths@[i as int]@);
        }
        if path_lex_gt(seq_paths[i].as_slice(), path) {
            proof {
                lemma_first_index(ps, eq_pred);
                lemma_first_index(ps, in_pred);
                lemma_first_index(ps, gt_pred);
            }
            return Some(i);
        }
        i = i + 1;
    }
    proof {
        lemma_first_index(ps, gt_pred);
        if first_index(ps, gt_pred) is Some {
            let k = first_index(ps, gt_pred).unwrap();
            assert(!gt_pred(ps[k]));
        }
    }
    None
}

} // verus!
