//! Parameter inheritance down the track tree: the override set on the
//! shallowest node of a path wins, and deeper nodes see it as locked.
use vstd::prelude::*;

verus! {

/// A resolved parameter and the depth of the node that provided it (`None`
/// when no node on the path overrides it).
pub struct ParamResolution<T> {
    pub value: T,
    pub source_depth: Option<usize>,
}

impl<T> ParamResolution<T> {
    /// The value was provided above `depth`, so a node at `depth` cannot
    /// change it.
    pub fn locked_for_depth(&self, depth: usize) -> (r: bool)
        ensures
            r == (self.source_depth matches Some(src) && src < depth),
    {
        match self.source_depth {
            Some(src) => src < depth,
            None => false,
        }
    }

    /// The value was provided by the node at `depth`.
    pub fn provided_here(&self, depth: usize) -> (r: bool)
        ensures
            r == (self.source_depth == Some(depth)),
    {
        match self.source_depth {
            Some(src) => src == depth,
            None => false,
        }
    }

    /// Fold in the override of the node at `depth` (nodes are folded from
    /// the root down): it is taken only if no shallower node provided one.
    pub fn with_override(self, over: Option<T>, depth: usize) -> (r: ParamResolution<T>)
        ensures
            r == (match (over, self.source_depth) {
                (Some(v), None) => ParamResolution { value: v, source_depth: Some(depth) },
                _ => self,
            }),
    {
        match (over, &self.source_depth) {
            (Some(v), None) => ParamResolution { value: v, source_depth: Some(depth) },
            _ => self,
        }
    }
}

/// Index of the first override in `chain`.
pub open spec fn first_override<T>(chain: Seq<Option<T>>) -> Option<int>
    decreases chain.len(),
{
    if chain.len() == 0 {
        None
    } else if chain[0] is Some {
        Some(0)
    } else {
        match first_override(chain.drop_first()) {
            Some(i) => Some(i + 1),
            None => None,
        }
    }
}

/// The resolution of a parameter along a chain of nodes (root first): the
/// first override, with its depth; otherwise `fallback` with no depth.
pub open spec fn resolve_spec<T>(chain: Seq<Option<T>>, fallback: T) -> ParamResolution<T> {
    match first_override(chain) {
        Some(i) => ParamResolution { value: chain[i].unwrap(), source_depth: Some(i as usize) },
        None => ParamResolution { value: fallback, source_depth: None },
    }
}

/// Folding the overrides of `chain` (root first) into `start` with
/// [`ParamResolution::with_override`].
pub open spec fn fold_overrides<T>(start: ParamResolution<T>, chain: Seq<Option<T>>) -> ParamResolution<T>
    decreases chain.len(),
{
    if chain.len() == 0 {
        start
    } else {
        let prev = fold_overrides(start, chain.drop_last());
        match (chain.last(), prev.source_depth) {
            (Some(v), None) => ParamResolution { value: v, source_depth: Some((chain.len() - 1) as usize) },
            _ => prev,
        }
    }
}

pub proof fn lemma_first_override<T>(chain: Seq<Option<T>>)
    ensures
        first_override(chain) matches Some(i) ==> 0 <= i < chain.len() && chain[i] is Some
            && forall|j: int| 0 <= j < i ==> #[trigger] chain[j] is None,
        first_override(chain) is None ==> forall|j: int| 0 <= j < chain.len() ==> #[trigger] chain[j] is None,
    decreases chain.len(),
{
    if chain.len() > 0 && chain[0] is None {
        lemma_first_override(chain.drop_first());
        assert forall|j: int| 1 <= j < chain.len() implies chain[j] == chain.drop_first()[j - 1] by {}
    }
}

/// Resolve a parameter along a chain of overrides, root first: the first
/// override wins and records its depth; without any, `fallback` is returned
/// with no depth.
pub fn resolve_param<T>(chain: Vec<Option<T>>, fallback: T) -> (r: ParamResolution<T>)
    requires
        chain.len() <= usize::MAX,
    ensures
        r == resolve_spec(chain@, fallback),
{
    let ghost c = chain@;
    proof {
        lemma_first_override(c);
    }
    let mut rest = chain;
    let mut i: usize = 0;
    let n = rest.len();
    let mut found: Option<T> = None;
    while i < n
        invariant
            0 <= i <= n,
            n == c.len(),
            c == chain@,
            rest@.len() == n - i,
            forall|j: int| 0 <= j < rest@.len() ==> rest@[j] == c[j + i],
            forall|j: int| 0 <= j < i ==> #[trigger] c[j] is None,
            found is None,
        decreases n - i,
    {
        let head = rest.remove(0);
        proof {
            assert(head == c[i as int]);
        }
        match head {
            Some(v) => {
                proof {
                    lemma_first_override(c);
                    assert(c[i as int] is Some);
                    match first_override(c) {
                        Some(k) => {
                            if k < i {
                                assert(c[k] is None);
                            } else if k > i {
                                assert(c[i as int] is None);
                            }
                            assert(k == i);
                        },
                        None => {
                            assert(c[i as int] is None);
                        },
                    }
                }
                return ParamResolution { value: v, source_depth: Some(i) };
            },
            None => {
                proof {
                    assert forall|j: int| 0 <= j < rest@.len() implies rest@[j] == c[j + i + 1] by {}
                }
            },
        }
        i = i + 1;
    }
    proof {
        lemma_first_override(c);
    }
    ParamResolution { value: fallback, source_depth: None }
}

} // verus!
