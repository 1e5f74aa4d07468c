//! Chord choice: the tension of candidate degrees against the notes around
//! them, and the search for the least tense chord among all combinations of
//! tempered degrees.
use vstd::prelude::*;
use itertools::Itertools;
use crate::harmony::{dist12, dist12_spec, trunc_rem, sum_i32, random_walk_degree, walk_fits};
use crate::rng::{choose_item, gen_range_inclusive};

verus! {

/// Lowest candidate degree of a chord.
pub const LOWEST_DEGREE: i32 = -11;

/// One past the highest candidate degree of a chord.
pub const DEGREE_END: i32 = 12;

/// The harmoniser's weight for a distance: the first row for overlapping
/// notes, the second for the others.
pub open spec fn overlap_weight(harmoniser: [[u32; 7]; 2], overlap: bool, d: int) -> int {
    if overlap {
        harmoniser@[0]@[d] as int
    } else {
        harmoniser@[1]@[d] as int
    }
}

pub open spec fn tension2_by_overlap_spec(
    n1: i32,
    n2: i32,
    overlap: bool,
    harmoniser: [[u32; 7]; 2],
) -> int {
    overlap_weight(harmoniser, overlap, dist12_spec(n1 as int, n2 as int))
}

/// Tension between two degrees, weighted by whether the notes overlap.
pub fn tension2_by_overlap(n1: i32, n2: i32, overlap: bool, harmoniser: [[u32; 7]; 2]) -> (r: u32)
    requires
        i32::MIN <= n1 - n2 <= i32::MAX,
    ensures
        r == tension2_by_overlap_spec(n1, n2, overlap, harmoniser),
{
    let d = dist12(n1, n2);
    if overlap {
        harmoniser[0][d as usize]
    } else {
        harmoniser[1][d as usize]
    }
}

/// Sum of the tensions between `d` and the first `m` notes of `ns`.
pub open spec fn tension_sum(ns: Seq<(i32, bool)>, d: i32, harmoniser: [[u32; 7]; 2], m: int) -> int
    decreases m,
{
    if m <= 0 {
        0
    } else {
        tension_sum(ns, d, harmoniser, m - 1) + tension2_by_overlap_spec(
            ns[m - 1].0,
            d,
            ns[m - 1].1,
            harmoniser,
        )
    }
}

proof fn lemma_tension_sum_mono(ns: Seq<(i32, bool)>, d: i32, harmoniser: [[u32; 7]; 2], a: int, b: int)
    requires
        0 <= a <= b,
    ensures
        0 <= tension_sum(ns, d, harmoniser, a) <= tension_sum(ns, d, harmoniser, b),
    decreases b,
{
    if a < b {
        lemma_tension_sum_mono(ns, d, harmoniser, a, b - 1);
    } else if a > 0 {
        lemma_tension_sum_mono(ns, d, harmoniser, a - 1, a - 1);
    }
}

/// Total tension of degree `d` against the notes `ns`, each given with
/// whether it overlaps.
pub fn tension(ns: &[(i32, bool)], d: i32, harmoniser: [[u32; 7]; 2]) -> (r: u32)
    requires
        forall|i: int| 0 <= i < ns@.len() ==> i32::MIN <= #[trigger] ns@[i].0 - d <= i32::MAX,
        tension_sum(ns@, d, harmoniser, ns@.len() as int) <= u32::MAX,
    ensures
        r == tension_sum(ns@, d, harmoniser, ns@.len() as int),
{
    let mut total: u32 = 0;
    let mut i: usize = 0;
    while i < ns.len()
        invariant
            0 <= i <= ns.len(),
            forall|k: int| 0 <= k < ns@.len() ==> i32::MIN <= #[trigger] ns@[k].0 - d <= i32::MAX,
            tension_sum(ns@, d, harmoniser, ns@.len() as int) <= u32::MAX,
            total == tension_sum(ns@, d, harmoniser, i as int),
        decreases ns.len() - i,
    {
        let (n, overlap) = ns[i];
        proof {
            assert(i32::MIN <= ns@[i as int].0 - d <= i32::MAX);
            lemma_tension_sum_mono(ns@, d, harmoniser, i + 1, ns@.len() as int);
        }
        let t = tension2_by_overlap(n, d, overlap, harmoniser);
        total = total + t;
        i = i + 1;
    }
    total
}

/// Tension of a candidate degree `d` against a surrounding note `n` whose
/// overlap weight is `overlap`: the overlapping weight, scaled by sixteen and
/// divided by one more than the overlap.
pub open spec fn family_term(n: i32, overlap: u32, d: i32, harmoniser: [[u32; 7]; 2]) -> int {
    (16 * tension2_by_overlap_spec(n, d, true, harmoniser)) / (overlap + 1)
}

/// Sum of the terms of note `(n, overlap)` against the first `m` degrees of
/// `combo`.
pub open spec fn row_sum(
    n: i32,
    overlap: u32,
    combo: Seq<i32>,
    harmoniser: [[u32; 7]; 2],
    m: int,
) -> int
    decreases m,
{
    if m <= 0 {
        0
    } else {
        row_sum(n, overlap, combo, harmoniser, m - 1) + family_term(
            n,
            overlap,
            combo[m - 1],
            harmoniser,
        )
    }
}

/// Sum of the rows of the first `m` surrounding notes.
pub open spec fn cross_sum(
    others: Seq<(i32, u32)>,
    combo: Seq<i32>,
    harmoniser: [[u32; 7]; 2],
    m: int,
) -> int
    decreases m,
{
    if m <= 0 {
        0
    } else {
        cross_sum(others, combo, harmoniser, m - 1) + row_sum(
            others[m - 1].0,
            others[m - 1].1,
            combo,
            harmoniser,
            combo.len() as int,
        )
    }
}

/// Tension between degree `i` of `combo` and its degrees `i + 1 .. m`.
pub open spec fn pair_row(combo: Seq<i32>, harmoniser: [[u32; 7]; 2], i: int, m: int) -> int
    decreases m - i,
{
    if m <= i + 1 {
        0
    } else {
        pair_row(combo, harmoniser, i, m - 1) + tension2_by_overlap_spec(
            combo[i],
            combo[m - 1],
            true,
            harmoniser,
        )
    }
}

/// Tension among the pairs of `combo` whose first degree is below `m`.
pub open spec fn pair_sum(combo: Seq<i32>, harmoniser: [[u32; 7]; 2], m: int) -> int
    decreases m,
{
    if m <= 0 {
        0
    } else {
        pair_sum(combo, harmoniser, m - 1) + pair_row(combo, harmoniser, m - 1, combo.len() as int)
    }
}

/// Tension of a chord `combo` in its surroundings: each of its degrees
/// against each surrounding note, plus each pair of its own degrees.
pub open spec fn tension_family_spec(
    others: Seq<(i32, u32)>,
    combo: Seq<i32>,
    harmoniser: [[u32; 7]; 2],
) -> int {
    cross_sum(others, combo, harmoniser, others.len() as int) + pair_sum(
        combo,
        harmoniser,
        combo.len() as int,
    )
}

/// The inputs on which [`tension_family`] computes without overflow: the
/// differences of degrees fit an `i32`, sixteen times each weight in use
/// fits a `u32`, each overlap leaves room for one more, and the total fits.
pub open spec fn tension_family_fits(
    others: Seq<(i32, u32)>,
    combo: Seq<i32>,
    harmoniser: [[u32; 7]; 2],
) -> bool {
    &&& forall|i: int, j: int|
        #![trigger others[i], combo[j]]
        0 <= i < others.len() && 0 <= j < combo.len() ==> {
            &&& i32::MIN <= others[i].0 - combo[j] <= i32::MAX
            &&& 16 * tension2_by_overlap_spec(others[i].0, combo[j], true, harmoniser) <= u32::MAX
            &&& others[i].1 < u32::MAX
        }
    &&& forall|i: int, j: int|
        #![trigger combo[i], combo[j]]
        0 <= i < j < combo.len() ==> i32::MIN <= combo[i] - combo[j] <= i32::MAX
    &&& tension_family_spec(others, combo, harmoniser) <= u32::MAX
}

proof fn lemma_row_sum_mono(
    n: i32,
    overlap: u32,
    combo: Seq<i32>,
    harmoniser: [[u32; 7]; 2],
    a: int,
    b: int,
)
    requires
        0 <= a <= b,
    ensures
        0 <= row_sum(n, overlap, combo, harmoniser, a) <= row_sum(n, overlap, combo, harmoniser, b),
    decreases b,
{
    if a < b {
        lemma_row_sum_mono(n, overlap, combo, harmoniser, a, b - 1);
    } else if a > 0 {
        lemma_row_sum_mono(n, overlap, combo, harmoniser, a - 1, a - 1);
    }
}

proof fn lemma_cross_sum_mono(
    others: Seq<(i32, u32)>,
    combo: Seq<i32>,
    harmoniser: [[u32; 7]; 2],
    a: int,
    b: int,
)
    requires
        0 <= a <= b,
    ensures
        0 <= cross_sum(others, combo, harmoniser, a) <= cross_sum(others, combo, harmoniser, b),
    decreases b,
{
    if a < b {
        lemma_cross_sum_mono(others, combo, harmoniser, a, b - 1);
        lemma_row_sum_mono(
            others[b - 1].0,
            others[b - 1].1,
            combo,
            harmoniser,
            0,
            combo.len() as int,
        );
    } else if a > 0 {
        lemma_cross_sum_mono(others, combo, harmoniser, a - 1, a - 1);
        lemma_row_sum_mono(
            others[a - 1].0,
            others[a - 1].1,
            combo,
            harmoniser,
            0,
            combo.len() as int,
        );
    }
}

proof fn lemma_pair_row_mono(combo: Seq<i32>, harmoniser: [[u32; 7]; 2], i: int, a: int, b: int)
    requires
        a <= b,
    ensures
        0 <= pair_row(combo, harmoniser, i, a) <= pair_row(combo, harmoniser, i, b),
    decreases b - a,
{
    if a < b {
        lemma_pair_row_mono(combo, harmoniser, i, a, b - 1);
    } else {
        lemma_pair_row_nonneg(combo, harmoniser, i, a);
    }
}

proof fn lemma_pair_row_nonneg(combo: Seq<i32>, harmoniser: [[u32; 7]; 2], i: int, m: int)
    ensures
        0 <= pair_row(combo, harmoniser, i, m),
    decreases m - i,
{
    if m > i + 1 {
        lemma_pair_row_nonneg(combo, harmoniser, i, m - 1);
    }
}

proof fn lemma_pair_sum_mono(combo: Seq<i32>, harmoniser: [[u32; 7]; 2], a: int, b: int)
    requires
        0 <= a <= b,
    ensures
        0 <= pair_sum(combo, harmoniser, a) <= pair_sum(combo, harmoniser, b),
    decreases b,
{
    if a < b {
        lemma_pair_sum_mono(combo, harmoniser, a, b - 1);
        lemma_pair_row_nonneg(combo, harmoniser, b - 1, combo.len() as int);
    } else if a > 0 {
        lemma_pair_sum_mono(combo, harmoniser, a - 1, a - 1);
        lemma_pair_row_nonneg(combo, harmoniser, a - 1, combo.len() as int);
    }
}

/// Tension of the chord `combo` among the surrounding notes `others`, each
/// given with its overlap weight.
pub fn tension_family(others: &[(i32, u32)], combo: &[i32], harmoniser: [[u32; 7]; 2]) -> (r: u32)
    requires
        tension_family_fits(others@, combo@, harmoniser),
    ensures
        r == tension_family_spec(others@, combo@, harmoniser),
{
    let ghost total_spec = tension_family_spec(others@, combo@, harmoniser);
    let ghost cross_full = cross_sum(others@, combo@, harmoniser, others@.len() as int);
    proof {
        lemma_pair_sum_mono(combo@, harmoniser, 0, combo@.len() as int);
    }
    let mut total: u32 = 0;
    let mut i: usize = 0;
    while i < others.len()
        invariant
            0 <= i <= others.len(),
            tension_family_fits(others@, combo@, harmoniser),
            total_spec == tension_family_spec(others@, combo@, harmoniser),
            cross_full == cross_sum(others@, combo@, harmoniser, others@.len() as int),
            cross_full <= total_spec,
            total == cross_sum(others@, combo@, harmoniser, i as int),
        decreases others.len() - i,
    {
        let (n, overlap) = others[i];
        proof {
            lemma_cross_sum_mono(others@, combo@, harmoniser, i + 1, others@.len() as int);
        }
        let mut row: u32 = 0;
        let mut j: usize = 0;
        while j < combo.len()
            invariant
                0 <= i < others.len(),
                0 <= j <= combo.len(),
                n == others@[i as int].0,
                overlap == others@[i as int].1,
                tension_family_fits(others@, combo@, harmoniser),
                cross_sum(others@, combo@, harmoniser, i + 1) <= total_spec,
                total == cross_sum(others@, combo@, harmoniser, i as int),
                total_spec <= u32::MAX,
                row == row_sum(n, overlap, combo@, harmoniser, j as int),
            decreases combo.len() - j,
        {
            let d = combo[j];
            proof {
                assert(others@[i as int] == (n, overlap));
                assert(combo@[j as int] == d);
                lemma_row_sum_mono(n, overlap, combo@, harmoniser, j + 1, combo@.len() as int);
                lemma_cross_sum_mono(others@, combo@, harmoniser, 0, i as int);
            }
            let t = tension2_by_overlap(n, d, true, harmoniser);
            let term = (16 * t) / (overlap + 1);
            row = row + term;
            j = j + 1;
        }
        total = total + row;
        i = i + 1;
    }
    let mut a: usize = 0;
    while a < combo.len()
        invariant
            0 <= a <= combo.len(),
            tension_family_fits(others@, combo@, harmoniser),
            total_spec == cross_full + pair_sum(combo@, harmoniser, combo@.len() as int),
            total_spec <= u32::MAX,
            total == cross_full + pair_sum(combo@, harmoniser, a as int),
            cross_full >= 0,
        decreases combo.len() - a,
    {
        let mut b: usize = a + 1;
        proof {
            lemma_pair_sum_mono(combo@, harmoniser, a + 1, combo@.len() as int);
        }
        while b < combo.len()
            invariant
                0 <= a < combo.len(),
                a + 1 <= b <= combo.len(),
                tension_family_fits(others@, combo@, harmoniser),
                total_spec <= u32::MAX,
                cross_full >= 0,
                cross_full + pair_sum(combo@, harmoniser, a + 1) <= total_spec,
                total == cross_full + pair_sum(combo@, harmoniser, a as int) + pair_row(
                    combo@,
                    harmoniser,
                    a as int,
                    b as int,
                ),
            decreases combo.len() - b,
        {
            proof {
                assert(i32::MIN <= combo@[a as int] - combo@[b as int] <= i32::MAX);
                lemma_pair_row_mono(combo@, harmoniser, a as int, b + 1, combo@.len() as int);
            }
            let t = tension2_by_overlap(combo[a], combo[b], true, harmoniser);
            total = total + t;
            b = b + 1;
        }
        a = a + 1;
    }
    total
}

/// The integers `lo..hi`, in increasing order.
pub open spec fn range_seq(lo: int, hi: int) -> Seq<i32> {
    Seq::new(if lo < hi { (hi - lo) as nat } else { 0 }, |i: int| (lo + i) as i32)
}

/// The `k`-element combinations of `s`, each keeping the order of `s`, in
/// lexicographic order of their positions in `s`: first those that take
/// `s[0]`, then those that skip it.
pub open spec fn combinations_spec(s: Seq<i32>, k: nat) -> Seq<Seq<i32>>
    decreases s.len(),
{
    if k == 0 {
        seq![Seq::<i32>::empty()]
    } else if s.len() == 0 {
        Seq::empty()
    } else {
        combinations_spec(s.drop_first(), (k - 1) as nat).map_values(
            |c: Seq<i32>| seq![s[0]] + c,
        ) + combinations_spec(s.drop_first(), k)
    }
}

proof fn lemma_combinations_shape(s: Seq<i32>, k: nat)
    ensures
        k <= s.len() ==> combinations_spec(s, k).len() > 0,
        forall|i: int|
            0 <= i < combinations_spec(s, k).len() ==> (#[trigger] combinations_spec(s, k)[i]).len()
                == k,
    decreases s.len(),
{
    if k > 0 && s.len() > 0 {
        let first = combinations_spec(s.drop_first(), (k - 1) as nat);
        let rest = combinations_spec(s.drop_first(), k);
        lemma_combinations_shape(s.drop_first(), (k - 1) as nat);
        lemma_combinations_shape(s.drop_first(), k);
        let mapped = first.map_values(|c: Seq<i32>| seq![s[0]] + c);
        assert forall|i: int| 0 <= i < (mapped + rest).len() implies #[trigger] (mapped
            + rest)[i].len() == k by {
            if i < mapped.len() {
                assert(mapped[i] == seq![s[0]] + first[i]);
            } else {
                assert((mapped + rest)[i] == rest[i - mapped.len()]);
            }
        }
    }
}

/// Calls `Itertools::combinations` on the range `lo..hi` and collects the
/// `k`-element combinations it yields. The contract states the order that
/// the crate's index stepping produces: the combinations of positions in
/// lexicographic order, as [`combinations_spec`] lists them (one empty
/// combination for `k == 0`, none when `k` exceeds the range's length).
#[verifier::external_body]
fn combinations_in_range(lo: i32, hi: i32, k: usize) -> (r: Vec<Vec<i32>>)
    ensures
        r@.len() == combinations_spec(range_seq(lo as int, hi as int), k as nat).len(),
        forall|i: int|
            0 <= i < r@.len() ==> (#[trigger] r@[i])@ == combinations_spec(
                range_seq(lo as int, hi as int),
                k as nat,
            )[i],
{
    (lo..hi).combinations(k).collect()
}

/// The candidate chords of `k` degrees: the `k`-element combinations of the
/// degrees `-11..12`.
pub open spec fn chord_candidates(k: nat) -> Seq<Seq<i32>> {
    combinations_spec(range_seq(LOWEST_DEGREE as int, DEGREE_END as int), k)
}

/// `chord` is the least tense candidate of `k` degrees, and the first of
/// them in the candidates' order when several are equally tense.
pub open spec fn is_best_chord(
    others: Seq<(i32, u32)>,
    k: nat,
    harmoniser: [[u32; 7]; 2],
    chord: Seq<i32>,
) -> bool {
    let cs = chord_candidates(k);
    exists|j: int|
        #![trigger cs[j]]
        0 <= j < cs.len() && chord == cs[j] && (forall|i: int|
            0 <= i < cs.len() ==> tension_family_spec(others, cs[j], harmoniser)
                <= #[trigger] tension_family_spec(others, cs[i], harmoniser)) && (forall|i: int|
            0 <= i < j ==> #[trigger] tension_family_spec(others, cs[i], harmoniser)
                > tension_family_spec(others, cs[j], harmoniser))
}

/// Every candidate chord of `k` degrees can be scored without overflow.
pub open spec fn candidates_fit(others: Seq<(i32, u32)>, k: nat, harmoniser: [[u32; 7]; 2]) -> bool {
    forall|i: int|
        0 <= i < chord_candidates(k).len() ==> tension_family_fits(
            others,
            #[trigger] chord_candidates(k)[i],
            harmoniser,
        )
}

/// The least tense chord of `k` degrees among the surrounding notes.
pub fn best_chord(others: &[(i32, u32)], k: usize, harmoniser: [[u32; 7]; 2]) -> (r: Vec<i32>)
    requires
        k <= (DEGREE_END - LOWEST_DEGREE) as usize,
        candidates_fit(others@, k as nat, harmoniser),
    ensures
        r@.len() == k,
        is_best_chord(others@, k as nat, harmoniser, r@),
{
    let ghost cs = chord_candidates(k as nat);
    let mut combos = combinations_in_range(LOWEST_DEGREE, DEGREE_END, k);
    proof {
        lemma_combinations_shape(range_seq(LOWEST_DEGREE as int, DEGREE_END as int), k as nat);
    }
    let mut best: usize = 0;
    proof {
        assert(combos@[0]@ == cs[0]);
        assert(tension_family_fits(others@, cs[0], harmoniser));
    }
    let mut best_key = tension_family(others, &combos[0], harmoniser);
    let mut i: usize = 1;
    while i < combos.len()
        invariant
            1 <= i <= combos.len(),
            combos@.len() == cs.len(),
            forall|m: int| 0 <= m < combos@.len() ==> (#[trigger] combos@[m])@ == cs[m],
            cs == chord_candidates(k as nat),
            candidates_fit(others@, k as nat, harmoniser),
            0 <= best < i,
            best_key == tension_family_spec(others@, cs[best as int], harmoniser),
            forall|m: int|
                0 <= m < i ==> best_key <= #[trigger] tension_family_spec(others@, cs[m], harmoniser),
            forall|m: int|
                0 <= m < best ==> #[trigger] tension_family_spec(others@, cs[m], harmoniser)
                    > best_key,
        decreases combos.len() - i,
    {
        proof {
            assert(combos@[i as int]@ == cs[i as int]);
            assert(tension_family_fits(others@, cs[i as int], harmoniser));
        }
        let key = tension_family(others, &combos[i], harmoniser);
        if key < best_key {
            best = i;
            best_key = key;
        }
        i = i + 1;
    }
    let ghost b = best as int;
    proof {
        assert(combos@[b]@ == cs[b]);
        assert(cs[b].len() == k);
    }
    let r = combos.swap_remove(best);
    proof {
        assert(r@ == cs[b]);
        assert(is_best_chord(others@, k as nat, harmoniser, r@)) by {
            assert(0 <= b < cs.len() && r@ == cs[b]);
        }
    }
    r
}

/// `seed` is where a random walk may start among the surrounding notes: one
/// of their degrees, or zero when there is none.
pub open spec fn seed_from(others: Seq<(i32, u32)>, seed: i32) -> bool {
    if others.len() == 0 {
        seed == 0
    } else {
        exists|j: int| 0 <= j < others.len() && #[trigger] others[j].0 == seed
    }
}

/// The degrees of a randomized tempered note. A random surrounding note
/// gives the seed; then either the least tense chord of `chord` degrees
/// (of a random size in `1..=chord` when `random_chord`) is taken, or,
/// without harmonisation, a single degree reached by a random walk of
/// `n_rd_steps` steps from `base` starting at the seed.
pub fn draw_degrees(
    others: &[(i32, u32)],
    harmonise: bool,
    chord: usize,
    random_chord: bool,
    n_rd_steps: u32,
    base: &[i32],
    harmoniser: [[u32; 7]; 2],
    rng: &mut rand::rngs::ThreadRng,
) -> (r: Vec<i32>)
    requires
        harmonise ==> chord <= (DEGREE_END - LOWEST_DEGREE) as usize,
        harmonise && random_chord ==> chord >= 1,
        harmonise ==> forall|k: nat|
            #![trigger candidates_fit(others@, k, harmoniser)]
            (if random_chord {
                1 <= k <= chord
            } else {
                k == chord
            }) ==> candidates_fit(others@, k, harmoniser),
        !harmonise ==> n_rd_steps > 0 ==> base@.len() > 0,
        !harmonise ==> forall|seed: i32|
            #![trigger seed_from(others@, seed)]
            seed_from(others@, seed) ==> walk_fits(seed, n_rd_steps, base@),
    ensures
        harmonise ==> if random_chord {
            1 <= r@.len() <= chord
        } else {
            r@.len() == chord
        },
        harmonise ==> is_best_chord(others@, r@.len() as nat, harmoniser, r@),
        !harmonise ==> r@.len() == 1,
        !harmonise ==> exists|seed: i32, walk: Seq<i32>|
            #![trigger seed_from(others@, seed), sum_i32(walk)]
            seed_from(others@, seed) && walk.len() == n_rd_steps && (forall|i: int|
                0 <= i < walk.len() ==> base@.contains(walk[i])) && r@[0] == trunc_rem(
                seed + sum_i32(walk),
                12,
            ),
{
    let seed = match choose_item(others, rng) {
        Some(picked) => picked.0,
        None => 0,
    };
    proof {
        if others@.len() > 0 {
            let p = choose|p: (i32, u32)| others@.contains(p) && p.0 == seed;
            let j = choose|j: int| 0 <= j < others@.len() && others@[j] == p;
            assert(others@[j].0 == seed);
        }
        assert(seed_from(others@, seed));
    }
    if harmonise {
        let k = if random_chord {
            gen_range_inclusive(rng, 1, chord)
        } else {
            chord
        };
        assert(candidates_fit(others@, k as nat, harmoniser));
        best_chord(others, k, harmoniser)
    } else {
        let d = random_walk_degree(seed, n_rd_steps, base, rng);
        let mut r: Vec<i32> = Vec::new();
        r.push(d);
        r
    }
}

} // verus!
