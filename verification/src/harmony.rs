//! Integer harmony: distances between tempered degrees, the tension of an
//! interval, melodic affinity, and the random walk of randomized tempered
//! intervals.
use vstd::prelude::*;
use crate::rng::choose_item;

verus! {

/// An interval above the base frequency.
#[derive(Debug, PartialEq, Eq)]
pub enum Interval {
    /// (degree, octave)
    Tempered(i32, i32),
    /// (number of random steps, step choices, octave)
    RDTempered(u32, Vec<i32>, i32),
}

/// The two intervals are equal: the same variant with the same numbers.
pub open spec fn same_interval(a: Interval, b: Interval) -> bool {
    match (a, b) {
        (Interval::Tempered(d1, o1), Interval::Tempered(d2, o2)) => d1 == d2 && o1 == o2,
        (Interval::RDTempered(n1, s1, o1), Interval::RDTempered(n2, s2, o2)) => n1 == n2 && s1@
            == s2@ && o1 == o2,
        _ => false,
    }
}

/// A copy of an interval.
pub fn copy_interval(interval: &Interval) -> (r: Interval)
    ensures
        same_interval(r, *interval),
{
    match interval {
        Interval::Tempered(degree, octave) => Interval::Tempered(*degree, *octave),
        Interval::RDTempered(n, steps, octave) => {
            let mut copy: Vec<i32> = Vec::new();
            let mut i: usize = 0;
            while i < steps.len()
                invariant
                    0 <= i <= steps.len(),
                    copy@ == steps@.take(i as int),
                decreases steps.len() - i,
            {
                copy.push(steps[i]);
                i = i + 1;
                proof {
                    assert(copy@ =~= steps@.take(i as int));
                }
            }
            proof {
                assert(steps@.take(i as int) =~= steps@);
                assert(copy@ == steps@);
            }
            Interval::RDTempered(*n, copy, *octave)
        },
    }
}

/// Glide targets of consecutive notes: each note but the last glides to the
/// interval of the note after it.
pub fn glide_targets(intervals: &Vec<Interval>) -> (r: Vec<Interval>)
    ensures
        r@.len() == if intervals@.len() > 0 {
            intervals@.len() - 1
        } else {
            0
        },
        forall|i: int| 0 <= i < r@.len() ==> same_interval(#[trigger] r@[i], intervals@[i + 1]),
{
    let mut out: Vec<Interval> = Vec::new();
    if intervals.len() == 0 {
        return out;
    }
    let mut i: usize = 0;
    while i + 1 < intervals.len()
        invariant
            0 <= i < intervals@.len(),
            out@.len() == i,
            forall|j: int| 0 <= j < i ==> same_interval(#[trigger] out@[j], intervals@[j + 1]),
        decreases intervals.len() - i,
    {
        out.push(copy_interval(&intervals[i + 1]));
        i = i + 1;
    }
    out
}

pub open spec fn abs_int(x: int) -> int {
    if x < 0 {
        -x
    } else {
        x
    }
}

/// Remainder of a truncating division, as Rust's `%` computes it.
pub open spec fn trunc_rem(x: int, m: int) -> int {
    if x >= 0 {
        x % m
    } else {
        -((-x) % m)
    }
}

/// Distance between two degrees on the circle of twelve semitones (0..=6).
pub open spec fn dist12_spec(n1: int, n2: int) -> int {
    let d = abs_int(n1 - n2) % 12;
    if d < 12 - d {
        d
    } else {
        12 - d
    }
}

/// Distance between two degrees on the circle of twelve semitones.
pub fn dist12(n1: i32, n2: i32) -> (r: i32)
    requires
        i32::MIN <= n1 - n2 <= i32::MAX,
    ensures
        r == dist12_spec(n1 as int, n2 as int),
        0 <= r <= 6,
{
    let d0 = (n1 - n2) % 12;
    let d = if d0 < 0 {
        -d0
    } else {
        d0
    };
    proof {
        let x = n1 - n2;
        if x < 0 {
            assert(d == (-x) % 12);
        }
    }
    if d < 12 - d {
        d
    } else {
        12 - d
    }
}

/// Tension between two degrees: the harmoniser's weight for their distance.
pub fn tension2(n1: i32, n2: i32, harmoniser: [u32; 7]) -> (r: u32)
    requires
        i32::MIN <= n1 - n2 <= i32::MAX,
    ensures
        r == harmoniser@[dist12_spec(n1 as int, n2 as int)],
{
    let d = dist12(n1, n2);
    harmoniser[d as usize]
}

/// Direction of the last melodic step: 1 up, -1 down, 0 none.
pub open spec fn direction(prev: i32, prev_prev: Option<i32>) -> int {
    match prev_prev {
        Some(v) => if prev > v {
            1
        } else if prev < v {
            -1
        } else {
            0
        },
        None => 0,
    }
}

/// Whether a note `n` after `prev` keeps the direction `dir`.
pub open spec fn keeps_direction(n: i32, prev: i32, dir: int) -> bool {
    (dir > 0 && n > prev) || (dir < 0 && n < prev)
}

/// Affinity of the first notes of `combo` following `prev`.
pub open spec fn affinity_sum(
    combo: Seq<i32>,
    prev: i32,
    dir: int,
    melodiser: Seq<i32>,
    order_affinity: i32,
) -> int
    decreases combo.len(),
{
    if combo.len() == 0 {
        0
    } else {
        let n = combo.last();
        affinity_sum(combo.drop_last(), prev, dir, melodiser, order_affinity)
            + melodiser[dist12_spec(prev as int, n as int)] + if keeps_direction(n, prev, dir) {
            order_affinity as int
        } else {
            0
        }
    }
}

/// Melodic affinity of the chord `combo` following the previous notes:
/// zero without a previous note, else the affinity of its notes following it
/// in the direction of the last step.
pub open spec fn melodic_affinity_spec(
    combo: Seq<i32>,
    prev_note: Option<i32>,
    prev_prev_note: Option<i32>,
    melodiser: Seq<i32>,
    order_affinity: i32,
) -> int {
    match prev_note {
        Some(p) => affinity_sum(combo, p, direction(p, prev_prev_note), melodiser, order_affinity),
        None => 0,
    }
}

/// Every running total of the affinity, step by step, fits in an `i32`.
pub open spec fn affinity_fits(
    combo: Seq<i32>,
    prev: i32,
    dir: int,
    melodiser: Seq<i32>,
    order_affinity: i32,
) -> bool {
    forall|k: int|
        #![trigger combo[k]]
        0 <= k < combo.len() ==> {
            let before = affinity_sum(combo.take(k), prev, dir, melodiser, order_affinity);
            let mid = before + melodiser[dist12_spec(prev as int, combo[k] as int)];
            &&& i32::MIN <= mid <= i32::MAX
            &&& i32::MIN <= affinity_sum(combo.take(k + 1), prev, dir, melodiser, order_affinity)
                <= i32::MAX
            &&& i32::MIN <= prev - combo[k] <= i32::MAX
        }
}

/// Melodic affinity of the chord `combo` following the previous notes:
/// for each note, the melodiser's weight for its distance to the previous
/// note, plus `order_affinity` when it keeps the direction of the last step.
/// Zero when there is no previous note.
pub fn melodic_affinity(
    combo: &[i32],
    prev_note: Option<i32>,
    prev_prev_note: Option<i32>,
    melodiser: [i32; 7],
    order_affinity: i32,
) -> (r: i32)
    requires
        prev_note matches Some(p) ==> affinity_fits(
            combo@,
            p,
            direction(p, prev_prev_note),
            melodiser@,
            order_affinity,
        ),
    ensures
        r == match prev_note {
            Some(p) => affinity_sum(
                combo@,
                p,
                direction(p, prev_prev_note),
                melodiser@,
                order_affinity,
            ),
            None => 0,
        },
        r == melodic_affinity_spec(combo@, prev_note, prev_prev_note, melodiser@, order_affinity),
{
    let prev = match prev_note {
        Some(p) => p,
        None => return 0,
    };
    let dir: i32 = match prev_prev_note {
        Some(v) => if prev > v {
            1
        } else if prev < v {
            -1
        } else {
            0
        },
        None => 0,
    };
    let ghost gdir = direction(prev, prev_prev_note);
    let mut total: i32 = 0;
    let mut i: usize = 0;
    proof {
        assert(combo@.take(0) =~= Seq::<i32>::empty());
    }
    while i < combo.len()
        invariant
            0 <= i <= combo.len(),
            dir == gdir,
            affinity_fits(combo@, prev, gdir, melodiser@, order_affinity),
            total == affinity_sum(combo@.take(i as int), prev, gdir, melodiser@, order_affinity),
        decreases combo.len() - i,
    {
        let n = combo[i];
        proof {
            assert(combo@.take(i + 1).drop_last() =~= combo@.take(i as int));
            assert(combo@.take(i + 1).last() == n);
        }
        let d = dist12(prev, n);
        total = total + melodiser[d as usize];
        let keeps = (dir > 0 && n > prev) || (dir < 0 && n < prev);
        if keeps {
            total = total + order_affinity;
        }
        i = i + 1;
    }
    proof {
        assert(combo@.take(combo.len() as int) =~= combo@);
    }
    total
}

pub open spec fn sum_i32(s: Seq<i32>) -> int
    decreases s.len(),
{
    if s.len() == 0 {
        0
    } else {
        sum_i32(s.drop_last()) + s.last()
    }
}

/// Every walk of `n_steps` steps taken from `steps`, starting at `seed`,
/// stays within `i32`.
pub open spec fn walk_fits(seed: i32, n_steps: u32, steps: Seq<i32>) -> bool {
    forall|i: int|
        0 <= i < steps.len() ==> abs_int(#[trigger] steps[i] as int) * n_steps + abs_int(seed as int)
            <= i32::MAX
}

/// Randomized tempered degree: starting at `seed`, take `n_steps` steps,
/// each one of `steps` picked at random, then reduce modulo 12 (with the
/// sign of the total, as `%` does).
pub fn random_walk_degree(
    seed: i32,
    n_steps: u32,
    steps: &[i32],
    rng: &mut rand::rngs::ThreadRng,
) -> (r: i32)
    requires
        n_steps > 0 ==> steps.len() > 0,
        walk_fits(seed, n_steps, steps@),
    ensures
        exists|walk: Seq<i32>|
            #![trigger sum_i32(walk)]
            walk.len() == n_steps && (forall|i: int| 0 <= i < walk.len() ==> steps@.contains(walk[i]))
                && r == trunc_rem(seed + sum_i32(walk), 12),
{
    let mut acc: i32 = seed;
    let mut k: u32 = 0;
    let ghost mut walk: Seq<i32> = Seq::empty();
    while k < n_steps
        invariant
            0 <= k <= n_steps,
            n_steps > 0 ==> steps.len() > 0,
            forall|i: int|
                0 <= i < steps.len() ==> abs_int(steps@[i] as int) * n_steps + abs_int(seed as int)
                    <= i32::MAX,
            walk.len() == k,
            forall|i: int| 0 <= i < walk.len() ==> steps@.contains(walk[i]),
            acc == seed + sum_i32(walk),
            abs_int(acc - seed) <= k * (if steps.len() > 0 { (i32::MAX - abs_int(seed as int)) / (n_steps as int) } else { 0 }),
        decreases n_steps - k,
    {
        let step = choose_item(steps, rng).unwrap();
        proof {
            let bound = (i32::MAX - abs_int(seed as int)) / (n_steps as int);
            let j = choose|j: int| 0 <= j < steps.len() && steps@[j] == step;
            assert(abs_int(step as int) * n_steps <= i32::MAX - abs_int(seed as int));
            assert(abs_int(step as int) <= bound) by (nonlinear_arith)
                requires
                    abs_int(step as int) * n_steps <= i32::MAX - abs_int(seed as int),
                    n_steps > 0,
                    bound == (i32::MAX - abs_int(seed as int)) / (n_steps as int),
            {
                vstd::arithmetic::div_mod::lemma_div_is_ordered(
                    abs_int(step as int) * n_steps,
                    i32::MAX - abs_int(seed as int),
                    n_steps as int,
                );
            }
            assert((k + 1) * bound <= n_steps * bound) by (nonlinear_arith)
                requires
                    k + 1 <= n_steps,
                    bound >= 0,
            ;
            assert(n_steps * bound <= i32::MAX - abs_int(seed as int)) by (nonlinear_arith)
                requires
                    bound == (i32::MAX - abs_int(seed as int)) / (n_steps as int),
                    n_steps > 0,
                    i32::MAX - abs_int(seed as int) >= 0,
            ;
            assert(k * bound + bound == (k + 1) * bound) by (nonlinear_arith);
        }
        acc = acc + step;
        proof {
            let w2 = walk.push(step);
            assert(w2.drop_last() =~= walk);
            walk = w2;
        }
        k = k + 1;
    }
    acc % 12
}

} // verus!
