//! Rhythm: which steps of a loop carry a note. Inclusion generators pick the
//! steps whose index (shifted by the beat offset) they divide; exclusion
//! generators drop the steps whose successor they divide.
use vstd::prelude::*;
use crate::rng::sample_indices;

verus! {

/// `amount` generators drawn at random from `1..=length` (plus a shift).
pub struct RdRythm {
    pub amount: usize,
    pub length: usize,
}

/// Fixed generators.
pub struct DetRythm {
    pub generators: Vec<usize>,
}

pub enum Rythm {
    Rd(RdRythm),
    Det(DetRythm),
}

impl RdRythm {
    pub fn default() -> (r: RdRythm)
        ensures
            r.amount == 5 && r.length == 10,
    {
        RdRythm { amount: 5, length: 10 }
    }
}

impl DetRythm {
    pub fn default() -> (r: DetRythm)
        ensures
            r.generators@.len() == 0,
    {
        DetRythm { generators: Vec::new() }
    }
}

/// Generators that can divide a step index: each in `1..=i32::MAX`. Step
/// indices are `i32`, and a generator is brought to that type before the
/// division; a larger one would wrap to another divisor (to zero, which
/// panics, or to a negative number), so only generators that keep their
/// value are taken. Random generators never exceed their length plus two.
pub open spec fn generators_valid(gs: Seq<usize>) -> bool {
    forall|i: int| 0 <= i < gs.len() ==> 1 <= #[trigger] gs[i] <= i32::MAX
}

/// Some generator divides `x` (remainder zero, as `%` computes it).
pub open spec fn divided_by_any(x: int, gs: Seq<usize>) -> bool {
    exists|i: int| 0 <= i < gs.len() && #[trigger] (x % (gs[i] as int)) == 0
}

/// Step `step` carries a note: an inclusion generator divides
/// `step - beat_offset` and no exclusion generator divides
/// `step + 1 - beat_offset`.
pub open spec fn step_selected_spec(
    step: int,
    beat_offset: int,
    inclusions: Seq<usize>,
    exclusions: Seq<usize>,
) -> bool {
    divided_by_any(step - beat_offset, inclusions) && !divided_by_any(
        step + 1 - beat_offset,
        exclusions,
    )
}

proof fn lemma_neg_mod_zero(x: int, g: int)
    requires
        g > 0,
    ensures
        ((-x) % g == 0) == (x % g == 0),
{
    let a = -x;
    vstd::arithmetic::div_mod::lemma_fundamental_div_mod(a, g);
    vstd::arithmetic::div_mod::lemma_fundamental_div_mod(x, g);
    if a % g == 0 {
        let q = a / g;
        assert(x == (-q) * g) by (nonlinear_arith)
            requires
                a == g * q,
                x == -a,
        ;
        vstd::arithmetic::div_mod::lemma_mod_multiples_basic(-q, g);
    }
    if x % g == 0 {
        let q = x / g;
        assert(a == (-q) * g) by (nonlinear_arith)
            requires
                x == g * q,
                a == -x,
        ;
        vstd::arithmetic::div_mod::lemma_mod_multiples_basic(-q, g);
    }
}

fn any_divides(x: i32, gs: &[usize]) -> (r: bool)
    requires
        generators_valid(gs@),
    ensures
        r == divided_by_any(x as int, gs@),
{
    let mut i: usize = 0;
    while i < gs.len()
        invariant
            0 <= i <= gs.len(),
            generators_valid(gs@),
            forall|j: int| 0 <= j < i ==> #[trigger] (x as int % (gs@[j] as int)) != 0,
        decreases gs.len() - i,
    {
        let g = gs[i] as i32;
        proof {
            assert(1 <= gs@[i as int] <= i32::MAX);
            assert(g as int == gs@[i as int] as int);
        }
        let rem = x % g;
        proof {
            if x >= 0 {
                assert(rem == x as int % (g as int));
            } else {
                assert(rem == -((-(x as int)) % (g as int)));
                lemma_neg_mod_zero(x as int, g as int);
            }
        }
        if rem == 0 {
            return true;
        }
        i = i + 1;
    }
    false
}

/// Whether step `step` carries a note.
pub fn step_selected(step: i32, beat_offset: i32, inclusions: &[usize], exclusions: &[usize]) -> (r:
    bool)
    requires
        generators_valid(inclusions@),
        generators_valid(exclusions@),
        i32::MIN <= step - beat_offset,
        step < i32::MAX,
        step + 1 - beat_offset <= i32::MAX,
    ensures
        r == step_selected_spec(step as int, beat_offset as int, inclusions@, exclusions@),
{
    if !any_divides(step - beat_offset, inclusions) {
        return false;
    }
    !any_divides(step + 1 - beat_offset, exclusions)
}

/// Indices `0..n_steps` (at most the indices that fit an `i32`) of the
/// steps that carry a note, in increasing order.
pub open spec fn selected_steps_spec(
    n_steps: int,
    beat_offset: int,
    inclusions: Seq<usize>,
    exclusions: Seq<usize>,
) -> Seq<usize>
    decreases n_steps,
{
    if n_steps <= 0 {
        Seq::empty()
    } else {
        let k = n_steps - 1;
        let before = selected_steps_spec(k, beat_offset, inclusions, exclusions);
        if k <= i32::MAX && step_selected_spec(k, beat_offset, inclusions, exclusions) {
            before.push(k as usize)
        } else {
            before
        }
    }
}

/// The steps among the first `n_steps` that carry a note.
pub fn selected_steps(
    n_steps: usize,
    beat_offset: i32,
    inclusions: &[usize],
    exclusions: &[usize],
) -> (r: Vec<usize>)
    requires
        generators_valid(inclusions@),
        generators_valid(exclusions@),
        n_steps <= i32::MAX,
        n_steps - beat_offset <= i32::MAX,
    ensures
        r@ == selected_steps_spec(n_steps as int, beat_offset as int, inclusions@, exclusions@),
{
    let mut out: Vec<usize> = Vec::new();
    let mut raw: usize = 0;
    while raw < n_steps
        invariant
            0 <= raw <= n_steps,
            generators_valid(inclusions@),
            generators_valid(exclusions@),
            n_steps <= i32::MAX,
            n_steps - beat_offset <= i32::MAX,
            out@ == selected_steps_spec(raw as int, beat_offset as int, inclusions@, exclusions@),
        decreases n_steps - raw,
    {
        let step = raw as i32;
        if step_selected(step, beat_offset, inclusions, exclusions) {
            out.push(raw);
        }
        raw = raw + 1;
    }
    out
}

/// The generators of a rhythm: the fixed ones, or `amount` distinct values
/// drawn from `shift..length + shift`.
pub fn rhythm_generators(rythm: &Rythm, shift: usize, rng: &mut rand::rngs::ThreadRng) -> (r: Vec<
    usize,
>)
    requires
        rythm matches Rythm::Rd(rd) ==> rd.amount <= rd.length && rd.length + shift <= usize::MAX,
    ensures
        match rythm {
            Rythm::Det(det) => r@ == det.generators@,
            Rythm::Rd(rd) => {
                &&& r@.len() == rd.amount
                &&& forall|i: int| 0 <= i < r@.len() ==> shift <= #[trigger] r@[i] < rd.length + shift
                &&& forall|i: int, j: int| 0 <= i < j < r@.len() ==> r@[i] != r@[j]
            },
        },
{
    match rythm {
        Rythm::Rd(rd) => {
            let picked = sample_indices(rng, rd.length, rd.amount);
            let mut out: Vec<usize> = Vec::new();
            let mut i: usize = 0;
            while i < picked.len()
                invariant
                    0 <= i <= picked.len(),
                    rd.length + shift <= usize::MAX,
                    forall|j: int| 0 <= j < picked@.len() ==> picked@[j] < rd.length,
                    out@.len() == i,
                    forall|j: int| 0 <= j < i ==> #[trigger] out@[j] == picked@[j] + shift,
                decreases picked.len() - i,
            {
                out.push(picked[i] + shift);
                i = i + 1;
            }
            proof {
                assert forall|a: int, b: int| 0 <= a < b < out@.len() implies out@[a] != out@[b] by {
                    assert(out@[a] == picked@[a] + shift);
                    assert(out@[b] == picked@[b] + shift);
                }
            }
            out
        },
        Rythm::Det(det) => {
            let mut out: Vec<usize> = Vec::new();
            let mut i: usize = 0;
            while i < det.generators.len()
                invariant
                    0 <= i <= det.generators.len(),
                    out@ == det.generators@.take(i as int),
                decreases det.generators.len() - i,
            {
                out.push(det.generators[i]);
                i = i + 1;
                proof {
                    assert(out@ =~= det.generators@.take(i as int));
                }
            }
            proof {
                assert(det.generators@.take(i as int) =~= det.generators@);
            }
            out
        },
    }
}

} // verus!
