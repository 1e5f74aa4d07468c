//! Settings of sequences and presets that hold no real numbers: wave and
//! filter kinds, interval affinities, preset metadata, and the default
//! values of the integer and boolean parameters.
use vstd::prelude::*;
use vstd::string::StringExecFns;
use crate::time_quantum::TimeQuantum;

verus! {

#[derive(Clone, Copy, PartialEq, Eq, Structural, Debug)]
pub enum FilterType {
    Lowpass,
    Highpass,
    Bandpass,
}

impl FilterType {
    pub fn default() -> (f: FilterType)
        ensures
            f == FilterType::Lowpass,
    {
        FilterType::Lowpass
    }

    pub fn to_string(&self) -> (r: String)
        ensures
            r@ == match *self {
                FilterType::Lowpass => "Lowpass"@,
                FilterType::Highpass => "Highpass"@,
                FilterType::Bandpass => "Bandpass"@,
            },
    {
        match self {
            FilterType::Lowpass => String::from_str("Lowpass"),
            FilterType::Highpass => String::from_str("Highpass"),
            FilterType::Bandpass => String::from_str("Bandpass"),
        }
    }
}

#[derive(Clone, Copy, PartialEq, Eq, Structural, Debug)]
pub enum WaveType {
    Mute,
    Sine,
    Square,
    Triangle,
    Sawtooth,
    HiHat,
    Kick,
    Snare,
    Ride,
    Darbuka,
}

impl WaveType {
    pub fn to_string(&self) -> (r: String)
        ensures
            r@ == match *self {
                WaveType::Mute => "Mute"@,
                WaveType::Sine => "Sine"@,
                WaveType::Square => "Square"@,
                WaveType::Triangle => "Triangle"@,
                WaveType::Sawtooth => "Sawtooth"@,
                WaveType::HiHat => "HiHat"@,
                WaveType::Kick => "Kick"@,
                WaveType::Snare => "Snare"@,
                WaveType::Ride => "Ride"@,
                WaveType::Darbuka => "Darbuka"@,
            },
    {
        match self {
            WaveType::Mute => String::from_str("Mute"),
            WaveType::Sine => String::from_str("Sine"),
            WaveType::Square => String::from_str("Square"),
            WaveType::Triangle => String::from_str("Triangle"),
            WaveType::Sawtooth => String::from_str("Sawtooth"),
            WaveType::HiHat => String::from_str("HiHat"),
            WaveType::Kick => String::from_str("Kick"),
            WaveType::Snare => String::from_str("Snare"),
            WaveType::Ride => String::from_str("Ride"),
            WaveType::Darbuka => String::from_str("Darbuka"),
        }
    }
}

/// The parameters that pick a wave: its type.
pub struct WaveParams {
    pub wave: WaveType,
}

impl WaveParams {
    /// A sine wave.
    pub fn default() -> (r: WaveParams)
        ensures
            r.wave == WaveType::Sine,
    {
        WaveParams { wave: WaveType::Sine }
    }
}

/// Which drum to synthesize.
#[derive(Clone, Copy, Debug, PartialEq, Eq, Structural)]
pub enum DrumParams {
    HiHat,
    Kick,
    Bell,
    Tom,
    Snare,
    Ride,
    Darbuka,
}

/// How a note's phase evolves.
#[derive(Clone, Copy, PartialEq, Eq, Structural, Debug)]
pub enum NoteVariant {
    PhaseTracked,
    PureTime,
}

impl NoteVariant {
    pub fn default() -> (v: NoteVariant)
        ensures
            v == NoteVariant::PhaseTracked,
    {
        NoteVariant::PhaseTracked
    }
}

/// An affinity for a melodic interval (in semitones).
#[derive(Clone, Copy, PartialEq, Eq, Structural, Debug)]
pub struct IntervalAffinity {
    pub interval: u8,
    pub affinity: i32,
}

impl IntervalAffinity {
    pub fn default() -> (a: IntervalAffinity)
        ensures
            a.interval == 0 && a.affinity == 0,
    {
        IntervalAffinity { interval: 0, affinity: 0 }
    }
}

/// One step of the replicator: a distance and its interval affinities.
pub struct ReplicatorStep {
    pub distance: u32,
    pub affinities: Vec<IntervalAffinity>,
}

impl ReplicatorStep {
    pub fn default() -> (s: ReplicatorStep)
        ensures
            s.distance == 1,
            s.affinities@.len() == 0,
    {
        ReplicatorStep { distance: default_replicator_distance(), affinities: default_interval_affinities() }
    }
}

/// The affinities listed as one value per interval: the non-zero values,
/// each with its position (taken modulo 256) as the interval.
pub open spec fn affinities_of(vals: Seq<i32>) -> Seq<IntervalAffinity>
    decreases vals.len(),
{
    if vals.len() == 0 {
        Seq::empty()
    } else {
        let k = vals.len() - 1;
        let before = affinities_of(vals.drop_last());
        if vals[k] != 0 {
            before.push(IntervalAffinity { interval: (k % 256) as u8, affinity: vals[k] })
        } else {
            before
        }
    }
}

/// Convert a list of one affinity per interval into (interval, affinity)
/// pairs, leaving out zeros.
pub fn affinities_from_values(vals: &[i32]) -> (r: Vec<IntervalAffinity>)
    ensures
        r@ == affinities_of(vals@),
{
    let mut out: Vec<IntervalAffinity> = Vec::new();
    let mut i: usize = 0;
    while i < vals.len()
        invariant
            0 <= i <= vals.len(),
            out@ == affinities_of(vals@.take(i as int)),
        decreases vals.len() - i,
    {
        proof {
            assert(vals@.take(i + 1).drop_last() =~= vals@.take(i as int));
        }
        let v = vals[i];
        if v != 0 {
            let interval = (i % 256) as u8;
            out.push(IntervalAffinity { interval, affinity: v });
        }
        i = i + 1;
    }
    proof {
        assert(vals@.take(i as int) =~= vals@);
    }
    out
}

/// The replicator steps a sequence uses: its own steps, or, when it has none
/// but still carries affinities in the older single-step form, one step
/// made of those affinities and the older distance (by default 1).
pub fn effective_replicator_steps(
    steps: Vec<ReplicatorStep>,
    legacy_affinities: Vec<IntervalAffinity>,
    legacy_distance: Option<u32>,
) -> (r: Vec<ReplicatorStep>)
    ensures
        steps@.len() == 0 && legacy_affinities@.len() > 0 ==> r@.len() == 1 && r@[0].affinities
            == legacy_affinities && r@[0].distance == match legacy_distance {
            Some(d) => d,
            None => 1,
        },
        !(steps@.len() == 0 && legacy_affinities@.len() > 0) ==> r == steps,
{
    if steps.len() == 0 && legacy_affinities.len() > 0 {
        let distance = match legacy_distance {
            Some(d) => d,
            None => default_replicator_distance(),
        };
        let mut r: Vec<ReplicatorStep> = Vec::new();
        r.push(ReplicatorStep { distance, affinities: legacy_affinities });
        r
    } else {
        steps
    }
}

pub fn default_interval_affinities() -> (r: Vec<IntervalAffinity>)
    ensures
        r@.len() == 0,
{
    Vec::new()
}

pub fn default_replicator_steps() -> (r: Vec<ReplicatorStep>)
    ensures
        r@.len() == 1,
        r@[0].distance == 1,
        r@[0].affinities@.len() == 0,
{
    let mut v: Vec<ReplicatorStep> = Vec::new();
    v.push(ReplicatorStep::default());
    v
}

/// Metadata of an instrument preset.
pub struct PresetMetadata {
    pub name: String,
    pub description: Option<String>,
    pub author: Option<String>,
    pub tags: Option<Vec<String>>,
    pub version: u32,
}

pub fn default_version() -> (r: u32)
    ensures
        r == 1,
{
    1
}

impl PresetMetadata {
    pub fn default() -> (m: PresetMetadata)
        ensures
            m.name@ == "Untitled Preset"@,
            m.description is None,
            m.author is None,
            m.tags is None,
            m.version == 1,
    {
        PresetMetadata {
            name: String::from_str("Untitled Preset"),
            description: None,
            author: None,
            tags: None,
            version: default_version(),
        }
    }
}

/// Largest melodic interval an affinity can be given for.
pub const MAX_MELODIC_INTERVAL: usize = 24;

pub fn default_repeat() -> (r: usize)
    ensures
        r == 1,
{
    1
}

pub fn default_shuffle() -> (r: bool)
    ensures
        !r,
{
    false
}

pub fn default_name() -> (r: String)
    ensures
        r@ == Seq::<char>::empty(),
{
    String::new()
}

pub fn default_harmonise() -> (r: bool)
    ensures
        !r,
{
    false
}

pub fn default_melodise() -> (r: bool)
    ensures
        !r,
{
    false
}

pub fn default_melody_order_affinity() -> (r: i32)
    ensures
        r == 0,
{
    0
}

pub fn default_replicator_enabled() -> (r: bool)
    ensures
        !r,
{
    false
}

pub fn default_replicator_distance() -> (r: u32)
    ensures
        r == 1,
{
    1
}

pub fn default_beat_offset() -> (r: i32)
    ensures
        r == 0,
{
    0
}

pub fn default_tension() -> (r: usize)
    ensures
        r == 1,
{
    1
}

pub fn default_random_chord() -> (r: bool)
    ensures
        !r,
{
    false
}

pub fn default_glide() -> (r: bool)
    ensures
        !r,
{
    false
}

pub fn default_time_quantum() -> (q: TimeQuantum)
    ensures
        q.numer_spec() == 1 && q.denom_spec() == 8,
        q@ == (1u16, 8u16),
        q == TimeQuantum::default_spec(),
{
    TimeQuantum::default()
}

pub fn default_lowpass_enabled() -> (r: bool)
    ensures
        !r,
{
    false
}

pub fn default_lp_order() -> (r: u32)
    ensures
        r == 1,
{
    1
}

/// Default weights of the seven interval distances (unison to tritone).
pub fn default_harmoniser() -> (r: [u32; 7])
    ensures
        r@ == seq![10u32, 11, 11, 4, 3, 0, 8],
{
    [10, 11, 11, 4, 3, 0, 8]
}

pub fn default_skip_harmonised() -> (r: usize)
    ensures
        r == 0,
{
    0
}

} // verus!
