//! Core logic of a probability-driven music sequencer: identifiers, time
//! quanta, the track tree and its editing operations, rhythm step selection,
//! harmony scoring and parameter inheritance.

pub mod ids;
pub mod tree;
pub mod paths;
pub mod score;
pub mod laws;
pub mod traversal;
pub mod harmony;
pub mod rng;
pub mod time_quantum;
pub mod rhythm;
pub mod params;
pub mod settings;
pub mod noise;
pub mod editor;
pub mod playback;
pub mod chord;
pub mod sequencer;
pub mod tree_text;
pub mod schedule;
