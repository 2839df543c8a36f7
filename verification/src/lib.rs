//! Trafalgar: the logic of a euclidean jam sequencer. Four independent euclidean
//! tracks turn a clock into note events, mirrored as OSC messages; pads, gesture
//! loops, undo and the remote control all work on the same shared state.
//!
//! Numbers of single and double precision are held as their bit patterns.

pub mod chance;
pub mod clock;
pub mod double;
pub mod editor;
pub mod engine;
pub mod euclid;
pub mod exact;
pub mod gesture;
pub mod laws;
pub mod midi;
pub mod notes;
pub mod order;
pub mod osc;
pub mod pads;
pub mod params;
pub mod rounding;
pub mod route;
pub mod scale;
pub mod settings;
pub mod shared;
pub mod single;
pub mod standalone;
pub mod text;

