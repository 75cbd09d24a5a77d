//! Verified core of Visor, a viewer for logic-analyser captures.
//!
//! The library holds what a capture viewer decides or computes: the reader of
//! capture files, the sparse representation of the recorded signals, the QSPI
//! decoder with its packet statistics, the state of the waveform view and the
//! list of projects. The disk, the screen and floating point stay outside.

pub mod archive;
pub mod binary;
pub mod decimal;
pub mod info;
pub mod lines;
pub mod micros;
pub mod order;
pub mod parser;
pub mod projects;
pub mod samplerate;
pub mod text;
pub mod waveform;
