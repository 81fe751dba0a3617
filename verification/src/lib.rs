//! PulsePlex: the verified core of a MIDI-to-lighting orchestration engine.

pub mod binary32;
pub mod envelope;
pub mod fixture;
pub mod check;
pub mod config;
pub mod daemon;
pub mod dashboard;
pub mod edit;
pub mod engine;
mod maps;
pub mod artnet;
pub mod hue;
pub mod json;
pub mod midi;
pub mod setup;
pub mod shutdown;
pub mod sink;
pub mod source;
pub mod text;
pub mod tls;
pub mod update;
