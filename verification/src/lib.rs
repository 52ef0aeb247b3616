//! Virtual MIDI device logic: maps incoming chords to the chords that a
//! configuration assigns to them.
pub mod midi_device;
pub mod chordifier;
pub mod chords;
pub mod profile;
pub mod mapper;
pub mod config_cli;
pub mod printer;
pub mod number;
pub mod live;
pub mod sequences;
