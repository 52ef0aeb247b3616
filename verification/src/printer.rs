//! The device that forwards every message it receives.
use vstd::prelude::*;

use crate::midi_device::{MidiAction, MidiData};

verus! {

/// Command-line arguments of the forwarding device: none.
pub struct Cli {}

/// Forwards every incoming message unchanged.
pub struct Printer {}

impl MidiAction for Printer {
    /// Answers with the incoming message itself; there is no state to change.
    open spec fn step(&self, data: MidiData, out: Seq<MidiData>, after: Printer) -> bool {
        out == seq![data] && after == *self
    }

    fn midi_action(&mut self, data: MidiData) -> (out: Vec<MidiData>) {
        let mut out: Vec<MidiData> = Vec::new();
        out.push(data);
        assert(out@ =~= seq![data]);
        out
    }
}

} // verus!
