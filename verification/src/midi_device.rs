//! MIDI messages as plain values, and the trait that says what a device does
//! with each incoming message.
use vstd::prelude::*;

verus! {

/// A channel voice message. Every 7-bit field is below 128 and the pitch
/// bend is a 14-bit value (below 16384); see [`MidiMessage::wf`].
#[derive(Clone, Copy, Debug, PartialEq, Eq, Structural)]
pub enum MidiMessage {
    NoteOff { key: u8, vel: u8 },
    NoteOn { key: u8, vel: u8 },
    Aftertouch { key: u8, vel: u8 },
    Controller { controller: u8, value: u8 },
    ProgramChange { program: u8 },
    ChannelAftertouch { vel: u8 },
    PitchBend { bend: u16 },
}

impl MidiMessage {
    /// Every field is within the width that the MIDI standard gives it.
    pub open spec fn wf(self) -> bool {
        match self {
            MidiMessage::NoteOff { key, vel } => key < 128 && vel < 128,
            MidiMessage::NoteOn { key, vel } => key < 128 && vel < 128,
            MidiMessage::Aftertouch { key, vel } => key < 128 && vel < 128,
            MidiMessage::Controller { controller, value } => controller < 128 && value < 128,
            MidiMessage::ProgramChange { program } => program < 128,
            MidiMessage::ChannelAftertouch { vel } => vel < 128,
            MidiMessage::PitchBend { bend } => bend < 16384,
        }
    }
}

/// A channel voice message together with the channel (below 16) it was
/// sent on.
#[derive(Clone, Copy, Debug, PartialEq, Eq, Structural)]
pub struct MidiData {
    pub channel: u8,
    pub message: MidiMessage,
}

impl MidiData {
    pub open spec fn wf(self) -> bool {
        self.channel < 16 && self.message.wf()
    }

    pub fn new(channel: u8, message: MidiMessage) -> (r: Self)
        ensures
            r.channel == channel,
            r.message == message,
    {
        MidiData { channel, message }
    }
}

/// Says what to do with an incoming MIDI message: the messages that the
/// device sends out in answer, in the order in which they are sent, and the
/// state the action is left in.
pub trait MidiAction: Sized {
    /// Whether answering `data` with `out` (in order) and being left in state
    /// `after` is what the action does with `data` in its current state. An
    /// implementation that does not define it promises nothing.
    open spec fn step(&self, data: MidiData, out: Seq<MidiData>, after: Self) -> bool {
        true
    }

    fn midi_action(&mut self, data: MidiData) -> (out: Vec<MidiData>)
        ensures
            old(self).step(data, out@, *final(self)),
    ;
}

/// Acts on the message alone; every message sent in answer goes out on the
/// channel that the incoming one came in on.
pub trait MidiActionPassChannel: Sized {
    /// Whether answering the message with `out` (in order) and being left in
    /// state `after` is what the action does with it in its current state. An
    /// implementation that does not define it promises nothing.
    open spec fn step_on_msg(&self, data: MidiMessage, out: Seq<MidiMessage>, after: Self) -> bool {
        true
    }

    fn midi_action_on_msg(&mut self, data: MidiMessage) -> (r: Vec<MidiMessage>)
        ensures
            old(self).step_on_msg(data, r@, *final(self)),
    ;
}

/// The messages, in order, each on `channel`.
pub open spec fn put_on_channel(channel: u8, msgs: Seq<MidiMessage>) -> Seq<MidiData> {
    msgs.map_values(|m: MidiMessage| MidiData { channel, message: m })
}

/// Puts each message on `channel`, keeping their order.
pub fn on_channel(channel: u8, msgs: Vec<MidiMessage>) -> (r: Vec<MidiData>)
    ensures
        r@.len() == msgs@.len(),
        forall|i: int|
            0 <= i < r@.len() ==> #[trigger] r@[i] == (MidiData { channel, message: msgs@[i] }),
{
    let mut r: Vec<MidiData> = Vec::new();
    let mut i: usize = 0;
    while i < msgs.len()
        invariant
            i <= msgs@.len(),
            r@.len() == i,
            forall|j: int| 0 <= j < i ==> #[trigger] r@[j] == (MidiData { channel, message: msgs@[j] }),
        decreases msgs@.len() - i,
    {
        r.push(MidiData::new(channel, msgs[i]));
        i = i + 1;
    }
    r
}

impl<A: MidiActionPassChannel> MidiAction for A {
    /// One step of `midi_action_on_msg` on the message, whose answers go
    /// out, in order, each on the channel that `data` came in on.
    open spec fn step(&self, data: MidiData, out: Seq<MidiData>, after: Self) -> bool {
        exists|msgs: Seq<MidiMessage>|
            #[trigger] self.step_on_msg(data.message, msgs, after) && out == put_on_channel(data.channel, msgs)
    }

    fn midi_action(&mut self, data: MidiData) -> (out: Vec<MidiData>) {
        let msgs = self.midi_action_on_msg(data.message);
        let out = on_channel(data.channel, msgs);
        assert(out@ =~= put_on_channel(data.channel, msgs@));
        assert(old(self).step_on_msg(data.message, msgs@, *self));
        out
    }
}

} // verus!
