//! Raw MIDI bytes as a device receives and sends them: reading an incoming
//! event, answering channel messages through a [`MidiAction`] and writing
//! the answers back as bytes.
use vstd::prelude::*;

use crate::midi_device::{MidiAction, MidiData, MidiMessage};

verus! {

/// The bytes of an optional byte vector.
pub open spec fn bytes_view(v: Option<Vec<u8>>) -> Option<Seq<u8>> {
    match v {
        Some(b) => Some(b@),
        None => None,
    }
}

/// A status byte of a channel message (0x80 to 0xEF).
pub open spec fn is_channel_status(s: u8) -> bool {
    128 <= s <= 239
}

/// How many data bytes follow a channel status byte: one for program change
/// and channel aftertouch, two for the rest.
pub open spec fn data_len(status: u8) -> int {
    if status / 16 == 12 || status / 16 == 13 {
        1
    } else {
        2
    }
}

/// The event that bytes starting with a channel status stand for, as midly
/// writes it back: the status and its data bytes, where all of them are there
/// and below 128 (later bytes are ignored); otherwise nothing.
pub open spec fn channel_reencode(b: Seq<u8>) -> Option<Seq<u8>> {
    let n = data_len(b[0]);
    if b.len() >= 1 + n && (forall|i: int| 1 <= i <= n ==> #[trigger] b[i] < 128) {
        Some(b.take(1 + n))
    } else {
        None
    }
}

/// The data bytes that follow the status byte: those before the first byte
/// of 128 or more, which midly reads as the end of the message.
pub open spec fn low_prefix(s: Seq<u8>) -> Seq<u8>
    decreases s.len(),
{
    if s.len() == 0 || s[0] >= 128 {
        Seq::empty()
    } else {
        seq![s[0]] + low_prefix(s.drop_first())
    }
}

/// A system common message (status 0xF0 to 0xF7) as midly writes it back:
/// a system exclusive message gets its data and an end byte 0xF7; time code
/// quarter frame, song select (one data byte) and song position (two) keep
/// just their data where it is all there, and otherwise keep whatever data
/// came; tune request stands alone; 0xF4 and 0xF5 keep their data; 0xF7
/// alone does not parse.
pub open spec fn common_reencode(b: Seq<u8>) -> Option<Seq<u8>> {
    let s = b[0];
    let d = low_prefix(b.drop_first());
    if s == 240 {
        Some(seq![s] + d + seq![247u8])
    } else if (s == 241 || s == 243) && d.len() >= 1 {
        Some(seq![s, d[0]])
    } else if s == 242 && d.len() >= 2 {
        Some(seq![s, d[0], d[1]])
    } else if s == 246 {
        Some(seq![s])
    } else if s == 247 {
        None
    } else {
        Some(seq![s] + d)
    }
}

/// What midly's `LiveEvent::parse` followed by `LiveEvent::write` makes of
/// these bytes: `None` where they do not parse (no bytes, a first byte below
/// 128, a channel message without its data bytes, or 0xF7), else the bytes
/// of the event as midly writes it.
pub open spec fn live_reencode(b: Seq<u8>) -> Option<Seq<u8>> {
    if b.len() == 0 || b[0] < 128 {
        None
    } else if is_channel_status(b[0]) {
        channel_reencode(b)
    } else if b[0] >= 248 {
        Some(seq![b[0]])
    } else {
        common_reencode(b)
    }
}

/// `LiveEvent::parse` of midly on the bytes, and, where that succeeds,
/// `LiveEvent::write` of the event into a fresh vector (which midly's writer
/// for `Vec<u8>` never refuses): the result is [`live_reencode`] of the
/// bytes.
#[verifier::external_body]
fn reencode_live(bytes: &[u8]) -> (r: Option<Vec<u8>>)
    ensures
        bytes_view(r) == live_reencode(bytes@),
{
    match midly::live::LiveEvent::parse(bytes) {
        Ok(event) => {
            let mut out: Vec<u8> = Vec::new();
            match event.write(&mut out) {
                Ok(()) => Some(out),
                Err(_) => None,
            }
        },
        Err(_) => None,
    }
}

/// The channel message that a status byte and its data bytes stand for.
pub open spec fn decode_channel(c: Seq<u8>) -> MidiData {
    let kind = c[0] / 16;
    let channel = (c[0] % 16) as u8;
    let message = if kind == 8 {
        MidiMessage::NoteOff { key: c[1], vel: c[2] }
    } else if kind == 9 {
        MidiMessage::NoteOn { key: c[1], vel: c[2] }
    } else if kind == 10 {
        MidiMessage::Aftertouch { key: c[1], vel: c[2] }
    } else if kind == 11 {
        MidiMessage::Controller { controller: c[1], value: c[2] }
    } else if kind == 12 {
        MidiMessage::ProgramChange { program: c[1] }
    } else if kind == 13 {
        MidiMessage::ChannelAftertouch { vel: c[1] }
    } else {
        MidiMessage::PitchBend { bend: (c[2] * 128 + c[1]) as u16 }
    };
    MidiData { channel, message }
}

/// The bytes of a channel message: the status (message kind and channel)
/// and the data bytes, each field cut to its width as midly's integer types
/// do; a pitch bend goes out low seven bits first.
pub open spec fn midi_bytes(d: MidiData) -> Seq<u8> {
    let ch = d.channel % 16;
    match d.message {
        MidiMessage::NoteOff { key, vel } => seq![(128 + ch) as u8, key % 128, vel % 128],
        MidiMessage::NoteOn { key, vel } => seq![(144 + ch) as u8, key % 128, vel % 128],
        MidiMessage::Aftertouch { key, vel } => seq![(160 + ch) as u8, key % 128, vel % 128],
        MidiMessage::Controller { controller, value } => seq![(176 + ch) as u8, controller % 128, value % 128],
        MidiMessage::ProgramChange { program } => seq![(192 + ch) as u8, program % 128],
        MidiMessage::ChannelAftertouch { vel } => seq![(208 + ch) as u8, vel % 128],
        MidiMessage::PitchBend { bend } => seq![(224 + ch) as u8, ((bend % 16384) % 128) as u8, ((bend % 16384) / 128) as u8],
    }
}

/// An event received from a MIDI port.
pub enum IncomingEvent {
    /// A channel message.
    Channel(MidiData),
    /// Any other event, as midly writes it back.
    Other(Vec<u8>),
}

/// An incoming event as plain values.
pub enum IncomingView {
    Channel(MidiData),
    Other(Seq<u8>),
}

pub open spec fn incoming_view(e: Option<IncomingEvent>) -> Option<IncomingView> {
    match e {
        Some(IncomingEvent::Channel(d)) => Some(IncomingView::Channel(d)),
        Some(IncomingEvent::Other(b)) => Some(IncomingView::Other(b@)),
        None => None,
    }
}

/// The event that the bytes stand for: a channel message where they start
/// with a channel status and carry its data bytes, another event where midly
/// reads one, and nothing where they do not parse.
pub open spec fn incoming_spec(b: Seq<u8>) -> Option<IncomingView> {
    if b.len() > 0 && is_channel_status(b[0]) {
        match channel_reencode(b) {
            Some(c) => Some(IncomingView::Channel(decode_channel(c))),
            None => None,
        }
    } else {
        match live_reencode(b) {
            Some(c) => Some(IncomingView::Other(c)),
            None => None,
        }
    }
}

/// Reads the event that a MIDI port received.
pub fn parse_incoming(bytes: &[u8]) -> (r: Option<IncomingEvent>)
    ensures
        incoming_view(r) == incoming_spec(bytes@),
{
    let c = match reencode_live(bytes) {
        Some(c) => c,
        None => {
            return None;
        },
    };
    if bytes.len() > 0 && bytes[0] >= 128 && bytes[0] <= 239 {
        let kind = c[0] / 16;
        let channel = c[0] % 16;
        let message = if kind == 8 {
            MidiMessage::NoteOff { key: c[1], vel: c[2] }
        } else if kind == 9 {
            MidiMessage::NoteOn { key: c[1], vel: c[2] }
        } else if kind == 10 {
            MidiMessage::Aftertouch { key: c[1], vel: c[2] }
        } else if kind == 11 {
            MidiMessage::Controller { controller: c[1], value: c[2] }
        } else if kind == 12 {
            MidiMessage::ProgramChange { program: c[1] }
        } else if kind == 13 {
            MidiMessage::ChannelAftertouch { vel: c[1] }
        } else {
            MidiMessage::PitchBend { bend: (c[2] as u16) * 128 + (c[1] as u16) }
        };
        Some(IncomingEvent::Channel(MidiData { channel, message }))
    } else {
        Some(IncomingEvent::Other(c))
    }
}

/// The bytes of a channel message, as midly writes them.
pub fn encode_midi(d: MidiData) -> (r: Vec<u8>)
    ensures
        r@ == midi_bytes(d),
{
    let ch = d.channel % 16;
    let bytes: Vec<u8> = match d.message {
        MidiMessage::NoteOff { key, vel } => vec![128 + ch, key % 128, vel % 128],
        MidiMessage::NoteOn { key, vel } => vec![144 + ch, key % 128, vel % 128],
        MidiMessage::Aftertouch { key, vel } => vec![160 + ch, key % 128, vel % 128],
        MidiMessage::Controller { controller, value } => vec![176 + ch, controller % 128, value % 128],
        MidiMessage::ProgramChange { program } => vec![192 + ch, program % 128],
        MidiMessage::ChannelAftertouch { vel } => vec![208 + ch, vel % 128],
        MidiMessage::PitchBend { bend } => vec![224 + ch, ((bend % 16384) % 128) as u8, ((bend % 16384) / 128) as u8],
    };
    proof {
        lemma_midi_bytes_canonical(d);
    }
    let written = reencode_live(bytes.as_slice());
    match written {
        Some(w) => w,
        None => bytes,
    }
}

proof fn lemma_midi_bytes_canonical(d: MidiData)
    ensures
        midi_bytes(d).len() == 1 + data_len(midi_bytes(d)[0]),
        is_channel_status(midi_bytes(d)[0]),
        forall|i: int| 1 <= i < midi_bytes(d).len() ==> #[trigger] midi_bytes(d)[i] < 128,
        channel_reencode(midi_bytes(d)) == Some(midi_bytes(d)),
{
    let b = midi_bytes(d);
    assert(b.take(b.len() as int) =~= b);
}

/// The bytes of the answers, one vector per message, in order.
pub open spec fn answers_bytes(answers: Seq<MidiData>) -> Seq<Seq<u8>> {
    answers.map_values(|m: MidiData| midi_bytes(m))
}

/// The byte vectors as sequences.
pub open spec fn packets_view(v: Vec<Vec<u8>>) -> Seq<Seq<u8>> {
    v@.map_values(|b: Vec<u8>| b@)
}

/// Handles one event received from a MIDI port: a channel message goes to
/// `action` for one step, whose answers are returned as bytes, in order; any
/// other event is returned as midly writes it, and `action` is not asked;
/// bytes that do not parse give `None`.
pub fn handle_incoming<A: MidiAction>(action: &mut A, bytes: &[u8]) -> (r: Option<Vec<Vec<u8>>>)
    ensures
        match incoming_spec(bytes@) {
            None => r is None && *final(action) == *old(action),
            Some(IncomingView::Other(e)) => (r matches Some(v) && packets_view(v) == seq![e]) && *final(action) == *old(action),
            Some(IncomingView::Channel(d)) => r matches Some(v) && exists|out: Seq<MidiData>|
                #[trigger] old(action).step(d, out, *final(action)) && packets_view(v) == answers_bytes(out),
        },
{
    match parse_incoming(bytes) {
        None => None,
        Some(IncomingEvent::Other(e)) => {
            let mut out: Vec<Vec<u8>> = Vec::new();
            out.push(e);
            assert(packets_view(out) =~= seq![e@]);
            Some(out)
        },
        Some(IncomingEvent::Channel(d)) => {
            let answers = action.midi_action(d);
            let mut out: Vec<Vec<u8>> = Vec::new();
            let mut i: usize = 0;
            while i < answers.len()
                invariant
                    i <= answers@.len(),
                    packets_view(out) == answers_bytes(answers@.take(i as int)),
                decreases answers@.len() - i,
            {
                let b = encode_midi(answers[i]);
                let ghost before = packets_view(out);
                out.push(b);
                proof {
                    assert(answers@.take(i + 1) =~= answers@.take(i as int).push(answers@[i as int]));
                    assert(packets_view(out) =~= before.push(midi_bytes(answers@[i as int])));
                    assert(answers_bytes(answers@.take(i + 1)) =~= answers_bytes(answers@.take(i as int)).push(midi_bytes(answers@[i as int])));
                }
                i = i + 1;
            }
            assert(answers@.take(i as int) =~= answers@);
            Some(out)
        },
    }
}

/// The MIDI layout of channel messages, read and written: a status byte
/// whose high half names the kind of message (0x8 note off, 0x9 note on, 0xA
/// key aftertouch, 0xB controller, 0xC program change, 0xD channel
/// aftertouch, 0xE pitch bend) and whose low half is the channel, then the
/// data bytes: key and velocity, controller number and value, program,
/// pressure, or the pitch bend's low seven bits and then its high seven.
pub proof fn lemma_channel_layout(ch: u8, a: u8, v: u8, bend: u16)
    requires
        ch < 16,
        a < 128,
        v < 128,
        bend < 16384,
    ensures
        incoming_spec(seq![(128 + ch) as u8, a, v]) == Some(
            IncomingView::Channel(MidiData { channel: ch, message: MidiMessage::NoteOff { key: a, vel: v } }),
        ),
        incoming_spec(seq![(144 + ch) as u8, a, v]) == Some(
            IncomingView::Channel(MidiData { channel: ch, message: MidiMessage::NoteOn { key: a, vel: v } }),
        ),
        incoming_spec(seq![(160 + ch) as u8, a, v]) == Some(
            IncomingView::Channel(MidiData { channel: ch, message: MidiMessage::Aftertouch { key: a, vel: v } }),
        ),
        incoming_spec(seq![(176 + ch) as u8, a, v]) == Some(
            IncomingView::Channel(MidiData { channel: ch, message: MidiMessage::Controller { controller: a, value: v } }),
        ),
        incoming_spec(seq![(192 + ch) as u8, a]) == Some(
            IncomingView::Channel(MidiData { channel: ch, message: MidiMessage::ProgramChange { program: a } }),
        ),
        incoming_spec(seq![(208 + ch) as u8, a]) == Some(
            IncomingView::Channel(MidiData { channel: ch, message: MidiMessage::ChannelAftertouch { vel: a } }),
        ),
        incoming_spec(seq![(224 + ch) as u8, a, v]) == Some(
            IncomingView::Channel(MidiData { channel: ch, message: MidiMessage::PitchBend { bend: (v * 128 + a) as u16 } }),
        ),
        midi_bytes(MidiData { channel: ch, message: MidiMessage::NoteOff { key: a, vel: v } }) == seq![(128 + ch) as u8, a, v],
        midi_bytes(MidiData { channel: ch, message: MidiMessage::NoteOn { key: a, vel: v } }) == seq![(144 + ch) as u8, a, v],
        midi_bytes(MidiData { channel: ch, message: MidiMessage::Aftertouch { key: a, vel: v } }) == seq![(160 + ch) as u8, a, v],
        midi_bytes(MidiData { channel: ch, message: MidiMessage::Controller { controller: a, value: v } }) == seq![(176 + ch) as u8, a, v],
        midi_bytes(MidiData { channel: ch, message: MidiMessage::ProgramChange { program: a } }) == seq![(192 + ch) as u8, a],
        midi_bytes(MidiData { channel: ch, message: MidiMessage::ChannelAftertouch { vel: a } }) == seq![(208 + ch) as u8, a],
        midi_bytes(MidiData { channel: ch, message: MidiMessage::PitchBend { bend } })
            == seq![(224 + ch) as u8, (bend % 128) as u8, (bend / 128) as u8],
{
    let bs = seq![
        seq![(128 + ch) as u8, a, v],
        seq![(144 + ch) as u8, a, v],
        seq![(160 + ch) as u8, a, v],
        seq![(176 + ch) as u8, a, v],
        seq![(192 + ch) as u8, a],
        seq![(208 + ch) as u8, a],
        seq![(224 + ch) as u8, a, v],
    ];
    assert forall|k: int| 0 <= k < 7 implies (#[trigger] bs[k]).take(bs[k].len() as int) =~= bs[k] by {}
    assert(bs[0].take(3) == bs[0]);
    assert(bs[1].take(3) == bs[1]);
    assert(bs[2].take(3) == bs[2]);
    assert(bs[3].take(3) == bs[3]);
    assert(bs[4].take(2) == bs[4]);
    assert(bs[5].take(2) == bs[5]);
    assert(bs[6].take(3) == bs[6]);
}

/// Reading the bytes written for any well-formed channel message gives that
/// message back.
pub proof fn lemma_write_then_read(d: MidiData)
    requires
        d.wf(),
    ensures
        incoming_spec(midi_bytes(d)) == Some(IncomingView::Channel(d)),
{
    lemma_midi_bytes_canonical(d);
    let b = midi_bytes(d);
    let ch = d.channel;
    assert(ch % 16 == ch);
    assert(b[0] / 16 == (match d.message {
        MidiMessage::NoteOff { .. } => 8int,
        MidiMessage::NoteOn { .. } => 9,
        MidiMessage::Aftertouch { .. } => 10,
        MidiMessage::Controller { .. } => 11,
        MidiMessage::ProgramChange { .. } => 12,
        MidiMessage::ChannelAftertouch { .. } => 13,
        MidiMessage::PitchBend { .. } => 14,
    }));
    assert(b[0] % 16 == ch);
    if let MidiMessage::PitchBend { bend } = d.message {
        assert(b[2] * 128 + b[1] == bend);
    }
    assert(decode_channel(b) == d);
}

/// Channel-message bytes in the MIDI layout (a channel status byte followed
/// by exactly its data bytes, each below 128) are read as a well-formed
/// message, and writing that message gives the same bytes.
pub proof fn lemma_read_then_write(b: Seq<u8>)
    requires
        b.len() >= 1,
        is_channel_status(b[0]),
        b.len() == 1 + data_len(b[0]),
        forall|i: int| 1 <= i < b.len() ==> #[trigger] b[i] < 128,
    ensures
        incoming_spec(b) matches Some(IncomingView::Channel(d)) && d.wf() && midi_bytes(d) == b,
{
    let s = b[0];
    let ch = (s % 16) as u8;
    let kind = s / 16;
    assert(s == 16 * kind + ch);
    let a = b[1];
    if kind == 12 || kind == 13 {
        assert(b =~= seq![(16 * kind + ch) as u8, a]);
        lemma_channel_layout(ch, a, 0, 0);
    } else {
        let v = b[2];
        assert(b =~= seq![(16 * kind + ch) as u8, a, v]);
        lemma_channel_layout(ch, a, v, (v * 128 + a) as u16);
    }
}

} // verus!
