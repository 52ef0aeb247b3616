use midi_mapper::chordifier::{Chordifier, Note};
use midi_mapper::chords::{make_mapping, ChordType};
use midi_mapper::live::{encode_midi, handle_incoming, parse_incoming, IncomingEvent};
use midi_mapper::midi_device::{MidiActionPassChannel, MidiData, MidiMessage};
use midi_mapper::printer::Printer;

#[test]
fn channel_messages_are_read() {
    match parse_incoming(&[0x93, 60, 100]) {
        Some(IncomingEvent::Channel(d)) => {
            assert_eq!(d, MidiData::new(3, MidiMessage::NoteOn { key: 60, vel: 100 }))
        }
        _ => panic!("expected a channel message"),
    }
    match parse_incoming(&[0xE1, 0x05, 0x40, 0x7F]) {
        Some(IncomingEvent::Channel(d)) => {
            assert_eq!(d, MidiData::new(1, MidiMessage::PitchBend { bend: 0x40 * 128 + 5 }))
        }
        _ => panic!("expected a pitch bend"),
    }
    match parse_incoming(&[0xC2, 7]) {
        Some(IncomingEvent::Channel(d)) => assert_eq!(d, MidiData::new(2, MidiMessage::ProgramChange { program: 7 })),
        _ => panic!("expected a program change"),
    }
}

#[test]
fn broken_messages_are_refused() {
    assert!(parse_incoming(&[]).is_none());
    assert!(parse_incoming(&[0x90, 60]).is_none());
    assert!(parse_incoming(&[0x90, 60, 200]).is_none());
    assert!(parse_incoming(&[0xF7]).is_none());
}

#[test]
fn other_events_are_written_back() {
    match parse_incoming(&[0xF8]) {
        Some(IncomingEvent::Other(b)) => assert_eq!(b, vec![0xF8]),
        _ => panic!("expected a realtime event"),
    }
    match parse_incoming(&[0xF0, 1, 2, 0xF7]) {
        Some(IncomingEvent::Other(b)) => assert_eq!(b, vec![0xF0, 1, 2, 0xF7]),
        _ => panic!("expected a system exclusive event"),
    }
}

fn other(bytes: &[u8]) -> Option<Vec<u8>> {
    match parse_incoming(bytes) {
        Some(IncomingEvent::Other(b)) => Some(b),
        Some(IncomingEvent::Channel(_)) => panic!("expected another event"),
        None => None,
    }
}

#[test]
fn system_common_messages_as_midly_writes_them() {
    // System exclusive: data up to the first high byte, then an end byte.
    assert_eq!(other(&[0xF0, 1, 2]), Some(vec![0xF0, 1, 2, 0xF7]));
    assert_eq!(other(&[0xF0, 1, 0x90, 5]), Some(vec![0xF0, 1, 0xF7]));
    // Quarter frame, song position, song select keep just their data.
    assert_eq!(other(&[0xF1, 0x35, 9]), Some(vec![0xF1, 0x35]));
    assert_eq!(other(&[0xF2, 1, 2, 3]), Some(vec![0xF2, 1, 2]));
    assert_eq!(other(&[0xF3, 4]), Some(vec![0xF3, 4]));
    // Without all their data they keep what came.
    assert_eq!(other(&[0xF2, 1]), Some(vec![0xF2, 1]));
    assert_eq!(other(&[0xF1]), Some(vec![0xF1]));
    // Tune request stands alone; undefined ones keep their data.
    assert_eq!(other(&[0xF6, 1]), Some(vec![0xF6]));
    assert_eq!(other(&[0xF5, 1, 2]), Some(vec![0xF5, 1, 2]));
    // A data byte first does not parse.
    assert_eq!(other(&[0x10, 1]), None);
}

#[test]
fn encoding_cuts_fields_to_their_width() {
    assert_eq!(encode_midi(MidiData::new(2, MidiMessage::NoteOff { key: 60, vel: 127 })), vec![0x82, 60, 127]);
    assert_eq!(encode_midi(MidiData::new(18, MidiMessage::NoteOn { key: 160, vel: 1 })), vec![0x92, 32, 1]);
    assert_eq!(encode_midi(MidiData::new(0, MidiMessage::PitchBend { bend: 8197 })), vec![0xE0, 5, 64]);
    assert_eq!(encode_midi(MidiData::new(5, MidiMessage::ChannelAftertouch { vel: 9 })), vec![0xD5, 9]);
}

#[test]
fn forwarding_device_sends_what_it_gets() {
    let mut p = Printer {};
    assert_eq!(handle_incoming(&mut p, &[0x91, 60, 100]), Some(vec![vec![0x91, 60, 100]]));
    assert_eq!(handle_incoming(&mut p, &[0xFA]), Some(vec![vec![0xFA]]));
    assert_eq!(handle_incoming(&mut p, &[0x91]), None);
}

#[test]
fn chord_device_answers_in_bytes() {
    let roots = vec![(Note::new(48), Note::new(60))];
    let types = vec![(Note::new(36), ChordType::MAJ)];
    let mut d = Chordifier::new(make_mapping(roots, types));
    assert_eq!(handle_incoming(&mut d, &[0x90, 48, 90]), Some(vec![]));
    assert_eq!(
        handle_incoming(&mut d, &[0x90, 36, 90]),
        Some(vec![vec![0x90, 60, 127], vec![0x90, 64, 127], vec![0x90, 67, 127]])
    );
    assert_eq!(
        handle_incoming(&mut d, &[0x80, 36, 0]),
        Some(vec![vec![0x80, 60, 127], vec![0x80, 64, 127], vec![0x80, 67, 127]])
    );
}

struct Octave;

impl MidiActionPassChannel for Octave {
    fn midi_action_on_msg(&mut self, data: MidiMessage) -> Vec<MidiMessage> {
        match data {
            MidiMessage::NoteOn { key, vel } => vec![data, MidiMessage::NoteOn { key: key + 12, vel }],
            other => vec![other],
        }
    }
}

#[test]
fn pass_channel_answers_go_out_on_the_incoming_channel() {
    let mut o = Octave;
    assert_eq!(handle_incoming(&mut o, &[0x95, 60, 80]), Some(vec![vec![0x95, 60, 80], vec![0x95, 72, 80]]));
}
