use midi_mapper::chordifier::{Channel, ChannelChord, ChannelNote, Chordifier, ChordsMap, Note};
use midi_mapper::chords::{make_mapping, ChordByType, ChordType};
use midi_mapper::midi_device::{MidiAction, MidiActionPassChannel, MidiData, MidiMessage};
use midi_mapper::printer::Printer;

fn on(channel: u8, key: u8) -> MidiData {
    MidiData::new(channel, MidiMessage::NoteOn { key, vel: 100 })
}

fn off(channel: u8, key: u8) -> MidiData {
    MidiData::new(channel, MidiMessage::NoteOff { key, vel: 0 })
}

fn full_on(channel: u8, key: u8) -> MidiData {
    MidiData::new(channel, MidiMessage::NoteOn { key, vel: 127 })
}

fn full_off(channel: u8, key: u8) -> MidiData {
    MidiData::new(channel, MidiMessage::NoteOff { key, vel: 127 })
}

fn chord(pairs: &[(u8, u8)]) -> ChannelChord {
    ChannelChord::from(pairs.iter().map(|&(c, n)| ChannelNote::new(c, n)).collect::<Vec<_>>())
}

fn mapper() -> Chordifier {
    let roots = vec![(Note::new(48), Note::new(60)), (Note::new(50), Note::new(126))];
    let types = vec![(Note::new(36), ChordType::MAJ), (Note::new(37), ChordType::MIN7)];
    Chordifier::new(make_mapping(roots, types))
}

#[test]
fn intervals_of_each_chord_type() {
    assert_eq!(ChordType::MAJ.intervals(), vec![0, 4, 7]);
    assert_eq!(ChordType::MIN.intervals(), vec![0, 3, 7]);
    assert_eq!(ChordType::DIM.intervals(), vec![0, 3, 6]);
    assert_eq!(ChordType::AUG.intervals(), vec![0, 4, 8]);
    assert_eq!(ChordType::DOM7.intervals(), vec![0, 4, 7, 10]);
    assert_eq!(ChordType::MIN7.intervals(), vec![0, 3, 7, 10]);
    assert_eq!(ChordType::MAJ7.intervals(), vec![0, 4, 7, 11]);
    assert_eq!(ChordType::MINMAJ7.intervals(), vec![0, 3, 7, 11]);
    assert_eq!(ChordType::DIM7.intervals(), vec![0, 3, 6, 9]);
    assert_eq!(ChordType::HDIM7.intervals(), vec![0, 3, 6, 10]);
    assert_eq!(ChordType::AUGMAJ7.intervals(), vec![0, 4, 8, 11]);
}

#[test]
fn chord_notes_wrap_around_at_128() {
    let c = ChordByType { root: Note::new(126), chord_type: ChordType::MAJ }.to_chord();
    assert_eq!(c.notes, vec![Note::new(126), Note::new(2), Note::new(5)]);
    let c = ChordByType { root: Note::new(60), chord_type: ChordType::DOM7 }.to_chord();
    assert_eq!(c.notes, vec![Note::new(60), Note::new(64), Note::new(67), Note::new(70)]);
}

#[test]
fn conversions_from_bytes_drop_high_bits() {
    assert_eq!(Note::from(200u8), Note::new(72));
    assert_eq!(Note::from(127u8), Note::new(127));
    assert_eq!(Channel::from(20u8), Channel::new(4));
    assert_eq!(Channel::from(15u8), Channel::new(15));
}

#[test]
fn chords_map_ignores_note_order() {
    let m = ChordsMap::new(vec![(chord(&[(0, 1), (0, 2), (1, 3)]), chord(&[(2, 10)]))]);
    for key in [
        [(0, 1), (0, 2), (1, 3)],
        [(0, 2), (1, 3), (0, 1)],
        [(1, 3), (0, 1), (0, 2)],
    ] {
        assert_eq!(m.map(&chord(&key)), Some(&chord(&[(2, 10)])));
    }
    assert_eq!(m.map(&chord(&[(0, 1), (0, 2)])), None);
    assert_eq!(m.map(&chord(&[(0, 1), (0, 2), (0, 3)])), None);
}

#[test]
fn later_entry_wins_for_the_same_notes() {
    let m = ChordsMap::new(vec![
        (chord(&[(0, 1), (0, 2)]), chord(&[(0, 10)])),
        (chord(&[(0, 2), (0, 1)]), chord(&[(0, 20)])),
    ]);
    assert_eq!(m.map(&chord(&[(0, 1), (0, 2)])), Some(&chord(&[(0, 20)])));
}

#[test]
fn pressing_a_mapped_chord_plays_its_target() {
    let mut d = mapper();
    assert_eq!(d.midi_action(on(0, 48)), vec![]);
    assert_eq!(d.midi_action(on(0, 36)), vec![full_on(0, 60), full_on(0, 64), full_on(0, 67)]);
    // Releasing one key stops the chord.
    assert_eq!(d.midi_action(off(0, 36)), vec![full_off(0, 60), full_off(0, 64), full_off(0, 67)]);
    assert_eq!(d.midi_action(off(0, 48)), vec![]);
}

#[test]
fn key_order_does_not_matter() {
    let mut d = mapper();
    assert_eq!(d.midi_action(on(0, 37)), vec![]);
    assert_eq!(d.midi_action(on(0, 50)), vec![full_on(0, 126), full_on(0, 1), full_on(0, 5), full_on(0, 8)]);
}

#[test]
fn switching_chords_stops_the_old_one_first() {
    let mut d = mapper();
    d.midi_action(on(0, 48));
    d.midi_action(on(0, 36));
    // 48 + 36 + 37 maps to nothing: the chord stops.
    assert_eq!(d.midi_action(on(0, 37)), vec![full_off(0, 60), full_off(0, 64), full_off(0, 67)]);
    // Releasing 36 leaves 48 + 37: the minor seventh plays.
    assert_eq!(d.midi_action(off(0, 36)), vec![full_on(0, 60), full_on(0, 63), full_on(0, 67), full_on(0, 70)]);
}

#[test]
fn other_channels_are_not_mapped() {
    let mut d = mapper();
    assert_eq!(d.midi_action(on(1, 48)), vec![]);
    assert_eq!(d.midi_action(on(1, 36)), vec![]);
}

#[test]
fn non_note_messages_pass_through() {
    let mut d = mapper();
    d.midi_action(on(0, 48));
    d.midi_action(on(0, 36));
    for m in [
        MidiData::new(3, MidiMessage::ProgramChange { program: 5 }),
        MidiData::new(0, MidiMessage::Controller { controller: 7, value: 100 }),
        MidiData::new(2, MidiMessage::PitchBend { bend: 8192 }),
        MidiData::new(0, MidiMessage::Aftertouch { key: 48, vel: 30 }),
        MidiData::new(0, MidiMessage::ChannelAftertouch { vel: 30 }),
    ] {
        assert_eq!(d.midi_action(m), vec![m]);
    }
    // The chord still plays and stops on release.
    assert_eq!(d.midi_action(off(0, 48)), vec![full_off(0, 60), full_off(0, 64), full_off(0, 67)]);
}

#[test]
fn press_then_release_restores_the_lookup() {
    let mut d = mapper();
    d.midi_action(on(0, 48));
    d.midi_action(on(0, 36));
    d.midi_action(on(0, 40));
    // Releasing the extra key brings back the same notes in another order.
    assert_eq!(d.midi_action(off(0, 40)), vec![full_on(0, 60), full_on(0, 64), full_on(0, 67)]);
}

#[test]
fn releasing_an_unpressed_key_changes_nothing_pressed() {
    let mut d = mapper();
    d.midi_action(on(0, 48));
    assert_eq!(d.midi_action(off(0, 99)), vec![]);
    assert_eq!(d.midi_action(on(0, 36)), vec![full_on(0, 60), full_on(0, 64), full_on(0, 67)]);
}

#[test]
fn answers_are_at_full_velocity() {
    let mut d = mapper();
    let mut all = d.midi_action(on(0, 48));
    all.extend(d.midi_action(on(0, 36)));
    all.extend(d.midi_action(off(0, 48)));
    assert!(!all.is_empty());
    for m in all {
        assert!(m.channel < 16);
        match m.message {
            MidiMessage::NoteOn { vel, .. } | MidiMessage::NoteOff { vel, .. } => assert_eq!(vel, 127),
            other => panic!("unexpected {:?}", other),
        }
    }
}

#[test]
fn printer_forwards_everything() {
    let mut p = Printer {};
    let m = on(4, 60);
    assert_eq!(p.midi_action(m), vec![m]);
}

struct Transpose {
    by: u8,
}

impl MidiActionPassChannel for Transpose {
    fn midi_action_on_msg(&mut self, data: MidiMessage) -> Vec<MidiMessage> {
        match data {
            MidiMessage::NoteOn { key, vel } => vec![MidiMessage::NoteOn { key: key + self.by, vel }],
            other => vec![other, other],
        }
    }
}

#[test]
fn pass_channel_keeps_the_channel() {
    let mut t = Transpose { by: 2 };
    assert_eq!(t.midi_action(on(9, 60)), vec![MidiData::new(9, MidiMessage::NoteOn { key: 62, vel: 100 })]);
    let pc = MidiMessage::ProgramChange { program: 1 };
    assert_eq!(t.midi_action(MidiData::new(3, pc)), vec![MidiData::new(3, pc), MidiData::new(3, pc)]);
}

#[test]
fn mapping_does_not_depend_on_entry_order() {
    let roots = vec![(Note::new(48), Note::new(60)), (Note::new(50), Note::new(62))];
    let types = vec![(Note::new(36), ChordType::MAJ), (Note::new(37), ChordType::MIN)];
    let a = make_mapping(roots.clone(), types.clone());
    let b = make_mapping(
        roots.iter().rev().cloned().collect(),
        types.iter().rev().cloned().collect(),
    );
    for r in [48u8, 50] {
        for t in [36u8, 37] {
            let key = chord(&[(0, r), (0, t)]);
            assert!(a.map(&key).is_some());
            assert_eq!(a.map(&key), b.map(&key));
        }
    }
    assert_eq!(a.map(&chord(&[(0, 50), (0, 37)])), Some(&chord(&[(0, 62), (0, 65), (0, 69)])));
    assert_eq!(b.map(&chord(&[(0, 48), (0, 50)])), None);
}

#[test]
fn presses_and_releases_sent_balance() {
    let mut d = mapper();
    let inputs = vec![
        on(0, 48), on(0, 36), on(0, 37), off(0, 36), on(0, 50), off(0, 48),
        on(0, 36), off(0, 50), off(0, 37), off(0, 36),
    ];
    let mut sent: Vec<MidiData> = Vec::new();
    for m in inputs {
        sent.extend(d.midi_action(m));
    }
    assert!(!sent.is_empty());
    for note in 0u8..128 {
        let mut count: i32 = 0;
        for m in &sent {
            match m.message {
                MidiMessage::NoteOn { key, .. } if key == note => count += 1,
                MidiMessage::NoteOff { key, .. } if key == note => count -= 1,
                _ => {}
            }
            assert!(count >= 0, "note {} released before it was pressed", note);
        }
        // Every key is released at the end, so nothing sounds.
        assert_eq!(count, 0, "note {} left sounding", note);
    }
}
