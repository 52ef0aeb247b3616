# midi_mapper

A virtual MIDI device that maps the chords pressed on a keyboard to the
chords it plays, as a profile of the configuration defines them: one key
selects a root note, another a chord type, and pressing both plays that
chord.

- `src/` is the verified library (Verus): MIDI messages as plain values,
  the chord table and the device's state machine (`chordifier`), chord types
  (`chords`), profiles and configuration merging (`profile`, `mapper`,
  `config_cli`), the forwarding device (`printer`), number reading for
  configuration values (`number`), the handling of raw MIDI bytes as a port
  receives and sends them, through midly (`live`), and laws over whole
  sequences of messages (`sequences`).
- `app/` runs the devices: MIDI ports (midir), configuration files (serde,
  serde_yaml, config, dhall-to-yaml-ng), the command line (clap) and panic
  reporting. One executable serves the three programs, chosen by the name
  it is started under (`midi-printer`, `my-exe-1`, otherwise the chord
  mapper).
- `tests/` exercises the library.
