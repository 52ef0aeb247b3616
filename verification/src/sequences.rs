//! The chord device over sequences of incoming messages: what it sends in
//! all, and what holds of every such run.
use vstd::prelude::*;

use crate::chordifier::{
    chordifier_output, chordifier_playing, chords_model, note_offs, note_ons, order_insensitive,
    pressed_after, same_notes, stop_playing, lemma_same_notes_same_answer, Chordifier,
    is_note_message,
};
use crate::midi_device::{MidiAction, MidiData, MidiMessage};

verus! {

broadcast use vstd::seq_lib::group_to_multiset_ensures;

/// Everything the device sends, in order, when the messages `ds` come in one
/// after another, starting with `pressed` held and `playing` sounding.
pub open spec fn run_output(
    mapping: Map<Seq<(u8, u8)>, Seq<(u8, u8)>>,
    pressed: Seq<(u8, u8)>,
    playing: Option<Seq<(u8, u8)>>,
    ds: Seq<MidiData>,
) -> Seq<MidiData>
    decreases ds.len(),
{
    if ds.len() == 0 {
        Seq::empty()
    } else {
        chordifier_output(mapping, pressed, playing, ds[0]) + run_output(
            mapping,
            pressed_after(pressed, ds[0]),
            chordifier_playing(mapping, pressed, playing, ds[0]),
            ds.drop_first(),
        )
    }
}

/// The chord that plays after the messages `ds`.
pub open spec fn run_playing(
    mapping: Map<Seq<(u8, u8)>, Seq<(u8, u8)>>,
    pressed: Seq<(u8, u8)>,
    playing: Option<Seq<(u8, u8)>>,
    ds: Seq<MidiData>,
) -> Option<Seq<(u8, u8)>>
    decreases ds.len(),
{
    if ds.len() == 0 {
        playing
    } else {
        run_playing(
            mapping,
            pressed_after(pressed, ds[0]),
            chordifier_playing(mapping, pressed, playing, ds[0]),
            ds.drop_first(),
        )
    }
}

/// Where the mapping ignores the order of notes, two devices whose pressed
/// notes are the same, in any order, and that play the same chord, answer
/// any sequence of messages alike and end up playing the same chord.
pub proof fn lemma_runs_alike(
    mapping: Map<Seq<(u8, u8)>, Seq<(u8, u8)>>,
    p1: Seq<(u8, u8)>,
    p2: Seq<(u8, u8)>,
    playing: Option<Seq<(u8, u8)>>,
    ds: Seq<MidiData>,
)
    requires
        order_insensitive(mapping),
        same_notes(p1, p2),
    ensures
        run_output(mapping, p1, playing, ds) == run_output(mapping, p2, playing, ds),
        run_playing(mapping, p1, playing, ds) == run_playing(mapping, p2, playing, ds),
    decreases ds.len(),
{
    if ds.len() > 0 {
        lemma_same_notes_same_answer(mapping, p1, p2, playing, ds[0]);
        lemma_runs_alike(
            mapping,
            pressed_after(p1, ds[0]),
            pressed_after(p2, ds[0]),
            chordifier_playing(mapping, p1, playing, ds[0]),
            ds.drop_first(),
        );
    }
}

/// A key press for each note, in order.
pub open spec fn presses(notes: Seq<(u8, u8)>, vel: u8) -> Seq<MidiData> {
    notes.map_values(|p: (u8, u8)| MidiData { channel: p.0, message: MidiMessage::NoteOn { key: p.1, vel } })
}

proof fn lemma_single_entry(key: Seq<(u8, u8)>, target: Seq<(u8, u8)>)
    ensures
        forall|s: Seq<(u8, u8)>|
            #[trigger] chords_model(seq![(key, target)]).contains_key(s) == same_notes(s, key),
        forall|s: Seq<(u8, u8)>|
            #[trigger] chords_model(seq![(key, target)]).contains_key(s) ==> chords_model(seq![(key, target)])[s] == target,
{
    let e = seq![(key, target)];
    assert(e.drop_last() =~= Seq::<(Seq<(u8, u8)>, Seq<(u8, u8)>)>::empty());
    assert(chords_model(e.drop_last()) == Map::<Seq<(u8, u8)>, Seq<(u8, u8)>>::empty());
    assert(e.last() == (key, target));
}

proof fn lemma_presses_from(
    key: Seq<(u8, u8)>,
    target: Seq<(u8, u8)>,
    order: Seq<(u8, u8)>,
    vel: u8,
    j: int,
)
    requires
        key.len() > 0,
        same_notes(order, key),
        0 <= j < order.len(),
    ensures
        run_output(chords_model(seq![(key, target)]), order.take(j), None, presses(order, vel).skip(j)) == note_ons(target),
        run_playing(chords_model(seq![(key, target)]), order.take(j), None, presses(order, vel).skip(j)) == Some(target),
    decreases order.len() - j,
{
    let m = chords_model(seq![(key, target)]);
    lemma_single_entry(key, target);
    let ds = presses(order, vel).skip(j);
    let d = ds[0];
    assert(d == presses(order, vel)[j]);
    let now = pressed_after(order.take(j), d);
    assert(now =~= order.take(j + 1));
    assert(ds.drop_first() =~= presses(order, vel).skip(j + 1));
    if j + 1 == order.len() {
        assert(order.take(j + 1) =~= order);
        assert(m.contains_key(now));
        assert(ds.drop_first().len() == 0);
        assert(chordifier_output(m, order.take(j), None, d) =~= note_ons(target));
        assert(run_output(m, now, Some(target), ds.drop_first()) =~= Seq::<MidiData>::empty());
        assert(run_output(m, order.take(j), None, ds) =~= note_ons(target));
        assert(chordifier_playing(m, order.take(j), None, d) == Some(target));
        assert(run_playing(m, order.take(j), None, ds) == run_playing(m, now, Some(target), ds.drop_first()));
    } else {
        assert(now.to_multiset().len() == now.len());
        assert(key.to_multiset().len() == key.len());
        assert(order.to_multiset().len() == order.len());
        assert(!same_notes(now, key));
        assert(!m.contains_key(now));
        assert(chordifier_output(m, order.take(j), None, d) =~= Seq::<MidiData>::empty());
        lemma_presses_from(key, target, order, vel, j + 1);
        assert(run_output(m, order.take(j), None, ds) =~= run_output(m, now, None, ds.drop_first()));
        assert(run_playing(m, order.take(j), None, ds) == run_playing(m, now, None, ds.drop_first()));
    }
}

/// With a mapping of one chord, pressing the chord's keys one after another
/// in any order, on a device where nothing is pressed, sends nothing until
/// the last key and then switches on the target chord, which then plays.
/// Two devices fed the keys in two orders therefore answer alike.
pub proof fn lemma_press_order_irrelevant(
    key: Seq<(u8, u8)>,
    target: Seq<(u8, u8)>,
    order1: Seq<(u8, u8)>,
    order2: Seq<(u8, u8)>,
    vel: u8,
)
    requires
        key.len() > 0,
        same_notes(order1, key),
        same_notes(order2, key),
    ensures
        run_output(chords_model(seq![(key, target)]), Seq::empty(), None, presses(order1, vel)) == note_ons(target),
        run_output(chords_model(seq![(key, target)]), Seq::empty(), None, presses(order1, vel))
            == run_output(chords_model(seq![(key, target)]), Seq::empty(), None, presses(order2, vel)),
        run_playing(chords_model(seq![(key, target)]), Seq::empty(), None, presses(order1, vel)) == Some(target),
        run_playing(chords_model(seq![(key, target)]), Seq::empty(), None, presses(order2, vel)) == Some(target),
{
    assert(order1.to_multiset().len() == order1.len());
    assert(key.to_multiset().len() == key.len());
    assert(order2.to_multiset().len() == order2.len());
    lemma_presses_from(key, target, order1, vel, 0);
    lemma_presses_from(key, target, order2, vel, 0);
    assert(order1.take(0) =~= Seq::<(u8, u8)>::empty());
    assert(order2.take(0) =~= Seq::<(u8, u8)>::empty());
    assert(presses(order1, vel).skip(0) =~= presses(order1, vel));
    assert(presses(order2, vel).skip(0) =~= presses(order2, vel));
}

/// How a message changes the number of sounding copies of note `x` (a
/// channel and a key): one more for a press, one less for a release.
pub open spec fn note_delta(d: MidiData, x: (u8, u8)) -> int {
    match d.message {
        MidiMessage::NoteOn { key, .. } => if (d.channel, key) == x { 1 } else { 0 },
        MidiMessage::NoteOff { key, .. } => if (d.channel, key) == x { -1 } else { 0 },
        _ => 0,
    }
}

/// Presses of note `x` minus releases of it among the messages.
pub open spec fn net_presses(out: Seq<MidiData>, x: (u8, u8)) -> int
    decreases out.len(),
{
    if out.len() == 0 {
        0
    } else {
        net_presses(out.drop_last(), x) + note_delta(out.last(), x)
    }
}

/// How many copies of note `x` the playing chord holds.
pub open spec fn sounding(playing: Option<Seq<(u8, u8)>>, x: (u8, u8)) -> int {
    match playing {
        Some(c) => c.to_multiset().count(x) as int,
        None => 0,
    }
}

proof fn lemma_net_concat(a: Seq<MidiData>, b: Seq<MidiData>, x: (u8, u8))
    ensures
        net_presses(a + b, x) == net_presses(a, x) + net_presses(b, x),
    decreases b.len(),
{
    if b.len() == 0 {
        assert(a + b =~= a);
    } else {
        lemma_net_concat(a, b.drop_last(), x);
        assert((a + b).drop_last() =~= a + b.drop_last());
        assert((a + b).last() == b.last());
    }
}

proof fn lemma_net_chord(c: Seq<(u8, u8)>, x: (u8, u8), k: int)
    requires
        0 <= k <= c.len(),
    ensures
        net_presses(note_ons(c).take(k), x) == c.take(k).to_multiset().count(x),
        net_presses(note_offs(c).take(k), x) == -c.take(k).to_multiset().count(x),
        c.take(k).to_multiset().count(x) <= c.to_multiset().count(x),
    decreases k,
{
    broadcast use vstd::multiset::group_multiset_properties;
    if k == 0 {
        assert(c.take(0) =~= Seq::<(u8, u8)>::empty());
        assert(note_ons(c).take(0) =~= Seq::<MidiData>::empty());
        assert(note_offs(c).take(0) =~= Seq::<MidiData>::empty());
        lemma_count_prefix(c, x, 0);
    } else {
        lemma_net_chord(c, x, k - 1);
        assert(c.take(k) =~= c.take(k - 1).push(c[k - 1]));
        assert(note_ons(c).take(k).drop_last() =~= note_ons(c).take(k - 1));
        assert(note_offs(c).take(k).drop_last() =~= note_offs(c).take(k - 1));
        assert(note_ons(c).take(k).last() == note_ons(c)[k - 1]);
        assert(note_offs(c).take(k).last() == note_offs(c)[k - 1]);
        lemma_count_prefix(c, x, k);
    }
}

proof fn lemma_count_prefix(c: Seq<(u8, u8)>, x: (u8, u8), k: int)
    requires
        0 <= k <= c.len(),
    ensures
        c.take(k).to_multiset().count(x) <= c.to_multiset().count(x),
    decreases c.len() - k,
{
    broadcast use vstd::multiset::group_multiset_properties;
    if k == c.len() {
        assert(c.take(k) =~= c);
    } else {
        lemma_count_prefix(c, x, k + 1);
        assert(c.take(k + 1) =~= c.take(k).push(c[k]));
    }
}

proof fn lemma_stop_prefix(playing: Option<Seq<(u8, u8)>>, x: (u8, u8), k: int)
    requires
        0 <= k <= stop_playing(playing).len(),
    ensures
        sounding(playing, x) + net_presses(stop_playing(playing).take(k), x) >= 0,
        sounding(playing, x) + net_presses(stop_playing(playing), x) == 0,
{
    match playing {
        Some(c) => {
            lemma_net_chord(c, x, k);
            lemma_net_chord(c, x, c.len() as int);
            assert(c.take(c.len() as int) =~= c);
            assert(note_offs(c).take(c.len() as int) =~= note_offs(c));
        },
        None => {
            assert(stop_playing(playing).take(k) =~= Seq::<MidiData>::empty());
        },
    }
}

proof fn lemma_step_balance(
    mapping: Map<Seq<(u8, u8)>, Seq<(u8, u8)>>,
    pressed: Seq<(u8, u8)>,
    playing: Option<Seq<(u8, u8)>>,
    d: MidiData,
    x: (u8, u8),
    k: int,
)
    requires
        0 <= k <= chordifier_output(mapping, pressed, playing, d).len(),
    ensures
        sounding(playing, x) + net_presses(chordifier_output(mapping, pressed, playing, d), x)
            == sounding(chordifier_playing(mapping, pressed, playing, d), x),
        sounding(playing, x) + net_presses(chordifier_output(mapping, pressed, playing, d).take(k), x) >= 0,
{
    let out = chordifier_output(mapping, pressed, playing, d);
    let now = pressed_after(pressed, d);
    if !(d.message is NoteOn || d.message is NoteOff) {
        assert(out =~= seq![d]);
        assert(seq![d].drop_last() =~= Seq::<MidiData>::empty());
        assert(net_presses(Seq::<MidiData>::empty(), x) == 0);
        assert(note_delta(d, x) == 0);
        assert(net_presses(seq![d], x) == 0);
        if k == 1 {
            assert(out.take(k) =~= out);
        } else {
            assert(out.take(k) =~= Seq::<MidiData>::empty());
        }
        assert(sounding(playing, x) >= 0);
    } else {
        let offs = stop_playing(playing);
        lemma_stop_prefix(playing, x, offs.len() as int);
        assert(offs.take(offs.len() as int) =~= offs);
        assert(sounding(playing, x) + net_presses(offs, x) == 0);
        if mapping.contains_key(now) {
            let v = mapping[now];
            assert(out == offs + note_ons(v));
            let ons = note_ons(v);
            lemma_net_concat(offs, ons, x);
            lemma_net_chord(v, x, v.len() as int);
            assert(v.take(v.len() as int) =~= v);
            assert(ons.take(v.len() as int) =~= ons);
            if k <= offs.len() {
                assert(out.take(k) =~= offs.take(k));
                lemma_stop_prefix(playing, x, k);
            } else {
                assert(out.take(k) =~= offs + ons.take(k - offs.len()));
                lemma_net_concat(offs, ons.take(k - offs.len()), x);
                lemma_net_chord(v, x, k - offs.len());
            }
        } else {
            assert(out == offs);
            lemma_stop_prefix(playing, x, k);
        }
    }
}

/// Over any run of the device, the presses and releases it sends balance
/// the chord that plays: for every note, the copies that sounded at the
/// start, plus the presses sent, minus the releases sent, are the copies
/// that sound at the end; and at no point in what is sent has a note been
/// released more often than it was pressed or sounding.
pub proof fn lemma_run_balance(
    mapping: Map<Seq<(u8, u8)>, Seq<(u8, u8)>>,
    pressed: Seq<(u8, u8)>,
    playing: Option<Seq<(u8, u8)>>,
    ds: Seq<MidiData>,
    x: (u8, u8),
)
    ensures
        sounding(playing, x) + net_presses(run_output(mapping, pressed, playing, ds), x)
            == sounding(run_playing(mapping, pressed, playing, ds), x),
        forall|k: int|
            0 <= k <= run_output(mapping, pressed, playing, ds).len() ==> sounding(playing, x)
                + #[trigger] net_presses(run_output(mapping, pressed, playing, ds).take(k), x) >= 0,
    decreases ds.len(),
{
    let out = run_output(mapping, pressed, playing, ds);
    if ds.len() == 0 {
        assert forall|k: int| 0 <= k <= out.len() implies sounding(playing, x)
            + #[trigger] net_presses(out.take(k), x) >= 0 by {
            assert(out.take(k) =~= Seq::<MidiData>::empty());
            assert(sounding(playing, x) >= 0);
        }
    } else {
        let d = ds[0];
        let step = chordifier_output(mapping, pressed, playing, d);
        let p2 = pressed_after(pressed, d);
        let pl2 = chordifier_playing(mapping, pressed, playing, d);
        let rest = run_output(mapping, p2, pl2, ds.drop_first());
        lemma_run_balance(mapping, p2, pl2, ds.drop_first(), x);
        lemma_step_balance(mapping, pressed, playing, d, x, 0);
        lemma_net_concat(step, rest, x);
        assert(out == step + rest);
        assert forall|k: int| 0 <= k <= out.len() implies sounding(playing, x)
            + #[trigger] net_presses(out.take(k), x) >= 0 by {
            if k <= step.len() {
                assert(out.take(k) =~= step.take(k));
                lemma_step_balance(mapping, pressed, playing, d, x, k);
            } else {
                assert(out.take(k) =~= step + rest.take(k - step.len()));
                lemma_net_concat(step, rest.take(k - step.len()), x);
                assert(sounding(pl2, x) + net_presses(rest.take(k - step.len()), x) >= 0);
            }
        }
    }
}

/// A series of calls of `midi_action`: device `cs[i]` is handed `ds[i]`,
/// answers with `outs[i]` and becomes `cs[i + 1]`.
pub open spec fn is_series(cs: Seq<Chordifier>, ds: Seq<MidiData>, outs: Seq<Seq<MidiData>>) -> bool {
    &&& cs.len() == ds.len() + 1
    &&& outs.len() == ds.len()
    &&& forall|i: int| #![trigger outs[i]] 0 <= i < ds.len() ==> cs[i].step(ds[i], outs[i], cs[i + 1])
}

/// A series of calls sends, in all, what the run of its first device over
/// the same messages sends, and ends up playing what that run plays.
pub proof fn lemma_series_is_run(cs: Seq<Chordifier>, ds: Seq<MidiData>, outs: Seq<Seq<MidiData>>)
    requires
        is_series(cs, ds, outs),
    ensures
        outs.flatten() == run_output(cs[0].mapping_view(), cs[0].pressed_view(), cs[0].playing_view(), ds),
        cs.last().playing_view() == run_playing(cs[0].mapping_view(), cs[0].pressed_view(), cs[0].playing_view(), ds),
    decreases ds.len(),
{
    if ds.len() > 0 {
        let cs2 = cs.drop_first();
        let ds2 = ds.drop_first();
        let outs2 = outs.drop_first();
        assert(cs[0].step(ds[0], outs[0], cs[1]));
        assert forall|i: int| 0 <= i < ds2.len() implies cs2[i].step(ds2[i], #[trigger] outs2[i], cs2[i + 1]) by {
            assert(cs[i + 1].step(ds[i + 1], outs[i + 1], cs[i + 2]));
        }
        lemma_series_is_run(cs2, ds2, outs2);
        assert(cs2.last() == cs.last());
    }
}

/// Over any series of calls of `midi_action` on a device that starts with
/// nothing playing, the presses and releases sent balance the chord that
/// plays: for every note, presses minus releases are the copies that sound
/// at the end (none once nothing plays), and at no point in what is sent
/// has a note been released more often than pressed.
pub proof fn lemma_series_balance(cs: Seq<Chordifier>, ds: Seq<MidiData>, outs: Seq<Seq<MidiData>>, x: (u8, u8))
    requires
        is_series(cs, ds, outs),
        cs[0].playing_view() is None,
    ensures
        net_presses(outs.flatten(), x) == sounding(cs.last().playing_view(), x),
        forall|k: int| 0 <= k <= outs.flatten().len() ==> #[trigger] net_presses(outs.flatten().take(k), x) >= 0,
{
    lemma_series_is_run(cs, ds, outs);
    lemma_run_balance(cs[0].mapping_view(), cs[0].pressed_view(), cs[0].playing_view(), ds, x);
}

proof fn lemma_series_presses(
    cs: Seq<Chordifier>,
    outs: Seq<Seq<MidiData>>,
    order: Seq<(u8, u8)>,
    key: Seq<(u8, u8)>,
    target: Seq<(u8, u8)>,
    vel: u8,
    i: int,
)
    requires
        key.len() > 0,
        same_notes(order, key),
        is_series(cs, presses(order, vel), outs),
        cs[0].mapping_view() == chords_model(seq![(key, target)]),
        cs[0].pressed_view() == Seq::<(u8, u8)>::empty(),
        cs[0].playing_view() is None,
        0 <= i < order.len(),
    ensures
        cs[i].mapping_view() == chords_model(seq![(key, target)]),
        cs[i].pressed_view() == order.take(i),
        cs[i].playing_view() is None,
        i + 1 < order.len() ==> outs[i] == Seq::<MidiData>::empty(),
        i + 1 == order.len() ==> outs[i] == note_ons(target),
    decreases i,
{
    let m = chords_model(seq![(key, target)]);
    lemma_single_entry(key, target);
    assert(order.to_multiset().len() == order.len());
    assert(key.to_multiset().len() == key.len());
    if i == 0 {
        assert(order.take(0) =~= Seq::<(u8, u8)>::empty());
    } else {
        lemma_series_presses(cs, outs, order, key, target, vel, i - 1);
        let d = presses(order, vel)[i - 1];
        assert(cs[i - 1].step(d, outs[i - 1], cs[i]));
        let now = pressed_after(order.take(i - 1), d);
        assert(now =~= order.take(i));
        assert(now.to_multiset().len() == now.len());
        assert(!same_notes(now, key));
        assert(!m.contains_key(now));
        assert(chordifier_playing(m, order.take(i - 1), None, d) == None::<Seq<(u8, u8)>>);
    }
    let d = presses(order, vel)[i];
    assert(cs[i].step(d, outs[i], cs[i + 1]));
    let now = pressed_after(order.take(i), d);
    assert(now =~= order.take(i + 1));
    if i + 1 == order.len() {
        assert(order.take(i + 1) =~= order);
        assert(m.contains_key(now));
        assert(chordifier_output(m, order.take(i), None, d) =~= note_ons(target));
    } else {
        assert(now.to_multiset().len() == now.len());
        assert(!same_notes(now, key));
        assert(!m.contains_key(now));
        assert(chordifier_output(m, order.take(i), None, d) =~= Seq::<MidiData>::empty());
    }
}

/// Two series of calls on devices whose table holds one chord, nothing
/// pressed and nothing playing, fed the key presses of that chord in two
/// orders: each sends nothing until the last key, then exactly the presses
/// of the target chord, and each ends up playing it.
pub proof fn lemma_series_press_order(
    cs1: Seq<Chordifier>,
    outs1: Seq<Seq<MidiData>>,
    order1: Seq<(u8, u8)>,
    cs2: Seq<Chordifier>,
    outs2: Seq<Seq<MidiData>>,
    order2: Seq<(u8, u8)>,
    key: Seq<(u8, u8)>,
    target: Seq<(u8, u8)>,
    vel: u8,
)
    requires
        key.len() > 0,
        same_notes(order1, key),
        same_notes(order2, key),
        is_series(cs1, presses(order1, vel), outs1),
        is_series(cs2, presses(order2, vel), outs2),
        cs1[0].mapping_view() == chords_model(seq![(key, target)]),
        cs2[0].mapping_view() == chords_model(seq![(key, target)]),
        cs1[0].pressed_view() == Seq::<(u8, u8)>::empty(),
        cs2[0].pressed_view() == Seq::<(u8, u8)>::empty(),
        cs1[0].playing_view() is None,
        cs2[0].playing_view() is None,
    ensures
        forall|i: int| 0 <= i < outs1.len() - 1 ==> #[trigger] outs1[i] == Seq::<MidiData>::empty(),
        forall|i: int| 0 <= i < outs2.len() - 1 ==> #[trigger] outs2[i] == Seq::<MidiData>::empty(),
        outs1.last() == note_ons(target),
        outs2.last() == note_ons(target),
        outs1.flatten() == note_ons(target),
        outs2.flatten() == note_ons(target),
        cs1.last().playing_view() == Some(target),
        cs2.last().playing_view() == Some(target),
{
    assert(order1.to_multiset().len() == order1.len());
    assert(order2.to_multiset().len() == order2.len());
    assert(key.to_multiset().len() == key.len());
    assert forall|i: int| 0 <= i < outs1.len() - 1 implies #[trigger] outs1[i] == Seq::<MidiData>::empty() by {
        lemma_series_presses(cs1, outs1, order1, key, target, vel, i);
    }
    assert forall|i: int| 0 <= i < outs2.len() - 1 implies #[trigger] outs2[i] == Seq::<MidiData>::empty() by {
        lemma_series_presses(cs2, outs2, order2, key, target, vel, i);
    }
    lemma_series_presses(cs1, outs1, order1, key, target, vel, order1.len() - 1);
    lemma_series_presses(cs2, outs2, order2, key, target, vel, order2.len() - 1);
    lemma_series_is_run(cs1, presses(order1, vel), outs1);
    lemma_series_is_run(cs2, presses(order2, vel), outs2);
    lemma_press_order_irrelevant(key, target, order1, order2, vel);
}

/// A key press (of any note).
pub open spec fn is_press(d: MidiData) -> bool {
    d.message is NoteOn
}

/// A key release (of any note).
pub open spec fn is_release(d: MidiData) -> bool {
    d.message is NoteOff
}

/// A press of note `x` (channel, key).
pub open spec fn presses_note(d: MidiData, x: (u8, u8)) -> bool {
    match d.message {
        MidiMessage::NoteOn { key, .. } => d.channel == x.0 && key == x.1,
        _ => false,
    }
}

/// A release of note `x` (channel, key).
pub open spec fn releases_note(d: MidiData, x: (u8, u8)) -> bool {
    match d.message {
        MidiMessage::NoteOff { key, .. } => d.channel == x.0 && key == x.1,
        _ => false,
    }
}

/// Note `x` is in the chord that plays, if one does.
pub open spec fn plays_note(playing: Option<Seq<(u8, u8)>>, x: (u8, u8)) -> bool {
    match playing {
        Some(c) => c.contains(x),
        None => false,
    }
}

/// In every answer of the chord device, every release comes before every
/// press: the chord that stops is released before the chord that starts is
/// pressed. After a key is pressed or released, each note of the chord that
/// then plays is pressed in the answer and not released after that, and
/// each note of the chord that played before and no longer plays is
/// released in the answer and not pressed after that. The answer presses
/// only notes of the chord that then plays and releases only notes of the
/// chord that played before.
pub proof fn lemma_answer_releases_first(c: Chordifier, data: MidiData, out: Seq<MidiData>, after: Chordifier)
    requires
        c.step(data, out, after),
    ensures
        forall|i: int, j: int| 0 <= i < j < out.len() && #[trigger] is_press(out[i]) ==> !#[trigger] is_release(out[j]),
        is_note_message(data.message) ==> forall|x: (u8, u8)| #[trigger] plays_note(after.playing_view(), x) ==> exists|i: int|
            0 <= i < out.len() && presses_note(out[i], x) && forall|j: int| i < j < out.len() ==> !releases_note(#[trigger] out[j], x),
        is_note_message(data.message) ==> forall|x: (u8, u8)|
            #[trigger] plays_note(c.playing_view(), x) && !plays_note(after.playing_view(), x) ==> exists|i: int|
                0 <= i < out.len() && releases_note(out[i], x) && forall|j: int| i < j < out.len() ==> !presses_note(#[trigger] out[j], x),
        forall|i: int, x: (u8, u8)| 0 <= i < out.len() && #[trigger] presses_note(out[i], x) ==> plays_note(after.playing_view(), x),
        forall|i: int, x: (u8, u8)| 0 <= i < out.len() && #[trigger] releases_note(out[i], x) ==> plays_note(c.playing_view(), x),
{
    let m = c.mapping_view();
    let p = c.pressed_view();
    let pl = c.playing_view();
    let now = pressed_after(p, data);
    let offs = stop_playing(pl);
    if !is_note_message(data.message) {
        assert(out == seq![data]);
    } else {
        let ons = if m.contains_key(now) { note_ons(m[now]) } else { Seq::<MidiData>::empty() };
        assert(out =~= offs + ons);
        assert forall|i: int, x: (u8, u8)| 0 <= i < out.len() && #[trigger] presses_note(out[i], x) implies plays_note(after.playing_view(), x) by {
            if i < offs.len() {
                assert(out[i] == offs[i]);
            } else {
                assert(out[i] == ons[i - offs.len()]);
                assert(m[now][i - offs.len()] == x);
            }
        }
        assert forall|i: int, x: (u8, u8)| 0 <= i < out.len() && #[trigger] releases_note(out[i], x) implies plays_note(pl, x) by {
            if i < offs.len() {
                assert(out[i] == offs[i]);
                assert(pl->Some_0[i] == x);
            } else {
                assert(out[i] == ons[i - offs.len()]);
            }
        }
        assert forall|i: int, j: int| 0 <= i < j < out.len() && #[trigger] is_press(out[i]) implies !#[trigger] is_release(out[j]) by {
            if i < offs.len() {
                assert(out[i] == offs[i]);
            } else {
                assert(out[j] == ons[j - offs.len()]);
            }
        }
        assert forall|x: (u8, u8)| #[trigger] plays_note(after.playing_view(), x) implies exists|i: int|
            0 <= i < out.len() && presses_note(out[i], x) && forall|j: int| i < j < out.len() ==> !releases_note(#[trigger] out[j], x) by {
            let chord = m[now];
            let k = choose|k: int| 0 <= k < chord.len() && chord[k] == x;
            let i = offs.len() + k;
            assert(out[i] == ons[k]);
            assert forall|j: int| i < j < out.len() implies !releases_note(#[trigger] out[j], x) by {
                assert(out[j] == ons[j - offs.len()]);
            }
        }
        assert forall|x: (u8, u8)|
            #[trigger] plays_note(pl, x) && !plays_note(after.playing_view(), x) implies exists|i: int|
                0 <= i < out.len() && releases_note(out[i], x) && forall|j: int| i < j < out.len() ==> !presses_note(#[trigger] out[j], x) by {
            let old_chord = pl->Some_0;
            let k = choose|k: int| 0 <= k < old_chord.len() && old_chord[k] == x;
            assert(out[k] == offs[k]);
            assert forall|j: int| k < j < out.len() implies !presses_note(#[trigger] out[j], x) by {
                if j >= offs.len() {
                    assert(out[j] == ons[j - offs.len()]);
                    let chord = m[now];
                    if presses_note(out[j], x) {
                        assert(chord[j - offs.len()] == x);
                        assert(chord.contains(x));
                    }
                } else {
                    assert(out[j] == offs[j]);
                }
            }
        }
    }
}

} // verus!
