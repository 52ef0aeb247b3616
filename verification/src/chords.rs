//! Chords built from a root note and a chord type, and the mapping from
//! (root key, chord-type key) chords to them.
use vstd::prelude::*;
use vstd::multiset::Multiset;
use vstd::std_specs::convert::FromSpecImpl;

use crate::chordifier::{
    chords_model, consistent_entries, entries_view, lemma_chords_model_order_free, same_notes,
    ChannelChord, ChannelNote, Channel, ChordsMap, Note, pairs_wf,
};

verus! {

/// The kinds of chord that a chord-type key selects.
#[derive(Clone, Copy, Debug, PartialEq, Eq, Hash, Structural)]
pub enum ChordType {
    MAJ,
    MIN,
    DIM,
    AUG,
    DOM7,
    MIN7,
    MAJ7,
    MINMAJ7,
    DIM7,
    HDIM7,
    AUGMAJ7,
}

/// The semitones above the root of each note of the chord type.
pub open spec fn intervals_of(t: ChordType) -> Seq<u8> {
    match t {
        ChordType::MAJ => seq![0u8, 4, 7],
        ChordType::MIN => seq![0u8, 3, 7],
        ChordType::DIM => seq![0u8, 3, 6],
        ChordType::AUG => seq![0u8, 4, 8],
        ChordType::DOM7 => seq![0u8, 4, 7, 10],
        ChordType::MIN7 => seq![0u8, 3, 7, 10],
        ChordType::MAJ7 => seq![0u8, 4, 7, 11],
        ChordType::MINMAJ7 => seq![0u8, 3, 7, 11],
        ChordType::DIM7 => seq![0u8, 3, 6, 9],
        ChordType::HDIM7 => seq![0u8, 3, 6, 10],
        ChordType::AUGMAJ7 => seq![0u8, 4, 8, 11],
    }
}

impl ChordType {
    /// The semitones above the root of each note of the chord, root first.
    pub fn intervals(&self) -> (r: Vec<u8>)
        ensures
            r@ == intervals_of(*self),
    {
        let r = match self {
            ChordType::MAJ => vec![0u8, 4, 7],
            ChordType::MIN => vec![0u8, 3, 7],
            ChordType::DIM => vec![0u8, 3, 6],
            ChordType::AUG => vec![0u8, 4, 8],
            ChordType::DOM7 => vec![0u8, 4, 7, 10],
            ChordType::MIN7 => vec![0u8, 3, 7, 10],
            ChordType::MAJ7 => vec![0u8, 4, 7, 11],
            ChordType::MINMAJ7 => vec![0u8, 3, 7, 11],
            ChordType::DIM7 => vec![0u8, 3, 6, 9],
            ChordType::HDIM7 => vec![0u8, 3, 6, 10],
            ChordType::AUGMAJ7 => vec![0u8, 4, 8, 11],
        };
        assert(r@ =~= intervals_of(*self));
        r
    }
}

/// `u7 + u7` of midly on two 7-bit values, read back with `as_int`: the sum
/// wraps around at 128.
#[verifier::external_body]
fn u7_add(a: u8, b: u8) -> (r: u8)
    requires
        a < 128,
        b < 128,
    ensures
        r == (a + b) % 128,
{
    (midly::num::u7::new(a) + midly::num::u7::new(b)).as_int()
}

/// Notes without channels.
#[derive(Clone, Debug, PartialEq, Eq, Hash)]
pub struct Chord {
    pub notes: Vec<Note>,
}

impl View for Chord {
    type V = Seq<u8>;

    open spec fn view(&self) -> Seq<u8> {
        self.notes@.map_values(|n: Note| n.note)
    }
}

impl From<Vec<Note>> for Chord {
    fn from(notes: Vec<Note>) -> (r: Chord) {
        Chord { notes }
    }
}

impl FromSpecImpl<Vec<Note>> for Chord {
    open spec fn obeys_from_spec() -> bool {
        true
    }

    open spec fn from_spec(notes: Vec<Note>) -> Chord {
        Chord { notes }
    }
}

/// The notes of a chord of type `t` on `root`, each wrapped into the MIDI
/// range as midly's 7-bit addition does.
pub open spec fn chord_notes(root: u8, t: ChordType) -> Seq<u8> {
    intervals_of(t).map_values(|x: u8| ((x + root) % 128) as u8)
}

/// A chord given by its root and its type.
pub struct ChordByType {
    pub root: Note,
    pub chord_type: ChordType,
}

impl ChordByType {
    /// The chord's notes: each interval of the chord type counted up from
    /// the root, root first.
    pub fn to_chord(&self) -> (r: Chord)
        requires
            self.root.wf(),
        ensures
            r@ == chord_notes(self.root.note, self.chord_type),
            r.wf(),
    {
        let intervals = self.chord_type.intervals();
        let mut notes: Vec<Note> = Vec::new();
        let mut i: usize = 0;
        proof {
            lemma_intervals_small(self.chord_type);
        }
        while i < intervals.len()
            invariant
                i <= intervals@.len(),
                self.root.note < 128,
                intervals@ == intervals_of(self.chord_type),
                forall|j: int| 0 <= j < intervals@.len() ==> #[trigger] intervals@[j] < 12,
                forall|j: int| 0 <= j < notes@.len() ==> (#[trigger] notes@[j]).wf(),
                notes@.map_values(|n: Note| n.note) =~= chord_notes(self.root.note, self.chord_type).take(i as int),
            decreases intervals@.len() - i,
        {
            let ghost before = notes@;
            let n = u7_add(intervals[i], self.root.note);
            notes.push(Note::new(n));
            proof {
                let cn = chord_notes(self.root.note, self.chord_type);
                assert(cn[i as int] == n);
                assert(cn.take(i + 1) =~= cn.take(i as int).push(n));
                assert(notes@.map_values(|n: Note| n.note) =~= before.map_values(|n: Note| n.note).push(n));
            }
            i = i + 1;
        }
        Chord { notes }
    }
}

/// The channel that chords built from notes alone are put on.
pub const DEFAULT_CHANNEL: u8 = 0;

/// The notes, in order, all on `channel`.
pub open spec fn on_channel(channel: u8, notes: Seq<u8>) -> Seq<(u8, u8)> {
    notes.map_values(|n: u8| (channel, n))
}

impl Chord {
    /// Every note is valid.
    pub open spec fn wf(self) -> bool {
        forall|i: int| 0 <= i < self.notes@.len() ==> (#[trigger] self.notes@[i]).wf()
    }

    /// The same notes, in the same order, all on `channel`.
    pub fn on_channel(&self, channel: u8) -> (r: ChannelChord)
        requires
            channel < 16,
            self.wf(),
        ensures
            r@ == on_channel(channel, self@),
            r.wf(),
    {
        let mut notes: Vec<ChannelNote> = Vec::new();
        let mut i: usize = 0;
        while i < self.notes.len()
            invariant
                i <= self.notes@.len(),
                channel < 16,
                self.wf(),
                notes@.map_values(|n: ChannelNote| n.pair()) =~= on_channel(channel, self@).take(i as int),
            decreases self.notes@.len() - i,
        {
            let ghost before = notes@;
            let n = self.notes[i];
            notes.push(ChannelNote { note: n, channel: Channel::new(channel) });
            proof {
                let target = on_channel(channel, self@);
                assert(target.take(i + 1) =~= target.take(i as int).push((channel, n.note)));
                assert(notes@.map_values(|n: ChannelNote| n.pair()) =~= before.map_values(|n: ChannelNote| n.pair()).push((channel, n.note)));
            }
            i = i + 1;
        }
        let r = ChannelChord { notes };
        assert(r@ =~= on_channel(channel, self@));
        r
    }
}

/// The mapping's entries for one root key: for each chord-type key, in
/// order, the two keys pressed together stand for the chord that the root
/// and the type select.
pub open spec fn root_entries(root: (Note, Note), types: Seq<(Note, ChordType)>) -> Seq<(Seq<(u8, u8)>, Seq<(u8, u8)>)> {
    types.map_values(|t: (Note, ChordType)| mapping_entry(root, t))
}

/// The entry for one root key and one chord-type key: the two keys pressed
/// together on the default channel stand for the chord of that type on the
/// root that the root key selects.
pub open spec fn mapping_entry(root: (Note, Note), t: (Note, ChordType)) -> (Seq<(u8, u8)>, Seq<(u8, u8)>) {
    (seq![(0u8, root.0.note), (0u8, t.0.note)], on_channel(0, chord_notes(root.1.note, t.1)))
}

/// The mapping's entries for all root keys, in order.
pub open spec fn mapping_entries(roots: Seq<(Note, Note)>, types: Seq<(Note, ChordType)>) -> Seq<(Seq<(u8, u8)>, Seq<(u8, u8)>)>
    decreases roots.len(),
{
    if roots.len() == 0 {
        Seq::empty()
    } else {
        mapping_entries(roots.drop_last(), types) + root_entries(roots.last(), types)
    }
}

/// Maps each pair of a root key and a chord-type key, pressed together on
/// the default channel, to the chord of that type on the root that the root
/// key selects. Where two pairs hold the same keys, the later one wins.
pub fn make_mapping(roots: Vec<(Note, Note)>, chord_types: Vec<(Note, ChordType)>) -> (r: ChordsMap)
    requires
        forall|i: int| 0 <= i < roots@.len() ==> (#[trigger] roots@[i]).0.wf() && roots@[i].1.wf(),
        forall|i: int| 0 <= i < chord_types@.len() ==> (#[trigger] chord_types@[i]).0.wf(),
    ensures
        r@ == chords_model(mapping_entries(roots@, chord_types@)),
        r.wf(),
{
    let mut map: Vec<(ChannelChord, ChannelChord)> = Vec::new();
    let mut i: usize = 0;
    while i < roots.len()
        invariant
            i <= roots@.len(),
            forall|i: int| 0 <= i < roots@.len() ==> (#[trigger] roots@[i]).0.wf() && roots@[i].1.wf(),
            forall|i: int| 0 <= i < chord_types@.len() ==> (#[trigger] chord_types@[i]).0.wf(),
            entries_view(map@) == mapping_entries(roots@.take(i as int), chord_types@),
            forall|k: int| 0 <= k < map@.len() ==> (#[trigger] map@[k]).1.wf(),
        decreases roots@.len() - i,
    {
        let (note1, root) = roots[i];
        let ghost base = entries_view(map@);
        let mut j: usize = 0;
        while j < chord_types.len()
            invariant
                i < roots@.len(),
                j <= chord_types@.len(),
                roots@[i as int] == (note1, root),
                note1.wf(),
                root.wf(),
                forall|i: int| 0 <= i < chord_types@.len() ==> (#[trigger] chord_types@[i]).0.wf(),
                entries_view(map@) == base + root_entries((note1, root), chord_types@).take(j as int),
                forall|k: int| 0 <= k < map@.len() ==> (#[trigger] map@[k]).1.wf(),
            decreases chord_types@.len() - j,
        {
            let (note2, chord_type) = chord_types[j];
            let chord = (ChordByType { root, chord_type }).to_chord();
            let target = chord.on_channel(DEFAULT_CHANNEL);
            let mut key_notes: Vec<ChannelNote> = Vec::new();
            key_notes.push(ChannelNote::new(DEFAULT_CHANNEL, note1.note));
            key_notes.push(ChannelNote::new(DEFAULT_CHANNEL, note2.note));
            let key = ChannelChord::from(key_notes);
            let ghost before = entries_view(map@);
            map.push((key, target));
            proof {
                let re = root_entries((note1, root), chord_types@);
                assert(key@ =~= seq![(0u8, note1.note), (0u8, note2.note)]);
                assert(re[j as int] == (key@, target@));
                assert(re.take(j + 1) =~= re.take(j as int).push(re[j as int]));
                assert(entries_view(map@) =~= before.push((key@, target@)));
            }
            j = j + 1;
        }
        proof {
            let re = root_entries((note1, root), chord_types@);
            assert(re.take(j as int) =~= re);
            assert(roots@.take(i + 1).drop_last() =~= roots@.take(i as int));
            assert(roots@.take(i + 1).last() == (note1, root));
        }
        i = i + 1;
    }
    assert(roots@.take(i as int) =~= roots@);
    ChordsMap::new(map)
}

/// No key occurs twice with different values, as in a map.
pub open spec fn keys_functional<V>(s: Seq<(Note, V)>) -> bool {
    forall|i: int, j: int|
        #![trigger s[i], s[j]]
        0 <= i < s.len() && 0 <= j < s.len() && s[i].0 == s[j].0 ==> s[i] == s[j]
}

/// No root key is also a chord-type key.
pub open spec fn keys_disjoint(roots: Seq<(Note, Note)>, types: Seq<(Note, ChordType)>) -> bool {
    forall|i: int, j: int|
        #![trigger roots[i], types[j]]
        0 <= i < roots.len() && 0 <= j < types.len() ==> roots[i].0 != types[j].0
}

/// `e` is the entry of some root key and some chord-type key.
spec fn is_mapping_entry(
    e: (Seq<(u8, u8)>, Seq<(u8, u8)>),
    roots: Seq<(Note, Note)>,
    types: Seq<(Note, ChordType)>,
) -> bool {
    exists|i: int, j: int| 0 <= i < roots.len() && 0 <= j < types.len() && e == mapping_entry(roots[i], types[j])
}

proof fn lemma_mapping_entries_contains(roots: Seq<(Note, Note)>, types: Seq<(Note, ChordType)>)
    ensures
        mapping_entries(roots, types).len() == roots.len() * types.len(),
        forall|i: int, j: int|
            0 <= i < roots.len() && 0 <= j < types.len() ==> #[trigger] mapping_entries(roots, types).contains(
                mapping_entry(roots[i], types[j]),
            ),
        forall|k: int|
            0 <= k < mapping_entries(roots, types).len() ==> is_mapping_entry(
                #[trigger] mapping_entries(roots, types)[k],
                roots,
                types,
            ),
    decreases roots.len(),
{
    if roots.len() > 0 {
        let prev_roots = roots.drop_last();
        let prev = mapping_entries(prev_roots, types);
        let last = root_entries(roots.last(), types);
        let all = mapping_entries(roots, types);
        lemma_mapping_entries_contains(prev_roots, types);
        assert(all == prev + last);
        assert(roots.len() * types.len() == prev_roots.len() * types.len() + types.len()) by (nonlinear_arith)
            requires
                prev_roots.len() + 1 == roots.len(),
        ;
        assert forall|i: int, j: int| 0 <= i < roots.len() && 0 <= j < types.len() implies #[trigger] all.contains(
            mapping_entry(roots[i], types[j]),
        ) by {
            if i < roots.len() - 1 {
                assert(prev_roots[i] == roots[i]);
                assert(prev.contains(mapping_entry(prev_roots[i], types[j])));
                let k = choose|k: int| 0 <= k < prev.len() && prev[k] == mapping_entry(prev_roots[i], types[j]);
                assert(all[k] == prev[k]);
            } else {
                assert(all[prev.len() + j] == last[j]);
            }
        }
        assert forall|k: int| 0 <= k < all.len() implies is_mapping_entry(#[trigger] all[k], roots, types) by {
            if k < prev.len() {
                assert(all[k] == prev[k]);
                assert(is_mapping_entry(prev[k], prev_roots, types));
                let (i, j) = choose|i: int, j: int|
                    0 <= i < prev_roots.len() && 0 <= j < types.len() && prev[k] == mapping_entry(prev_roots[i], types[j]);
                assert(prev_roots[i] == roots[i]);
            } else {
                let j = k - prev.len();
                assert(all[k] == last[j]);
                assert(all[k] == mapping_entry(roots[roots.len() - 1], types[j]));
            }
        }
    }
}

proof fn lemma_two_same_notes(a: (u8, u8), b: (u8, u8), c: (u8, u8), d: (u8, u8))
    requires
        same_notes(seq![a, b], seq![c, d]),
    ensures
        (a == c && b == d) || (a == d && b == c),
{
    broadcast use vstd::seq_lib::group_to_multiset_ensures;
    broadcast use vstd::multiset::group_multiset_axioms;

    assert(seq![a, b] == seq![a].push(b));
    assert(seq![a] == Seq::<(u8, u8)>::empty().push(a));
    assert(seq![c, d] == seq![c].push(d));
    assert(seq![c] == Seq::<(u8, u8)>::empty().push(c));
    assert(Seq::<(u8, u8)>::empty().to_multiset() =~= Multiset::empty());
    let m1 = seq![a, b].to_multiset();
    let m2 = seq![c, d].to_multiset();
    assert(m1 == Multiset::<(u8, u8)>::empty().insert(a).insert(b));
    assert(m2 == Multiset::<(u8, u8)>::empty().insert(c).insert(d));
    assert(m1.count(a) == m2.count(a));
    assert(m1.count(b) == m2.count(b));
}

/// Building the mapping from root keys and chord-type keys given as maps
/// (no key twice with different values, and no key both a root key and a
/// chord-type key) gives the same table whatever order the two maps are
/// walked in.
pub proof fn lemma_make_mapping_order_free(
    roots1: Seq<(Note, Note)>,
    types1: Seq<(Note, ChordType)>,
    roots2: Seq<(Note, Note)>,
    types2: Seq<(Note, ChordType)>,
)
    requires
        keys_functional(roots1),
        keys_functional(types1),
        keys_disjoint(roots1, types1),
        forall|x: (Note, Note)| #[trigger] roots1.contains(x) == roots2.contains(x),
        forall|x: (Note, ChordType)| #[trigger] types1.contains(x) == types2.contains(x),
    ensures
        chords_model(mapping_entries(roots1, types1)) == chords_model(mapping_entries(roots2, types2)),
{
    let e1 = mapping_entries(roots1, types1);
    let e2 = mapping_entries(roots2, types2);
    lemma_mapping_entries_contains(roots1, types1);
    lemma_mapping_entries_contains(roots2, types2);
    assert forall|k1: int, k2: int|
        0 <= k1 < e1.len() && 0 <= k2 < e1.len() && #[trigger] same_notes(e1[k1].0, e1[k2].0) implies e1[k1].1
            == e1[k2].1 by {
        let (i1, j1) = choose|i: int, j: int|
            0 <= i < roots1.len() && 0 <= j < types1.len() && e1[k1] == mapping_entry(roots1[i], types1[j]);
        let (i2, j2) = choose|i: int, j: int|
            0 <= i < roots1.len() && 0 <= j < types1.len() && e1[k2] == mapping_entry(roots1[i], types1[j]);
        lemma_two_same_notes(
            (0u8, roots1[i1].0.note),
            (0u8, types1[j1].0.note),
            (0u8, roots1[i2].0.note),
            (0u8, types1[j2].0.note),
        );
        if roots1[i1].0.note == types1[j2].0.note {
            assert(roots1[i1].0 == types1[j2].0);
        }
        assert(roots1[i1].0 == roots1[i2].0);
        assert(types1[j1].0 == types1[j2].0);
    }
    assert(consistent_entries(e1));
    assert forall|x: (Seq<(u8, u8)>, Seq<(u8, u8)>)| #[trigger] e1.contains(x) == e2.contains(x) by {
        if e1.contains(x) {
            let k = choose|k: int| 0 <= k < e1.len() && e1[k] == x;
            let (i, j) = choose|i: int, j: int|
                0 <= i < roots1.len() && 0 <= j < types1.len() && e1[k] == mapping_entry(roots1[i], types1[j]);
            assert(roots1.contains(roots1[i]));
            assert(types1.contains(types1[j]));
            let i2 = choose|i2: int| 0 <= i2 < roots2.len() && roots2[i2] == roots1[i];
            let j2 = choose|j2: int| 0 <= j2 < types2.len() && types2[j2] == types1[j];
            assert(e2.contains(mapping_entry(roots2[i2], types2[j2])));
        }
        if e2.contains(x) {
            let k = choose|k: int| 0 <= k < e2.len() && e2[k] == x;
            let (i, j) = choose|i: int, j: int|
                0 <= i < roots2.len() && 0 <= j < types2.len() && e2[k] == mapping_entry(roots2[i], types2[j]);
            assert(roots2.contains(roots2[i]));
            assert(types2.contains(types2[j]));
            assert(roots1.contains(roots2[i]));
            assert(types1.contains(types2[j]));
            let i1 = choose|i1: int| 0 <= i1 < roots1.len() && roots1[i1] == roots2[i];
            let j1 = choose|j1: int| 0 <= j1 < types1.len() && types1[j1] == types2[j];
            assert(e1.contains(mapping_entry(roots1[i1], types1[j1])));
        }
    }
    lemma_chords_model_order_free(e1, e2);
}

proof fn lemma_intervals_small(t: ChordType)
    ensures
        forall|j: int| 0 <= j < intervals_of(t).len() ==> #[trigger] intervals_of(t)[j] < 12,
{
}

} // verus!
