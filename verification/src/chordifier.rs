//! Chords on MIDI channels, the table that maps pressed chords to the chords
//! that are played in their place, and the device that does the mapping.
use vstd::prelude::*;
use vstd::std_specs::convert::FromSpecImpl;
use fxhash::FxHashMap;
use itertools::Itertools;

use crate::midi_device::{MidiAction, MidiData, MidiMessage};

verus! {

broadcast use vstd::seq_lib::group_to_multiset_ensures;

/// `fxhash::FxHasher`, the hasher of the chord table.
#[verifier::external_type_specification]
#[verifier::external_body]
pub struct ExFxHasher(fxhash::FxHasher);

/// `std::hash::BuildHasherDefault`, which builds the chord table's hashers.
#[verifier::external_type_specification]
#[verifier::external_body]
#[verifier::reject_recursive_types(H)]
pub struct ExBuildHasherDefault<H>(std::hash::BuildHasherDefault<H>);

/// The table behind a [`ChordsMap`]: key chords, as (channel, note) pairs,
/// to the chords that they stand for.
pub type ChordTable = FxHashMap<Vec<(u8, u8)>, ChannelChord>;

/// What a chord table holds: each key chord, as (channel, note) pairs in
/// order, mapped to the notes of the chord that it stands for.
pub uninterp spec fn chord_table(m: ChordTable) -> Map<Seq<(u8, u8)>, Seq<(u8, u8)>>;

/// The table that maps no chord.
pub open spec fn no_chords() -> Map<Seq<(u8, u8)>, Seq<(u8, u8)>> {
    Map::empty()
}

/// `FxHashMap::default()`: a table that holds nothing.
#[verifier::external_body]
fn table_new() -> (r: ChordTable)
    ensures
        chord_table(r) == no_chords(),
{
    FxHashMap::default()
}

/// `HashMap::insert`: afterwards `key` maps to `value`, replacing what it
/// mapped to before; every other key keeps its value.
#[verifier::external_body]
fn table_insert(m: &mut ChordTable, key: Vec<(u8, u8)>, value: ChannelChord)
    ensures
        chord_table(*final(m)) == chord_table(*old(m)).insert(key@, value@),
{
    m.insert(key, value);
}

/// `HashMap::get`: the value stored under a key equal to `key`, if any.
#[verifier::external_body]
fn table_get<'a>(m: &'a ChordTable, key: &Vec<(u8, u8)>) -> (r: Option<&'a ChannelChord>)
    ensures
        r is Some <==> chord_table(*m).contains_key(key@),
        r matches Some(c) ==> c@ == chord_table(*m)[key@],
{
    m.get(key)
}

/// `Itertools::permutations(n)` on the `n` items of `items`, collected: every
/// ordering of the items by position. Each result holds the same items as
/// `items`, and every sequence that holds the same items appears among the
/// results. How many results there are (n!, counting orderings of equal
/// items apart) is left unsaid.
#[verifier::external_body]
fn all_orderings(items: Vec<(u8, u8)>) -> (r: Vec<Vec<(u8, u8)>>)
    ensures
        forall|i: int| 0 <= i < r@.len() ==> (#[trigger] r@[i])@.to_multiset() == items@.to_multiset(),
        forall|s: Seq<(u8, u8)>|
            #[trigger] s.to_multiset() == items@.to_multiset() ==> exists|i: int| 0 <= i < r@.len() && (#[trigger] r@[i])@ == s,
{
    let n = items.len();
    items.into_iter().permutations(n).collect()
}

/// `u7::from(raw)` of midly, read back with `as_int`: drops the top bit.
#[verifier::external_body]
fn u7_lossy(raw: u8) -> (r: u8)
    ensures
        r == raw % 128,
{
    midly::num::u7::from(raw).as_int()
}

/// `u4::from(raw)` of midly, read back with `as_int`: keeps the low four bits.
#[verifier::external_body]
fn u4_lossy(raw: u8) -> (r: u8)
    ensures
        r == raw % 16,
{
    midly::num::u4::from(raw).as_int()
}

/// A MIDI channel, below 16.
#[derive(Clone, Copy, Debug, PartialEq, Eq, Hash, Structural)]
pub struct Channel {
    pub channel: u8,
}

impl Channel {
    pub open spec fn wf(self) -> bool {
        self.channel < 16
    }

    pub fn new(channel: u8) -> (r: Self)
        requires
            channel < 16,
        ensures
            r.channel == channel,
    {
        Channel { channel }
    }
}

impl From<u8> for Channel {
    /// Keeps the low four bits, as midly's `u4` does.
    fn from(channel: u8) -> (r: Channel) {
        Channel::new(u4_lossy(channel))
    }
}

impl FromSpecImpl<u8> for Channel {
    open spec fn obeys_from_spec() -> bool {
        true
    }

    open spec fn from_spec(v: u8) -> Channel {
        Channel { channel: v % 16 }
    }
}

/// A MIDI note number, below 128.
#[derive(Clone, Copy, Debug, PartialEq, Eq, Hash, Structural)]
pub struct Note {
    pub note: u8,
}

impl Note {
    pub open spec fn wf(self) -> bool {
        self.note < 128
    }

    pub fn new(note: u8) -> (r: Self)
        requires
            note < 128,
        ensures
            r.note == note,
    {
        Note { note }
    }
}

impl From<u8> for Note {
    /// Drops the top bit, as midly's `u7` does.
    fn from(note: u8) -> (r: Note) {
        Note::new(u7_lossy(note))
    }
}

impl FromSpecImpl<u8> for Note {
    open spec fn obeys_from_spec() -> bool {
        true
    }

    open spec fn from_spec(v: u8) -> Note {
        Note { note: v % 128 }
    }
}

/// A note on a channel.
#[derive(Clone, Copy, Debug, PartialEq, Eq, Hash, Structural)]
pub struct ChannelNote {
    pub note: Note,
    pub channel: Channel,
}

/// A (channel, note) pair of valid values.
pub open spec fn pair_wf(p: (u8, u8)) -> bool {
    p.0 < 16 && p.1 < 128
}

/// Every pair of the sequence is valid.
pub open spec fn pairs_wf(s: Seq<(u8, u8)>) -> bool {
    forall|i: int| 0 <= i < s.len() ==> pair_wf(#[trigger] s[i])
}

impl ChannelNote {
    pub open spec fn wf(self) -> bool {
        self.note.wf() && self.channel.wf()
    }

    /// The note as a (channel, note number) pair.
    pub open spec fn pair(self) -> (u8, u8) {
        (self.channel.channel, self.note.note)
    }

    pub fn new(channel: u8, note: u8) -> (r: Self)
        requires
            channel < 16,
            note < 128,
        ensures
            r.pair() == (channel, note),
    {
        ChannelNote { note: Note::new(note), channel: Channel::new(channel) }
    }
}

/// A chord: notes on channels, in the order in which they were given.
#[derive(Clone, Debug, PartialEq, Eq, Hash)]
pub struct ChannelChord {
    pub notes: Vec<ChannelNote>,
}

impl View for ChannelChord {
    type V = Seq<(u8, u8)>;

    open spec fn view(&self) -> Seq<(u8, u8)> {
        self.notes@.map_values(|n: ChannelNote| n.pair())
    }
}

impl ChannelChord {
    /// Every note is valid.
    pub open spec fn wf(self) -> bool {
        pairs_wf(self@)
    }

    /// A chord with the same notes in the same order.
    pub fn duplicate(&self) -> (r: ChannelChord)
        ensures
            r@ == self@,
            self.wf() ==> r.wf(),
    {
        let mut notes: Vec<ChannelNote> = Vec::new();
        let mut i: usize = 0;
        while i < self.notes.len()
            invariant
                i <= self.notes@.len(),
                notes@ == self.notes@.take(i as int),
            decreases self.notes@.len() - i,
        {
            notes.push(self.notes[i]);
            i = i + 1;
        }
        assert(notes@ == self.notes@);
        ChannelChord { notes }
    }

    /// The chord's notes as (channel, note number) pairs, in order.
    pub fn pairs(&self) -> (r: Vec<(u8, u8)>)
        ensures
            r@ == self@,
    {
        let mut r: Vec<(u8, u8)> = Vec::new();
        let mut i: usize = 0;
        while i < self.notes.len()
            invariant
                i <= self.notes@.len(),
                r@ == self@.take(i as int),
            decreases self.notes@.len() - i,
        {
            let n = self.notes[i];
            r.push((n.channel.channel, n.note.note));
            i = i + 1;
        }
        r
    }
}

impl From<Vec<ChannelNote>> for ChannelChord {
    fn from(notes: Vec<ChannelNote>) -> (r: ChannelChord) {
        ChannelChord { notes }
    }
}

impl FromSpecImpl<Vec<ChannelNote>> for ChannelChord {
    open spec fn obeys_from_spec() -> bool {
        true
    }

    open spec fn from_spec(notes: Vec<ChannelNote>) -> ChannelChord {
        ChannelChord { notes }
    }
}

fn copy_pairs(v: &Vec<(u8, u8)>) -> (r: Vec<(u8, u8)>)
    ensures
        r@ == v@,
{
    let mut r: Vec<(u8, u8)> = Vec::new();
    let mut i: usize = 0;
    while i < v.len()
        invariant
            i <= v@.len(),
            r@ == v@.take(i as int),
        decreases v@.len() - i,
    {
        r.push(v[i]);
        i = i + 1;
    }
    assert(r@ == v@.take(i as int));
    r
}

/// Two chords hold the same notes, each as often, in any order.
pub open spec fn same_notes(a: Seq<(u8, u8)>, b: Seq<(u8, u8)>) -> bool {
    a.to_multiset() == b.to_multiset()
}

/// A table looks chords up without regard to the order of their notes.
pub open spec fn order_insensitive(m: Map<Seq<(u8, u8)>, Seq<(u8, u8)>>) -> bool {
    forall|a: Seq<(u8, u8)>, b: Seq<(u8, u8)>|
        #![trigger m.contains_key(a), m.contains_key(b)]
        same_notes(a, b) ==> (m.contains_key(a) == m.contains_key(b) && (m.contains_key(a) ==> m[a] == m[b]))
}

/// What a list of (key chord, target chord) entries maps: a chord maps to the
/// target of the last entry whose key holds the same notes, in any order;
/// chords that match no key map to nothing.
pub open spec fn chords_model(entries: Seq<(Seq<(u8, u8)>, Seq<(u8, u8)>)>) -> Map<Seq<(u8, u8)>, Seq<(u8, u8)>>
    decreases entries.len(),
{
    if entries.len() == 0 {
        Map::empty()
    } else {
        let prev = chords_model(entries.drop_last());
        let key = entries.last().0;
        let target = entries.last().1;
        Map::new(
            |s: Seq<(u8, u8)>| same_notes(s, key) || prev.contains_key(s),
            |s: Seq<(u8, u8)>| if same_notes(s, key) { target } else { prev[s] },
        )
    }
}

/// The entries as (key, target) pairs of note sequences.
pub open spec fn entries_view(m: Seq<(ChannelChord, ChannelChord)>) -> Seq<(Seq<(u8, u8)>, Seq<(u8, u8)>)> {
    m.map_values(|e: (ChannelChord, ChannelChord)| (e.0@, e.1@))
}

/// The table after mapping each of `keys`, in turn, to `target`.
pub open spec fn map_all(prev: Map<Seq<(u8, u8)>, Seq<(u8, u8)>>, keys: Seq<Seq<(u8, u8)>>, target: Seq<(u8, u8)>) -> Map<Seq<(u8, u8)>, Seq<(u8, u8)>>
    decreases keys.len(),
{
    if keys.len() == 0 {
        prev
    } else {
        map_all(prev, keys.drop_last(), target).insert(keys.last(), target)
    }
}

proof fn lemma_map_all(prev: Map<Seq<(u8, u8)>, Seq<(u8, u8)>>, keys: Seq<Seq<(u8, u8)>>, target: Seq<(u8, u8)>)
    ensures
        forall|s: Seq<(u8, u8)>| #[trigger] map_all(prev, keys, target).contains_key(s) == (keys.contains(s) || prev.contains_key(s)),
        forall|s: Seq<(u8, u8)>|
            #[trigger] map_all(prev, keys, target).contains_key(s) ==> map_all(prev, keys, target)[s] == (if keys.contains(s) { target } else { prev[s] }),
    decreases keys.len(),
{
    if keys.len() > 0 {
        let rest = keys.drop_last();
        lemma_map_all(prev, rest, target);
        assert forall|s: Seq<(u8, u8)>|
            #![trigger map_all(prev, keys, target).contains_key(s)]
            map_all(prev, keys, target).contains_key(s) == (keys.contains(s) || prev.contains_key(s))
            && (map_all(prev, keys, target).contains_key(s) ==> map_all(prev, keys, target)[s] == (if keys.contains(s) { target } else { prev[s] })) by {
            if keys.contains(s) {
                let i = choose|i: int| 0 <= i < keys.len() && keys[i] == s;
                if i < keys.len() - 1 {
                    assert(rest[i] == s);
                }
            }
            if rest.contains(s) {
                let i = choose|i: int| 0 <= i < rest.len() && rest[i] == s;
                assert(keys[i] == s);
            }
            if keys.last() == s {
                assert(keys[keys.len() - 1] == s);
            }
            assert(map_all(prev, rest, target).contains_key(s) == (rest.contains(s) || prev.contains_key(s)));
        }
    }
}

/// Chords that hold the same notes are looked up alike.
pub proof fn lemma_chords_model_order_insensitive(entries: Seq<(Seq<(u8, u8)>, Seq<(u8, u8)>)>)
    ensures
        order_insensitive(chords_model(entries)),
    decreases entries.len(),
{
    if entries.len() > 0 {
        lemma_chords_model_order_insensitive(entries.drop_last());
    }
}

/// Entries whose keys hold the same notes agree on their target.
pub open spec fn consistent_entries(e: Seq<(Seq<(u8, u8)>, Seq<(u8, u8)>)>) -> bool {
    forall|i: int, j: int|
        0 <= i < e.len() && 0 <= j < e.len() && #[trigger] same_notes(e[i].0, e[j].0) ==> e[i].1 == e[j].1
}

proof fn lemma_consistent_model(e: Seq<(Seq<(u8, u8)>, Seq<(u8, u8)>)>)
    requires
        consistent_entries(e),
    ensures
        forall|s: Seq<(u8, u8)>|
            #[trigger] chords_model(e).contains_key(s) ==> exists|i: int| 0 <= i < e.len() && same_notes(s, e[i].0),
        forall|s: Seq<(u8, u8)>, i: int|
            0 <= i < e.len() && #[trigger] same_notes(s, e[i].0) ==> chords_model(e).contains_key(s)
                && chords_model(e)[s] == e[i].1,
    decreases e.len(),
{
    if e.len() > 0 {
        let prev = e.drop_last();
        assert forall|i: int, j: int|
            0 <= i < prev.len() && 0 <= j < prev.len() && #[trigger] same_notes(prev[i].0, prev[j].0) implies prev[i].1 == prev[j].1 by {
            assert(prev[i] == e[i] && prev[j] == e[j]);
        }
        lemma_consistent_model(prev);
        let last = e.len() - 1;
        assert(e.last() == e[last]);
        assert forall|s: Seq<(u8, u8)>| #[trigger] chords_model(e).contains_key(s) implies exists|i: int| 0 <= i < e.len() && same_notes(s, e[i].0) by {
            if same_notes(s, e[last].0) {
            } else {
                assert(chords_model(prev).contains_key(s));
                let i = choose|i: int| 0 <= i < prev.len() && same_notes(s, prev[i].0);
                assert(prev[i] == e[i]);
            }
        }
        assert forall|s: Seq<(u8, u8)>, i: int|
            0 <= i < e.len() && #[trigger] same_notes(s, e[i].0) implies chords_model(e).contains_key(s)
                && chords_model(e)[s] == e[i].1 by {
            if same_notes(s, e[last].0) {
                assert(same_notes(e[i].0, e[last].0));
            } else {
                assert(i != last);
                assert(prev[i] == e[i]);
                assert(same_notes(s, prev[i].0));
            }
        }
    }
}

/// When entries whose keys hold the same notes agree on their target, the
/// table they define does not depend on the order of the entries, nor on
/// entries given twice: two lists that hold the same entries define the
/// same table.
pub proof fn lemma_chords_model_order_free(
    e1: Seq<(Seq<(u8, u8)>, Seq<(u8, u8)>)>,
    e2: Seq<(Seq<(u8, u8)>, Seq<(u8, u8)>)>,
)
    requires
        consistent_entries(e1),
        forall|x: (Seq<(u8, u8)>, Seq<(u8, u8)>)| #[trigger] e1.contains(x) == e2.contains(x),
    ensures
        chords_model(e1) == chords_model(e2),
{
    assert forall|i: int, j: int|
        0 <= i < e2.len() && 0 <= j < e2.len() && #[trigger] same_notes(e2[i].0, e2[j].0) implies e2[i].1 == e2[j].1 by {
        assert(e2.contains(e2[i]));
        assert(e2.contains(e2[j]));
        assert(e1.contains(e2[i]));
        assert(e1.contains(e2[j]));
        let a = choose|a: int| 0 <= a < e1.len() && e1[a] == e2[i];
        let b = choose|b: int| 0 <= b < e1.len() && e1[b] == e2[j];
        assert(same_notes(e1[a].0, e1[b].0));
    }
    lemma_consistent_model(e1);
    lemma_consistent_model(e2);
    let m1 = chords_model(e1);
    let m2 = chords_model(e2);
    assert forall|s: Seq<(u8, u8)>| m1.contains_key(s) == m2.contains_key(s) && (m1.contains_key(s) ==> m1[s] == m2[s]) by {
        if m1.contains_key(s) {
            let i = choose|i: int| 0 <= i < e1.len() && same_notes(s, e1[i].0);
            assert(e1.contains(e1[i]));
            assert(e2.contains(e1[i]));
            let j = choose|j: int| 0 <= j < e2.len() && e2[j] == e1[i];
            assert(same_notes(s, e2[j].0));
        }
        if m2.contains_key(s) {
            let j = choose|j: int| 0 <= j < e2.len() && same_notes(s, e2[j].0);
            assert(e2.contains(e2[j]));
            assert(e1.contains(e2[j]));
            let i = choose|i: int| 0 <= i < e1.len() && e1[i] == e2[j];
            assert(same_notes(s, e1[i].0));
        }
    }
    assert(m1 =~= m2);
}

/// Every chord that the table maps to holds valid notes.
pub open spec fn targets_wf(m: Map<Seq<(u8, u8)>, Seq<(u8, u8)>>) -> bool {
    forall|k: Seq<(u8, u8)>| #[trigger] m.contains_key(k) ==> pairs_wf(m[k])
}

/// Maps chords that are pressed to the chords that are played in their place.
pub struct ChordsMap {
    mapping: ChordTable,
}

impl View for ChordsMap {
    type V = Map<Seq<(u8, u8)>, Seq<(u8, u8)>>;

    closed spec fn view(&self) -> Map<Seq<(u8, u8)>, Seq<(u8, u8)>> {
        chord_table(self.mapping)
    }
}

impl ChordsMap {
    /// The targets are valid chords, and the order of a chord's notes does
    /// not matter to the lookup.
    pub open spec fn wf(self) -> bool {
        targets_wf(self@) && order_insensitive(self@)
    }

    #[verifier::type_invariant]
    closed spec fn inv(self) -> bool {
        self.wf()
    }

    /// Maps every ordering of each entry's key to its target; where two
    /// keys hold the same notes, the later entry wins.
    pub fn new(mapping: Vec<(ChannelChord, ChannelChord)>) -> (r: Self)
        requires
            forall|i: int| 0 <= i < mapping@.len() ==> (#[trigger] mapping@[i]).1.wf(),
        ensures
            r@ == chords_model(entries_view(mapping@)),
            r.wf(),
    {
        let ghost ev = entries_view(mapping@);
        let mut m = table_new();
        let mut i: usize = 0;
        while i < mapping.len()
            invariant
                i <= mapping@.len(),
                ev == entries_view(mapping@),
                forall|i: int| 0 <= i < mapping@.len() ==> (#[trigger] mapping@[i]).1.wf(),
                chord_table(m) == chords_model(ev.take(i as int)),
                targets_wf(chord_table(m)),
            decreases mapping@.len() - i,
        {
            let key = mapping[i].0.pairs();
            let ghost key_view = key@;
            let ghost prev = chord_table(m);
            let target = &mapping[i].1;
            let perms = all_orderings(key);
            let ghost keys = perms@.map_values(|p: Vec<(u8, u8)>| p@);
            let mut j: usize = 0;
            while j < perms.len()
                invariant
                    j <= perms@.len(),
                    keys == perms@.map_values(|p: Vec<(u8, u8)>| p@),
                    chord_table(m) == map_all(prev, keys.take(j as int), target@),
                    targets_wf(chord_table(m)),
                    pairs_wf(target@),
                decreases perms@.len() - j,
            {
                let k = copy_pairs(&perms[j]);
                proof {
                    assert(keys.take(j + 1).drop_last() =~= keys.take(j as int));
                }
                table_insert(&mut m, k, target.duplicate());
                j = j + 1;
            }
            proof {
                assert(keys.take(j as int) =~= keys);
                lemma_map_all(prev, keys, target@);
                assert(ev.take(i + 1).drop_last() =~= ev.take(i as int));
                assert(ev[i as int] == (mapping@[i as int].0@, mapping@[i as int].1@));
                assert forall|s: Seq<(u8, u8)>| keys.contains(s) == same_notes(s, key_view) by {
                    if keys.contains(s) {
                        let jj = choose|jj: int| 0 <= jj < keys.len() && keys[jj] == s;
                        assert(perms@[jj]@.to_multiset() == key_view.to_multiset());
                    }
                    if same_notes(s, key_view) {
                        assert(s.to_multiset() == key_view.to_multiset());
                        let jj = choose|jj: int| 0 <= jj < perms@.len() && (#[trigger] perms@[jj])@ == s;
                        assert(keys[jj] == s);
                    }
                }
                assert(chord_table(m) =~= chords_model(ev.take(i + 1)));
            }
            i = i + 1;
        }
        proof {
            assert(ev.take(i as int) =~= ev);
            lemma_chords_model_order_insensitive(ev);
        }
        ChordsMap { mapping: m }
    }

    /// The chord that `chord` maps to, if it maps to one.
    pub fn map(&self, chord: &ChannelChord) -> (r: Option<&ChannelChord>)
        ensures
            r is Some <==> self@.contains_key(chord@),
            r matches Some(c) ==> c@ == self@[chord@],
    {
        let key = chord.pairs();
        table_get(&self.mapping, &key)
    }
}

/// Whether the message presses or releases a key.
pub open spec fn is_note_message(m: MidiMessage) -> bool {
    m is NoteOn || m is NoteOff
}

/// The position of the first occurrence of `n` in `s`, or -1.
pub open spec fn first_index(s: Seq<(u8, u8)>, n: (u8, u8)) -> int
    decreases s.len(),
{
    if s.len() == 0 {
        -1
    } else if s[0] == n {
        0
    } else {
        let r = first_index(s.drop_first(), n);
        if r < 0 {
            -1
        } else {
            r + 1
        }
    }
}

proof fn lemma_first_index(s: Seq<(u8, u8)>, n: (u8, u8))
    ensures
        -1 <= first_index(s, n) < s.len(),
        first_index(s, n) >= 0 ==> s[first_index(s, n)] == n,
        forall|j: int| 0 <= j < first_index(s, n) ==> s[j] != n,
        first_index(s, n) < 0 ==> !s.contains(n),
    decreases s.len(),
{
    if s.len() > 0 {
        lemma_first_index(s.drop_first(), n);
        if s[0] != n {
            let r = first_index(s.drop_first(), n);
            assert forall|j: int| 0 <= j < first_index(s, n) implies s[j] != n by {
                if j > 0 {
                    assert(s[j] == s.drop_first()[j - 1]);
                }
            }
            if r < 0 {
                assert forall|j: int| 0 <= j < s.len() implies s[j] != n by {
                    if j > 0 {
                        assert(s[j] == s.drop_first()[j - 1]);
                    }
                }
            }
        }
    }
}

proof fn lemma_first_index_at(s: Seq<(u8, u8)>, n: (u8, u8), i: int)
    requires
        0 <= i < s.len(),
        s[i] == n,
        forall|j: int| 0 <= j < i ==> s[j] != n,
    ensures
        first_index(s, n) == i,
{
    lemma_first_index(s, n);
    if first_index(s, n) < 0 {
        assert(s.contains(n));
    }
}

proof fn lemma_first_index_none(s: Seq<(u8, u8)>, n: (u8, u8))
    requires
        forall|j: int| 0 <= j < s.len() ==> s[j] != n,
    ensures
        first_index(s, n) == -1,
{
    lemma_first_index(s, n);
}

/// Releases the first occurrence of `n`, if there is one: the last note takes
/// its place.
pub open spec fn release(s: Seq<(u8, u8)>, n: (u8, u8)) -> Seq<(u8, u8)> {
    let i = first_index(s, n);
    if i >= 0 {
        s.update(i, s.last()).drop_last()
    } else {
        s
    }
}

/// The pressed notes after the message: a pressed key is added at the end, a
/// released key is taken out, other messages change nothing.
pub open spec fn pressed_after(s: Seq<(u8, u8)>, d: MidiData) -> Seq<(u8, u8)> {
    match d.message {
        MidiMessage::NoteOn { key, .. } => s.push((d.channel, key)),
        MidiMessage::NoteOff { key, .. } => release(s, (d.channel, key)),
        _ => s,
    }
}

/// The chord that is currently pressed.
pub struct PressedChord {
    chord: ChannelChord,
}

/// What pressing or releasing a key leads to.
pub enum Response<'a> {
    /// The pressed chord now maps to this chord.
    SendChord(&'a ChannelChord),
    /// The message is not about a key; it goes out unchanged.
    Passthrough(MidiData),
    /// The pressed chord changed and maps to nothing.
    Received,
}

impl View for PressedChord {
    type V = Seq<(u8, u8)>;

    closed spec fn view(&self) -> Seq<(u8, u8)> {
        self.chord@
    }
}

impl PressedChord {
    /// No key is pressed.
    pub fn empty() -> (r: Self)
        ensures
            r@ == Seq::<(u8, u8)>::empty(),
    {
        let r = PressedChord { chord: ChannelChord { notes: Vec::new() } };
        assert(r@ =~= Seq::<(u8, u8)>::empty());
        r
    }

    fn position_of(&self, n: (u8, u8)) -> (r: Option<usize>)
        ensures
            first_index(self@, n) >= 0 ==> r == Some(first_index(self@, n) as usize),
            first_index(self@, n) < 0 ==> r is None,
    {
        let mut i: usize = 0;
        while i < self.chord.notes.len()
            invariant
                i <= self.chord.notes@.len(),
                forall|j: int| 0 <= j < i ==> self@[j] != n,
            decreases self.chord.notes@.len() - i,
        {
            let x = self.chord.notes[i];
            if x.channel.channel == n.0 && x.note.note == n.1 {
                proof {
                    assert(self@[i as int] == n);
                    lemma_first_index_at(self@, n, i as int);
                }
                return Some(i);
            }
            i = i + 1;
        }
        proof {
            lemma_first_index_none(self@, n);
        }
        None
    }

    /// Updates the pressed notes with a key press or release and looks the
    /// new chord up in `mapping`; other messages pass through untouched.
    pub fn update<'a>(&mut self, mapping: &'a ChordsMap, note: MidiData) -> (r: Response<'a>)
        ensures
            final(self)@ == pressed_after(old(self)@, note),
            match r {
                Response::Passthrough(d) => !is_note_message(note.message) && d == note,
                Response::SendChord(c) => is_note_message(note.message) && mapping@.contains_key(final(self)@)
                    && c@ == mapping@[final(self)@],
                Response::Received => is_note_message(note.message) && !mapping@.contains_key(final(self)@),
            },
    {
        let channel = note.channel;
        match note.message {
            MidiMessage::NoteOn { key, .. } => {
                self.chord.notes.push(ChannelNote { note: Note { note: key }, channel: Channel { channel } });
                assert(self@ =~= old(self)@.push((channel, key)));
            },
            MidiMessage::NoteOff { key, .. } => {
                match self.position_of((channel, key)) {
                    Some(i) => {
                        proof {
                            lemma_first_index(old(self)@, (channel, key));
                        }
                        let n_notes = self.chord.notes.len();
                        let ghost old_notes = self.chord.notes@;
                        self.chord.notes.swap_remove(i);
                        proof {
                            let fi = first_index(old(self)@, (channel, key));
                            assert(old(self)@.len() == old_notes.len());
                            assert(fi >= 0);
                            assert(fi < old_notes.len());
                            assert(old_notes.len() == n_notes);
                            assert(fi == i as int);
                            let expect = old(self)@.update(fi, old(self)@.last()).drop_last();
                            assert(self.chord.notes@ == old_notes.update(i as int, old_notes.last()).drop_last());
                            assert forall|k: int| 0 <= k < self@.len() implies self@[k] == expect[k] by {
                                assert(self@[k] == self.chord.notes@[k].pair());
                            }
                            assert(self@ =~= expect);
                        }
                    },
                    None => {},
                }
            },
            _ => {
                return Response::Passthrough(note);
            },
        }
        match mapping.map(&self.chord) {
            Some(chord) => Response::SendChord(chord),
            None => Response::Received,
        }
    }
}

/// Releasing a key takes one occurrence of its note out of the pressed
/// notes, if there is one.
proof fn lemma_release_notes(s: Seq<(u8, u8)>, n: (u8, u8))
    ensures
        release(s, n).to_multiset() == s.to_multiset().remove(n),
{
    broadcast use vstd::multiset::group_multiset_properties;
    lemma_first_index(s, n);
    let i = first_index(s, n);
    if i >= 0 {
        let u = s.update(i, s.last());
        assert(u.last() == s.last());
        assert(u =~= u.drop_last().push(u.last()));
        assert(u.to_multiset() == s.to_multiset().insert(s.last()).remove(n));
        assert(u.drop_last().push(u.last()).to_multiset() == u.drop_last().to_multiset().insert(u.last()));
        let a = u.drop_last().to_multiset();
        let b = s.to_multiset().remove(n);
        assert forall|x: (u8, u8)| a.count(x) == b.count(x) by {
            assert(a.insert(u.last()).count(x) == s.to_multiset().insert(s.last()).remove(n).count(x));
        }
        assert(a =~= b);
    } else {
        assert(s.to_multiset().count(n) == 0);
        assert(s.to_multiset().remove(n) =~= s.to_multiset());
    }
}

/// The notes pressed after a message depend only on the notes pressed
/// before, not on their order.
pub proof fn lemma_pressed_after_same_notes(a: Seq<(u8, u8)>, b: Seq<(u8, u8)>, d: MidiData)
    requires
        same_notes(a, b),
    ensures
        same_notes(pressed_after(a, d), pressed_after(b, d)),
{
    match d.message {
        MidiMessage::NoteOn { key, .. } => {},
        MidiMessage::NoteOff { key, .. } => {
            lemma_release_notes(a, (d.channel, key));
            lemma_release_notes(b, (d.channel, key));
        },
        _ => {},
    }
}

/// Pressing a key and then releasing it leaves the same notes pressed as
/// before, though perhaps in another order.
pub proof fn lemma_press_then_release(s: Seq<(u8, u8)>, channel: u8, key: u8, vel_on: u8, vel_off: u8)
    ensures
        same_notes(
            pressed_after(
                pressed_after(s, MidiData { channel, message: MidiMessage::NoteOn { key, vel: vel_on } }),
                MidiData { channel, message: MidiMessage::NoteOff { key, vel: vel_off } },
            ),
            s,
        ),
{
    broadcast use vstd::multiset::group_multiset_properties;
    let n = (channel, key);
    let t = s.push(n);
    lemma_release_notes(t, n);
    assert(t.to_multiset() == s.to_multiset().insert(n));
    assert(t.to_multiset().remove(n) =~= s.to_multiset());
}

/// Where the mapping ignores the order of notes, pressing a key and then
/// releasing it leaves the pressed chord looked up as before.
pub proof fn lemma_press_then_release_same_lookup(
    mapping: Map<Seq<(u8, u8)>, Seq<(u8, u8)>>,
    s: Seq<(u8, u8)>,
    channel: u8,
    key: u8,
    vel_on: u8,
    vel_off: u8,
)
    requires
        order_insensitive(mapping),
    ensures
        ({
            let after = pressed_after(
                pressed_after(s, MidiData { channel, message: MidiMessage::NoteOn { key, vel: vel_on } }),
                MidiData { channel, message: MidiMessage::NoteOff { key, vel: vel_off } },
            );
            &&& mapping.contains_key(after) == mapping.contains_key(s)
            &&& mapping.contains_key(s) ==> mapping[after] == mapping[s]
        }),
{
    lemma_press_then_release(s, channel, key, vel_on, vel_off);
    let after = pressed_after(
        pressed_after(s, MidiData { channel, message: MidiMessage::NoteOn { key, vel: vel_on } }),
        MidiData { channel, message: MidiMessage::NoteOff { key, vel: vel_off } },
    );
    assert(mapping.contains_key(after) == mapping.contains_key(s));
}

/// The maximum MIDI velocity, with which chords are switched on and off.
pub const MAX_VELOCITY: u8 = 127;

/// A key release at full velocity for each note of the chord, in order.
pub open spec fn note_offs(c: Seq<(u8, u8)>) -> Seq<MidiData> {
    c.map_values(|p: (u8, u8)| MidiData { channel: p.0, message: MidiMessage::NoteOff { key: p.1, vel: 127 } })
}

/// A key press at full velocity for each note of the chord, in order.
pub open spec fn note_ons(c: Seq<(u8, u8)>) -> Seq<MidiData> {
    c.map_values(|p: (u8, u8)| MidiData { channel: p.0, message: MidiMessage::NoteOn { key: p.1, vel: 127 } })
}

/// What stopping the chord that plays sends: a release of each of its notes.
pub open spec fn stop_playing(playing: Option<Seq<(u8, u8)>>) -> Seq<MidiData> {
    match playing {
        Some(c) => note_offs(c),
        None => Seq::empty(),
    }
}

/// The notes of a chord that may be absent.
pub open spec fn chord_opt_view(c: Option<ChannelChord>) -> Option<Seq<(u8, u8)>> {
    match c {
        Some(c) => Some(c@),
        None => None,
    }
}

/// What the device sends in answer to `d`, given its mapping, the chord
/// that was pressed before and the chord that was playing.
pub open spec fn chordifier_output(
    mapping: Map<Seq<(u8, u8)>, Seq<(u8, u8)>>,
    pressed: Seq<(u8, u8)>,
    playing: Option<Seq<(u8, u8)>>,
    d: MidiData,
) -> Seq<MidiData> {
    let now = pressed_after(pressed, d);
    if !is_note_message(d.message) {
        seq![d]
    } else if mapping.contains_key(now) {
        stop_playing(playing) + note_ons(mapping[now])
    } else {
        stop_playing(playing)
    }
}

/// The chord that plays after `d`.
pub open spec fn chordifier_playing(
    mapping: Map<Seq<(u8, u8)>, Seq<(u8, u8)>>,
    pressed: Seq<(u8, u8)>,
    playing: Option<Seq<(u8, u8)>>,
    d: MidiData,
) -> Option<Seq<(u8, u8)>> {
    let now = pressed_after(pressed, d);
    if !is_note_message(d.message) {
        playing
    } else if mapping.contains_key(now) {
        Some(mapping[now])
    } else {
        None
    }
}

/// Whether a message is a key press or release at full velocity.
pub open spec fn full_velocity_note(m: MidiMessage) -> bool {
    match m {
        MidiMessage::NoteOn { vel, .. } => vel == 127,
        MidiMessage::NoteOff { vel, .. } => vel == 127,
        _ => false,
    }
}

/// In answer to a key press or release, the device sends only key presses
/// and releases, all at full velocity.
pub proof fn lemma_answers_full_velocity(
    mapping: Map<Seq<(u8, u8)>, Seq<(u8, u8)>>,
    pressed: Seq<(u8, u8)>,
    playing: Option<Seq<(u8, u8)>>,
    d: MidiData,
)
    requires
        is_note_message(d.message),
    ensures
        forall|i: int|
            0 <= i < chordifier_output(mapping, pressed, playing, d).len()
                ==> full_velocity_note(#[trigger] chordifier_output(mapping, pressed, playing, d)[i].message),
{
    let out = chordifier_output(mapping, pressed, playing, d);
    let offs = stop_playing(playing);
    assert forall|i: int| 0 <= i < offs.len() implies full_velocity_note(#[trigger] offs[i].message) by {}
    let now = pressed_after(pressed, d);
    if mapping.contains_key(now) {
        let ons = note_ons(mapping[now]);
        assert forall|i: int| 0 <= i < out.len() implies full_velocity_note(#[trigger] out[i].message) by {
            if i < offs.len() {
                assert(out[i] == offs[i]);
            } else {
                assert(out[i] == ons[i - offs.len()]);
            }
        }
    }
}

/// The device sends only valid MIDI data: where the incoming message, the
/// chord that plays and the chords that the mapping holds are valid, so is
/// every message in the answer.
pub proof fn lemma_answers_valid(
    mapping: Map<Seq<(u8, u8)>, Seq<(u8, u8)>>,
    pressed: Seq<(u8, u8)>,
    playing: Option<Seq<(u8, u8)>>,
    d: MidiData,
)
    requires
        targets_wf(mapping),
        d.wf(),
        playing matches Some(c) ==> pairs_wf(c),
    ensures
        forall|i: int|
            0 <= i < chordifier_output(mapping, pressed, playing, d).len()
                ==> (#[trigger] chordifier_output(mapping, pressed, playing, d)[i]).wf(),
{
    let out = chordifier_output(mapping, pressed, playing, d);
    let offs = stop_playing(playing);
    assert forall|i: int| 0 <= i < offs.len() implies (#[trigger] offs[i]).wf() by {
        if let Some(c) = playing {
            assert(pair_wf(c[i]));
        }
    }
    let now = pressed_after(pressed, d);
    if !is_note_message(d.message) {
        assert(out =~= seq![d]);
    } else if mapping.contains_key(now) {
        let ons = note_ons(mapping[now]);
        assert forall|i: int| 0 <= i < out.len() implies (#[trigger] out[i]).wf() by {
            if i < offs.len() {
                assert(out[i] == offs[i]);
            } else {
                assert(pair_wf(mapping[now][i - offs.len()]));
                assert(out[i] == ons[i - offs.len()]);
            }
        }
    }
}

/// Where the mapping ignores the order of notes, a device whose pressed
/// notes are the same, in any order, answers a message alike and ends up
/// playing the same chord, with the same notes pressed.
pub proof fn lemma_same_notes_same_answer(
    mapping: Map<Seq<(u8, u8)>, Seq<(u8, u8)>>,
    p1: Seq<(u8, u8)>,
    p2: Seq<(u8, u8)>,
    playing: Option<Seq<(u8, u8)>>,
    d: MidiData,
)
    requires
        order_insensitive(mapping),
        same_notes(p1, p2),
    ensures
        chordifier_output(mapping, p1, playing, d) == chordifier_output(mapping, p2, playing, d),
        chordifier_playing(mapping, p1, playing, d) == chordifier_playing(mapping, p2, playing, d),
        same_notes(pressed_after(p1, d), pressed_after(p2, d)),
{
    lemma_pressed_after_same_notes(p1, p2, d);
    let n1 = pressed_after(p1, d);
    let n2 = pressed_after(p2, d);
    assert(mapping.contains_key(n1) == mapping.contains_key(n2));
}

/// The pressed chord, the chord that plays and the static mapping: all that
/// maps chords to chords.
pub struct Chordifier {
    mapping: ChordsMap,
    pressed: PressedChord,
    playing: Option<ChannelChord>,
}

impl Chordifier {
    /// The mapping between chords, which never changes.
    pub closed spec fn mapping_view(self) -> Map<Seq<(u8, u8)>, Seq<(u8, u8)>> {
        self.mapping@
    }

    /// The chord that is currently pressed.
    pub closed spec fn pressed_view(self) -> Seq<(u8, u8)> {
        self.pressed@
    }

    /// The chord that currently plays, if one does.
    pub closed spec fn playing_view(self) -> Option<Seq<(u8, u8)>> {
        chord_opt_view(self.playing)
    }

    /// The mapping is well formed, and a chord plays only while the pressed
    /// chord maps to it.
    pub open spec fn wf(self) -> bool {
        &&& targets_wf(self.mapping_view())
        &&& order_insensitive(self.mapping_view())
        &&& match self.playing_view() {
            Some(c) => self.mapping_view().contains_key(self.pressed_view()) && self.mapping_view()[self.pressed_view()] == c,
            None => true,
        }
    }

    /// Nothing is pressed and nothing plays.
    pub fn new(mapping: ChordsMap) -> (r: Self)
        ensures
            r.mapping_view() == mapping@,
            r.pressed_view() == Seq::<(u8, u8)>::empty(),
            r.playing_view() is None,
            r.wf(),
    {
        proof {
            use_type_invariant(&mapping);
        }
        Chordifier { mapping, pressed: PressedChord::empty(), playing: None }
    }
}

/// Appends a full-velocity release of each note of the playing chord, if
/// there is one, and then nothing plays.
fn stop(playing: &mut Option<ChannelChord>, out: &mut Vec<MidiData>)
    ensures
        final(out)@ == old(out)@ + stop_playing(chord_opt_view(*old(playing))),
        *final(playing) is None,
{
    match playing {
        Some(chord) => {
            let mut i: usize = 0;
            let ghost start = out@;
            while i < chord.notes.len()
                invariant
                    i <= chord.notes@.len(),
                    out@ == start + note_offs(chord@.take(i as int)),
                decreases chord.notes@.len() - i,
            {
                let n = chord.notes[i];
                out.push(MidiData { channel: n.channel.channel, message: MidiMessage::NoteOff { key: n.note.note, vel: MAX_VELOCITY } });
                proof {
                    assert(chord@.take(i + 1) =~= chord@.take(i as int).push(chord@[i as int]));
                    assert(note_offs(chord@.take(i + 1)) =~= note_offs(chord@.take(i as int)).push(note_offs(chord@)[i as int]));
                }
                i = i + 1;
            }
            assert(chord@.take(i as int) =~= chord@);
        },
        None => {
            assert(out@ =~= out@ + Seq::<MidiData>::empty());
        },
    }
    *playing = None;
}

/// Appends a full-velocity press of each note of `chord`.
fn start(chord: &ChannelChord, out: &mut Vec<MidiData>)
    ensures
        final(out)@ == old(out)@ + note_ons(chord@),
{
    let mut i: usize = 0;
    let ghost begin = out@;
    while i < chord.notes.len()
        invariant
            i <= chord.notes@.len(),
            out@ == begin + note_ons(chord@.take(i as int)),
        decreases chord.notes@.len() - i,
    {
        let n = chord.notes[i];
        out.push(MidiData { channel: n.channel.channel, message: MidiMessage::NoteOn { key: n.note.note, vel: MAX_VELOCITY } });
        proof {
            assert(chord@.take(i + 1) =~= chord@.take(i as int).push(chord@[i as int]));
            assert(note_ons(chord@.take(i + 1)) =~= note_ons(chord@.take(i as int)).push(note_ons(chord@)[i as int]));
        }
        i = i + 1;
    }
    assert(chord@.take(i as int) =~= chord@);
}

impl MidiAction for Chordifier {
    /// The device sends what its mapping, the pressed chord and the playing
    /// chord call for, keeps its mapping, records the key pressed or
    /// released, and plays the chord that the step switches to; a
    /// well-formed device stays well-formed.
    open spec fn step(&self, data: MidiData, out: Seq<MidiData>, after: Chordifier) -> bool {
        &&& out == chordifier_output(self.mapping_view(), self.pressed_view(), self.playing_view(), data)
        &&& after.mapping_view() == self.mapping_view()
        &&& after.pressed_view() == pressed_after(self.pressed_view(), data)
        &&& after.playing_view() == chordifier_playing(self.mapping_view(), self.pressed_view(), self.playing_view(), data)
        &&& self.wf() ==> after.wf()
    }

    /// Maps chords to chords by tracking which chord is pressed and which
    /// plays. A chord plays only while the pressed chord maps to it; chords
    /// are switched on and off at full velocity (127).
    fn midi_action(&mut self, data: MidiData) -> (out: Vec<MidiData>)
        ensures
            final(self).mapping_view() == old(self).mapping_view(),
            final(self).pressed_view() == pressed_after(old(self).pressed_view(), data),
            final(self).playing_view() == chordifier_playing(old(self).mapping_view(), old(self).pressed_view(), old(self).playing_view(), data),
            old(self).wf() ==> final(self).wf(),
            old(self).wf() && data.wf() ==> forall|i: int| 0 <= i < out@.len() ==> (#[trigger] out@[i]).wf(),
    {
        proof {
            if self.wf() && data.wf() {
                lemma_answers_valid(self.mapping_view(), self.pressed_view(), self.playing_view(), data);
            }
        }
        let mut out: Vec<MidiData> = Vec::new();
        match self.pressed.update(&self.mapping, data) {
            Response::SendChord(chord) => {
                stop(&mut self.playing, &mut out);
                start(chord, &mut out);
                self.playing = Some(chord.duplicate());
            },
            Response::Passthrough(msg) => {
                out.push(msg);
                assert(out@ =~= seq![data]);
            },
            Response::Received => {
                stop(&mut self.playing, &mut out);
                assert(out@ =~= Seq::<MidiData>::empty() + stop_playing(old(self).playing_view()));
            },
        }
        out
    }
}

} // verus!
