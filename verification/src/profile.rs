//! Named profiles: which keys select roots and which select chord types.
use vstd::prelude::*;

use crate::chordifier::Note;
use crate::chords::ChordType;

verus! {

/// An item-by-item copy of a vector of plain values.
pub fn copy_vec<T: Copy>(v: &Vec<T>) -> (r: Vec<T>)
    ensures
        r@ == v@,
{
    let mut r: Vec<T> = Vec::new();
    let mut i: usize = 0;
    while i < v.len()
        invariant
            i <= v@.len(),
            r@ == v@.take(i as int),
        decreases v@.len() - i,
    {
        r.push(v[i]);
        proof {
            assert(v@.take(i + 1) =~= v@.take(i as int).push(v@[i as int]));
        }
        i = i + 1;
    }
    assert(v@.take(i as int) =~= v@);
    r
}

/// No key occurs twice.
pub open spec fn keys_unique<V>(s: Seq<(Note, V)>) -> bool {
    forall|i: int, j: int| #![trigger s[i], s[j]] 0 <= i < j < s.len() ==> s[i].0 != s[j].0
}

/// Which key selects which root note, and which key selects which chord
/// type. Profiles read from maps hold each key once in each list (see
/// [`Profile::is_map`]); lists may also repeat a key, and then the later
/// entry wins in the mapping built from them.
#[derive(Clone, Debug)]
pub struct Profile {
    pub roots: Vec<(Note, Note)>,
    pub chord_types: Vec<(Note, ChordType)>,
}

/// A profile as plain sequences.
pub type ProfileView = (Seq<(Note, Note)>, Seq<(Note, ChordType)>);

impl View for Profile {
    type V = ProfileView;

    open spec fn view(&self) -> ProfileView {
        (self.roots@, self.chord_types@)
    }
}

impl Profile {
    /// Every note is valid.
    pub open spec fn wf(self) -> bool {
        &&& forall|i: int| 0 <= i < self.roots@.len() ==> (#[trigger] self.roots@[i]).0.wf() && self.roots@[i].1.wf()
        &&& forall|i: int| 0 <= i < self.chord_types@.len() ==> (#[trigger] self.chord_types@[i]).0.wf()
    }

    /// No key occurs twice in a list, as in a profile read from maps.
    pub open spec fn is_map(self) -> bool {
        keys_unique(self.roots@) && keys_unique(self.chord_types@)
    }

    /// Whether every note is valid.
    pub fn is_valid(&self) -> (r: bool)
        ensures
            r == self.wf(),
    {
        let mut i: usize = 0;
        while i < self.roots.len()
            invariant
                i <= self.roots@.len(),
                forall|k: int| 0 <= k < i ==> (#[trigger] self.roots@[k]).0.wf() && self.roots@[k].1.wf(),
            decreases self.roots@.len() - i,
        {
            if self.roots[i].0.note >= 128 || self.roots[i].1.note >= 128 {
                return false;
            }
            i = i + 1;
        }
        let mut j: usize = 0;
        while j < self.chord_types.len()
            invariant
                j <= self.chord_types@.len(),
                forall|k: int| 0 <= k < self.roots@.len() ==> (#[trigger] self.roots@[k]).0.wf() && self.roots@[k].1.wf(),
                forall|k: int| 0 <= k < j ==> (#[trigger] self.chord_types@[k]).0.wf(),
            decreases self.chord_types@.len() - j,
        {
            if self.chord_types[j].0.note >= 128 {
                return false;
            }
            j = j + 1;
        }
        true
    }

    /// A profile with the same contents.
    pub fn duplicate(&self) -> (r: Profile)
        ensures
            r@ == self@,
    {
        Profile { roots: copy_vec(&self.roots), chord_types: copy_vec(&self.chord_types) }
    }
}

/// The profiles that a list of (name, profile) entries defines: a later
/// entry replaces an earlier one of the same name.
pub open spec fn profiles_map(s: Seq<(String, Profile)>) -> Map<Seq<char>, ProfileView>
    decreases s.len(),
{
    if s.len() == 0 {
        Map::empty()
    } else {
        profiles_map(s.drop_last()).insert(s.last().0@, s.last().1@)
    }
}

proof fn lemma_profiles_map_last(s: Seq<(String, Profile)>, name: Seq<char>, j: int)
    requires
        0 <= j < s.len(),
        s[j].0@ == name,
        forall|k: int| j < k < s.len() ==> (#[trigger] s[k]).0@ != name,
    ensures
        profiles_map(s).contains_key(name),
        profiles_map(s)[name] == s[j].1@,
    decreases s.len(),
{
    if j < s.len() - 1 {
        assert forall|k: int| j < k < s.drop_last().len() implies (#[trigger] s.drop_last()[k]).0@ != name by {
            assert(s.drop_last()[k] == s[k]);
        }
        lemma_profiles_map_last(s.drop_last(), name, j);
        assert(s.last() == s[s.len() - 1]);
    }
}

proof fn lemma_profiles_map_absent(s: Seq<(String, Profile)>, name: Seq<char>)
    requires
        forall|k: int| 0 <= k < s.len() ==> (#[trigger] s[k]).0@ != name,
    ensures
        !profiles_map(s).contains_key(name),
    decreases s.len(),
{
    if s.len() > 0 {
        assert forall|k: int| 0 <= k < s.drop_last().len() implies (#[trigger] s.drop_last()[k]).0@ != name by {
            assert(s.drop_last()[k] == s[k]);
        }
        lemma_profiles_map_absent(s.drop_last(), name);
        assert(s.last() == s[s.len() - 1]);
    }
}

proof fn lemma_profiles_map_append(a: Seq<(String, Profile)>, b: Seq<(String, Profile)>)
    ensures
        profiles_map(a + b) == profiles_map(a).union_prefer_right(profiles_map(b)),
    decreases b.len(),
{
    if b.len() == 0 {
        assert(a + b =~= a);
        assert(profiles_map(a).union_prefer_right(profiles_map(b)) =~= profiles_map(a));
    } else {
        lemma_profiles_map_append(a, b.drop_last());
        assert((a + b).drop_last() =~= a + b.drop_last());
        assert((a + b).last() == b.last());
        assert(profiles_map(a + b) =~= profiles_map(a).union_prefer_right(profiles_map(b)));
    }
}

/// Profiles by name.
#[derive(Clone, Debug)]
pub struct Profiles {
    pub profiles: Vec<(String, Profile)>,
}

impl View for Profiles {
    type V = Map<Seq<char>, ProfileView>;

    open spec fn view(&self) -> Map<Seq<char>, ProfileView> {
        profiles_map(self.profiles@)
    }
}

impl Default for Profiles {
    fn default() -> (r: Profiles)
        ensures
            r@ == Map::<Seq<char>, ProfileView>::empty(),
    {
        Profiles { profiles: Vec::new() }
    }
}

impl Profiles {
    /// The profile of that name, if there is one.
    pub fn get(&self, name: &String) -> (r: Option<&Profile>)
        ensures
            r is Some <==> self@.contains_key(name@),
            r matches Some(p) ==> p@ == self@[name@],
    {
        let mut i: usize = self.profiles.len();
        while i > 0
            invariant
                i <= self.profiles@.len(),
                forall|k: int| i <= k < self.profiles@.len() ==> (#[trigger] self.profiles@[k]).0@ != name@,
            decreases i,
        {
            i = i - 1;
            if self.profiles[i].0 == *name {
                proof {
                    lemma_profiles_map_last(self.profiles@, name@, i as int);
                }
                return Some(&self.profiles[i].1);
            }
        }
        proof {
            lemma_profiles_map_absent(self.profiles@, name@);
        }
        None
    }

    /// Adds every profile of `other`, which replaces a profile of the same
    /// name.
    pub fn extend(&mut self, other: Profiles)
        ensures
            final(self)@ == old(self)@.union_prefer_right(other@),
    {
        let mut other = other;
        let ghost a = self.profiles@;
        let ghost b = other.profiles@;
        self.profiles.append(&mut other.profiles);
        proof {
            lemma_profiles_map_append(a, b);
        }
    }
}

} // verus!
