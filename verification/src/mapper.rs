//! The chord-mapping device's configuration: a built-in configuration file,
//! the user's file and the command line, merged, and the profile they select.
use vstd::prelude::*;

use crate::chordifier::{chords_model, Chordifier, Note};
use crate::chords::ChordType;
use crate::chords::{keys_disjoint, lemma_make_mapping_order_free, make_mapping, mapping_entries};
use crate::profile::{Profile, ProfileView, Profiles};

verus! {

/// Command-line arguments of the chord-mapping device.
pub struct Cli {
    /// A configuration file to read.
    pub config: Option<String>,
    /// The profile to use.
    pub profile: Option<String>,
    /// The name of the device.
    pub name: Option<String>,
}

/// What the device runs with.
pub struct AppConfig {
    pub name: String,
    pub profile: Profile,
    pub profile_name: String,
}

/// A configuration file, or the part of the command line that overrides one.
pub struct ConfigFile {
    pub name: Option<String>,
    pub profile: Option<String>,
    pub profiles: Profiles,
}

/// The text of an optional string.
pub open spec fn opt_view(o: Option<String>) -> Option<Seq<char>> {
    match o {
        Some(s) => Some(s@),
        None => None,
    }
}

/// The first option if it holds a value, else the second.
pub open spec fn or_else(a: Option<Seq<char>>, b: Option<Seq<char>>) -> Option<Seq<char>> {
    match a {
        Some(x) => Some(x),
        None => b,
    }
}

/// A configuration as plain values: device name, profile name and the
/// profiles by name.
pub type ConfigView = (Option<Seq<char>>, Option<Seq<char>>, Map<Seq<char>, ProfileView>);

/// `b` merged over `a`: each setting of `b` replaces that of `a`, and each
/// profile of `b` replaces `a`'s profile of the same name.
pub open spec fn merge_views(a: ConfigView, b: ConfigView) -> ConfigView {
    (or_else(b.0, a.0), or_else(b.1, a.1), a.2.union_prefer_right(b.2))
}

fn or_string(a: Option<String>, b: Option<String>) -> (r: Option<String>)
    ensures
        opt_view(r) == or_else(opt_view(a), opt_view(b)),
{
    match a {
        Some(x) => Some(x),
        None => b,
    }
}

impl View for ConfigFile {
    type V = ConfigView;

    open spec fn view(&self) -> ConfigView {
        (opt_view(self.name), opt_view(self.profile), self.profiles@)
    }
}

impl Default for ConfigFile {
    fn default() -> (r: ConfigFile)
        ensures
            r@ == (None::<Seq<char>>, None::<Seq<char>>, Map::<Seq<char>, ProfileView>::empty()),
    {
        ConfigFile { name: None, profile: None, profiles: Profiles::default() }
    }
}

impl ConfigFile {
    /// Merges configs where the second overwrites the first.
    pub fn merge(self, other: ConfigFile) -> (r: ConfigFile)
        ensures
            r@ == merge_views(self@, other@),
    {
        let ConfigFile { name, profile, profiles } = self;
        let mut profiles = profiles;
        profiles.extend(other.profiles);
        ConfigFile { name: or_string(other.name, name), profile: or_string(other.profile, profile), profiles }
    }
}

/// Why no configuration could be put together.
#[derive(Debug)]
pub enum ConfigError {
    /// The selected profile is defined nowhere.
    ProfileNotFound(String),
}

impl ConfigError {
    /// The error as a sentence.
    pub fn message(&self) -> (r: String)
        ensures
            match self {
                ConfigError::ProfileNotFound(name) => r@ == "Profile "@ + name@ + " not found"@,
            },
    {
        match self {
            ConfigError::ProfileNotFound(name) => {
                let mut r = String::from_str("Profile ");
                r.append(name.as_str());
                r.append(" not found");
                r
            },
        }
    }
}

/// The profile that is used where none is named.
pub open spec fn default_profile_name() -> Seq<char> {
    "default"@
}

/// The device name that is used where none is given.
pub open spec fn default_device_name() -> Seq<char> {
    "midi-mapper"@
}

/// The command line as a configuration that overrides the files: its device
/// and profile names, and no profiles.
pub open spec fn cli_view(cli: Cli) -> ConfigView {
    (opt_view(cli.name), opt_view(cli.profile), Map::empty())
}

/// Merges the built-in configuration, the user's and the command line's, in
/// that order, and picks the profile that they name, "default" where they
/// name none. The device is called "midi-mapper" where no name is given.
/// Fails where no profile of the picked name is defined.
pub fn run_cli_parsing(cli: Cli, default_config: ConfigFile, user_config: ConfigFile) -> (r: Result<AppConfig, ConfigError>)
    ensures
        ({
            let c = merge_views(merge_views(default_config@, user_config@), cli_view(cli));
            let pname = match c.1 { Some(p) => p, None => default_profile_name() };
            match r {
                Ok(app) => c.2.contains_key(pname) && app.profile_name@ == pname && app.profile@ == c.2[pname]
                    && app.name@ == (match c.0 { Some(n) => n, None => default_device_name() }),
                Err(ConfigError::ProfileNotFound(name)) => !c.2.contains_key(pname) && name@ == pname,
            }
        }),
{
    let Cli { config: _config, profile, name } = cli;
    let cli_config = ConfigFile { name, profile, profiles: Profiles::default() };
    let config = default_config.merge(user_config).merge(cli_config);
    let ConfigFile { name, profile, profiles } = config;
    let profile_name = match profile {
        Some(p) => p,
        None => String::from_str("default"),
    };
    match profiles.get(&profile_name) {
        Some(p) => {
            let name = match name {
                Some(n) => n,
                None => String::from_str("midi-mapper"),
            };
            Ok(AppConfig { name, profile: p.duplicate(), profile_name })
        },
        None => Err(ConfigError::ProfileNotFound(profile_name)),
    }
}

/// The device that the configuration describes: its profile's keys mapped to
/// the chords they select, nothing pressed and nothing playing.
pub fn run(config: AppConfig) -> (r: Chordifier)
    requires
        config.profile.wf(),
    ensures
        r.mapping_view() == chords_model(mapping_entries(config.profile.roots@, config.profile.chord_types@)),
        r.pressed_view() == Seq::<(u8, u8)>::empty(),
        r.playing_view() is None,
        r.wf(),
{
    let chords_map = make_mapping(config.profile.roots, config.profile.chord_types);
    Chordifier::new(chords_map)
}

/// Two profiles read from maps that hold the same root keys and the same
/// chord-type keys, listed in any order, give devices with the same table,
/// where no key is both a root key and a chord-type key.
pub proof fn lemma_run_order_free(p1: Profile, p2: Profile)
    requires
        p1.is_map(),
        keys_disjoint(p1.roots@, p1.chord_types@),
        forall|x: (Note, Note)| #[trigger] p1.roots@.contains(x) == p2.roots@.contains(x),
        forall|x: (Note, ChordType)| #[trigger] p1.chord_types@.contains(x) == p2.chord_types@.contains(x),
    ensures
        chords_model(mapping_entries(p1.roots@, p1.chord_types@)) == chords_model(
            mapping_entries(p2.roots@, p2.chord_types@),
        ),
{
    let r = p1.roots@;
    let t = p1.chord_types@;
    assert forall|i: int, j: int| 0 <= i < r.len() && 0 <= j < r.len() && r[i].0 == r[j].0 implies #[trigger] r[i]
        == #[trigger] r[j] by {
        if i < j {
            assert(r[i].0 != r[j].0);
        } else if j < i {
            assert(r[j].0 != r[i].0);
        }
    }
    assert forall|i: int, j: int| 0 <= i < t.len() && 0 <= j < t.len() && t[i].0 == t[j].0 implies #[trigger] t[i]
        == #[trigger] t[j] by {
        if i < j {
            assert(t[i].0 != t[j].0);
        } else if j < i {
            assert(t[j].0 != t[i].0);
        }
    }
    lemma_make_mapping_order_free(r, t, p2.roots@, p2.chord_types@);
}

} // verus!
