//! The chord-mapping device configured from a layered configuration (built
//! in, environment, file): the command line names the profile and the device.
use vstd::prelude::*;

use crate::chordifier::{chords_model, Chordifier};
use crate::chords::{make_mapping, mapping_entries};
use crate::mapper::ConfigError;
use crate::profile::{Profile, Profiles};

verus! {

/// Command-line arguments; the profile defaults to "default" and the device
/// name to "midi-mapper" (the argument parser fills them in).
pub struct Cli {
    pub config: Option<String>,
    pub profile: String,
    pub name: String,
}

/// The configuration after all layers are merged.
pub struct AppConfig {
    pub args: Cli,
    pub profiles: Profiles,
}

/// The device name and the profile that the arguments select, or the error
/// that no profile of that name is defined.
pub fn select_profile(appconfig: AppConfig) -> (r: Result<(String, Profile), ConfigError>)
    ensures
        match r {
            Ok((name, profile)) => appconfig.profiles@.contains_key(appconfig.args.profile@)
                && profile@ == appconfig.profiles@[appconfig.args.profile@]
                && name@ == appconfig.args.name@,
            Err(ConfigError::ProfileNotFound(p)) => !appconfig.profiles@.contains_key(appconfig.args.profile@)
                && p@ == appconfig.args.profile@,
        },
{
    let AppConfig { args, profiles } = appconfig;
    let Cli { config: _config, profile: profile_name, name } = args;
    match profiles.get(&profile_name) {
        Some(profile) => Ok((name, profile.duplicate())),
        None => Err(ConfigError::ProfileNotFound(profile_name)),
    }
}

/// The device for a profile: its keys mapped to the chords they select.
pub fn run(profile: Profile) -> (r: Chordifier)
    requires
        profile.wf(),
    ensures
        r.mapping_view() == chords_model(mapping_entries(profile.roots@, profile.chord_types@)),
        r.pressed_view() == Seq::<(u8, u8)>::empty(),
        r.playing_view() is None,
        r.wf(),
{
    Chordifier::new(make_mapping(profile.roots, profile.chord_types))
}

} // verus!
