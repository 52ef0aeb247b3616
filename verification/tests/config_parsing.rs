use midi_mapper::chordifier::Note;
use midi_mapper::chords::ChordType;
use midi_mapper::mapper::{run_cli_parsing, Cli, ConfigError, ConfigFile};
use midi_mapper::profile::{Profile, Profiles};

fn resource(fname: &str) -> String {
    format!("exe/src/midi_mapper/resources/{}", fname)
}

fn profile(roots: &[(u8, u8)], types: &[(u8, ChordType)]) -> Profile {
    Profile {
        roots: roots.iter().map(|&(k, r)| (Note::new(k), Note::new(r))).collect(),
        chord_types: types.iter().map(|&(k, t)| (Note::new(k), t)).collect(),
    }
}

/// The built-in configuration: a "default" profile.
fn builtin_config() -> ConfigFile {
    ConfigFile {
        name: Some("midi-mapper".to_string()),
        profile: Some("default".to_string()),
        profiles: Profiles {
            profiles: vec![(
                "default".to_string(),
                profile(&[(48, 60), (50, 62), (52, 64)], &[(36, ChordType::MAJ), (37, ChordType::MIN)]),
            )],
        },
    }
}

/// A user's configuration file that defines the named profiles.
fn user_config(profiles: &[&str]) -> ConfigFile {
    ConfigFile {
        name: None,
        profile: None,
        profiles: Profiles {
            profiles: profiles
                .iter()
                .map(|n| (n.to_string(), profile(&[(53, 65)], &[(38, ChordType::DOM7)])))
                .collect(),
        },
    }
}

fn cli(path: String, name: &str) -> Cli {
    Cli { config: Some(path), name: Some(name.to_string()), profile: None }
}

/// The tests below keep the names of tests that read configuration files
/// (through `dhall-to-yaml-ng` for the dhall ones) which are not part of
/// this tree; reading and parsing files is the program's part, not the
/// library's. What they check is the library's part of the same command
/// line: with the device name given and no profile named, the merge of the
/// built-in configuration, a user configuration and the command line keeps
/// that name and selects the "default" profile, the user's definition of it
/// where the user gives one and the built-in one otherwise. The user
/// configurations tried are fixed and the same for every command line: one
/// with no profiles, one that redefines "default", one with only other
/// profiles, and one with both.
fn check_selection(path: String, name: &str) {
    let cases: [&[&str]; 4] = [&[], &["default"], &["other"], &["other", "default"]];
    for user_profiles in cases {
        let r = run_cli_parsing(cli(path.clone(), name), builtin_config(), user_config(user_profiles));
        assert!(r.is_ok(), "{} failed {:?}", path, r.as_ref().err());
        let app = r.ok().unwrap();
        assert_eq!(app.name, name);
        assert_eq!(app.profile_name, "default");
        let expected_roots = if user_profiles.contains(&"default") {
            vec![(Note::new(53), Note::new(65))]
        } else {
            vec![(Note::new(48), Note::new(60)), (Note::new(50), Note::new(62)), (Note::new(52), Note::new(64))]
        };
        assert_eq!(app.profile.roots, expected_roots);
    }
}

#[test]
fn parse_config_default_dhall() {
    check_selection(resource("default_config.dhall"), "sone test name");
}

#[test]
fn parse_config_default_yaml() {
    check_selection(resource("default_config.yaml"), "sone test name");
}

#[test]
fn parse_config_simple_dhall() {
    check_selection(resource("simple_config.dhall"), "sone test name");
}

#[test]
fn parse_config_multi_channel_dhall() {
    check_selection(resource("multi_channel.dhall"), "multi_channel test name");
}

#[test]
fn parse_config_mk2_3by4() {
    check_selection(resource("mk2_3by4.dhall"), "mk2_3by4 test name");
}

#[test]
fn parse_config_minifreak() {
    check_selection(resource("minifreak.dhall"), "minifreak test name");
}

#[test]
fn parse_config_configs() {
    check_selection(resource("configs.dhall"), "configs test name");
}

#[test]
fn cli_name_and_profile_override_the_files() {
    let c = Cli { config: None, name: Some("dev".to_string()), profile: Some("other".to_string()) };
    let r = run_cli_parsing(c, builtin_config(), user_config(&["other"])).ok().unwrap();
    assert_eq!(r.name, "dev");
    assert_eq!(r.profile_name, "other");
    assert_eq!(r.profile.roots, vec![(Note::new(53), Note::new(65))]);
}

#[test]
fn user_profile_replaces_builtin_of_same_name() {
    let c = Cli { config: None, name: None, profile: None };
    let r = run_cli_parsing(c, builtin_config(), user_config(&["default"])).ok().unwrap();
    assert_eq!(r.name, "midi-mapper");
    assert_eq!(r.profile_name, "default");
    assert_eq!(r.profile.chord_types, vec![(Note::new(38), ChordType::DOM7)]);
}

#[test]
fn defaults_when_nothing_names_them() {
    let empty = ConfigFile { name: None, profile: None, profiles: Profiles { profiles: vec![] } };
    let c = Cli { config: None, name: None, profile: None };
    let r = run_cli_parsing(c, empty, user_config(&["default"])).ok().unwrap();
    assert_eq!(r.name, "midi-mapper");
    assert_eq!(r.profile_name, "default");
}

#[test]
fn missing_profile_is_an_error() {
    let c = Cli { config: None, name: None, profile: Some("missing".to_string()) };
    match run_cli_parsing(c, builtin_config(), user_config(&[])) {
        Err(e) => {
            let ConfigError::ProfileNotFound(ref n) = e;
            assert_eq!(n, "missing");
            assert_eq!(e.message(), "Profile missing not found");
        }
        Ok(_) => panic!("expected an error"),
    }
}

#[test]
fn merge_second_overwrites_first() {
    let a = builtin_config();
    let b = ConfigFile { name: Some("x".to_string()), profile: None, profiles: user_config(&["p"]).profiles };
    let m = a.merge(b);
    assert_eq!(m.name.as_deref(), Some("x"));
    assert_eq!(m.profile.as_deref(), Some("default"));
    assert!(m.profiles.get(&"p".to_string()).is_some());
    assert!(m.profiles.get(&"default".to_string()).is_some());
    assert!(m.profiles.get(&"q".to_string()).is_none());
}

#[test]
fn profile_validity_checks_notes() {
    assert!(profile(&[(48, 60), (50, 62)], &[(36, ChordType::MAJ)]).is_valid());
    assert!(!profile(&[(48, 128)], &[(36, ChordType::MAJ)]).is_valid());
    assert!(!profile(&[(48, 60)], &[(200, ChordType::MAJ)]).is_valid());
    // Lists may repeat a key; the later entry wins in the mapping.
    assert!(profile(&[(48, 60), (48, 62)], &[(36, ChordType::MAJ)]).is_valid());
}
