use keyboard_drums::config::{
    build_sample_gains, default_gain, default_master_volume, default_max_voices, expand_tilde,
    resolve_config, resolve_optional_key, BindingConfig, Config, ConfigError, CyclingKey,
    CyclingKeysConfig, ResolvedConfig,
};
use std::path::PathBuf;
use keyboard_drums::input::build_key_map;

const KEY_A: u16 = 30;
const KEY_S: u16 = 31;
const KEY_UP: u16 = 103;
const KEY_LEFT: u16 = 105;
const KEY_RIGHT: u16 = 106;
const KEY_DOWN: u16 = 108;

fn level(x: f32) -> u32 {
    x.to_bits()
}

fn binding(key: &str, sample: &str, gain: f32) -> BindingConfig {
    BindingConfig { key: key.to_string(), sample: sample.to_string(), gain: level(gain) }
}

/// A configuration with the defaults for whatever is not given.
fn config(bindings: Vec<BindingConfig>, cycling_keys: CyclingKeysConfig) -> Config {
    Config {
        device: None,
        master_volume: default_master_volume(),
        max_voices: default_max_voices(),
        samples_dir: "/tmp/samples".to_string(),
        bindings,
        cycling_keys,
    }
}

fn resolve(config: &Config) -> Result<ResolvedConfig, ConfigError> {
    resolve_config(config, true)
}

#[test]
fn test_parse_minimal_config() {
    let mut config = config(vec![binding("KEY_A", "kick.wav", 1.0)], CyclingKeysConfig::default());
    config.master_volume = level(0.8);
    config.max_voices = 16;

    let resolved = resolve(&config).unwrap();

    assert_eq!(f32::from_bits(resolved.master_volume), 0.8);
    assert_eq!(resolved.max_voices, 16);
    assert_eq!(resolved.sample_names.len(), 1);
    assert_eq!(resolved.sample_names[0], "kick.wav");
    assert_eq!(resolved.key_map.len(), 1);
    assert!(resolved.key_map.contains_key(&KEY_A));
    assert_eq!(resolved.samples_dir, "/tmp/samples");
}

#[test]
fn test_gain_defaults_to_one() {
    let config = config(
        vec![BindingConfig {
            key: "KEY_A".to_string(),
            sample: "kick.wav".to_string(),
            gain: default_gain(),
        }],
        CyclingKeysConfig::default(),
    );
    let resolved = resolve(&config).unwrap();

    let binding = resolved.key_map.get(&KEY_A).unwrap();
    assert_eq!(f32::from_bits(binding.gain), 1.0);
}

#[test]
fn test_gain_clamped() {
    let config = config(vec![binding("KEY_A", "kick.wav", 5.0)], CyclingKeysConfig::default());
    let resolved = resolve(&config).unwrap();

    let binding = resolved.key_map.get(&KEY_A).unwrap();
    assert_eq!(f32::from_bits(binding.gain), 1.0);
}

#[test]
fn test_invalid_key_name() {
    let config = config(vec![binding("KEY_FOOBAR", "kick.wav", 1.0)], CyclingKeysConfig::default());
    let result = resolve(&config);
    assert!(result.is_err());
    let err = result.unwrap_err();
    assert!(err.describe().contains("Unknown evdev key name"));
    assert_eq!(err, ConfigError::UnknownKey { binding: 0 });
}

#[test]
fn test_no_bindings() {
    let config = config(Vec::new(), CyclingKeysConfig::default());
    let result = resolve(&config);
    assert!(result.is_err());
    assert!(result.unwrap_err().describe().contains("No keybindings"));
}

#[test]
fn test_duplicate_sample_deduplication() {
    let config = config(
        vec![binding("KEY_A", "kick.wav", 1.0), binding("KEY_S", "kick.wav", 1.0)],
        CyclingKeysConfig::default(),
    );
    let resolved = resolve(&config).unwrap();

    assert_eq!(resolved.key_map.len(), 2);
    assert_eq!(resolved.sample_names.len(), 1);

    let binding_a = resolved.key_map.get(&KEY_A).unwrap();
    let binding_s = resolved.key_map.get(&KEY_S).unwrap();
    assert_eq!(binding_a.sample_index, binding_s.sample_index);
}

fn cycling(
    next_kit: Option<&str>,
    prev_kit: Option<&str>,
    next_variant: Option<&str>,
    prev_variant: Option<&str>,
) -> CyclingKeysConfig {
    CyclingKeysConfig {
        next_kit: next_kit.map(str::to_string),
        prev_kit: prev_kit.map(str::to_string),
        next_variant: next_variant.map(str::to_string),
        prev_variant: prev_variant.map(str::to_string),
    }
}

#[test]
fn test_cycling_keys_parsed() {
    let config = config(
        vec![binding("KEY_A", "kick.wav", 1.0)],
        cycling(Some("KEY_RIGHT"), Some("KEY_LEFT"), Some("KEY_UP"), Some("KEY_DOWN")),
    );
    let resolved = resolve(&config).unwrap();

    assert_eq!(resolved.cycling_keys.next_kit, Some(KEY_RIGHT));
    assert_eq!(resolved.cycling_keys.prev_kit, Some(KEY_LEFT));
    assert_eq!(resolved.cycling_keys.next_variant, Some(KEY_UP));
    assert_eq!(resolved.cycling_keys.prev_variant, Some(KEY_DOWN));
}

#[test]
fn test_cycling_keys_optional() {
    let config = config(vec![binding("KEY_A", "kick.wav", 1.0)], CyclingKeysConfig::default());
    let resolved = resolve(&config).unwrap();

    assert!(resolved.cycling_keys.next_kit.is_none());
    assert!(resolved.cycling_keys.prev_kit.is_none());
    assert!(resolved.cycling_keys.next_variant.is_none());
    assert!(resolved.cycling_keys.prev_variant.is_none());
}

#[test]
fn test_cycling_key_conflicts_with_binding() {
    let config = config(
        vec![binding("KEY_A", "kick.wav", 1.0)],
        cycling(Some("KEY_A"), None, None, None),
    );
    let result = resolve(&config);
    assert!(result.is_err());
    let err = result.unwrap_err();
    assert!(err.describe().contains("conflicts"));
    assert_eq!(err, ConfigError::CyclingKeyConflict { key: CyclingKey::NextKit });
}

#[test]
fn test_invalid_cycling_key_name() {
    let config = config(
        vec![binding("KEY_A", "kick.wav", 1.0)],
        cycling(Some("KEY_DOESNOTEXIST"), None, None, None),
    );
    let result = resolve(&config);
    assert!(result.is_err());
    let err = result.unwrap_err();
    assert!(err.describe().contains("Unknown evdev key name"));
    assert_eq!(err, ConfigError::UnknownCyclingKey { key: CyclingKey::NextKit });
}

#[test]
fn the_defaults_are_as_documented() {
    assert_eq!(f32::from_bits(default_master_volume()), 0.8);
    assert_eq!(default_max_voices(), 32);
    assert_eq!(f32::from_bits(default_gain()), 1.0);
}

#[test]
fn key_names_resolve_to_the_codes_of_the_keyboard_layer() {
    let named = |name: &str| resolve_optional_key(&Some(name.to_string()), CyclingKey::PrevKit);
    assert_eq!(named("KEY_A"), Ok(Some(30)));
    assert_eq!(named("KEY_SPACE"), Ok(Some(57)));
    assert_eq!(named("KEY_ESC"), Ok(Some(1)));
    assert_eq!(named("key_a"), Err(ConfigError::UnknownCyclingKey { key: CyclingKey::PrevKit }));
    assert_eq!(named(""), Err(ConfigError::UnknownCyclingKey { key: CyclingKey::PrevKit }));
    assert_eq!(resolve_optional_key(&None, CyclingKey::NextKit), Ok(None));
}

#[test]
fn the_volume_is_clamped_and_no_voices_means_the_default() {
    let mut written = config(vec![binding("KEY_A", "kick.wav", -2.0)], CyclingKeysConfig::default());
    written.master_volume = level(1.5);
    written.max_voices = 0;
    written.device = Some("/dev/input/event3".to_string());
    let resolved = resolve(&written).unwrap();
    assert_eq!(f32::from_bits(resolved.master_volume), 1.0);
    assert_eq!(resolved.max_voices, 32);
    assert_eq!(resolved.device.as_deref(), Some("/dev/input/event3"));
    assert_eq!(f32::from_bits(resolved.key_map[&KEY_A].gain), 0.0);

    written.master_volume = level(-0.5);
    written.max_voices = 255;
    let resolved = resolve(&written).unwrap();
    assert_eq!(f32::from_bits(resolved.master_volume), 0.0);
    assert_eq!(resolved.max_voices, 255);
}

#[test]
fn the_polyphony_lies_between_one_and_255() {
    let mut written = config(vec![binding("KEY_A", "kick.wav", 1.0)], CyclingKeysConfig::default());
    for (configured, resolved) in
        [(0usize, 32usize), (1, 1), (16, 16), (255, 255), (256, 255), (300, 255), (usize::MAX, 255)]
    {
        written.max_voices = configured;
        assert_eq!(resolve(&written).unwrap().max_voices, resolved);
    }
}

#[test]
fn a_volume_or_gain_that_is_not_a_number_is_refused() {
    let mut written = config(
        vec![binding("KEY_A", "kick.wav", 1.0), binding("KEY_S", "snare.wav", f32::NAN)],
        CyclingKeysConfig::default(),
    );
    assert_eq!(resolve(&written).unwrap_err(), ConfigError::GainNotANumber { binding: 1 });
    assert!(ConfigError::GainNotANumber { binding: 1 }.describe().contains("not a number"));

    written.master_volume = f32::NAN.to_bits();
    assert_eq!(resolve(&written).unwrap_err(), ConfigError::VolumeNotANumber);
    assert!(ConfigError::VolumeNotANumber.describe().contains("not a number"));

    written.bindings[1].key = "NOPE".to_string();
    written.master_volume = level(f32::INFINITY);
    assert_eq!(resolve(&written).unwrap_err(), ConfigError::UnknownKey { binding: 1 });

    written.bindings[1] = binding("KEY_S", "snare.wav", f32::INFINITY);
    let resolved = resolve(&written).unwrap();
    assert_eq!(f32::from_bits(resolved.master_volume), 1.0);
    assert_eq!(f32::from_bits(resolved.key_map[&KEY_S].gain), 1.0);
}

fn many_samples(count: usize) -> Config {
    let keys = ["KEY_A", "KEY_S", "KEY_D", "KEY_F"];
    let bindings = (0..count)
        .map(|i| binding(keys[i % keys.len()], &format!("sample{}.wav", i), 1.0))
        .collect();
    config(bindings, CyclingKeysConfig::default())
}

#[test]
fn more_than_255_distinct_samples_are_refused() {
    let resolved = resolve(&many_samples(255)).unwrap();
    assert_eq!(resolved.sample_names.len(), 255);
    assert_eq!(resolved.key_map[&KEY_A].sample_index, 252);
    assert!(resolved.key_map.values().all(|b| b.sample_index < 255));

    assert_eq!(resolve(&many_samples(256)).unwrap_err(), ConfigError::TooManySamples);
    assert_eq!(resolve(&many_samples(300)).unwrap_err(), ConfigError::TooManySamples);
    assert!(ConfigError::TooManySamples.describe().contains("Too many distinct samples"));

    let mut with_unknown_key = many_samples(300);
    with_unknown_key.bindings[299].key = "NOPE".to_string();
    assert_eq!(
        resolve(&with_unknown_key).unwrap_err(),
        ConfigError::UnknownKey { binding: 299 }
    );

    let mut repeated = many_samples(255);
    repeated.bindings.push(binding("KEY_G", "sample7.wav", 0.5));
    let resolved = resolve(&repeated).unwrap();
    assert_eq!(resolved.sample_names.len(), 255);
    assert_eq!(resolved.key_map[&34].sample_index, 7);
}

#[test]
fn a_resolved_configuration_is_valid() {
    let written = config(
        vec![
            binding("KEY_A", "kick.wav", 7.0),
            binding("KEY_S", "snare.wav", -7.0),
            binding("KEY_D", "kick.wav", 0.5),
        ],
        cycling(Some("KEY_RIGHT"), None, None, Some("KEY_DOWN")),
    );
    let resolved = resolve(&written).unwrap();
    let volume = f32::from_bits(resolved.master_volume);
    assert!(0.0 <= volume && volume <= 1.0);
    assert!(1 <= resolved.max_voices && resolved.max_voices <= 255);
    assert_eq!(resolved.sample_names, vec!["kick.wav", "snare.wav"]);
    for (code, b) in resolved.key_map.iter() {
        assert_eq!(b.key_code, *code);
        assert!(b.sample_index < resolved.sample_names.len());
        let gain = f32::from_bits(b.gain);
        assert!(0.0 <= gain && gain <= 1.0);
    }
    for key in [KEY_RIGHT, KEY_DOWN] {
        assert!(!resolved.key_map.contains_key(&key));
    }
}

#[test]
fn sample_names_keep_the_order_of_their_first_mention() {
    let config = config(
        vec![
            binding("KEY_A", "kick.wav", 1.0),
            binding("KEY_S", "snare.wav", 0.9),
            binding("KEY_D", "kick.wav", 0.5),
            binding("KEY_F", "hat.wav", 0.7),
            binding("KEY_A", "hat.wav", 0.3),
        ],
        CyclingKeysConfig::default(),
    );
    let resolved = resolve(&config).unwrap();
    assert_eq!(resolved.sample_names, vec!["kick.wav", "snare.wav", "hat.wav"]);
    assert_eq!(resolved.key_map.len(), 4);
    // The later binding of a key stands.
    assert_eq!(resolved.key_map[&KEY_A].sample_index, 2);
    assert_eq!(resolved.key_map[&KEY_A].gain, level(0.3));
    assert_eq!(resolved.key_map[&KEY_A].key_code, KEY_A);
    assert_eq!(resolved.key_map[&KEY_S].sample_index, 1);
    assert_eq!(resolved.key_map[&32].sample_index, 0);
    assert_eq!(resolved.key_map[&33].sample_index, 2);

    let key_map = build_key_map(&resolved.key_map);
    assert_eq!(key_map[&KEY_S], (1, level(0.9)));
}

#[test]
fn the_first_failing_check_decides_the_error() {
    let broken = config(
        vec![binding("KEY_A", "kick.wav", 1.0), binding("NOPE", "snare.wav", 1.0)],
        cycling(Some("KEY_A"), Some("ALSO_NOPE"), None, None),
    );
    assert_eq!(resolve_config(&broken, false).unwrap_err(), ConfigError::SamplesDirMissing);
    assert!(ConfigError::SamplesDirMissing.describe().contains("samples_dir does not exist"));
    assert_eq!(resolve(&broken).unwrap_err(), ConfigError::UnknownKey { binding: 1 });

    let empty = config(Vec::new(), CyclingKeysConfig::default());
    assert_eq!(resolve_config(&empty, false).unwrap_err(), ConfigError::SamplesDirMissing);

    let unknown_before_conflict = config(
        vec![binding("KEY_A", "kick.wav", 1.0)],
        cycling(Some("KEY_A"), None, None, Some("ALSO_NOPE")),
    );
    assert_eq!(
        resolve(&unknown_before_conflict).unwrap_err(),
        ConfigError::UnknownCyclingKey { key: CyclingKey::PrevVariant }
    );

    let two_conflicts = config(
        vec![binding("KEY_A", "kick.wav", 1.0), binding("KEY_S", "kick.wav", 1.0)],
        cycling(None, Some("KEY_S"), Some("KEY_A"), None),
    );
    assert_eq!(
        resolve(&two_conflicts).unwrap_err(),
        ConfigError::CyclingKeyConflict { key: CyclingKey::PrevKit }
    );
}

#[test]
fn sample_gains_come_from_the_bindings() {
    let config = config(
        vec![
            binding("KEY_A", "kick.wav", 0.9),
            binding("KEY_S", "snare.wav", 0.7),
            binding("KEY_D", "hat.wav", 0.5),
        ],
        CyclingKeysConfig::default(),
    );
    let resolved = resolve(&config).unwrap();
    let gains = build_sample_gains(resolved.sample_names.len(), &resolved.key_map);
    assert_eq!(gains, vec![level(0.9), level(0.7), level(0.5)]);

    let more = build_sample_gains(5, &resolved.key_map);
    assert_eq!(more, vec![level(0.9), level(0.7), level(0.5), level(1.0), level(1.0)]);
    let fewer = build_sample_gains(1, &resolved.key_map);
    assert_eq!(fewer, vec![level(0.9)]);
}

#[test]
fn a_leading_tilde_expands_to_the_home_directory() {
    let home = Some("/home/drummer");
    let expect = |path: &str| PathBuf::from("/home/drummer").join(path);
    assert_eq!(PathBuf::from(expand_tilde("~/samples", home)), expect("samples"));
    assert_eq!(
        PathBuf::from(expand_tilde("~/.config/keyboard-drums/config.toml", home)),
        expect(".config/keyboard-drums/config.toml")
    );
    assert_eq!(PathBuf::from(expand_tilde("~/", home)), expect(""));
    assert_eq!(expand_tilde("~/samples", home), "/home/drummer/samples");
    assert_eq!(expand_tilde("~/", home), "/home/drummer/");
    assert_eq!(expand_tilde("~/a/b/", home), "/home/drummer/a/b/");
    assert_eq!(expand_tilde("~/samples", Some("/home/drummer/")), "/home/drummer/samples");
    assert_eq!(expand_tilde("~/samples", Some("/")), "/samples");
    assert_eq!(expand_tilde("~/samples", Some("")), "samples");
    assert_eq!(expand_tilde("~/samples", Some("relative/home")), "relative/home/samples");
    assert_eq!(expand_tilde("~//etc/passwd", home), "/etc/passwd");
    assert_eq!(expand_tilde("~//", home), "/");
    assert_eq!(PathBuf::from(expand_tilde("~/\u{e9}t\u{e9}/kits", home)), expect("\u{e9}t\u{e9}/kits"));
}

#[test]
fn other_paths_stay_as_they_are() {
    let home = Some("/home/drummer");
    for path in ["/dev/input/event3", "samples", "~user/samples", "a/~/b", "", "~~"] {
        assert_eq!(expand_tilde(path, home), path);
        assert_eq!(expand_tilde(path, None), path);
    }
    assert_eq!(expand_tilde("~/samples", None), "~/samples");
    assert_eq!(expand_tilde("~", None), "~");
}
