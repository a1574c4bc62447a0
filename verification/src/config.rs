//! The configuration: key bindings, cycling keys, volume and polyphony.

use crate::level::{clamp_unit, clamp_unit_spec, in_unit, is_nan, is_not_a_number, Level, ONE};
use crate::samples::{join_path, joined_path};
use std::collections::HashMap;
use std::str::FromStr;
use vstd::prelude::*;
use vstd::std_specs::iter::IteratorSpec;
use vstd::string::StrSliceExecFns;

verus! {

/// The configuration as it is written down.
#[derive(Debug)]
pub struct Config {
    /// Path of the keyboard device.
    pub device: Option<String>,
    /// Master volume, which must be a number; clamped to the interval from
    /// zero to one.
    pub master_volume: Level,
    /// Maximum number of simultaneous voices; zero stands for the default,
    /// and more than the limit is cut down to it.
    pub max_voices: usize,
    /// Root directory of the kit folders.
    pub samples_dir: String,
    /// The key bindings.
    pub bindings: Vec<BindingConfig>,
    /// The cycling keys.
    pub cycling_keys: CyclingKeysConfig,
}

/// One key binding as it is written down.
#[derive(Debug)]
pub struct BindingConfig {
    /// Name of the key, such as `KEY_A`.
    pub key: String,
    /// File name of the sample, such as `kick.wav`.
    pub sample: String,
    /// Gain of the sample, which must be a number; clamped to the interval
    /// from zero to one.
    pub gain: Level,
}

/// Key names for cycling through kits and variants at runtime.
#[derive(Debug, Default)]
pub struct CyclingKeysConfig {
    /// Key to cycle forward through kits.
    pub next_kit: Option<String>,
    /// Key to cycle backward through kits.
    pub prev_kit: Option<String>,
    /// Key to cycle forward through the variants of the current kit.
    pub next_variant: Option<String>,
    /// Key to cycle backward through the variants of the current kit.
    pub prev_variant: Option<String>,
}

/// The cycling keys as key codes.
#[derive(Debug, Clone, Copy)]
pub struct ResolvedCyclingKeys {
    /// Key code of the key that selects the next kit.
    pub next_kit: Option<u16>,
    /// Key code of the key that selects the previous kit.
    pub prev_kit: Option<u16>,
    /// Key code of the key that selects the next variant.
    pub next_variant: Option<u16>,
    /// Key code of the key that selects the previous variant.
    pub prev_variant: Option<u16>,
}

/// A key binding that has been checked and resolved.
#[derive(Debug, Clone, Copy)]
pub struct ResolvedBinding {
    /// Key code of the bound key.
    pub key_code: u16,
    /// Index of the bound sample among the sample names.
    pub sample_index: usize,
    /// Gain of the sample, between zero and one.
    pub gain: Level,
}

impl ResolvedCyclingKeys {
    /// Whether `code` is one of the cycling keys.
    pub open spec fn contains(&self, code: u16) -> bool {
        ||| self.next_kit == Some(code)
        ||| self.prev_kit == Some(code)
        ||| self.next_variant == Some(code)
        ||| self.prev_variant == Some(code)
    }
}

/// The configuration, checked and resolved.
#[derive(Debug)]
pub struct ResolvedConfig {
    /// Path of the keyboard device.
    pub device: Option<String>,
    /// Master volume, between zero and one.
    pub master_volume: Level,
    /// Maximum number of simultaneous voices, between one and the limit.
    pub max_voices: usize,
    /// Root directory of the kit folders.
    pub samples_dir: String,
    /// The distinct sample file names, no more than the limit; a sample's
    /// index here is its id.
    pub sample_names: Vec<String>,
    /// The bindings by key code.
    pub key_map: HashMap<u16, ResolvedBinding>,
    /// The cycling keys.
    pub cycling_keys: ResolvedCyclingKeys,
}

/// One of the four cycling keys.
#[derive(Debug, Clone, Copy, PartialEq, Eq)]
pub enum CyclingKey {
    /// The key that selects the next kit.
    NextKit,
    /// The key that selects the previous kit.
    PrevKit,
    /// The key that selects the next variant.
    NextVariant,
    /// The key that selects the previous variant.
    PrevVariant,
}

/// Why a configuration is refused.
#[derive(Debug, Clone, Copy, PartialEq, Eq)]
pub enum ConfigError {
    /// The samples directory does not exist or is no directory.
    SamplesDirMissing,
    /// There is no key binding.
    NoBindings,
    /// The master volume is not a number.
    VolumeNotANumber,
    /// The key name of the binding at this index is not known.
    UnknownKey { binding: usize },
    /// The gain of the binding at this index is not a number.
    GainNotANumber { binding: usize },
    /// The bindings name more distinct samples than a sample id can tell
    /// apart.
    TooManySamples,
    /// The key name of this cycling key is not known.
    UnknownCyclingKey { key: CyclingKey },
    /// This cycling key is also bound to a sample.
    CyclingKeyConflict { key: CyclingKey },
}

impl ConfigError {
    /// What the error says, without the name of the key.
    pub open spec fn text(&self) -> Seq<char> {
        match self {
            ConfigError::SamplesDirMissing => "samples_dir does not exist or is not a directory"@,
            ConfigError::NoBindings => "No keybindings defined in config"@,
            ConfigError::VolumeNotANumber => "master_volume is not a number"@,
            ConfigError::UnknownKey { .. } => "Unknown evdev key name"@,
            ConfigError::GainNotANumber { .. } => "gain is not a number"@,
            ConfigError::TooManySamples => "Too many distinct samples"@,
            ConfigError::UnknownCyclingKey { .. } => "Unknown evdev key name for a cycling key"@,
            ConfigError::CyclingKeyConflict { .. } => "Cycling key conflicts with a sample keybinding"@,
        }
    }

    /// What the error says, without the name of the key.
    pub fn describe(&self) -> (text: String)
        ensures
            text@ == self.text(),
    {
        match self {
            ConfigError::SamplesDirMissing => "samples_dir does not exist or is not a directory".to_owned(),
            ConfigError::NoBindings => "No keybindings defined in config".to_owned(),
            ConfigError::VolumeNotANumber => "master_volume is not a number".to_owned(),
            ConfigError::UnknownKey { .. } => "Unknown evdev key name".to_owned(),
            ConfigError::GainNotANumber { .. } => "gain is not a number".to_owned(),
            ConfigError::TooManySamples => "Too many distinct samples".to_owned(),
            ConfigError::UnknownCyclingKey { .. } => "Unknown evdev key name for a cycling key".to_owned(),
            ConfigError::CyclingKeyConflict { .. } => "Cycling key conflicts with a sample keybinding".to_owned(),
        }
    }
}

/// The master volume where the configuration gives none: 0.8.
pub const DEFAULT_MASTER_VOLUME: Level = 0x3F4C_CCCD;

/// The polyphony where the configuration gives none.
pub const DEFAULT_MAX_VOICES: usize = 32;

/// The largest polyphony; a larger one is cut down to it.
pub const MAX_VOICES_LIMIT: usize = 255;

/// The largest number of distinct samples. Every sample index is then a
/// sample id.
pub const MAX_SAMPLES: usize = 255;

/// The master volume where the configuration gives none.
pub fn default_master_volume() -> (volume: Level)
    ensures
        volume == DEFAULT_MASTER_VOLUME,
{
    DEFAULT_MASTER_VOLUME
}

/// The polyphony where the configuration gives none.
pub fn default_max_voices() -> (voices: usize)
    ensures
        voices == DEFAULT_MAX_VOICES,
{
    DEFAULT_MAX_VOICES
}

/// The gain of a binding that gives none: one.
pub fn default_gain() -> (gain: Level)
    ensures
        gain == ONE,
{
    ONE
}

/// Whether a path begins at the home directory: it is `~` or begins with
/// `~/`.
pub open spec fn begins_at_home(path: Seq<char>) -> bool {
    &&& path.len() >= 1
    &&& path[0] == '~'
    &&& path.len() == 1 || path[1] == '/'
}

/// A path with a leading `~/` replaced by the home directory, where there is
/// one; any other path as it is.
pub open spec fn expanded_path(path: Seq<char>, home: Option<Seq<char>>) -> Seq<char> {
    if begins_at_home(path) && home is Some {
        joined_path(home.unwrap(), path.skip(2))
    } else {
        path
    }
}

/// Expands a leading `~/` to the home directory `home`. The bare `~` cannot
/// be expanded.
pub fn expand_tilde(path: &str, home: Option<&str>) -> (expanded: String)
    requires
        home is Some ==> !(path@.len() == 1 && path@[0] == '~'),
    ensures
        expanded@ == expanded_path(
            path@,
            match home {
                Some(home) => Some(home@),
                None => None,
            },
        ),
{
    let len: usize = path.unicode_len();
    if len >= 1 && path.get_char(0) == '~' && (len == 1 || path.get_char(1) == '/') {
        match home {
            Some(home) => {
                let rest = path.substring_char(2, len);
                assert(rest@ =~= path@.skip(2));
                return join_path(home, rest);
            },
            None => {},
        }
    }
    path.to_owned()
}

/// The key code that the keyboard layer knows a key name by; none for a
/// name it does not know.
pub uninterp spec fn key_code_named(name: Seq<char>) -> Option<u16>;

/// `KeyCode::from_str`, then `KeyCode::code`: looks the name up in the
/// table of key names and gives the code that stands beside it.
#[verifier::external_body]
fn key_code_from_name(name: &str) -> (code: Option<u16>)
    ensures
        code == key_code_named(name@),
{
    match evdev::KeyCode::from_str(name) {
        Ok(key) => Some(key.code()),
        Err(_) => None,
    }
}

/// The code of an optional key name; none where there is no name or the
/// name is not known.
pub open spec fn optional_key_code(name: Option<String>) -> Option<u16> {
    match name {
        Some(name) => key_code_named(name@),
        None => None,
    }
}

/// Whether an optional key name, if there is one, is known.
pub open spec fn optional_key_known(name: Option<String>) -> bool {
    match name {
        Some(name) => key_code_named(name@) is Some,
        None => true,
    }
}

/// Resolves an optional key name. Fails where there is a name that is not
/// known.
pub fn resolve_optional_key(name: &Option<String>, key: CyclingKey) -> (r: Result<
    Option<u16>,
    ConfigError,
>)
    ensures
        r == if optional_key_known(*name) {
            Ok::<Option<u16>, ConfigError>(optional_key_code(*name))
        } else {
            Err::<Option<u16>, ConfigError>(ConfigError::UnknownCyclingKey { key })
        },
{
    match name {
        None => Ok(None),
        Some(key_name) => match key_code_from_name(key_name.as_str()) {
            Some(code) => Ok(Some(code)),
            None => Err(ConfigError::UnknownCyclingKey { key }),
        },
    }
}

/// The distinct sample names of the bindings, in the order in which the
/// bindings first mention them.
pub open spec fn sample_names_of(bindings: Seq<BindingConfig>) -> Seq<Seq<char>>
    decreases bindings.len(),
{
    if bindings.len() == 0 {
        Seq::empty()
    } else {
        let names = sample_names_of(bindings.drop_last());
        let name = bindings.last().sample@;
        if names.contains(name) {
            names
        } else {
            names.push(name)
        }
    }
}

/// The binding that a written binding resolves to, given the sample names.
pub open spec fn resolved_binding(binding: BindingConfig, names: Seq<Seq<char>>) -> ResolvedBinding {
    ResolvedBinding {
        key_code: key_code_named(binding.key@).unwrap(),
        sample_index: names.index_of(binding.sample@) as usize,
        gain: clamp_unit_spec(binding.gain),
    }
}

/// The bindings by key code. Where two bindings name the same key the later
/// one stands.
pub open spec fn key_map_of(bindings: Seq<BindingConfig>, names: Seq<Seq<char>>) -> Map<
    u16,
    ResolvedBinding,
>
    decreases bindings.len(),
{
    if bindings.len() == 0 {
        Map::empty()
    } else {
        let binding = bindings.last();
        key_map_of(bindings.drop_last(), names).insert(
            key_code_named(binding.key@).unwrap(),
            resolved_binding(binding, names),
        )
    }
}

/// The views of a list of names.
pub open spec fn name_views(names: Seq<String>) -> Seq<Seq<char>> {
    names.map_values(|name: String| name@)
}

/// The sample names of more bindings begin with the sample names of fewer.
proof fn lemma_sample_names_grow(bindings: Seq<BindingConfig>, upto: int)
    requires
        0 <= upto <= bindings.len(),
    ensures
        sample_names_of(bindings.take(upto)).len() <= sample_names_of(bindings).len(),
        sample_names_of(bindings.take(upto)) == sample_names_of(bindings).take(
            sample_names_of(bindings.take(upto)).len() as int,
        ),
    decreases bindings.len() - upto,
{
    if upto == bindings.len() {
        assert(bindings.take(upto) =~= bindings);
        assert(sample_names_of(bindings) =~= sample_names_of(bindings).take(
            sample_names_of(bindings).len() as int,
        ));
    } else {
        lemma_sample_names_grow(bindings, upto + 1);
        let longer = bindings.take(upto + 1);
        assert(longer.drop_last() =~= bindings.take(upto));
        let fewer = sample_names_of(bindings.take(upto));
        let more = sample_names_of(longer);
        let all = sample_names_of(bindings);
        assert(fewer =~= more.take(fewer.len() as int));
        assert(fewer =~= all.take(fewer.len() as int));
    }
}

/// No sample name is listed twice, and every binding's sample is listed.
proof fn lemma_sample_names_distinct(bindings: Seq<BindingConfig>)
    ensures
        sample_names_of(bindings).no_duplicates(),
        forall|i: int|
            0 <= i < bindings.len() ==> sample_names_of(bindings).contains(
                (#[trigger] bindings[i]).sample@,
            ),
    decreases bindings.len(),
{
    if bindings.len() > 0 {
        let fewer = bindings.drop_last();
        lemma_sample_names_distinct(fewer);
        let names = sample_names_of(fewer);
        let name = bindings.last().sample@;
        let all = sample_names_of(bindings);
        assert forall|i: int| 0 <= i < bindings.len() implies all.contains(
            (#[trigger] bindings[i]).sample@,
        ) by {
            if i < fewer.len() {
                assert(fewer[i] == bindings[i]);
                let k = choose|k: int| 0 <= k < names.len() && names[k] == bindings[i].sample@;
                assert(all[k] == bindings[i].sample@);
            } else if names.contains(name) {
            } else {
                assert(all[names.len() as int] == name);
            }
        }
    }
}

/// In a list without duplicates an element is found where it stands.
proof fn lemma_index_of_distinct(names: Seq<Seq<char>>, i: int)
    requires
        names.no_duplicates(),
        0 <= i < names.len(),
    ensures
        names.index_of(names[i]) == i,
{
    let found = names.index_of(names[i]);
    assert(names.contains(names[i]));
}

/// Finds a sample name in the list, or adds it at the end. Returns where
/// it stands.
fn find_or_add(sample_names: &mut Vec<String>, name: &String) -> (index: usize)
    ensures
        name_views(final(sample_names)@) == if name_views(old(sample_names)@).contains(name@) {
            name_views(old(sample_names)@)
        } else {
            name_views(old(sample_names)@).push(name@)
        },
        index < final(sample_names)@.len(),
        final(sample_names)@[index as int]@ == name@,
{
    let ghost before = name_views(sample_names@);
    let mut i: usize = 0;
    while i < sample_names.len()
        invariant
            i <= sample_names@.len(),
            sample_names@ == old(sample_names)@,
            before == name_views(sample_names@),
            forall|k: int| 0 <= k < i ==> before[k] != name@,
        decreases sample_names@.len() - i,
    {
        if sample_names[i] == *name {
            assert(before[i as int] == name@);
            return i;
        }
        i += 1;
    }
    sample_names.push(name.clone());
    assert(name_views(sample_names@) =~= before.push(name@));
    sample_names.len() - 1
}

/// Whether a binding is good: its key name is known and its gain is a
/// number.
pub open spec fn binding_good(binding: BindingConfig) -> bool {
    key_code_named(binding.key@) is Some && !is_nan(binding.gain)
}

/// Whether all bindings are good.
pub open spec fn all_bindings_good(bindings: Seq<BindingConfig>) -> bool {
    forall|i: int| 0 <= i < bindings.len() ==> binding_good(#[trigger] bindings[i])
}

/// Whether the binding at `index` is the first that is not good.
pub open spec fn is_first_bad_binding(bindings: Seq<BindingConfig>, index: int) -> bool {
    &&& 0 <= index < bindings.len()
    &&& !binding_good(bindings[index])
    &&& all_bindings_good(bindings.take(index))
}

/// The first cycling key, in the order next kit, previous kit, next
/// variant, previous variant, whose name is not known.
pub open spec fn first_unknown_cycling_key(keys: CyclingKeysConfig) -> Option<CyclingKey> {
    if !optional_key_known(keys.next_kit) {
        Some(CyclingKey::NextKit)
    } else if !optional_key_known(keys.prev_kit) {
        Some(CyclingKey::PrevKit)
    } else if !optional_key_known(keys.next_variant) {
        Some(CyclingKey::NextVariant)
    } else if !optional_key_known(keys.prev_variant) {
        Some(CyclingKey::PrevVariant)
    } else {
        None
    }
}

/// The cycling keys as key codes.
pub open spec fn resolved_cycling_keys(keys: CyclingKeysConfig) -> ResolvedCyclingKeys {
    ResolvedCyclingKeys {
        next_kit: optional_key_code(keys.next_kit),
        prev_kit: optional_key_code(keys.prev_kit),
        next_variant: optional_key_code(keys.next_variant),
        prev_variant: optional_key_code(keys.prev_variant),
    }
}

/// Whether a cycling key is configured and bound to a sample as well.
pub open spec fn conflicts(key: Option<u16>, key_map: Map<u16, ResolvedBinding>) -> bool {
    key is Some && key_map.contains_key(key.unwrap())
}

/// The first cycling key, in the same order, that is also bound to a
/// sample.
pub open spec fn first_conflict(keys: ResolvedCyclingKeys, key_map: Map<u16, ResolvedBinding>) -> Option<
    CyclingKey,
> {
    if conflicts(keys.next_kit, key_map) {
        Some(CyclingKey::NextKit)
    } else if conflicts(keys.prev_kit, key_map) {
        Some(CyclingKey::PrevKit)
    } else if conflicts(keys.next_variant, key_map) {
        Some(CyclingKey::NextVariant)
    } else if conflicts(keys.prev_variant, key_map) {
        Some(CyclingKey::PrevVariant)
    } else {
        None
    }
}

/// Without a conflict no cycling key is bound to a sample.
pub proof fn lemma_no_conflict_means_disjoint(
    keys: ResolvedCyclingKeys,
    key_map: Map<u16, ResolvedBinding>,
)
    ensures
        first_conflict(keys, key_map) is None <==> forall|code: u16|
            keys.contains(code) ==> !#[trigger] key_map.contains_key(code),
{
    if first_conflict(keys, key_map) is Some {
        let code = match first_conflict(keys, key_map).unwrap() {
            CyclingKey::NextKit => keys.next_kit.unwrap(),
            CyclingKey::PrevKit => keys.prev_kit.unwrap(),
            CyclingKey::NextVariant => keys.next_variant.unwrap(),
            CyclingKey::PrevVariant => keys.prev_variant.unwrap(),
        };
        assert(keys.contains(code) && key_map.contains_key(code));
    }
}

/// The polyphony that a configured one resolves to: the default for none,
/// the limit for more than the limit, and else what is configured.
pub open spec fn resolved_max_voices(max_voices: usize) -> usize {
    if max_voices == 0 {
        DEFAULT_MAX_VOICES
    } else if max_voices > MAX_VOICES_LIMIT {
        MAX_VOICES_LIMIT
    } else {
        max_voices
    }
}

/// Whether `resolved` is what `config` resolves to.
pub open spec fn resolves_to(config: Config, resolved: ResolvedConfig) -> bool {
    let names = sample_names_of(config.bindings@);
    &&& resolved.device == config.device
    &&& resolved.master_volume == clamp_unit_spec(config.master_volume)
    &&& resolved.max_voices == resolved_max_voices(config.max_voices)
    &&& resolved.samples_dir == config.samples_dir
    &&& name_views(resolved.sample_names@) == names
    &&& resolved.key_map@ == key_map_of(config.bindings@, names)
    &&& resolved.cycling_keys == resolved_cycling_keys(config.cycling_keys)
}

impl ResolvedConfig {
    /// What holds of every resolved configuration: the master volume and
    /// every gain lie between zero and one; the polyphony lies between one
    /// and the limit; there are no more distinct samples than the limit, and
    /// none is listed twice; every binding stands under its own key code and
    /// points at a listed sample; no cycling key is bound to a sample.
    pub open spec fn valid(&self) -> bool {
        &&& in_unit(self.master_volume)
        &&& 1 <= self.max_voices <= MAX_VOICES_LIMIT
        &&& self.sample_names@.len() <= MAX_SAMPLES
        &&& name_views(self.sample_names@).no_duplicates()
        &&& forall|code: u16| #[trigger]
            self.key_map@.contains_key(code) ==> {
                &&& self.key_map@[code].key_code == code
                &&& self.key_map@[code].sample_index < self.sample_names@.len()
                &&& in_unit(self.key_map@[code].gain)
            }
        &&& forall|code: u16|
            self.cycling_keys.contains(code) ==> !#[trigger] self.key_map@.contains_key(code)
    }
}

/// Whether a cycling key is bound to a sample as well.
fn is_bound(key: Option<u16>, key_map: &HashMap<u16, ResolvedBinding>) -> (r: bool)
    ensures
        r == conflicts(key, key_map@),
{
    broadcast use vstd::std_specs::hash::group_hash_axioms;

    match key {
        Some(code) => key_map.contains_key(&code),
        None => false,
    }
}

/// Checks a configuration and resolves its key names to key codes.
/// `samples_dir_found` says whether the samples directory exists.
///
/// The checks are made in this order, and the first that fails decides the
/// error: the samples directory exists; there is a binding; the master
/// volume is a number; every binding, in order, has a known key name and a
/// gain that is a number; there are no more distinct samples than the limit;
/// the name of every cycling key is known; no cycling key is bound to a
/// sample.
pub fn resolve_config(config: &Config, samples_dir_found: bool) -> (r: Result<
    ResolvedConfig,
    ConfigError,
>)
    ensures
        !samples_dir_found ==> r == Err::<ResolvedConfig, ConfigError>(
            ConfigError::SamplesDirMissing,
        ),
        samples_dir_found && config.bindings@.len() == 0 ==> r == Err::<
            ResolvedConfig,
            ConfigError,
        >(ConfigError::NoBindings),
        samples_dir_found && config.bindings@.len() > 0 && is_nan(config.master_volume) ==> r
            == Err::<ResolvedConfig, ConfigError>(ConfigError::VolumeNotANumber),
        samples_dir_found && config.bindings@.len() > 0 && !is_nan(config.master_volume)
            ==> match r {
            Err(ConfigError::UnknownKey { binding }) => {
                &&& is_first_bad_binding(config.bindings@, binding as int)
                &&& key_code_named(config.bindings@[binding as int].key@) is None
            },
            Err(ConfigError::GainNotANumber { binding }) => {
                &&& is_first_bad_binding(config.bindings@, binding as int)
                &&& key_code_named(config.bindings@[binding as int].key@) is Some
            },
            Err(ConfigError::TooManySamples) => {
                &&& all_bindings_good(config.bindings@)
                &&& sample_names_of(config.bindings@).len() > MAX_SAMPLES
            },
            Err(ConfigError::UnknownCyclingKey { key }) => {
                &&& all_bindings_good(config.bindings@)
                &&& sample_names_of(config.bindings@).len() <= MAX_SAMPLES
                &&& first_unknown_cycling_key(config.cycling_keys) == Some(key)
            },
            Err(ConfigError::CyclingKeyConflict { key }) => {
                &&& all_bindings_good(config.bindings@)
                &&& sample_names_of(config.bindings@).len() <= MAX_SAMPLES
                &&& first_unknown_cycling_key(config.cycling_keys) is None
                &&& first_conflict(
                    resolved_cycling_keys(config.cycling_keys),
                    key_map_of(config.bindings@, sample_names_of(config.bindings@)),
                ) == Some(key)
            },
            Err(_) => false,
            Ok(resolved) => {
                &&& all_bindings_good(config.bindings@)
                &&& sample_names_of(config.bindings@).len() <= MAX_SAMPLES
                &&& first_unknown_cycling_key(config.cycling_keys) is None
                &&& first_conflict(
                    resolved_cycling_keys(config.cycling_keys),
                    key_map_of(config.bindings@, sample_names_of(config.bindings@)),
                ) is None
                &&& resolves_to(*config, resolved)
                &&& resolved.valid()
            },
        },
{
    broadcast use vstd::std_specs::hash::group_hash_axioms;

    if !samples_dir_found {
        return Err(ConfigError::SamplesDirMissing);
    }
    if config.bindings.len() == 0 {
        return Err(ConfigError::NoBindings);
    }
    if is_not_a_number(config.master_volume) {
        return Err(ConfigError::VolumeNotANumber);
    }
    let master_volume: Level = clamp_unit(config.master_volume);
    let max_voices: usize = if config.max_voices == 0 {
        DEFAULT_MAX_VOICES
    } else if config.max_voices > MAX_VOICES_LIMIT {
        MAX_VOICES_LIMIT
    } else {
        config.max_voices
    };
    let ghost bindings = config.bindings@;
    let ghost names = sample_names_of(bindings);
    let mut sample_names: Vec<String> = Vec::new();
    let mut key_map: HashMap<u16, ResolvedBinding> = HashMap::new();
    let mut i: usize = 0;
    proof {
        lemma_sample_names_distinct(bindings);
        assert(bindings.take(0) =~= Seq::<BindingConfig>::empty());
        assert(name_views(sample_names@) =~= sample_names_of(bindings.take(0)));
        assert(key_map@ =~= key_map_of(bindings.take(0), names));
    }
    while i < config.bindings.len()
        invariant
            samples_dir_found,
            bindings.len() > 0,
            !is_nan(config.master_volume),
            i <= bindings.len(),
            bindings == config.bindings@,
            names == sample_names_of(bindings),
            names.no_duplicates(),
            all_bindings_good(bindings.take(i as int)),
            name_views(sample_names@) == sample_names_of(bindings.take(i as int)),
            key_map@ == key_map_of(bindings.take(i as int), names),
            forall|code: u16| #[trigger]
                key_map@.contains_key(code) ==> {
                    &&& key_map@[code].key_code == code
                    &&& key_map@[code].sample_index < sample_names@.len()
                    &&& in_unit(key_map@[code].gain)
                },
        decreases bindings.len() - i,
    {
        let binding = &config.bindings[i];
        let ghost head = bindings.take(i as int);
        let ghost longer = bindings.take(i + 1);
        let ghost listed = sample_names@.len();
        proof {
            assert(longer.drop_last() =~= head);
            assert(longer.last() == *binding);
        }
        let code: u16 = match key_code_from_name(binding.key.as_str()) {
            Some(code) => code,
            None => {
                return Err(ConfigError::UnknownKey { binding: i });
            },
        };
        if is_not_a_number(binding.gain) {
            return Err(ConfigError::GainNotANumber { binding: i });
        }
        let sample_index: usize = find_or_add(&mut sample_names, &binding.sample);
        let gain: Level = clamp_unit(binding.gain);
        proof {
            lemma_sample_names_grow(bindings, i + 1);
            let current = name_views(sample_names@);
            assert(current == sample_names_of(longer));
            assert(current.len() >= listed);
            assert(current[sample_index as int] == binding.sample@);
            assert(names[sample_index as int] == binding.sample@);
            lemma_index_of_distinct(names, sample_index as int);
            assert forall|k: int| 0 <= k < longer.len() implies binding_good(
                #[trigger] longer[k],
            ) by {
                if k < i {
                    assert(head[k] == longer[k]);
                }
            }
        }
        key_map.insert(code, ResolvedBinding { key_code: code, sample_index, gain });
        i += 1;
    }
    proof {
        assert(bindings.take(bindings.len() as int) =~= bindings);
    }
    if sample_names.len() > MAX_SAMPLES {
        return Err(ConfigError::TooManySamples);
    }
    let next_kit = match resolve_optional_key(&config.cycling_keys.next_kit, CyclingKey::NextKit) {
        Ok(code) => code,
        Err(e) => {
            return Err(e);
        },
    };
    let prev_kit = match resolve_optional_key(&config.cycling_keys.prev_kit, CyclingKey::PrevKit) {
        Ok(code) => code,
        Err(e) => {
            return Err(e);
        },
    };
    let next_variant = match resolve_optional_key(
        &config.cycling_keys.next_variant,
        CyclingKey::NextVariant,
    ) {
        Ok(code) => code,
        Err(e) => {
            return Err(e);
        },
    };
    let prev_variant = match resolve_optional_key(
        &config.cycling_keys.prev_variant,
        CyclingKey::PrevVariant,
    ) {
        Ok(code) => code,
        Err(e) => {
            return Err(e);
        },
    };
    let cycling_keys = ResolvedCyclingKeys { next_kit, prev_kit, next_variant, prev_variant };
    if is_bound(cycling_keys.next_kit, &key_map) {
        return Err(ConfigError::CyclingKeyConflict { key: CyclingKey::NextKit });
    }
    if is_bound(cycling_keys.prev_kit, &key_map) {
        return Err(ConfigError::CyclingKeyConflict { key: CyclingKey::PrevKit });
    }
    if is_bound(cycling_keys.next_variant, &key_map) {
        return Err(ConfigError::CyclingKeyConflict { key: CyclingKey::NextVariant });
    }
    if is_bound(cycling_keys.prev_variant, &key_map) {
        return Err(ConfigError::CyclingKeyConflict { key: CyclingKey::PrevVariant });
    }
    proof {
        lemma_no_conflict_means_disjoint(cycling_keys, key_map@);
    }
    Ok(
        ResolvedConfig {
            device: config.device.clone(),
            master_volume,
            max_voices,
            samples_dir: config.samples_dir.clone(),
            sample_names,
            key_map,
            cycling_keys,
        },
    )
}

/// Whether `gain` is a gain for the sample at `index`: the gain of a
/// binding to that sample, or one where no key is bound to it.
pub open spec fn is_gain_of(key_map: Map<u16, ResolvedBinding>, index: int, gain: Level) -> bool {
    ||| exists|code: u16| #[trigger]
        key_map.contains_key(code) && key_map[code].sample_index == index && key_map[code].gain
            == gain
    ||| gain == ONE && forall|code: u16| #[trigger]
        key_map.contains_key(code) ==> key_map[code].sample_index != index
}

/// The gain of each sample, by sample id, taken from the bindings. Where
/// several keys are bound to one sample with different gains, the gain of
/// one of them is taken.
pub fn build_sample_gains(sample_count: usize, key_map: &HashMap<u16, ResolvedBinding>) -> (gains:
    Vec<Level>)
    ensures
        gains@.len() == sample_count,
        forall|index: int| 0 <= index < sample_count ==> is_gain_of(key_map@, index, #[trigger] gains@[index]),
        (forall|code: u16| #[trigger] key_map@.contains_key(code) ==> in_unit(key_map@[code].gain))
            ==> forall|index: int| 0 <= index < sample_count ==> in_unit(#[trigger] gains@[index]),
{
    broadcast use vstd::std_specs::hash::group_hash_axioms;

    let mut gains: Vec<Level> = Vec::with_capacity(sample_count);
    let mut n: usize = 0;
    while n < sample_count
        invariant
            n <= sample_count,
            gains@.len() == n,
            forall|index: int| 0 <= index < n ==> #[trigger] gains@[index] == ONE,
        decreases sample_count - n,
    {
        gains.push(ONE);
        n += 1;
    }
    for entry in iter: key_map.iter()
        invariant
            iter.seq() == key_map.iter().remaining(),
            gains@.len() == sample_count,
            forall|index: int|
                0 <= index < sample_count ==> {
                    ||| exists|j: int|
                        0 <= j < iter.index() && (#[trigger] iter.seq()[j]).1.sample_index == index
                            && iter.seq()[j].1.gain == gains@[index]
                    ||| #[trigger] gains@[index] == ONE && forall|j: int|
                        0 <= j < iter.index() ==> (#[trigger] iter.seq()[j]).1.sample_index
                            != index
                },
    {
        let ghost before = gains@;
        let ghost at = iter.index();
        let binding = entry.1;
        if binding.sample_index < gains.len() {
            gains[binding.sample_index] = binding.gain;
        }
        proof {
            assert(iter.seq()[at] == entry);
            assert forall|index: int| 0 <= index < sample_count implies {
                ||| exists|j: int|
                    0 <= j < at + 1 && (#[trigger] iter.seq()[j]).1.sample_index == index
                        && iter.seq()[j].1.gain == gains@[index]
                ||| #[trigger] gains@[index] == ONE && forall|j: int|
                    0 <= j < at + 1 ==> (#[trigger] iter.seq()[j]).1.sample_index != index
            } by {
                if index == binding.sample_index {
                    assert(iter.seq()[at].1.sample_index == index && iter.seq()[at].1.gain
                        == gains@[index]);
                } else {
                    assert(gains@[index] == before[index]);
                    if exists|j: int|
                        0 <= j < at && (#[trigger] iter.seq()[j]).1.sample_index == index
                            && iter.seq()[j].1.gain == before[index] {
                        let j = choose|j: int|
                            0 <= j < at && (#[trigger] iter.seq()[j]).1.sample_index == index
                                && iter.seq()[j].1.gain == before[index];
                        assert(iter.seq()[j].1.sample_index == index && iter.seq()[j].1.gain
                            == gains@[index]);
                    }
                }
            }
        }
    }
    proof {
        let pairs = key_map.iter().remaining();
        assert forall|index: int| 0 <= index < sample_count implies is_gain_of(
            key_map@,
            index,
            #[trigger] gains@[index],
        ) by {
            if exists|j: int|
                0 <= j < pairs.len() && (#[trigger] pairs[j]).1.sample_index == index
                    && pairs[j].1.gain == gains@[index] {
                let j = choose|j: int|
                    0 <= j < pairs.len() && (#[trigger] pairs[j]).1.sample_index == index
                        && pairs[j].1.gain == gains@[index];
                let code = *pairs[j].0;
                assert(key_map@.contains_key(code) && key_map@[code] == *pairs[j].1);
            } else {
                assert forall|code: u16| #[trigger] key_map@.contains_key(code) implies key_map@[code].sample_index
                    != index by {
                    assert(pairs.contains((&code, &key_map@[code])));
                    let j = choose|j: int|
                        0 <= j < pairs.len() && pairs[j] == (&code, &key_map@[code]);
                    assert(pairs[j].1.sample_index != index);
                }
            }
        }
    }
    gains
}

} // verus!
