//! Sample data, sample banks and the kit library that names them.

use crate::level::{Level, ONE};
use std::sync::Arc;
use vstd::prelude::*;

verus! {

/// The output sample rate in Hz. Samples must be recorded at this rate.
pub const OUTPUT_SAMPLE_RATE: u32 = 48_000;

/// One decoded sample, held in memory for playback.
#[derive(Debug)]
pub struct SampleData {
    /// Interleaved levels: one per channel for each frame, frame after frame.
    pub data: Vec<Level>,
    /// Number of channels (1 is mono, 2 is stereo).
    pub channels: u16,
    /// The rate the sample was recorded at, in Hz.
    pub sample_rate: u32,
}

impl SampleData {
    /// Number of whole frames in the sample; none without channels.
    pub open spec fn frames(&self) -> nat {
        if self.channels == 0 {
            0
        } else {
            self.data.len() as nat / self.channels as nat
        }
    }

    /// Number of audio frames (levels per channel).
    pub fn num_frames(&self) -> (n: usize)
        ensures
            n == self.frames(),
    {
        if self.channels == 0 {
            return 0;
        }
        self.data.len() / (self.channels as usize)
    }
}

/// The samples of one kit variant, swapped in as a unit.
#[derive(Debug)]
pub struct SampleBank {
    /// Sample data by sample id.
    pub samples: Vec<Arc<SampleData>>,
    /// Gain of each sample, by sample id.
    pub sample_gains: Vec<Level>,
    /// Name of the kit the bank was loaded from.
    pub kit_name: String,
    /// Name of the variant the bank was loaded from.
    pub variant_name: String,
}

/// Why decoded audio is not accepted as a sample.
#[derive(Debug, Clone, Copy, PartialEq, Eq)]
pub enum SampleError {
    /// The sample was not recorded at the output rate.
    SampleRateMismatch { expected: u32, got: u32 },
    /// The sample is neither mono nor stereo.
    UnsupportedChannels { channels: u16 },
}

impl SampleError {
    /// What the error says, without the numbers.
    pub open spec fn text(&self) -> Seq<char> {
        match self {
            SampleError::SampleRateMismatch { .. } => "Sample rate mismatch"@,
            SampleError::UnsupportedChannels { .. } => "Unsupported channel count"@,
        }
    }

    /// What the error says, without the numbers.
    pub fn describe(&self) -> (text: String)
        ensures
            text@ == self.text(),
    {
        match self {
            SampleError::SampleRateMismatch { .. } => "Sample rate mismatch".to_owned(),
            SampleError::UnsupportedChannels { .. } => "Unsupported channel count".to_owned(),
        }
    }
}

/// The largest magnitude of an integer sample of `bits_per_sample` bits:
/// two to the power of one less. Integer samples are divided by it to give
/// levels between minus one and one.
pub fn full_scale(bits_per_sample: u16) -> (scale: u32)
    requires
        1 <= bits_per_sample <= 32,
    ensures
        scale == vstd::arithmetic::power2::pow2((bits_per_sample - 1) as nat),
{
    let shift: u32 = (bits_per_sample - 1) as u32;
    proof {
        vstd::bits::lemma_u32_pow2_no_overflow(shift as nat);
        vstd::bits::lemma_u32_shl_is_mul(1u32, shift);
    }
    1u32 << shift
}

/// What stands in the way of audio with this rate and channel count; the
/// rate is looked at first.
pub open spec fn format_error(sample_rate: u32, channels: u16) -> Option<SampleError> {
    if sample_rate != OUTPUT_SAMPLE_RATE {
        Some(SampleError::SampleRateMismatch { expected: OUTPUT_SAMPLE_RATE, got: sample_rate })
    } else if channels == 0 || channels > 2 {
        Some(SampleError::UnsupportedChannels { channels })
    } else {
        None
    }
}

/// Checks the format of audio before it is decoded: it must be recorded at
/// the output rate and be mono or stereo.
pub fn check_format(sample_rate: u32, channels: u16) -> (r: Result<(), SampleError>)
    ensures
        r == match format_error(sample_rate, channels) {
            Some(error) => Err::<(), SampleError>(error),
            None => Ok::<(), SampleError>(()),
        },
{
    if sample_rate != OUTPUT_SAMPLE_RATE {
        return Err(
            SampleError::SampleRateMismatch { expected: OUTPUT_SAMPLE_RATE, got: sample_rate },
        );
    }
    if channels == 0 || channels > 2 {
        return Err(SampleError::UnsupportedChannels { channels });
    }
    Ok(())
}

impl SampleData {
    /// Accepts decoded audio as a sample if its format passes the check.
    pub fn from_decoded(sample_rate: u32, channels: u16, data: Vec<Level>) -> (r: Result<
        SampleData,
        SampleError,
    >)
        ensures
            r == match format_error(sample_rate, channels) {
                Some(error) => Err::<SampleData, SampleError>(error),
                None => Ok::<SampleData, SampleError>(SampleData { data, channels, sample_rate }),
            },
    {
        match check_format(sample_rate, channels) {
            Ok(()) => Ok(SampleData { data, channels, sample_rate }),
            Err(error) => Err(error),
        }
    }

    /// Whether the sample is in the format of a sample: recorded at the
    /// output rate, mono or stereo.
    pub open spec fn well_formed(&self) -> bool {
        format_error(self.sample_rate, self.channels) is None
    }

    /// The placeholder for a sample that a variant does not have: mono, at
    /// the output rate, without a single frame.
    pub open spec fn is_silent(&self) -> bool {
        &&& self.data@.len() == 0
        &&& self.channels == 1
        &&& self.sample_rate == OUTPUT_SAMPLE_RATE
    }

    /// A silent placeholder.
    pub fn silent() -> (sample: SampleData)
        ensures
            sample.is_silent(),
            sample.frames() == 0,
    {
        SampleData { data: Vec::new(), channels: 1, sample_rate: OUTPUT_SAMPLE_RATE }
    }
}

impl SampleBank {
    /// Whether every sample of the bank has a gain and is in the format of a
    /// sample.
    pub open spec fn well_formed(&self) -> bool {
        &&& self.samples@.len() == self.sample_gains@.len()
        &&& forall|slot: int|
            0 <= slot < self.samples@.len() ==> (#[trigger] self.samples@[slot]).well_formed()
    }
}

/// A kit with its variants.
#[derive(Debug, Clone)]
pub struct KitInfo {
    /// Name of the kit's folder.
    pub name: String,
    /// Names of the variant folders, sorted.
    pub variants: Vec<String>,
}

/// All the kits found under the samples directory.
#[derive(Debug, Clone)]
pub struct KitLibrary {
    /// Root samples directory.
    pub samples_dir: String,
    /// The kits, sorted by name.
    pub kits: Vec<KitInfo>,
    /// The sample file names that the key bindings refer to, by sample id.
    pub sample_names: Vec<String>,
    /// Gain of each sample, by sample id.
    pub sample_gains: Vec<Level>,
}

/// The path that joining `name` to the path `base` gives, where `/`
/// separates the parts of a path: a name that begins at the root stands for
/// itself; any other name follows the base, after a separator unless the
/// base is empty or ends in one.
pub open spec fn joined_path(base: Seq<char>, name: Seq<char>) -> Seq<char> {
    if name.len() > 0 && name[0] == '/' {
        name
    } else if base.len() == 0 || base.last() == '/' {
        base + name
    } else {
        base + seq!['/'] + name
    }
}

/// `Path::join`, as a string, on a system where `/` separates the parts of
/// a path: an absolute `name` replaces the base, any other is adjoined to
/// it.
#[verifier::external_body]
pub(crate) fn join_path(base: &str, name: &str) -> (path: String)
    ensures
        path@ == joined_path(base@, name@),
{
    std::path::Path::new(base).join(name).to_string_lossy().into_owned()
}

/// Why a bank cannot be put together.
#[derive(Debug, Clone, Copy, PartialEq, Eq)]
pub enum BankError {
    /// The library has no kit of that index.
    KitOutOfRange,
    /// The kit has no variant of that index.
    VariantOutOfRange,
    /// The sample loaded for this slot is not in the format of a sample.
    MalformedSample { slot: usize },
}

impl BankError {
    /// What the error says.
    pub open spec fn text(&self) -> Seq<char> {
        match self {
            BankError::KitOutOfRange => "Kit index out of range"@,
            BankError::VariantOutOfRange => "Variant index out of range"@,
            BankError::MalformedSample { .. } => "Malformed sample"@,
        }
    }

    /// What the error says.
    pub fn describe(&self) -> (text: String)
        ensures
            text@ == self.text(),
    {
        match self {
            BankError::KitOutOfRange => "Kit index out of range".to_owned(),
            BankError::VariantOutOfRange => "Variant index out of range".to_owned(),
            BankError::MalformedSample { .. } => "Malformed sample".to_owned(),
        }
    }
}

/// The sample that stands at `slot` of a bank put together from `loaded`:
/// the loaded one where there is one, a silent placeholder otherwise.
pub open spec fn slot_filled(
    loaded: Seq<Option<Arc<SampleData>>>,
    slot: int,
    sample: SampleData,
) -> bool {
    if 0 <= slot < loaded.len() && loaded[slot] is Some {
        sample == *loaded[slot].unwrap()
    } else {
        sample.is_silent()
    }
}

/// Whether the sample loaded for `slot` is there and is not in the format
/// of a sample.
pub open spec fn slot_malformed(loaded: Seq<Option<Arc<SampleData>>>, slot: int) -> bool {
    &&& 0 <= slot < loaded.len()
    &&& loaded[slot] is Some
    &&& !loaded[slot].unwrap().well_formed()
}

/// The gain that stands at `slot` of a bank: the library's gain for the
/// slot, and one where the library lists none.
pub open spec fn slot_gain(gains: Seq<Level>, slot: int) -> Level {
    if 0 <= slot < gains.len() {
        gains[slot]
    } else {
        ONE
    }
}

impl KitLibrary {
    /// Number of variants of the kit at `kit_index`; none for a kit that
    /// does not exist.
    pub open spec fn variants_of(&self, kit_index: int) -> nat {
        if 0 <= kit_index < self.kits@.len() {
            self.kits@[kit_index].variants@.len()
        } else {
            0
        }
    }

    /// Number of kits.
    pub fn kit_count(&self) -> (n: usize)
        ensures
            n == self.kits@.len(),
    {
        self.kits.len()
    }

    /// Number of variants of the kit at `kit_index`.
    pub fn variant_count(&self, kit_index: usize) -> (n: usize)
        ensures
            n == self.variants_of(kit_index as int),
    {
        if kit_index < self.kits.len() {
            self.kits[kit_index].variants.len()
        } else {
            0
        }
    }

    /// The path of a variant's folder: the samples directory, then the
    /// kit's name, then the variant's. None where the library has no such
    /// kit or the kit no such variant.
    pub fn variant_path(&self, kit_index: usize, variant_index: usize) -> (path: Option<String>)
        ensures
            path is Some <==> kit_index < self.kits@.len() && variant_index < self.variants_of(
                kit_index as int,
            ),
            path is Some ==> path.unwrap()@ == joined_path(
                joined_path(self.samples_dir@, self.kits@[kit_index as int].name@),
                self.kits@[kit_index as int].variants@[variant_index as int]@,
            ),
    {
        if kit_index >= self.kits.len() {
            return None;
        }
        let kit = &self.kits[kit_index];
        if variant_index >= kit.variants.len() {
            return None;
        }
        let kit_dir = join_path(self.samples_dir.as_str(), kit.name.as_str());
        Some(join_path(kit_dir.as_str(), kit.variants[variant_index].as_str()))
    }

    /// Puts the bank of a variant together from what was loaded of it.
    /// `loaded` holds, by sample id, the samples found in the variant's
    /// folder; a sample that is missing there becomes a silent placeholder,
    /// so that every sample id of the library can be played. The bank has a
    /// sample and a gain for each sample name of the library.
    ///
    /// Fails where the library has no such kit or the kit no such variant,
    /// and on the first loaded sample that is not in the format of a sample.
    pub fn load_bank(
        &self,
        kit_index: usize,
        variant_index: usize,
        loaded: &Vec<Option<Arc<SampleData>>>,
    ) -> (r: Result<SampleBank, BankError>)
        ensures
            kit_index >= self.kits@.len() ==> r == Err::<SampleBank, BankError>(
                BankError::KitOutOfRange,
            ),
            kit_index < self.kits@.len() && variant_index >= self.variants_of(kit_index as int)
                ==> r == Err::<SampleBank, BankError>(BankError::VariantOutOfRange),
            kit_index < self.kits@.len() && variant_index < self.variants_of(kit_index as int)
                ==> match r {
                Err(BankError::MalformedSample { slot }) => {
                    &&& slot < self.sample_names@.len()
                    &&& slot_malformed(loaded@, slot as int)
                    &&& forall|k: int| 0 <= k < slot ==> !slot_malformed(loaded@, k)
                },
                Err(_) => false,
                Ok(bank) => {
                    &&& forall|k: int|
                        0 <= k < self.sample_names@.len() ==> !slot_malformed(loaded@, k)
                    &&& bank.well_formed()
                    &&& bank.samples@.len() == self.sample_names@.len()
                    &&& forall|slot: int|
                        0 <= slot < bank.samples@.len() ==> slot_filled(
                            loaded@,
                            slot,
                            *#[trigger] bank.samples@[slot],
                        )
                    &&& forall|slot: int|
                        0 <= slot < bank.sample_gains@.len() ==> #[trigger] bank.sample_gains@[slot]
                            == slot_gain(self.sample_gains@, slot)
                    &&& self.sample_gains@.len() == self.sample_names@.len() ==> bank.sample_gains@
                        == self.sample_gains@
                    &&& bank.kit_name@ == self.kits@[kit_index as int].name@
                    &&& bank.variant_name@
                        == self.kits@[kit_index as int].variants@[variant_index as int]@
                },
            },
    {
        if kit_index >= self.kits.len() {
            return Err(BankError::KitOutOfRange);
        }
        let kit = &self.kits[kit_index];
        if variant_index >= kit.variants.len() {
            return Err(BankError::VariantOutOfRange);
        }
        let count: usize = self.sample_names.len();
        let mut samples: Vec<Arc<SampleData>> = Vec::with_capacity(count);
        let mut sample_gains: Vec<Level> = Vec::with_capacity(count);
        let mut slot: usize = 0;
        while slot < count
            invariant
                count == self.sample_names@.len(),
                kit_index < self.kits@.len(),
                variant_index < self.variants_of(kit_index as int),
                slot <= count,
                samples@.len() == slot,
                sample_gains@.len() == slot,
                forall|k: int| 0 <= k < slot ==> !slot_malformed(loaded@, k),
                forall|k: int|
                    0 <= k < slot ==> slot_filled(loaded@, k, *#[trigger] samples@[k]),
                forall|k: int| 0 <= k < slot ==> (#[trigger] samples@[k]).well_formed(),
                forall|k: int|
                    0 <= k < slot ==> #[trigger] sample_gains@[k] == slot_gain(self.sample_gains@, k),
            decreases count - slot,
        {
            let sample: Arc<SampleData> = if slot < loaded.len() {
                match &loaded[slot] {
                    Some(found) => {
                        match check_format(found.sample_rate, found.channels) {
                            Ok(()) => Arc::clone(found),
                            Err(_) => {
                                return Err(BankError::MalformedSample { slot });
                            },
                        }
                    },
                    None => Arc::new(SampleData::silent()),
                }
            } else {
                Arc::new(SampleData::silent())
            };
            let gain: Level = if slot < self.sample_gains.len() {
                self.sample_gains[slot]
            } else {
                ONE
            };
            samples.push(sample);
            sample_gains.push(gain);
            slot += 1;
        }
        assert(self.sample_gains@.len() == count ==> sample_gains@ =~= self.sample_gains@);
        Ok(
            SampleBank {
                samples,
                sample_gains,
                kit_name: kit.name.clone(),
                variant_name: kit.variants[variant_index].clone(),
            },
        )
    }
}

/// What was found of one variant folder.
#[derive(Debug)]
pub struct FoundVariant {
    /// Name of the folder.
    pub name: String,
    /// How many of the library's sample files the folder holds.
    pub present: usize,
}

/// What was found of one kit folder.
#[derive(Debug)]
pub struct FoundKit {
    /// Name of the folder.
    pub name: String,
    /// Its subfolders, in the order in which they were found.
    pub variants: Vec<FoundVariant>,
}

/// Why no library can be made of what was found.
#[derive(Debug, Clone, Copy, PartialEq, Eq)]
pub enum DiscoverError {
    /// No kit has a variant with at least one sample file.
    NoValidKits,
}

impl DiscoverError {
    /// What the error says.
    pub open spec fn text(&self) -> Seq<char> {
        "No valid drum kits found"@
    }

    /// What the error says.
    pub fn describe(&self) -> (text: String)
        ensures
            text@ == self.text(),
    {
        "No valid drum kits found".to_owned()
    }
}

/// The order of names: by their characters' code points, the first
/// difference deciding, and a name before every longer name that begins
/// with it.
pub open spec fn name_le(a: Seq<char>, b: Seq<char>) -> bool
    decreases a.len(),
{
    if a.len() == 0 {
        true
    } else if b.len() == 0 {
        false
    } else if a[0] == b[0] {
        name_le(a.drop_first(), b.drop_first())
    } else {
        (a[0] as u32) < (b[0] as u32)
    }
}

/// Whether names stand in ascending order.
pub open spec fn names_sorted(names: Seq<String>) -> bool {
    forall|i: int, j: int|
        0 <= i < j < names.len() ==> name_le((#[trigger] names[i])@, (#[trigger] names[j])@)
}

/// Whether kits stand in ascending order of their names.
pub open spec fn kits_sorted(kits: Seq<KitInfo>) -> bool {
    forall|i: int, j: int|
        0 <= i < j < kits.len() ==> name_le((#[trigger] kits[i]).name@, (#[trigger] kits[j]).name@)
}

/// `slice::sort` on strings: the same names, in ascending order. Strings
/// are ordered lexicographically by their bytes, which orders them by the
/// code points of their characters.
#[verifier::external_body]
fn sort_names(names: &mut Vec<String>)
    ensures
        names_sorted(final(names)@),
        final(names)@.to_multiset() == old(names)@.to_multiset(),
{
    names.sort();
}

/// `slice::sort_by` with the kits' names compared as strings: the same
/// kits, in ascending order of their names.
#[verifier::external_body]
fn sort_kits(kits: &mut Vec<KitInfo>)
    ensures
        kits_sorted(final(kits)@),
        final(kits)@.to_multiset() == old(kits)@.to_multiset(),
{
    kits.sort_by(|a, b| a.name.cmp(&b.name));
}

/// Whether a variant folder counts: it holds at least one sample file.
pub open spec fn variant_counts(variant: FoundVariant) -> bool {
    variant.present > 0
}

/// The names of the variants of a kit that count, as found.
pub open spec fn valid_variant_names(kit: FoundKit) -> Seq<String> {
    kit.variants@.filter(|v: FoundVariant| variant_counts(v)).map_values(|v: FoundVariant| v.name)
}

/// Whether a kit folder counts: one of its variants does.
pub open spec fn kit_counts(kit: FoundKit) -> bool {
    valid_variant_names(kit).len() > 0
}

/// Whether `info` is the library's entry for the kit that was found: its
/// name, and the names of its variants that count, sorted.
pub open spec fn kit_matches(info: KitInfo, kit: FoundKit) -> bool {
    &&& info.name == kit.name
    &&& names_sorted(info.variants@)
    &&& info.variants@.to_multiset() == valid_variant_names(kit).to_multiset()
}

/// Whether `chosen` holds, in the order found, the entries of the kits that
/// count.
pub open spec fn kits_chosen(chosen: Seq<KitInfo>, found: Seq<FoundKit>) -> bool {
    let valid = found.filter(|kit: FoundKit| kit_counts(kit));
    &&& chosen.len() == valid.len()
    &&& forall|k: int| 0 <= k < chosen.len() ==> kit_matches(#[trigger] chosen[k], valid[k])
}

/// The names of the variants of a kit that count, sorted.
fn valid_variants(kit: &FoundKit) -> (names: Vec<String>)
    ensures
        names_sorted(names@),
        names@.to_multiset() == valid_variant_names(*kit).to_multiset(),
{
    let ghost counts = |v: FoundVariant| variant_counts(v);
    let ghost name = |v: FoundVariant| v.name;
    let mut names: Vec<String> = Vec::new();
    let mut i: usize = 0;
    proof {
        assert(kit.variants@.take(0).filter(counts) =~= Seq::<FoundVariant>::empty()) by {
            reveal(Seq::filter);
        }
        assert(names@ =~= kit.variants@.take(0).filter(counts).map_values(name));
    }
    while i < kit.variants.len()
        invariant
            i <= kit.variants@.len(),
            counts == (|v: FoundVariant| variant_counts(v)),
            name == (|v: FoundVariant| v.name),
            names@ == kit.variants@.take(i as int).filter(counts).map_values(name),
        decreases kit.variants@.len() - i,
    {
        let variant = &kit.variants[i];
        proof {
            let head = kit.variants@.take(i as int);
            assert(kit.variants@.take(i + 1) =~= head + seq![*variant]);
            Seq::filter_distributes_over_add(head, seq![*variant], counts);
            assert(seq![*variant].filter(counts) =~= if counts(*variant) {
                seq![*variant]
            } else {
                Seq::empty()
            }) by {
                reveal_with_fuel(Seq::filter, 2);
                assert(seq![*variant].drop_last() =~= Seq::<FoundVariant>::empty());
            }
        }
        if variant.present > 0 {
            names.push(variant.name.clone());
            assert(names@ =~= kit.variants@.take(i + 1).filter(counts).map_values(name));
        }
        i += 1;
    }
    assert(kit.variants@.take(kit.variants@.len() as int) =~= kit.variants@);
    sort_names(&mut names);
    names
}

/// Makes the kit library of what was found under the samples directory.
/// A variant counts if it holds at least one of the sample files, a kit if
/// one of its variants counts. Kits and variants are sorted by name.
pub fn discover_kits(
    samples_dir: &str,
    found: &Vec<FoundKit>,
    sample_names: &Vec<String>,
    sample_gains: &Vec<Level>,
) -> (r: Result<KitLibrary, DiscoverError>)
    ensures
        r is Err <==> forall|k: int| 0 <= k < found@.len() ==> !kit_counts(#[trigger] found@[k]),
        r is Err ==> r == Err::<KitLibrary, DiscoverError>(DiscoverError::NoValidKits),
        r is Ok ==> {
            let library = r.unwrap();
            &&& library.samples_dir@ == samples_dir@
            &&& library.sample_names@ == sample_names@
            &&& library.sample_gains@ == sample_gains@
            &&& kits_sorted(library.kits@)
            &&& exists|chosen: Seq<KitInfo>| #[trigger]
                kits_chosen(chosen, found@) && library.kits@.to_multiset() == chosen.to_multiset()
        },
{
    let ghost counts = |kit: FoundKit| kit_counts(kit);
    let mut kits: Vec<KitInfo> = Vec::new();
    let mut i: usize = 0;
    proof {
        assert(found@.take(0).filter(counts) =~= Seq::<FoundKit>::empty()) by {
            reveal(Seq::filter);
        }
    }
    while i < found.len()
        invariant
            i <= found@.len(),
            counts == (|kit: FoundKit| kit_counts(kit)),
            kits_chosen(kits@, found@.take(i as int)),
            kits@.len() == 0 <==> forall|k: int| 0 <= k < i ==> !kit_counts(#[trigger] found@[k]),
        decreases found@.len() - i,
    {
        let kit = &found[i];
        let variants = valid_variants(kit);
        let ghost before = kits@;
        let ghost head = found@.take(i as int);
        proof {
            assert(found@.take(i + 1) =~= head + seq![*kit]);
            Seq::filter_distributes_over_add(head, seq![*kit], counts);
            assert(seq![*kit].filter(counts) =~= if counts(*kit) {
                seq![*kit]
            } else {
                Seq::empty()
            }) by {
                reveal_with_fuel(Seq::filter, 2);
                assert(seq![*kit].drop_last() =~= Seq::<FoundKit>::empty());
            }
            variants@.to_multiset_ensures();
            valid_variant_names(*kit).to_multiset_ensures();
        }
        if variants.len() > 0 {
            let info = KitInfo { name: kit.name.clone(), variants };
            kits.push(info);
            proof {
                let valid = found@.take(i + 1).filter(counts);
                assert(valid =~= head.filter(counts).push(*kit));
                assert forall|k: int| 0 <= k < kits@.len() implies kit_matches(
                    #[trigger] kits@[k],
                    valid[k],
                ) by {
                    if k < before.len() {
                        assert(kits@[k] == before[k]);
                    }
                }
            }
        } else {
            assert(found@.take(i + 1).filter(counts) =~= head.filter(counts));
        }
        i += 1;
    }
    assert(found@.take(found@.len() as int) =~= found@);
    if kits.len() == 0 {
        return Err(DiscoverError::NoValidKits);
    }
    let ghost chosen = kits@;
    sort_kits(&mut kits);
    proof {
        chosen.to_multiset_ensures();
        kits@.to_multiset_ensures();
        assert(kits_chosen(chosen, found@));
    }
    Ok(
        KitLibrary {
            samples_dir: samples_dir.to_owned(),
            kits,
            sample_names: sample_names.clone(),
            sample_gains: sample_gains.clone(),
        },
    )
}

} // verus!
