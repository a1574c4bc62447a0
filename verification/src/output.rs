//! Choice of the output stream configuration among those a device offers.

use crate::samples::OUTPUT_SAMPLE_RATE;
use vstd::prelude::*;

verus! {

/// The number of output channels the engine prefers (stereo), and the most
/// it plays on.
pub const OUTPUT_CHANNELS: u16 = 2;

/// The smallest buffer the engine asks for, in frames. Devices may report a
/// minimum as low as one frame, which would have the callback run once per
/// frame.
pub const MIN_BUFFER_FRAMES: u32 = 64;

/// One configuration range that an output device supports.
#[derive(Debug, Clone, Copy)]
pub struct OutputRange {
    /// Number of channels.
    pub channels: u16,
    /// Lowest sample rate of the range, in Hz.
    pub min_sample_rate: u32,
    /// Highest sample rate of the range, in Hz.
    pub max_sample_rate: u32,
    /// Whether the device takes levels as binary32 numbers.
    pub binary32: bool,
    /// Smallest and largest buffer size in frames, where the device tells.
    pub buffer_size: Option<(u32, u32)>,
}

/// The configuration to open the output stream with.
#[derive(Debug, Clone, Copy)]
pub struct OutputChoice {
    /// Index of the range that was chosen.
    pub index: usize,
    /// Number of channels.
    pub channels: u16,
    /// Sample rate in Hz.
    pub sample_rate: u32,
    /// Buffer size in frames to ask for; none leaves it to the device.
    pub buffer_frames: Option<u32>,
}

impl OutputRange {
    /// Whether the device's buffer range, where it tells one, holds a size
    /// no smaller than the engine's floor.
    pub open spec fn buffer_allowed(&self) -> bool {
        match self.buffer_size {
            Some((min, max)) => min <= max && MIN_BUFFER_FRAMES <= max,
            None => true,
        }
    }

    /// Whether the range can carry the engine's output at all: mono or
    /// stereo, at the output rate, in binary32 levels, in buffers no smaller
    /// than the floor.
    pub open spec fn eligible(&self) -> bool {
        &&& 1 <= self.channels <= OUTPUT_CHANNELS
        &&& self.min_sample_rate <= OUTPUT_SAMPLE_RATE <= self.max_sample_rate
        &&& self.binary32
        &&& self.buffer_allowed()
    }

    /// Whether the range is eligible and stereo.
    pub open spec fn preferred(&self) -> bool {
        self.eligible() && self.channels == OUTPUT_CHANNELS
    }

    /// The buffer size to ask for: the device's minimum, raised to the
    /// engine's floor. Where the device tells no range, none is asked for.
    pub open spec fn buffer_frames(&self) -> Option<u32> {
        match self.buffer_size {
            Some((min, max)) => Some(
                if min < MIN_BUFFER_FRAMES {
                    MIN_BUFFER_FRAMES
                } else {
                    min
                },
            ),
            None => None,
        }
    }

    /// The choice that takes this range, found at `index`.
    pub open spec fn choice(&self, index: usize) -> OutputChoice {
        OutputChoice {
            index,
            channels: self.channels,
            sample_rate: OUTPUT_SAMPLE_RATE,
            buffer_frames: self.buffer_frames(),
        }
    }
}

/// Whether `index` is the first eligible stereo range or, where no eligible
/// range is stereo, the first eligible range.
pub open spec fn is_best(supported: Seq<OutputRange>, index: int) -> bool {
    &&& 0 <= index < supported.len()
    &&& supported[index].eligible()
    &&& forall|j: int| 0 <= j < index ==> !(#[trigger] supported[j]).preferred()
    &&& supported[index].preferred() || forall|j: int|
        0 <= j < supported.len() ==> !(#[trigger] supported[j]).preferred()
    &&& supported[index].preferred() || forall|j: int|
        0 <= j < index ==> !(#[trigger] supported[j]).eligible()
}

/// Picks the output configuration: the engine's sample rate, stereo where an
/// eligible range offers it and mono otherwise, and the smallest buffer that
/// the device allows and that is no smaller than the floor. None where no
/// range is eligible; a range of more than two channels is not, nor one
/// that cannot go up to the floor.
pub fn find_best_config(supported: &Vec<OutputRange>) -> (chosen: Option<OutputChoice>)
    ensures
        chosen is None <==> forall|j: int|
            0 <= j < supported@.len() ==> !(#[trigger] supported@[j]).eligible(),
        chosen is Some ==> is_best(supported@, chosen.unwrap().index as int) && chosen.unwrap()
            == supported@[chosen.unwrap().index as int].choice(chosen.unwrap().index),
        chosen is Some ==> chosen.unwrap().sample_rate == OUTPUT_SAMPLE_RATE && 1
            <= chosen.unwrap().channels <= OUTPUT_CHANNELS,
        chosen is Some && chosen.unwrap().buffer_frames is Some ==> {
            let range = supported@[chosen.unwrap().index as int].buffer_size.unwrap();
            let frames = chosen.unwrap().buffer_frames.unwrap();
            MIN_BUFFER_FRAMES <= frames && range.0 <= frames <= range.1
        },
{
    let mut best: Option<usize> = None;
    let mut i: usize = 0;
    while i < supported.len()
        invariant
            i <= supported@.len(),
            best is None ==> forall|j: int| 0 <= j < i ==> !(#[trigger] supported@[j]).eligible(),
            best is Some ==> {
                let b = best.unwrap() as int;
                &&& 0 <= b < i
                &&& supported@[b].eligible()
                &&& forall|j: int| 0 <= j < b ==> !(#[trigger] supported@[j]).preferred()
                &&& supported@[b].preferred() || forall|j: int|
                    0 <= j < i ==> !(#[trigger] supported@[j]).preferred()
                &&& supported@[b].preferred() || forall|j: int|
                    0 <= j < b ==> !(#[trigger] supported@[j]).eligible()
            },
        decreases supported@.len() - i,
    {
        let range = &supported[i];
        let buffer_allowed: bool = match range.buffer_size {
            Some((min, max)) => min <= max && MIN_BUFFER_FRAMES <= max,
            None => true,
        };
        let eligible: bool = 1 <= range.channels && range.channels <= OUTPUT_CHANNELS
            && range.min_sample_rate <= OUTPUT_SAMPLE_RATE && OUTPUT_SAMPLE_RATE
            <= range.max_sample_rate && range.binary32 && buffer_allowed;
        if eligible {
            match best {
                None => {
                    best = Some(i);
                },
                Some(current) => {
                    let current_stereo: bool = supported[current].channels == OUTPUT_CHANNELS;
                    let new_stereo: bool = range.channels == OUTPUT_CHANNELS;
                    if new_stereo && !current_stereo {
                        best = Some(i);
                    }
                },
            }
        }
        i += 1;
    }
    match best {
        None => None,
        Some(index) => {
            let range = &supported[index];
            let buffer_frames: Option<u32> = match range.buffer_size {
                Some((min, max)) => Some(
                    if min < MIN_BUFFER_FRAMES {
                        MIN_BUFFER_FRAMES
                    } else {
                        min
                    },
                ),
                None => None,
            };
            Some(
                OutputChoice {
                    index,
                    channels: range.channels,
                    sample_rate: OUTPUT_SAMPLE_RATE,
                    buffer_frames,
                },
            )
        },
    }
}

/// The buffer asked of an eligible range that tells its buffer sizes is no
/// smaller than the floor and lies within the range.
pub proof fn lemma_buffer_floor(range: OutputRange)
    requires
        range.eligible(),
        range.buffer_size is Some,
    ensures
        range.buffer_frames() is Some,
        range.buffer_frames().unwrap() >= MIN_BUFFER_FRAMES,
        range.buffer_size.unwrap().0 <= range.buffer_frames().unwrap()
            <= range.buffer_size.unwrap().1,
{
}

} // verus!
