//! Voices and the spans they contribute: which frames of which sample go
//! where in a block.

use crate::level::Level;
use crate::samples::SampleData;
use std::sync::Arc;
use vstd::prelude::*;

verus! {

/// The three factors of a voice's gain. Their product scales every level of
/// the voice's sample where the sample is mixed.
#[derive(Debug, Clone, Copy)]
pub struct Gain {
    /// Gain of the sample in the bank it was taken from.
    pub sample_gain: Level,
    /// Velocity of the trigger that started the voice.
    pub velocity: Level,
    /// Master volume at the time the voice started.
    pub master_volume: Level,
}

/// One sample being played.
#[derive(Debug)]
pub struct Voice {
    /// Id of the sample in the bank it was taken from.
    pub sample_id: u8,
    /// The next frame of the sample to play.
    pub position: usize,
    /// The factors of the voice's gain.
    pub gain: Gain,
    /// The voice's own share of the sample, which outlives a bank swap.
    pub sample_data: Arc<SampleData>,
}

/// A run of frames of one sample to be mixed into the start of a block.
#[derive(Debug)]
pub struct MixSpan {
    /// The sample to read from.
    pub sample_data: Arc<SampleData>,
    /// The factors of the gain to apply.
    pub gain: Gain,
    /// The first frame of the sample to read.
    pub start: usize,
    /// The number of frames to mix, beginning at the block's first frame.
    pub frames: usize,
}

impl Voice {
    /// Whether the voice has frames left to play.
    pub open spec fn is_live(&self) -> bool {
        self.position < self.sample_data.frames()
    }

    /// How many frames the voice contributes to a block of `frames` frames.
    pub open spec fn span_frames(&self, frames: nat) -> nat {
        if self.sample_data.frames() - self.position < frames {
            (self.sample_data.frames() - self.position) as nat
        } else {
            frames
        }
    }

    /// What a live voice contributes to a block of `frames` frames.
    pub open spec fn span(&self, frames: nat) -> MixSpan {
        MixSpan {
            sample_data: self.sample_data,
            gain: self.gain,
            start: self.position,
            frames: self.span_frames(frames) as usize,
        }
    }

    /// The voice after a block of `frames` frames.
    pub open spec fn advanced(&self, frames: nat) -> Voice {
        Voice {
            sample_id: self.sample_id,
            position: (self.position + self.span_frames(frames)) as usize,
            gain: self.gain,
            sample_data: self.sample_data,
        }
    }

    /// Whether a live voice reaches the end of its sample within a block of
    /// `frames` frames.
    pub open spec fn finishes(&self, frames: nat) -> bool {
        self.position + frames >= self.sample_data.frames()
    }
}

/// The channel of a sample with `sample_channels` channels that output
/// channel `out_channel` reads: the only one of a mono sample, its own of a
/// wider one, and the last one where the sample has no channel that high.
pub open spec fn source_channel(out_channel: int, sample_channels: int) -> int {
    if sample_channels <= 1 {
        0
    } else if out_channel < sample_channels - 1 {
        out_channel
    } else {
        sample_channels - 1
    }
}

impl MixSpan {
    /// Whether the span fits a block of `block_frames` frames and lies
    /// within its sample.
    pub open spec fn fits(&self, block_frames: nat) -> bool {
        &&& self.frames <= block_frames
        &&& self.start < self.sample_data.frames()
        &&& self.start + self.frames <= self.sample_data.frames()
    }

    /// Where in the sample's data the level lies that goes to channel
    /// `out_channel` of frame `frame` of the block.
    pub open spec fn source_index_of(&self, frame: int, out_channel: int) -> int {
        (self.start + frame) * self.sample_data.channels + source_channel(
            out_channel,
            self.sample_data.channels as int,
        )
    }

    /// The index into the sample's data to read for channel `out_channel` of
    /// frame `frame` of the block; none where the span or the sample has no
    /// such frame. An index that is returned lies within the data.
    pub fn source_index(&self, frame: usize, out_channel: usize) -> (index: Option<usize>)
        ensures
            index is Some <==> frame < self.frames && self.start + frame
                < self.sample_data.frames(),
            index is Some ==> index.unwrap() == self.source_index_of(
                frame as int,
                out_channel as int,
            ) && index.unwrap() < self.sample_data.data@.len(),
    {
        if frame >= self.frames {
            return None;
        }
        let sample_frames: usize = self.sample_data.num_frames();
        if self.start >= sample_frames || frame >= sample_frames - self.start {
            return None;
        }
        let channels: usize = self.sample_data.channels as usize;
        let src_frame: usize = self.start + frame;
        let src_channel: usize = if channels == 1 {
            0
        } else if out_channel < channels - 1 {
            out_channel
        } else {
            channels - 1
        };
        assert((src_frame + 1) * channels <= self.sample_data.data@.len()) by (nonlinear_arith)
            requires
                src_frame < sample_frames,
                channels > 0,
                sample_frames == self.sample_data.data@.len() / (channels as nat),
        ;
        assert(src_frame * channels + channels == (src_frame + 1) * channels) by (nonlinear_arith);
        Some(src_frame * channels + src_channel)
    }
}

/// Where in an interleaved block of `output_channels` channels the level of
/// channel `out_channel` of frame `frame` lies.
pub open spec fn dest_index_of(frame: int, out_channel: int, output_channels: int) -> int {
    frame * output_channels + out_channel
}

/// The index into an output block of `data_len` levels for channel
/// `out_channel` of frame `frame`; none where the block has no such channel
/// or no such whole frame. An index that is returned lies within the block.
pub fn dest_index(frame: usize, out_channel: usize, output_channels: usize, data_len: usize) -> (index:
    Option<usize>)
    ensures
        index is Some <==> out_channel < output_channels && frame < data_len / output_channels,
        index is Some ==> index.unwrap() == dest_index_of(
            frame as int,
            out_channel as int,
            output_channels as int,
        ) && index.unwrap() < data_len,
{
    if out_channel >= output_channels {
        return None;
    }
    let block_frames: usize = data_len / output_channels;
    if frame >= block_frames {
        return None;
    }
    assert((frame + 1) * output_channels <= data_len) by (nonlinear_arith)
        requires
            frame < block_frames,
            output_channels > 0,
            block_frames == data_len / output_channels,
    ;
    assert(frame * output_channels + output_channels == (frame + 1) * output_channels)
        by (nonlinear_arith);
    Some(frame * output_channels + out_channel)
}

/// A mono sample feeds every output channel alike: whatever the channel, a
/// frame of the block reads the same level of the sample.
pub proof fn lemma_mono_feeds_every_channel(span: MixSpan, frame: int, left: int, right: int)
    requires
        span.sample_data.channels == 1,
    ensures
        span.source_index_of(frame, left) == span.source_index_of(frame, right),
{
}

} // verus!
