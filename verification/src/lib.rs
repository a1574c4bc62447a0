//! The core of a low-latency drum sampler: a key press starts a sample, many
//! samples play at once, and kits are switched while they play.
//!
//! Two threads share the work. The input thread reads key events, sends
//! triggers and publishes banks; the audio thread drains the triggers and
//! renders blocks. They meet in two places only, and in neither does one
//! wait for the other:
//!
//! - [`ring`]: the trigger channel, a bounded queue with one producer and
//!   one consumer;
//! - [`bank`]: the bank cell, which holds the current sample bank.
//!
//! Around them:
//!
//! - [`level`]: amplitudes and gains as bit patterns, with the two clamps;
//! - [`samples`]: sample data, banks, and the kit library;
//! - [`voice`]: voices, the spans they contribute to a block, and where a
//!   span's levels lie in the sample and in the block;
//! - [`audio`]: the audio callback: voice stealing, spawning, the mixing
//!   pass, and the laws that hold of a block;
//! - [`output`]: the choice of the output stream configuration;
//! - [`input`]: the dispatcher: what a key event does, which events pass
//!   through, and the kit selection;
//! - [`config`]: the configuration and its validation.
//!
//! The library works on integers throughout. Levels are carried as the bit
//! patterns of binary32 numbers and are compared and clamped as such; their
//! products and sums are left to the caller, which gets from the audio
//! callback a plan that says which levels to multiply by which factors and
//! where to add them.
//!
//! # What is assumed
//!
//! Every function here is verified against its contract, except for the
//! calls into other crates and a few calls into the standard library. Those
//! stand in small functions whose contracts are assumed:
//!
//! - in [`ring`], the `ringbuf` crate: splitting a new ring, `try_push` and
//!   `try_pop` on its caching halves;
//! - in [`bank`], the `arc-swap` crate: `from_pointee`, `store`, `load_full`;
//! - in [`config`], the `evdev` crate: the table of key names;
//! - in [`audio`], `Vec::drain`; in [`samples`], `Path::join`, `sort` and
//!   `sort_by`.

pub mod audio;
pub mod bank;
pub mod config;
pub mod input;
pub mod level;
pub mod output;
pub mod ring;
pub mod samples;
pub mod voice;
