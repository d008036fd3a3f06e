//! Re-synchronisation of a subtitle track against an audio track.
//!
//! The modules hold the exact, integer part of the engine, each function
//! proved against its contract:
//! - `wav`: decoding of a mono 16-bit PCM container;
//! - `text` and `timecode`: trimming, line splitting, integer and timecode
//!   reading and writing;
//! - `srt`: the subtitle codec, with the time transform of the rewrite;
//! - `mask`: the subtitle activity mask and the per-frame audio energies;
//! - `search`: the correlation of two boolean masks over the offset window,
//!   with the first highest lag winning, and the grid of speed ratios;
//! - `options`: the alignment options and their defaults.

pub mod mask;
pub mod options;
pub mod search;
pub mod srt;
pub mod text;
pub mod timecode;
pub mod wav;
