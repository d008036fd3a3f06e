//! Alignment options.

use vstd::prelude::*;

verus! {

/// Frame width used when none is given.
pub const DEFAULT_FRAME_MS: u16 = 10;

/// Largest offset searched when none is given.
pub const DEFAULT_MAX_OFFSET_MS: u32 = 60000;

/// Sample rate assumed when none is given.
pub const DEFAULT_SAMPLE_RATE: u32 = 16000;

/// Voice-activity gate level used when none is given.
pub const DEFAULT_VAD_AGGRESSIVENESS: u8 = 2;

/// Smallest offset window the search ever uses.
pub const MIN_MAX_OFFSET_MS: u32 = 1000;

/// Options of one alignment call.
#[derive(Clone, Copy, Debug)]
pub struct FfsubsyncOptions {
    /// Frame size in milliseconds.
    pub frame_ms: u16,
    /// Maximum absolute offset to search, in milliseconds.
    pub max_offset_ms: u32,
    /// Whether to search for a drift (speed ratio) besides the offset.
    pub gss: bool,
    /// Sample rate of incoming PCM.
    pub sample_rate: u32,
    /// Voice-activity gate aggressiveness, 0..3.
    pub vad_aggressiveness: u8,
}

impl FfsubsyncOptions {
    /// The documented defaults.
    pub fn new() -> (r: FfsubsyncOptions)
        ensures
            r.frame_ms == DEFAULT_FRAME_MS,
            r.max_offset_ms == DEFAULT_MAX_OFFSET_MS,
            !r.gss,
            r.sample_rate == DEFAULT_SAMPLE_RATE,
            r.vad_aggressiveness == DEFAULT_VAD_AGGRESSIVENESS,
    {
        FfsubsyncOptions {
            frame_ms: DEFAULT_FRAME_MS,
            max_offset_ms: DEFAULT_MAX_OFFSET_MS,
            gss: false,
            sample_rate: DEFAULT_SAMPLE_RATE,
            vad_aggressiveness: DEFAULT_VAD_AGGRESSIVENESS,
        }
    }
}

impl FfsubsyncOptions {
    /// The sample rate to use: the configured one, or the default where it is
    /// zero.
    pub fn effective_sample_rate(&self) -> (r: u32)
        ensures
            r == (if self.sample_rate > 0 {
                self.sample_rate
            } else {
                DEFAULT_SAMPLE_RATE
            }),
    {
        if self.sample_rate > 0 {
            self.sample_rate
        } else {
            DEFAULT_SAMPLE_RATE
        }
    }

    /// The frame width to use: the configured one, or the default where it is
    /// zero.
    pub fn effective_frame_ms(&self) -> (r: u16)
        ensures
            r == (if self.frame_ms > 0 {
                self.frame_ms
            } else {
                DEFAULT_FRAME_MS
            }),
            r > 0,
    {
        if self.frame_ms > 0 {
            self.frame_ms
        } else {
            DEFAULT_FRAME_MS
        }
    }

    /// The offset window to search: the configured one, floored to
    /// `MIN_MAX_OFFSET_MS`.
    pub fn effective_max_offset_ms(&self) -> (r: u32)
        ensures
            r == (if self.max_offset_ms < MIN_MAX_OFFSET_MS {
                MIN_MAX_OFFSET_MS
            } else {
                self.max_offset_ms
            }),
    {
        if self.max_offset_ms < MIN_MAX_OFFSET_MS {
            MIN_MAX_OFFSET_MS
        } else {
            self.max_offset_ms
        }
    }
}

impl Default for FfsubsyncOptions {
    fn default() -> (r: FfsubsyncOptions)
        ensures
            r.frame_ms == DEFAULT_FRAME_MS,
            r.max_offset_ms == DEFAULT_MAX_OFFSET_MS,
            !r.gss,
            r.sample_rate == DEFAULT_SAMPLE_RATE,
            r.vad_aggressiveness == DEFAULT_VAD_AGGRESSIVENESS,
    {
        FfsubsyncOptions::new()
    }
}

} // verus!
