//! Activity masks on a frame grid: the subtitle timeline mask, and the
//! per-frame audio energies that the voice-activity gate reads.

use vstd::prelude::*;
use crate::srt::{Subtitle, CueView, cues_view};

verus! {

/// The latest cue end, and zero at least.
pub open spec fn max_end(cs: Seq<CueView>, n: int) -> int
    decreases n,
{
    if n <= 0 {
        0
    } else {
        let m = max_end(cs, n - 1);
        if cs[n - 1].end_ms > m {
            cs[n - 1].end_ms
        } else {
            m
        }
    }
}

/// The number of frames of a subtitle mask: enough to cover the latest cue
/// end, and one at least.
pub open spec fn sub_frames(cs: Seq<CueView>, frame_ms: u16) -> int {
    let f = frame_ms as int;
    let t = (max_end(cs, cs.len() as int) + f - 1) / f;
    if t < 1 {
        1
    } else {
        t
    }
}

pub open spec fn first_frame(c: CueView, f: int) -> int {
    if c.start_ms / f < 0 {
        0
    } else {
        c.start_ms / f
    }
}

/// One past the last frame a cue touches (the frame holding its end, rounded
/// up), never before its first frame.
pub open spec fn end_frame(c: CueView, f: int) -> int {
    let e = (c.end_ms + f - 1) / f;
    let e2 = if e < c.start_ms / f {
        c.start_ms / f
    } else {
        e
    };
    if e2 < 0 {
        0
    } else {
        e2
    }
}

pub open spec fn covers(c: CueView, f: int, k: int) -> bool {
    first_frame(c, f) <= k < end_frame(c, f)
}

/// The number of frames of the subtitle mask of `subs`.
pub fn sub_mask_frames(subs: &Vec<Subtitle>, frame_ms: u16) -> (r: u128)
    requires
        frame_ms > 0,
    ensures
        r == sub_frames(cues_view(subs@), frame_ms),
{
    let ghost cs = cues_view(subs@);
    let f: i128 = frame_ms as i128;
    let mut m: i64 = 0;
    let mut k: usize = 0;
    while k < subs.len()
        invariant
            k <= subs.len(),
            cs == cues_view(subs@),
            m == max_end(cs, k as int),
            m >= 0,
        decreases subs.len() - k,
    {
        assert(cs[k as int] == subs[k as int]@);
        if subs[k].end_ms > m {
            m = subs[k].end_ms;
        }
        k = k + 1;
    }
    let t: i128 = (m as i128 + f - 1) / f;
    if t < 1 {
        1
    } else {
        t as u128
    }
}

/// The subtitle mask: frame `k` is on iff some cue touches it.
pub fn build_sub_mask(subs: &Vec<Subtitle>, frame_ms: u16) -> (r: Vec<bool>)
    requires
        frame_ms > 0,
        sub_frames(cues_view(subs@), frame_ms) <= usize::MAX,
    ensures
        r.len() == sub_frames(cues_view(subs@), frame_ms),
        forall|k: int|
            0 <= k < r.len() ==> (#[trigger] r[k] <==> exists|j: int|
                0 <= j < subs.len() && covers(#[trigger] subs[j]@, frame_ms as int, k)),
{
    let ghost f = frame_ms as int;
    let fi: i128 = frame_ms as i128;
    let total = sub_mask_frames(subs, frame_ms) as usize;
    let mut mask: Vec<bool> = Vec::new();
    let mut k: usize = 0;
    while k < total
        invariant
            k <= total,
            mask.len() == k,
            forall|q: int| 0 <= q < k ==> !#[trigger] mask[q],
        decreases total - k,
    {
        mask.push(false);
        k = k + 1;
    }
    let mut idx: usize = 0;
    while idx < subs.len()
        invariant
            idx <= subs.len(),
            mask.len() == total,
            fi == f,
            f >= 1,
            fi <= 65535,
            forall|q: int|
                0 <= q < total ==> (#[trigger] mask[q] <==> exists|j: int|
                    0 <= j < idx && covers(#[trigger] subs[j]@, f, q)),
        decreases subs.len() - idx,
    {
        let sm: i128 = subs[idx].start_ms as i128;
        let em: i128 = subs[idx].end_ms as i128 + fi - 1;
        let first: i128 = if sm < 0 {
            0
        } else {
            sm / fi
        };
        let e_c: i128 = if em < 0 {
            0
        } else {
            em / fi
        };
        let stop: i128 = if e_c < first {
            first
        } else {
            e_c
        };
        let ghost c = subs[idx as int]@;
        proof {
            clamp_div(sm as int, f);
            clamp_div(em as int, f);
        }
        assert(first == first_frame(c, f));
        assert(stop == end_frame(c, f));
        let lo: usize = if first > total as i128 {
            total
        } else {
            first as usize
        };
        let hi: usize = if stop > total as i128 {
            total
        } else {
            stop as usize
        };
        let mut q: usize = lo;
        while q < hi
            invariant
                mask.len() == total,
                lo <= q <= hi <= total,
                forall|p: int|
                    0 <= p < total ==> (#[trigger] mask[p] <==> (exists|j: int|
                        0 <= j < idx && covers(#[trigger] subs[j]@, f, p)) || (lo <= p < q)),
            decreases hi - q,
        {
            mask.set(q, true);
            q = q + 1;
        }
        assert forall|p: int| 0 <= p < total implies (#[trigger] mask[p] <==> exists|j: int|
            0 <= j < idx + 1 && covers(#[trigger] subs[j]@, f, p)) by {
            if covers(c, f, p) {
                assert(0 <= idx < idx + 1 && covers(subs[idx as int]@, f, p));
            }
            if exists|j: int| 0 <= j < idx + 1 && covers(#[trigger] subs[j]@, f, p) {
                let j = choose|j: int| 0 <= j < idx + 1 && covers(#[trigger] subs[j]@, f, p);
                if j == idx {
                    assert(lo <= p < q);
                }
            }
        }
        idx = idx + 1;
    }
    mask
}

/// The frame width in samples: the sample rate (at least 8000 Hz) times the
/// frame width in milliseconds, over 1000, and one sample at least.
pub open spec fn frame_width(sample_rate: u32, frame_ms: u16) -> int {
    let sr = if sample_rate < 8000 {
        8000
    } else {
        sample_rate as int
    };
    let w = sr * frame_ms as int / 1000;
    if w < 1 {
        1
    } else {
        w
    }
}

/// The sum of the squared samples `pcm[lo..hi]`.
pub open spec fn sum_sq(pcm: Seq<i16>, lo: int, hi: int) -> int
    decreases hi - lo,
{
    if hi <= lo {
        0
    } else {
        sum_sq(pcm, lo, hi - 1) + pcm[hi - 1] * pcm[hi - 1]
    }
}

/// One past the last sample of frame `k`: the last frame may be partial.
pub open spec fn frame_end(k: int, w: int, n: int) -> int {
    if k * w + w < n {
        k * w + w
    } else {
        n
    }
}

/// The energy of one audio frame, as exact integers: the mean square is
/// `sum_sq / samples`.
#[derive(Clone, Copy, Debug)]
pub struct FrameEnergy {
    pub sum_sq: u128,
    pub samples: u64,
}

/// Splits the samples into frames of `frame_width` samples (the last one
/// possibly partial) and gives each frame's sum of squares and length.
pub fn frame_energies(pcm: &[i16], sample_rate: u32, frame_ms: u16) -> (r: Vec<FrameEnergy>)
    requires
        frame_ms > 0,
    ensures
        r.len() * frame_width(sample_rate, frame_ms) >= pcm@.len(),
        r.len() == 0 || (r.len() - 1) * frame_width(sample_rate, frame_ms) < pcm@.len(),
        forall|k: int|
            #![trigger r[k]]
            0 <= k < r.len() ==> {
                let w = frame_width(sample_rate, frame_ms);
                let hi = frame_end(k, w, pcm@.len() as int);
                &&& r[k].samples == hi - k * w
                &&& r[k].sum_sq == sum_sq(pcm@, k * w, hi)
            },
{
    let sr: u128 = if sample_rate < 8000 {
        8000
    } else {
        sample_rate as u128
    };
    let g: u128 = frame_ms as u128;
    assert(sr * g <= 4294967295 * 65535) by (nonlinear_arith)
        requires
            sr <= 4294967295,
            g <= 65535,
    ;
    let w0: u128 = sr * g / 1000;
    let w: u128 = if w0 < 1 {
        1
    } else {
        w0
    };
    let ghost wi = frame_width(sample_rate, frame_ms);
    assert(w == wi);
    let n: u128 = pcm.len() as u128;
    let mut r: Vec<FrameEnergy> = Vec::new();
    let mut start: u128 = 0;
    assert(r.len() == 0);
    assert(r.len() * w == 0) by (nonlinear_arith)
        requires
            r.len() == 0,
    ;
    while start < n
        invariant
            w == wi,
            1 <= w <= 281470681743,
            n == pcm@.len(),
            start == (if r.len() * w < n {
                r.len() * w
            } else {
                n as int
            }),
            r.len() == 0 || (r.len() - 1) * w < n,
            n <= usize::MAX,
            forall|k: int|
                #![trigger r[k]]
                0 <= k < r.len() ==> {
                    let hi = frame_end(k, w as int, n as int);
                    &&& r[k].samples == hi - k * w
                    &&& r[k].sum_sq == sum_sq(pcm@, k * w, hi)
                },
        decreases n - start,
    {
        let end: u128 = if start + w < n {
            start + w
        } else {
            n
        };
        let mut sum: u128 = 0;
        let mut i: u128 = start;
        while i < end
            invariant
                start <= i <= end <= n,
                n == pcm@.len(),
                end - start <= 281470681743,
                sum == sum_sq(pcm@, start as int, i as int),
                sum <= (i - start) * 1073741824,
            decreases end - i,
        {
            let v: i64 = pcm[i as usize] as i64;
            assert(v * v <= 1073741824 && v * v >= 0) by (nonlinear_arith)
                requires
                    -32768 <= v <= 32767,
            ;
            sum = sum + (v * v) as u128;
            i = i + 1;
        }
        let ghost k = r.len() as int;
        assert(k * w + w == (k + 1) * w) by (nonlinear_arith);
        r.push(FrameEnergy { sum_sq: sum, samples: (end - start) as u64 });
        start = end;
    }
    r
}

/// A quotient by a positive divisor is negative exactly when the dividend is.
proof fn clamp_div(x: int, f: int)
    requires
        f >= 1,
    ensures
        (x / f < 0) == (x < 0),
{
    if x < 0 {
        assert(x / f < 0) by (nonlinear_arith)
            requires
                x < 0,
                f >= 1,
        ;
    } else {
        assert(x / f >= 0) by (nonlinear_arith)
            requires
                x >= 0,
                f >= 1,
        ;
    }
}

} // verus!
