//! The integer side of the offset and drift search: which lags of the
//! correlation array the search may pick, what offset a lag stands for, and
//! the grid of speed ratios it tries.

use vstd::prelude::*;

verus! {

/// The largest lag, in frames, that the search considers:
/// `ceil(max_offset_ms / frame_ms)`.
pub open spec fn max_lag_frames(max_offset_ms: u32, frame_ms: u16) -> int {
    (max_offset_ms as int + frame_ms as int - 1) / frame_ms as int
}

/// The lag that index `i` of the correlation array stands for: index
/// `len_b - 1` is zero offset.
pub open spec fn lag_of(i: int, len_b: int) -> int {
    i - (len_b - 1)
}

pub open spec fn abs(x: int) -> int {
    if x < 0 {
        -x
    } else {
        x
    }
}

/// Whether index `i` lies in the search window; a zero frame width leaves the
/// window unbounded.
pub open spec fn in_window(i: int, len_b: int, frame_ms: u16, max_offset_ms: u32) -> bool {
    frame_ms == 0 || abs(lag_of(i, len_b)) <= max_lag_frames(max_offset_ms, frame_ms)
}

/// The offset in milliseconds that index `i` stands for.
pub open spec fn offset_of(i: int, len_b: int, frame_ms: u16) -> int {
    lag_of(i, len_b) * frame_ms as int
}

/// The indices `lo..hi` of the correlation array of masks of lengths `len_a`
/// and `len_b` (of length `len_a + len_b - 1`) that lie in the search window.
pub fn lag_window(len_a: usize, len_b: usize, frame_ms: u16, max_offset_ms: u32) -> (r: (
    usize,
    usize,
))
    requires
        len_a >= 1,
        len_b >= 1,
        len_a + len_b - 1 <= usize::MAX,
    ensures
        r.0 <= r.1 <= len_a + len_b - 1,
        forall|i: int|
            r.0 <= i < r.1 <==> 0 <= i < len_a + len_b - 1 && in_window(
                i,
                len_b as int,
                frame_ms,
                max_offset_ms,
            ),
{
    let n: usize = len_a - 1 + len_b;
    let base: usize = len_b - 1;
    if frame_ms == 0 {
        return (0, n);
    }
    let m: u64 = (max_offset_ms as u64 + frame_ms as u64 - 1) / frame_ms as u64;
    let lo: usize = if (base as u64) <= m {
        0
    } else {
        base - m as usize
    };
    let hi: usize = if (n - base) as u64 <= m + 1 {
        n
    } else {
        base + m as usize + 1
    };
    (lo, hi)
}

/// The offset in milliseconds that index `i` of the correlation array stands
/// for.
pub fn lag_offset_ms(i: usize, len_b: usize, frame_ms: u16) -> (r: i128)
    requires
        len_b >= 1,
    ensures
        r == offset_of(i as int, len_b as int, frame_ms),
{
    let l: i128 = i as i128 - (len_b as i128 - 1);
    let f: i128 = frame_ms as i128;
    assert(-18446744073709551616 * 65536 <= l * f <= 18446744073709551616 * 65536)
        by (nonlinear_arith)
        requires
            -18446744073709551616 <= l <= 18446744073709551616,
            0 <= f <= 65536,
    ;
    l * f
}

/// Any index the search may pick gives an offset of at most
/// `ceil(max_offset_ms / frame_ms) * frame_ms` either way.
pub proof fn lemma_offset_bound(i: int, len_b: int, frame_ms: u16, max_offset_ms: u32)
    requires
        frame_ms > 0,
        in_window(i, len_b, frame_ms, max_offset_ms),
    ensures
        abs(offset_of(i, len_b, frame_ms)) <= max_lag_frames(max_offset_ms, frame_ms)
            * frame_ms as int,
{
    let l = lag_of(i, len_b);
    let m = max_lag_frames(max_offset_ms, frame_ms);
    let f = frame_ms as int;
    assert(abs(l * f) <= m * f) by (nonlinear_arith)
        requires
            f > 0,
            abs(l) <= m,
            abs(l) == (if l < 0 {
                -l
            } else {
                l
            }),
            abs(l * f) == (if l * f < 0 {
                -(l * f)
            } else {
                l * f
            }),
    ;
}

/// How many of the first `n` subtitle frames are on together with the audio
/// frame `lag` frames later.
pub open spec fn dot(a: Seq<bool>, b: Seq<bool>, lag: int, n: int) -> int
    decreases n,
{
    if n <= 0 {
        0
    } else {
        dot(a, b, lag, n - 1) + if 0 <= n - 1 + lag < a.len() && a[n - 1 + lag] && b[n - 1] {
            1int
        } else {
            0int
        }
    }
}

/// Entry `i` of the full linear cross-correlation of `a` and `b`: the sum of
/// `a[n + lag] * b[n]` with `lag = i - (b.len() - 1)`.
pub open spec fn corr(a: Seq<bool>, b: Seq<bool>, i: int) -> int {
    dot(a, b, lag_of(i, b.len() as int), b.len() as int)
}

/// The lag the offset search picked.
#[derive(Clone, Copy, Debug)]
pub struct LagChoice {
    /// Index into the correlation array.
    pub index: usize,
    /// The offset it stands for, in milliseconds.
    pub offset_ms: i128,
    /// Its correlation.
    pub best: u64,
    /// The second highest correlation in the window, if the window holds two
    /// lags.
    pub second: Option<u64>,
}

/// Why masks could not be correlated.
#[derive(Clone, Copy, Debug, PartialEq, Eq, Structural)]
pub enum AlignError {
    /// One of the masks has no frame.
    EmptyMask,
}

fn dot_at(a: &Vec<bool>, b: &Vec<bool>, i: usize) -> (r: u64)
    requires
        b.len() >= 1,
        a.len() + b.len() <= usize::MAX,
        i < a.len() + b.len(),
    ensures
        r == corr(a@, b@, i as int),
{
    let ghost lag = lag_of(i as int, b.len() as int);
    let mut s: u64 = 0;
    let mut n: usize = 0;
    while n < b.len()
        invariant
            n <= b.len(),
            i < a.len() + b.len(),
            lag == lag_of(i as int, b.len() as int),
            s == dot(a@, b@, lag, n as int),
            s <= n,
        decreases b.len() - n,
    {
        let base: usize = b.len() - 1;
        if i >= base {
            let d: usize = i - base;
            if d < a.len() && n < a.len() - d && a[n + d] && b[n] {
                s = s + 1;
            }
        } else {
            let d: usize = base - i;
            if n >= d && n - d < a.len() && a[n - d] && b[n] {
                s = s + 1;
            }
        }
        n = n + 1;
    }
    s
}

/// Correlates the audio mask with the subtitle mask over the lags of the
/// search window and picks the first lag of highest correlation.
pub fn correlate_masks(audio: &Vec<bool>, subs: &Vec<bool>, frame_ms: u16, max_offset_ms: u32) -> (r:
    Result<LagChoice, AlignError>)
    requires
        audio.len() + subs.len() <= usize::MAX,
    ensures
        r is Err <==> (audio.len() == 0 || subs.len() == 0),
        r matches Ok(c) ==> {
            let lb = subs.len() as int;
            let n = audio.len() + subs.len() - 1;
            &&& c.index < n
            &&& in_window(c.index as int, lb, frame_ms, max_offset_ms)
            &&& c.offset_ms == offset_of(c.index as int, lb, frame_ms)
            &&& c.best == corr(audio@, subs@, c.index as int)
            &&& forall|i: int|
                0 <= i < n && in_window(i, lb, frame_ms, max_offset_ms) ==> corr(audio@, subs@, i)
                    <= c.best && (i < c.index ==> corr(audio@, subs@, i) < c.best)
            &&& c.second is None <==> !exists|i: int|
                0 <= i < n && i != c.index && in_window(i, lb, frame_ms, max_offset_ms)
            &&& frame_ms > 0 ==> abs(c.offset_ms as int) <= max_lag_frames(max_offset_ms, frame_ms)
                * frame_ms as int
            &&& forall|i: int|
                #![trigger in_window(i, lb, frame_ms, max_offset_ms)]
                0 <= i < n && in_window(i, lb, frame_ms, max_offset_ms) && (forall|q: int|
                    0 <= q < n && q != i && in_window(q, lb, frame_ms, max_offset_ms) ==> corr(
                        audio@,
                        subs@,
                        q,
                    ) < corr(audio@, subs@, i)) ==> c.index == i
            &&& c.second matches Some(v) ==> (exists|i: int|
                0 <= i < n && i != c.index && in_window(i, lb, frame_ms, max_offset_ms) && corr(
                    audio@,
                    subs@,
                    i,
                ) == v) && (forall|i: int|
                0 <= i < n && i != c.index && in_window(i, lb, frame_ms, max_offset_ms) ==> corr(
                    audio@,
                    subs@,
                    i,
                ) <= v)
        },
{
    if audio.len() == 0 || subs.len() == 0 {
        return Err(AlignError::EmptyMask);
    }
    let lb = subs.len();
    let (lo, hi) = lag_window(audio.len(), lb, frame_ms, max_offset_ms);
    let ghost n = audio.len() + lb - 1;
    assert(in_window(lb - 1, lb as int, frame_ms, max_offset_ms));
    let mut best_idx: usize = lo;
    let mut best: u64 = dot_at(audio, subs, lo);
    let mut second: Option<u64> = None;
    let mut i: usize = lo + 1;
    while i < hi
        invariant
            lo < i <= hi <= n,
            lo <= best_idx < i,
            lb == subs.len() >= 1,
            n == audio.len() + lb - 1,
            audio.len() + lb <= usize::MAX,
            forall|q: int| lo <= q < hi <==> 0 <= q < n && in_window(q, lb as int, frame_ms, max_offset_ms),
            best == corr(audio@, subs@, best_idx as int),
            forall|q: int| lo <= q < i ==> corr(audio@, subs@, q) <= best && (q < best_idx ==> corr(audio@, subs@, q) < best),
            second is None <==> i == lo + 1,
            second matches Some(v) ==> (exists|q: int| lo <= q < i && q != best_idx && corr(audio@, subs@, q) == v)
                && (forall|q: int| lo <= q < i && q != best_idx ==> corr(audio@, subs@, q) <= v),
        decreases hi - i,
    {
        let v = dot_at(audio, subs, i);
        if v > best {
            second = Some(best);
            best = v;
            best_idx = i;
        } else {
            match second {
                None => {
                    second = Some(v);
                },
                Some(w) => {
                    if v > w {
                        second = Some(v);
                    }
                },
            }
        }
        i = i + 1;
    }
    let off = lag_offset_ms(best_idx, lb, frame_ms);
    proof {
        assert(in_window(best_idx as int, lb as int, frame_ms, max_offset_ms));
        match second {
            None => {
                assert forall|q: int|
                    0 <= q < n && q != best_idx && in_window(q, lb as int, frame_ms, max_offset_ms)
                    implies false by {
                    assert(lo <= q < hi);
                }
            },
            Some(v) => {
                let q = choose|q: int| lo <= q < i && q != best_idx && corr(audio@, subs@, q) == v;
                assert(0 <= q < n && in_window(q, lb as int, frame_ms, max_offset_ms));
                assert forall|q: int|
                    0 <= q < n && q != best_idx && in_window(q, lb as int, frame_ms, max_offset_ms)
                    implies corr(audio@, subs@, q) <= v by {
                    assert(lo <= q < hi);
                }
            },
        }
        assert forall|q: int|
            0 <= q < n && in_window(q, lb as int, frame_ms, max_offset_ms) implies corr(audio@, subs@, q)
            <= best && (q < best_idx ==> corr(audio@, subs@, q) < best) by {
            assert(lo <= q < hi);
        }
        if frame_ms > 0 {
            lemma_offset_bound(best_idx as int, lb as int, frame_ms, max_offset_ms);
        }
    }
    Ok(LagChoice { index: best_idx, offset_ms: off, best, second })
}

/// Speed ratios are counted in millionths.
pub const RATIO_ONE: u32 = 1000000;

/// Step of the local refinement around the best coarse ratio.
pub const REFINE_STEP: u32 = 5000;

/// Bounds of the local refinement.
pub const RATIO_LOW: u32 = 950000;

pub const RATIO_HIGH: u32 = 1050000;

/// The ratios the coarse pass tries, in order.
pub fn coarse_ratios() -> (r: Vec<u32>)
    ensures
        r@ == seq![970000u32, 985000u32, 1000000u32, 1015000u32, 1030000u32],
{
    let mut r: Vec<u32> = Vec::new();
    r.push(970000);
    r.push(985000);
    r.push(1000000);
    r.push(1015000);
    r.push(1030000);
    assert(r@ =~= seq![970000u32, 985000u32, 1000000u32, 1015000u32, 1030000u32]);
    r
}

/// The ratios the refinement tries around `ratio`, in order: one step below
/// (not under the low bound), `ratio` itself, one step above (not over the
/// high bound).
pub fn refine_ratios(ratio: u32) -> (r: Vec<u32>)
    ensures
        r@.len() == 3,
        r@[0] == (if ratio as int - REFINE_STEP < RATIO_LOW {
            RATIO_LOW as int
        } else {
            ratio as int - REFINE_STEP
        }),
        r@[1] == ratio,
        r@[2] == (if ratio as int + REFINE_STEP > RATIO_HIGH {
            RATIO_HIGH as int
        } else {
            ratio as int + REFINE_STEP
        }),
{
    let low: u32 = if ratio < RATIO_LOW + REFINE_STEP {
        RATIO_LOW
    } else {
        ratio - REFINE_STEP
    };
    let high: u32 = if ratio > RATIO_HIGH - REFINE_STEP {
        RATIO_HIGH
    } else {
        ratio + REFINE_STEP
    };
    let mut r: Vec<u32> = Vec::new();
    r.push(low);
    r.push(ratio);
    r.push(high);
    r
}

} // verus!
