//! The SubRip codec: cues parsed from text, and cues written back with a time
//! transform applied.

use vstd::prelude::*;
use crate::text::{trim, lines_of, line_ranges, trim_range, blank_range, space, chars_of, string_of};
use crate::timecode::{
    timecode_spec, parse_timecode, time_text, dec, push_dec, push_time, lemma_time_text_reads_back,
    canonical, lemma_canonical_reads_back,
};

verus! {

/// One timed subtitle entry.
#[derive(Debug)]
pub struct Subtitle {
    pub start_ms: i64,
    pub end_ms: i64,
    pub text: Vec<char>,
}

/// A cue as the contracts see it.
pub struct CueView {
    pub start_ms: int,
    pub end_ms: int,
    pub text: Seq<char>,
}

impl View for Subtitle {
    type V = CueView;

    open spec fn view(&self) -> CueView {
        CueView { start_ms: self.start_ms as int, end_ms: self.end_ms as int, text: self.text@ }
    }
}

/// Why a subtitle text was refused.
#[derive(Debug)]
pub enum SrtError {
    /// A timing line that is not two timecodes around one arrow; it holds the
    /// line, trimmed.
    InvalidTimeLine(Vec<char>),
    /// The first timecode of a timing line does not read; it holds the line,
    /// trimmed.
    BadStart(Vec<char>),
    /// The second timecode of a timing line does not read; it holds the line,
    /// trimmed.
    BadEnd(Vec<char>),
    /// Not one cue in the text.
    NoSubtitles,
}

/// `SrtError` as the contracts see it.
pub enum SrtFault {
    InvalidTimeLine(Seq<char>),
    BadStart(Seq<char>),
    BadEnd(Seq<char>),
    NoSubtitles,
}

impl View for SrtError {
    type V = SrtFault;

    open spec fn view(&self) -> SrtFault {
        match self {
            SrtError::InvalidTimeLine(l) => SrtFault::InvalidTimeLine(l@),
            SrtError::BadStart(l) => SrtFault::BadStart(l@),
            SrtError::BadEnd(l) => SrtFault::BadEnd(l@),
            SrtError::NoSubtitles => SrtFault::NoSubtitles,
        }
    }
}

pub open spec fn is_blank(l: Seq<char>) -> bool {
    trim(l).len() == 0
}

/// The first blank line at or after `j`, or the number of lines.
pub open spec fn text_end(ls: Seq<Seq<char>>, j: int) -> int
    decreases ls.len() - j,
{
    if j < 0 || j >= ls.len() {
        ls.len() as int
    } else if is_blank(ls[j]) {
        j
    } else {
        text_end(ls, j + 1)
    }
}

/// The lines joined with `'\n'` between them.
pub open spec fn join_lines(ls: Seq<Seq<char>>) -> Seq<char>
    decreases ls.len(),
{
    if ls.len() == 0 {
        Seq::empty()
    } else if ls.len() == 1 {
        ls[0]
    } else {
        join_lines(ls.drop_last()) + seq!['\n'] + ls.last()
    }
}

pub open spec fn arrow_at(t: Seq<char>, k: int) -> bool {
    0 <= k && k + 3 <= t.len() && t[k] == '-' && t[k + 1] == '-' && t[k + 2] == '>'
}

/// The first `-->` at or after `from`, or `-1`.
pub open spec fn find_arrow(t: Seq<char>, from: int) -> int
    decreases t.len() - from,
{
    if from < 0 || from + 3 > t.len() {
        -1
    } else if arrow_at(t, from) {
        from
    } else {
        find_arrow(t, from + 1)
    }
}

/// The two trimmed sides of a timing line with exactly one `-->`.
pub open spec fn time_parts(t: Seq<char>) -> Option<(Seq<char>, Seq<char>)> {
    let a = find_arrow(t, 0);
    if a < 0 || find_arrow(t, a + 3) >= 0 {
        None
    } else {
        Some((trim(t.take(a)), trim(t.skip(a + 3))))
    }
}

/// Parses the cue blocks from line `i` on, after the cues `acc`.
pub open spec fn parse_from(ls: Seq<Seq<char>>, i: int, acc: Seq<CueView>) -> Result<
    Seq<CueView>,
    SrtFault,
>
    decreases ls.len() - i
        via parse_from_decreases
{
    if i < 0 || i >= ls.len() {
        Ok(acc)
    } else if is_blank(ls[i]) {
        parse_from(ls, i + 1, acc)
    } else if i + 1 >= ls.len() {
        Ok(acc)
    } else {
        let t = trim(ls[i + 1]);
        match time_parts(t) {
            None => Err(SrtFault::InvalidTimeLine(t)),
            Some((a, b)) => match (timecode_spec(a), timecode_spec(b)) {
                (None, _) => Err(SrtFault::BadStart(t)),
                (Some(_), None) => Err(SrtFault::BadEnd(t)),
                (Some(s), Some(e)) => {
                    let j = i + 2;
                    let e2 = text_end(ls, j);
                    let cue = CueView {
                        start_ms: s,
                        end_ms: e,
                        text: join_lines(ls.subrange(j, e2)),
                    };
                    let next = if e2 < ls.len() {
                        e2 + 1
                    } else {
                        e2
                    };
                    parse_from(ls, next, acc.push(cue))
                },
            },
        }
    }
}

proof fn lemma_text_end_bounds(ls: Seq<Seq<char>>, j: int)
    requires
        0 <= j,
    ensures
        j <= ls.len() ==> j <= text_end(ls, j) <= ls.len(),
        text_end(ls, j) <= ls.len(),
    decreases ls.len() - j,
{
    if j < ls.len() && !is_blank(ls[j]) {
        lemma_text_end_bounds(ls, j + 1);
    }
}

#[via_fn]
proof fn parse_from_decreases(ls: Seq<Seq<char>>, i: int, acc: Seq<CueView>) {
    if 0 <= i && i + 2 <= ls.len() {
        lemma_text_end_bounds(ls, i + 2);
    }
}

/// The cues of a subtitle text, or why there are none.
pub open spec fn srt_spec(s: Seq<char>) -> Result<Seq<CueView>, SrtFault> {
    match parse_from(lines_of(s), 0, Seq::empty()) {
        Ok(cs) => if cs.len() == 0 {
            Err(SrtFault::NoSubtitles)
        } else {
            Ok(cs)
        },
        Err(e) => Err(e),
    }
}

/// Position of the first `-->` in `t` at or after `from`.
fn arrow_pos(t: &Vec<char>, from: usize) -> (r: Option<usize>)
    requires
        from <= t.len(),
    ensures
        r matches Some(k) ==> find_arrow(t@, from as int) == k as int && k + 3 <= t.len(),
        r is None ==> find_arrow(t@, from as int) == -1,
{
    let mut k: usize = from;
    while k <= t.len() && t.len() - k >= 3
        invariant
            from <= k,
            k <= t.len() + 3,
            find_arrow(t@, from as int) == find_arrow(t@, k as int),
        decreases t.len() + 3 - k,
    {
        if t[k] == '-' && t[k + 1] == '-' && t[k + 2] == '>' {
            return Some(k);
        }
        k = k + 1;
    }
    None
}

/// Appends the characters `s[from..to]`.
fn push_range(out: &mut Vec<char>, s: &Vec<char>, from: usize, to: usize)
    requires
        from <= to <= s.len(),
    ensures
        final(out)@ == old(out)@ + s@.subrange(from as int, to as int),
{
    let ghost start = out@;
    let mut k: usize = from;
    while k < to
        invariant
            from <= k <= to <= s.len(),
            out@ =~= start + s@.subrange(from as int, k as int),
        decreases to - k,
    {
        out.push(s[k]);
        k = k + 1;
    }
}

pub open spec fn cues_view(v: Seq<Subtitle>) -> Seq<CueView> {
    v.map_values(|c: Subtitle| c@)
}

/// Parses the cues of a subtitle text given as characters.
pub fn parse_srt_chars(s: &Vec<char>) -> (r: Result<Vec<Subtitle>, SrtError>)
    ensures
        match r {
            Ok(v) => srt_spec(s@) == Ok::<Seq<CueView>, SrtFault>(cues_view(v@)),
            Err(e) => srt_spec(s@) == Err::<Seq<CueView>, SrtFault>(e@),
        },
{
    let ranges = line_ranges(s);
    let ghost ls = lines_of(s@);
    let ghost whole = parse_from(ls, 0, Seq::empty());
    let n = ranges.len();
    let mut subs: Vec<Subtitle> = Vec::new();
    let mut i: usize = 0;
    assert(cues_view(subs@) =~= Seq::<CueView>::empty());
    while i < n
        invariant
            n == ranges.len() == ls.len(),
            ls == lines_of(s@),
            whole == parse_from(ls, 0, Seq::empty()),
            forall|k: int|
                #![trigger ranges[k]]
                0 <= k < ranges.len() ==> ranges[k].0 <= ranges[k].1 <= s.len() && s@.subrange(
                    ranges[k].0 as int,
                    ranges[k].1 as int,
                ) == ls[k],
            i <= n,
            parse_from(ls, i as int, cues_view(subs@)) == whole,
        ensures
            whole == Ok::<Seq<CueView>, SrtFault>(cues_view(subs@)),
        decreases n - i,
    {
        let (a, b) = ranges[i];
        if blank_range(s, a, b) {
            i = i + 1;
            continue;
        }
        if i + 1 >= n {
            break;
        }
        let (ta, tb) = ranges[i + 1];
        let t = trim_range(s, ta, tb);
        let ap = match arrow_pos(&t, 0) {
            Some(k) => k,
            None => {
                return Err(SrtError::InvalidTimeLine(t));
            },
        };
        if arrow_pos(&t, ap + 3).is_some() {
            return Err(SrtError::InvalidTimeLine(t));
        }
        let left = trim_range(&t, 0, ap);
        let right = trim_range(&t, ap + 3, t.len());
        assert(t@.take(ap as int) =~= t@.subrange(0, ap as int));
        assert(t@.skip(ap + 3) =~= t@.subrange(ap + 3, t.len() as int));
        assert(left@.subrange(0, left.len() as int) =~= left@);
        assert(right@.subrange(0, right.len() as int) =~= right@);
        let start = match parse_timecode(&left, 0, left.len()) {
            Some(v) => v,
            None => {
                return Err(SrtError::BadStart(t));
            },
        };
        let end = match parse_timecode(&right, 0, right.len()) {
            Some(v) => v,
            None => {
                return Err(SrtError::BadEnd(t));
            },
        };
        let j = i + 2;
        let mut k = j;
        let mut text: Vec<char> = Vec::new();
        assert(ls.subrange(j as int, j as int) =~= Seq::<Seq<char>>::empty());
        while k < n && !blank_range(s, ranges[k].0, ranges[k].1)
            invariant
                n == ranges.len() == ls.len(),
                forall|q: int|
                    #![trigger ranges[q]]
                    0 <= q < ranges.len() ==> ranges[q].0 <= ranges[q].1 <= s.len()
                        && s@.subrange(ranges[q].0 as int, ranges[q].1 as int) == ls[q],
                j <= k <= n,
                text_end(ls, j as int) == text_end(ls, k as int),
                text@ == join_lines(ls.subrange(j as int, k as int)),
            decreases n - k,
        {
            let ghost prev = ls.subrange(j as int, k as int);
            let ghost next = ls.subrange(j as int, k + 1);
            assert(next.drop_last() =~= prev);
            if k > j {
                text.push('\n');
            } else {
                assert(next =~= seq![ls[k as int]]);
            }
            push_range(&mut text, s, ranges[k].0, ranges[k].1);
            k = k + 1;
        }
        proof {
            lemma_text_end_bounds(ls, j as int);
        }
        let next = if k < n {
            k + 1
        } else {
            k
        };
        let ghost before = cues_view(subs@);
        let cue = Subtitle { start_ms: start, end_ms: end, text };
        subs.push(cue);
        assert(cues_view(subs@) =~= before.push(cue@));
        i = next;
    }
    if subs.len() == 0 {
        return Err(SrtError::NoSubtitles);
    }
    Ok(subs)
}

/// Drift ratios are given in millionths: `1_000_000` is a speed ratio of one.
pub const DRIFT_UNIT: u32 = 1000000;

/// The shifted start: `max(0, floor(start * drift + offset))`.
pub open spec fn shifted_start(start: int, offset_ms: int, drift_ppm: int) -> int {
    let v = (start * drift_ppm + offset_ms * DRIFT_UNIT) / (DRIFT_UNIT as int);
    if v < 0 {
        0
    } else {
        v
    }
}

/// The shifted end, never before the shifted start.
pub open spec fn shifted_end(start: int, end: int, offset_ms: int, drift_ppm: int) -> int {
    let s = shifted_start(start, offset_ms, drift_ppm);
    let v = (end * drift_ppm + offset_ms * DRIFT_UNIT) / (DRIFT_UNIT as int);
    if v < s {
        s
    } else {
        v
    }
}

/// The block written for the cue numbered `number`.
pub open spec fn block(number: nat, c: CueView, offset_ms: int, drift_ppm: int) -> Seq<char> {
    dec(number) + seq!['\n'] + time_text(shifted_start(c.start_ms, offset_ms, drift_ppm))
        + seq![' ', '-', '-', '>', ' '] + time_text(
        shifted_end(c.start_ms, c.end_ms, offset_ms, drift_ppm),
    ) + seq!['\n'] + trim(c.text) + seq!['\n', '\n']
}

/// The blocks of the first `n` cues, numbered from one.
pub open spec fn blocks(cs: Seq<CueView>, n: int, offset_ms: int, drift_ppm: int) -> Seq<char>
    decreases n,
{
    if n <= 0 {
        Seq::empty()
    } else {
        blocks(cs, n - 1, offset_ms, drift_ppm) + block(n as nat, cs[n - 1], offset_ms, drift_ppm)
    }
}

/// The text written for cues `cs` moved by `offset_ms` and stretched by
/// `drift_ppm` millionths.
pub open spec fn rewrite_spec(cs: Seq<CueView>, offset_ms: int, drift_ppm: int) -> Seq<char> {
    crate::text::trim_end(blocks(cs, cs.len() as int, offset_ms, drift_ppm))
}

/// Every rewritten cue ends no earlier than it starts, whatever the offset and
/// the ratio.
pub proof fn lemma_end_not_before_start(start: int, end: int, offset_ms: int, drift_ppm: int)
    ensures
        0 <= shifted_start(start, offset_ms, drift_ppm) <= shifted_end(
            start,
            end,
            offset_ms,
            drift_ppm,
        ),
{
}

/// With no offset and a ratio of one, a cue that starts at or after zero and
/// ends no earlier than it starts keeps its times, and the timecodes written
/// for them read back to the same times.
pub proof fn lemma_round_trip_times(c: CueView)
    requires
        0 <= c.start_ms <= c.end_ms <= i64::MAX,
    ensures
        shifted_start(c.start_ms, 0, DRIFT_UNIT as int) == c.start_ms,
        shifted_end(c.start_ms, c.end_ms, 0, DRIFT_UNIT as int) == c.end_ms,
        timecode_spec(time_text(shifted_start(c.start_ms, 0, DRIFT_UNIT as int))) == Some(
            c.start_ms,
        ),
        timecode_spec(time_text(shifted_end(c.start_ms, c.end_ms, 0, DRIFT_UNIT as int))) == Some(
            c.end_ms,
        ),
{
    assert((c.start_ms * 1000000 + 0 * 1000000) / 1000000 == c.start_ms) by (nonlinear_arith);
    assert((c.end_ms * 1000000 + 0 * 1000000) / 1000000 == c.end_ms) by (nonlinear_arith);
    lemma_time_text_reads_back(c.start_ms);
    lemma_time_text_reads_back(c.end_ms);
}

/// With no offset and a ratio of one, a cue read from two canonical
/// timecodes `a` and `b` (its start not after its end) is written back with
/// the same two timecodes, character for character.
pub proof fn lemma_round_trip_text(c: CueView, a: Seq<char>, b: Seq<char>)
    requires
        canonical(a),
        canonical(b),
        timecode_spec(a) == Some(c.start_ms),
        timecode_spec(b) == Some(c.end_ms),
        c.start_ms <= c.end_ms,
    ensures
        time_text(shifted_start(c.start_ms, 0, DRIFT_UNIT as int)) == a,
        time_text(shifted_end(c.start_ms, c.end_ms, 0, DRIFT_UNIT as int)) == b,
{
    lemma_canonical_reads_back(a);
    lemma_canonical_reads_back(b);
    lemma_round_trip_times(c);
}

/// The shifted start and end of one cue.
pub fn shift_cue(start: i64, end: i64, offset_ms: i32, drift_ppm: u32) -> (r: (i128, i128))
    ensures
        r.0 == shifted_start(start as int, offset_ms as int, drift_ppm as int),
        r.1 == shifted_end(start as int, end as int, offset_ms as int, drift_ppm as int),
        0 <= r.0 <= r.1,
{
    assert(-9223372036854775808 * 4294967295 <= start as int * drift_ppm as int
        <= 9223372036854775807 * 4294967295) by (nonlinear_arith)
        requires
            -9223372036854775808 <= start as int <= 9223372036854775807,
            0 <= drift_ppm as int <= 4294967295,
    ;
    assert(-9223372036854775808 * 4294967295 <= end as int * drift_ppm as int
        <= 9223372036854775807 * 4294967295) by (nonlinear_arith)
        requires
            -9223372036854775808 <= end as int <= 9223372036854775807,
            0 <= drift_ppm as int <= 4294967295,
    ;
    let off: i128 = offset_ms as i128 * 1000000;
    let p: i128 = start as i128 * drift_ppm as i128;
    let q: i128 = end as i128 * drift_ppm as i128;
    let x: i128 = p + off;
    let y: i128 = q + off;
    let s: i128 = if x < 0 {
        0
    } else {
        x / DRIFT_UNIT as i128
    };
    let e: i128 = if y < 0 {
        s
    } else if y / (DRIFT_UNIT as i128) < s {
        s
    } else {
        y / DRIFT_UNIT as i128
    };
    (s, e)
}

/// Appends the block of cue `c`, numbered `idx + 1`.
#[verifier::rlimit(50)]
fn push_block(out: &mut Vec<char>, idx: usize, c: &Subtitle, offset_ms: i32, drift_ppm: u32)
    requires
        idx < usize::MAX,
    ensures
        final(out)@ == old(out)@ + block((idx + 1) as nat, c@, offset_ms as int, drift_ppm as int),
{
    let (start, end) = shift_cue(c.start_ms, c.end_ms, offset_ms, drift_ppm);
    let ghost before = out@;
    let ghost n = (idx + 1) as nat;
    push_dec(out, idx as u128 + 1);
    out.push('\n');
    let ghost g1 = dec(n) + seq!['\n'];
    assert(out@ =~= before + g1);
    push_time(out, start);
    let ghost g2 = g1 + time_text(start as int);
    assert(out@ =~= before + g2);
    out.push(' ');
    out.push('-');
    out.push('-');
    out.push('>');
    out.push(' ');
    let ghost g3 = g2 + seq![' ', '-', '-', '>', ' '];
    assert(out@ =~= before + g3);
    push_time(out, end);
    let ghost g4 = g3 + time_text(end as int);
    assert(out@ =~= before + g4);
    out.push('\n');
    let ghost g5 = g4 + seq!['\n'];
    assert(out@ =~= before + g5);
    let t = trim_range(&c.text, 0, c.text.len());
    assert(c.text@.subrange(0, c.text.len() as int) =~= c.text@);
    push_range(out, &t, 0, t.len());
    assert(t@.subrange(0, t.len() as int) =~= t@);
    let ghost g6 = g5 + trim(c.text@);
    assert(out@ =~= before + g6);
    out.push('\n');
    out.push('\n');
    let ghost g7 = g6 + seq!['\n', '\n'];
    assert(out@ =~= before + g7);
    assert(g7 == block(n, c@, offset_ms as int, drift_ppm as int));
}

/// Writes the cues moved by `offset_ms` and stretched by `drift_ppm`
/// millionths, renumbered from one, as characters.
pub fn rewrite_chars(subs: &Vec<Subtitle>, offset_ms: i32, drift_ppm: u32) -> (r: Vec<char>)
    ensures
        r@ == rewrite_spec(cues_view(subs@), offset_ms as int, drift_ppm as int),
{
    let ghost cs = cues_view(subs@);
    let mut out: Vec<char> = Vec::new();
    let mut idx: usize = 0;
    while idx < subs.len()
        invariant
            idx <= subs.len(),
            cs == cues_view(subs@),
            out@ == blocks(cs, idx as int, offset_ms as int, drift_ppm as int),
        decreases subs.len() - idx,
    {
        push_block(&mut out, idx, &subs[idx], offset_ms, drift_ppm);
        assert(cs[idx as int] == subs[idx as int]@);
        idx = idx + 1;
    }
    assert(cs.len() == subs.len());
    let ghost full = out@;
    while out.len() > 0 && space(out[out.len() - 1])
        invariant
            crate::text::trim_end(full) == crate::text::trim_end(out@),
        decreases out.len(),
    {
        let ghost prev = out@;
        out.pop();
        assert(out@ =~= prev.drop_last());
    }
    out
}

/// Parses the cues of a subtitle text.
pub fn parse_srt(input: &str) -> (r: Result<Vec<Subtitle>, SrtError>)
    ensures
        match r {
            Ok(v) => srt_spec(input@) == Ok::<Seq<CueView>, SrtFault>(cues_view(v@)),
            Err(e) => srt_spec(input@) == Err::<Seq<CueView>, SrtFault>(e@),
        },
{
    let s = chars_of(input);
    parse_srt_chars(&s)
}

/// Writes the cues moved by `offset_ms` and stretched by `drift_ppm`
/// millionths, renumbered from one.
pub fn rewrite_srt(subs: &Vec<Subtitle>, offset_ms: i32, drift_ppm: u32) -> (r: String)
    ensures
        r@ == rewrite_spec(cues_view(subs@), offset_ms as int, drift_ppm as int),
{
    let v = rewrite_chars(subs, offset_ms, drift_ppm);
    string_of(&v)
}

/// `prefix` followed by the characters of `l`.
fn message_with_line(prefix: &str, l: &Vec<char>) -> (r: String)
    ensures
        r@ == prefix@ + l@,
{
    let mut m = String::from_str(prefix);
    let t = string_of(l);
    m.append(t.as_str());
    m
}

impl SrtError {
    /// A description of the error; a timing line at fault is named.
    pub fn message(&self) -> (r: String)
        ensures
            self@ matches SrtFault::InvalidTimeLine(l) ==> r@ == "invalid time line: "@ + l,
            self@ matches SrtFault::BadStart(l) ==> r@ == "bad start time in line: "@ + l,
            self@ matches SrtFault::BadEnd(l) ==> r@ == "bad end time in line: "@ + l,
            self@ is NoSubtitles ==> r@ == "no subtitles parsed"@,
    {
        match self {
            SrtError::InvalidTimeLine(l) => message_with_line("invalid time line: ", l),
            SrtError::BadStart(l) => message_with_line("bad start time in line: ", l),
            SrtError::BadEnd(l) => message_with_line("bad end time in line: ", l),
            SrtError::NoSubtitles => String::from_str("no subtitles parsed"),
        }
    }
}

} // verus!
