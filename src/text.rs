//! Character-level text helpers: whitespace, trimming and line splitting,
//! stated over `Seq<char>`.

use vstd::prelude::*;

verus! {

/// Unicode `White_Space`, the set that `str::trim` removes.
pub open spec fn is_space(c: char) -> bool {
    ('\t' <= c && c <= '\r') || c == ' ' || c == '\u{85}' || c == '\u{a0}' || c == '\u{1680}'
        || ('\u{2000}' <= c && c <= '\u{200a}') || c == '\u{2028}' || c == '\u{2029}' || c
        == '\u{202f}' || c == '\u{205f}' || c == '\u{3000}'
}

pub fn space(c: char) -> (r: bool)
    ensures
        r == is_space(c),
{
    ('\t' <= c && c <= '\r') || c == ' ' || c == '\u{85}' || c == '\u{a0}' || c == '\u{1680}'
        || ('\u{2000}' <= c && c <= '\u{200a}') || c == '\u{2028}' || c == '\u{2029}' || c
        == '\u{202f}' || c == '\u{205f}' || c == '\u{3000}'
}

/// `s` without its trailing whitespace.
pub open spec fn trim_end(s: Seq<char>) -> Seq<char>
    decreases s.len(),
{
    if s.len() > 0 && is_space(s.last()) {
        trim_end(s.drop_last())
    } else {
        s
    }
}

/// `s` without its leading whitespace.
pub open spec fn trim_start(s: Seq<char>) -> Seq<char>
    decreases s.len(),
{
    if s.len() > 0 && is_space(s[0]) {
        trim_start(s.drop_first())
    } else {
        s
    }
}

pub open spec fn trim(s: Seq<char>) -> Seq<char> {
    trim_start(trim_end(s))
}

/// The characters of `s[from..to]` with whitespace removed at both ends.
pub fn trim_range(s: &Vec<char>, from: usize, to: usize) -> (r: Vec<char>)
    requires
        from <= to <= s.len(),
    ensures
        r@ == trim(s@.subrange(from as int, to as int)),
{
    let ghost t = s@.subrange(from as int, to as int);
    let mut hi: usize = to;
    assert(t.subrange(0, to - from) =~= t);
    while hi > from && space(s[hi - 1])
        invariant
            from <= hi <= to <= s.len(),
            t == s@.subrange(from as int, to as int),
            trim_end(t) == trim_end(t.subrange(0, hi - from)),
        decreases hi,
    {
        proof {
            let u = t.subrange(0, hi - from);
            assert(u.drop_last() =~= t.subrange(0, hi - 1 - from));
        }
        hi = hi - 1;
    }
    let ghost e = t.subrange(0, hi - from);
    assert(trim_end(e) == e);
    let mut lo: usize = from;
    assert(e.subrange(0, hi - from) =~= e);
    while lo < hi && space(s[lo])
        invariant
            from <= lo <= hi <= to <= s.len(),
            e == s@.subrange(from as int, hi as int),
            trim_start(e) == trim_start(e.subrange(lo - from, hi - from)),
        decreases hi - lo,
    {
        proof {
            let u = e.subrange(lo - from, hi - from);
            assert(u.drop_first() =~= e.subrange(lo + 1 - from, hi - from));
        }
        lo = lo + 1;
    }
    let mut r: Vec<char> = Vec::new();
    let mut k: usize = lo;
    while k < hi
        invariant
            lo <= k <= hi <= s.len(),
            r@ =~= s@.subrange(lo as int, k as int),
        decreases hi - k,
    {
        r.push(s[k]);
        k = k + 1;
    }
    assert(e.subrange(lo - from, hi - from) =~= s@.subrange(lo as int, hi as int));
    r
}

/// Whether `s[from..to]` holds whitespace only.
pub fn blank_range(s: &Vec<char>, from: usize, to: usize) -> (r: bool)
    requires
        from <= to <= s.len(),
    ensures
        r == (trim(s@.subrange(from as int, to as int)).len() == 0),
{
    let t = trim_range(s, from, to);
    t.len() == 0
}

/// The pieces of `s` between its `'\n'` characters (one more than there are
/// of them).
pub open spec fn split_nl(s: Seq<char>) -> Seq<Seq<char>>
    decreases s.len(),
{
    if s.len() == 0 {
        seq![Seq::empty()]
    } else {
        let p = split_nl(s.drop_last());
        if s.last() == '\n' {
            p.push(Seq::empty())
        } else {
            p.update(p.len() - 1, p.last().push(s.last()))
        }
    }
}

/// `x` without one `'\r'` at its end.
pub open spec fn strip_cr(x: Seq<char>) -> Seq<char> {
    if x.len() > 0 && x.last() == '\r' {
        x.drop_last()
    } else {
        x
    }
}

/// The lines of `s` as `str::lines` gives them: split at `'\n'`, a `'\r'`
/// before the `'\n'` removed, and no empty line after a final `'\n'`.
pub open spec fn lines_of(s: Seq<char>) -> Seq<Seq<char>> {
    let p = split_nl(s);
    let n = if p.last().len() == 0 {
        p.len() - 1
    } else {
        p.len() as int
    };
    Seq::new(
        n as nat,
        |k: int|
            if k < p.len() - 1 {
                strip_cr(p[k])
            } else {
                p[k]
            },
    )
}

/// Where each line of `s` starts and ends.
pub fn line_ranges(s: &Vec<char>) -> (r: Vec<(usize, usize)>)
    ensures
        r.len() == lines_of(s@).len(),
        forall|k: int|
            #![trigger r[k]]
            #![trigger lines_of(s@)[k]]
            0 <= k < r.len() ==> r[k].0 <= r[k].1 <= s.len() && s@.subrange(
                r[k].0 as int,
                r[k].1 as int,
            ) == lines_of(s@)[k],
{
    let mut r: Vec<(usize, usize)> = Vec::new();
    let mut start: usize = 0;
    let mut i: usize = 0;
    while i < s.len()
        invariant
            start <= i <= s.len(),
            r.len() == split_nl(s@.take(i as int)).len() - 1,
            split_nl(s@.take(i as int)).last() == s@.subrange(start as int, i as int),
            forall|k: int|
                #![trigger r[k]]
                0 <= k < r.len() ==> r[k].0 <= r[k].1 <= s.len() && s@.subrange(
                    r[k].0 as int,
                    r[k].1 as int,
                ) == strip_cr(split_nl(s@.take(i as int))[k]),
        decreases s.len() - i,
    {
        let ghost p = split_nl(s@.take(i as int));
        let ghost r0 = r@;
        assert(s@.take(i + 1).drop_last() =~= s@.take(i as int));
        if s[i] == '\n' {
            let mut end: usize = i;
            if end > start && s[end - 1] == '\r' {
                end = end - 1;
            }
            assert(s@.subrange(start as int, end as int) =~= strip_cr(
                s@.subrange(start as int, i as int),
            ));
            r.push((start, end));
            start = i + 1;
            assert(s@.subrange(start as int, i + 1) =~= Seq::<char>::empty());
        } else {
            assert(s@.subrange(start as int, i + 1) =~= s@.subrange(start as int, i as int).push(
                s[i as int],
            ));
        }
        proof {
            let q = split_nl(s@.take(i + 1));
            assert forall|k: int| 0 <= k < r.len() implies #[trigger] r[k].0 <= r[k].1 <= s.len()
                && s@.subrange(r[k].0 as int, r[k].1 as int) == strip_cr(q[k]) by {
                if s[i as int] == '\n' {
                    assert(q == p.push(Seq::empty()));
                } else {
                    assert(q == p.update(p.len() - 1, p.last().push(s[i as int])));
                }
                assert(q[k] == p[k]);
                if k < r0.len() {
                    assert(r[k] == r0[k]);
                }
            }
        }
        i = i + 1;
    }
    assert(s@.take(s.len() as int) =~= s@);
    let ghost p = split_nl(s@);
    let ghost r0 = r@;
    if start < s.len() {
        r.push((start, s.len()));
    }
    assert forall|k: int| 0 <= k < r.len() implies #[trigger] r[k].0 <= r[k].1 <= s.len()
        && s@.subrange(r[k].0 as int, r[k].1 as int) == lines_of(s@)[k] by {
        if k < r0.len() {
            assert(r[k] == r0[k]);
            assert(k < p.len() - 1);
        } else {
            assert(p.last() == s@.subrange(start as int, s.len() as int));
        }
    }
    r
}

/// Relies on `str::chars`, collected into a `Vec`: the characters of `s`, in
/// order.
#[verifier::external_body]
pub(crate) fn chars_of(s: &str) -> (r: Vec<char>)
    ensures
        r@ == s@,
{
    s.chars().collect()
}

/// Relies on `String`'s `FromIterator<&char>`: a string of the characters of
/// `v`, in order.
#[verifier::external_body]
pub(crate) fn string_of(v: &Vec<char>) -> (r: String)
    ensures
        r@ == v@,
{
    v.iter().collect()
}

} // verus!
