//! Timecodes of the form `HH:MM:SS,mmm`: reading them into milliseconds and
//! writing milliseconds back.

use vstd::prelude::*;
use vstd::arithmetic::div_mod::{lemma_div_denominator, lemma_fundamental_div_mod};

verus! {

pub open spec fn is_digit(c: char) -> bool {
    '0' <= c && c <= '9'
}

pub open spec fn digit_val(c: char) -> int {
    c as int - '0' as int
}

pub open spec fn all_digits(s: Seq<char>) -> bool {
    forall|i: int| 0 <= i < s.len() ==> is_digit(#[trigger] s[i])
}

/// The value of a string of decimal digits.
pub open spec fn digits_val(s: Seq<char>) -> int
    decreases s.len(),
{
    if s.len() == 0 {
        0
    } else {
        digits_val(s.drop_last()) * 10 + digit_val(s.last())
    }
}

/// What `i64::from_str` gives: an optional sign, then one or more decimal
/// digits, whose value must fit in `i64`.
pub open spec fn int_of(s: Seq<char>) -> Option<int> {
    let neg = s.len() > 0 && s[0] == '-';
    let d = if s.len() > 0 && (s[0] == '-' || s[0] == '+') {
        s.drop_first()
    } else {
        s
    };
    let v = if neg {
        -digits_val(d)
    } else {
        digits_val(d)
    };
    if d.len() == 0 || !all_digits(d) || v < i64::MIN || v > i64::MAX {
        None
    } else {
        Some(v)
    }
}

pub open spec fn is_sep(c: char) -> bool {
    c == ':' || c == ','
}

/// The pieces of `s` between its `':'` and `','` characters.
pub open spec fn split_fields(s: Seq<char>) -> Seq<Seq<char>>
    decreases s.len(),
{
    if s.len() == 0 {
        seq![Seq::empty()]
    } else {
        let p = split_fields(s.drop_last());
        if is_sep(s.last()) {
            p.push(Seq::empty())
        } else {
            p.update(p.len() - 1, p.last().push(s.last()))
        }
    }
}

/// Milliseconds of hours, minutes, seconds and milliseconds.
pub open spec fn total_ms(h: int, m: int, s: int, ms: int) -> int {
    (h * 3600 + m * 60 + s) * 1000 + ms
}

/// The milliseconds a timecode stands for: four integer fields, the total
/// within `i64`.
pub open spec fn timecode_spec(tc: Seq<char>) -> Option<int> {
    let p = split_fields(tc);
    if p.len() != 4 {
        None
    } else {
        match (int_of(p[0]), int_of(p[1]), int_of(p[2]), int_of(p[3])) {
            (Some(h), Some(m), Some(s), Some(ms)) => {
                let t = total_ms(h, m, s, ms);
                if i64::MIN <= t <= i64::MAX {
                    Some(t)
                } else {
                    None
                }
            },
            _ => None,
        }
    }
}

/// Bound past which a run of digits can no longer fit in `i64`.
pub const DIGIT_CAP: u128 = 9223372036854775809;

pub open spec fn capped(v: int) -> int {
    if v < DIGIT_CAP {
        v
    } else {
        DIGIT_CAP as int
    }
}

/// Reads `s[from..to]` as `i64::from_str` does.
pub fn parse_int(s: &Vec<char>, from: usize, to: usize) -> (r: Option<i64>)
    requires
        from <= to <= s.len(),
    ensures
        r matches Some(v) ==> int_of(s@.subrange(from as int, to as int)) == Some(v as int),
        r is None ==> int_of(s@.subrange(from as int, to as int)) is None,
{
    let ghost t = s@.subrange(from as int, to as int);
    let neg = from < to && s[from] == '-';
    let mut i: usize = from;
    if from < to && (s[from] == '-' || s[from] == '+') {
        i = from + 1;
    }
    let ghost d = s@.subrange(i as int, to as int);
    assert(d =~= if t.len() > 0 && (t[0] == '-' || t[0] == '+') {
        t.drop_first()
    } else {
        t
    });
    if i == to {
        return None;
    }
    let start = i;
    let mut acc: u128 = 0;
    while i < to
        invariant
            from <= start <= i <= to <= s.len(),
            d == s@.subrange(start as int, to as int),
            t == s@.subrange(from as int, to as int),
            d == if t.len() > 0 && (t[0] == '-' || t[0] == '+') {
                t.drop_first()
            } else {
                t
            },
            all_digits(s@.subrange(start as int, i as int)),
            acc as int == capped(digits_val(s@.subrange(start as int, i as int))),
        decreases to - i,
    {
        let c = s[i];
        if !('0' <= c && c <= '9') {
            assert(d[i - start] == c);
            assert(!all_digits(d));
            return None;
        }
        let ghost prev = s@.subrange(start as int, i as int);
        let ghost next = s@.subrange(start as int, i + 1);
        assert(next.drop_last() =~= prev);
        let dv = (c as u32 - '0' as u32) as u128;
        if acc >= DIGIT_CAP {
            assert(digits_val(prev) >= DIGIT_CAP);
            assert(digits_val(next) >= DIGIT_CAP);
        } else {
            acc = acc * 10 + dv;
            if acc > DIGIT_CAP {
                acc = DIGIT_CAP;
            }
        }
        i = i + 1;
    }
    assert(s@.subrange(start as int, i as int) =~= d);
    if neg {
        if acc > 9223372036854775808 {
            None
        } else if acc == 9223372036854775808 {
            Some(-9223372036854775808i64)
        } else {
            Some(-(acc as i64))
        }
    } else {
        if acc > 9223372036854775807 {
            None
        } else {
            Some(acc as i64)
        }
    }
}

/// Where each field of `s[from..to]` starts and ends.
fn field_ranges(s: &Vec<char>, from: usize, to: usize) -> (r: Vec<(usize, usize)>)
    requires
        from <= to <= s.len(),
    ensures
        r.len() == split_fields(s@.subrange(from as int, to as int)).len(),
        forall|k: int|
            #![trigger r[k]]
            0 <= k < r.len() ==> from <= r[k].0 <= r[k].1 <= to && s@.subrange(
                r[k].0 as int,
                r[k].1 as int,
            ) == split_fields(s@.subrange(from as int, to as int))[k],
{
    let ghost t = s@.subrange(from as int, to as int);
    let mut r: Vec<(usize, usize)> = Vec::new();
    let mut start: usize = from;
    let mut i: usize = from;
    while i < to
        invariant
            from <= start <= i <= to <= s.len(),
            t == s@.subrange(from as int, to as int),
            r.len() == split_fields(t.take(i - from)).len() - 1,
            split_fields(t.take(i - from)).last() == s@.subrange(start as int, i as int),
            forall|k: int|
                #![trigger r[k]]
                0 <= k < r.len() ==> from <= r[k].0 <= r[k].1 <= to && s@.subrange(
                    r[k].0 as int,
                    r[k].1 as int,
                ) == split_fields(t.take(i - from))[k],
        decreases to - i,
    {
        let ghost p = split_fields(t.take(i - from));
        let ghost r0 = r@;
        assert(t.take(i + 1 - from).drop_last() =~= t.take(i - from));
        assert(t.take(i + 1 - from).last() == s[i as int]);
        if s[i] == ':' || s[i] == ',' {
            r.push((start, i));
            start = i + 1;
            assert(s@.subrange(start as int, i + 1) =~= Seq::<char>::empty());
        } else {
            assert(s@.subrange(start as int, i + 1) =~= s@.subrange(start as int, i as int).push(
                s[i as int],
            ));
        }
        proof {
            let q = split_fields(t.take(i + 1 - from));
            assert forall|k: int| 0 <= k < r.len() implies #[trigger] r[k].0 >= from && r[k].0
                <= r[k].1 <= to && s@.subrange(r[k].0 as int, r[k].1 as int) == q[k] by {
                if is_sep(s[i as int]) {
                    assert(q == p.push(Seq::empty()));
                } else {
                    assert(q == p.update(p.len() - 1, p.last().push(s[i as int])));
                }
                assert(q[k] == p[k]);
                if k < r0.len() {
                    assert(r[k] == r0[k]);
                }
            }
        }
        i = i + 1;
    }
    assert(t.take(to - from) =~= t);
    let ghost p = split_fields(t);
    let ghost r0 = r@;
    r.push((start, to));
    assert forall|k: int| 0 <= k < r.len() implies #[trigger] r[k].0 >= from && r[k].0 <= r[k].1
        <= to && s@.subrange(r[k].0 as int, r[k].1 as int) == p[k] by {
        if k < r0.len() {
            assert(r[k] == r0[k]);
        }
    }
    r
}

/// Reads the timecode `s[from..to]` into milliseconds.
pub fn parse_timecode(s: &Vec<char>, from: usize, to: usize) -> (r: Option<i64>)
    requires
        from <= to <= s.len(),
    ensures
        r matches Some(v) ==> timecode_spec(s@.subrange(from as int, to as int)) == Some(v as int),
        r is None ==> timecode_spec(s@.subrange(from as int, to as int)) is None,
{
    let f = field_ranges(s, from, to);
    if f.len() != 4 {
        return None;
    }
    let h = match parse_int(s, f[0].0, f[0].1) {
        Some(v) => v,
        None => {
            return None;
        },
    };
    let m = match parse_int(s, f[1].0, f[1].1) {
        Some(v) => v,
        None => {
            return None;
        },
    };
    let sec = match parse_int(s, f[2].0, f[2].1) {
        Some(v) => v,
        None => {
            return None;
        },
    };
    let ms = match parse_int(s, f[3].0, f[3].1) {
        Some(v) => v,
        None => {
            return None;
        },
    };
    let t: i128 = (h as i128 * 3600 + m as i128 * 60 + sec as i128) * 1000 + ms as i128;
    if t < -9223372036854775808 || t > 9223372036854775807 {
        None
    } else {
        Some(t as i64)
    }
}

pub open spec fn digit_char(d: nat) -> char {
    (d + '0' as nat) as char
}

/// The decimal digits of `n`, without leading zeros.
pub open spec fn dec(n: nat) -> Seq<char>
    decreases n,
{
    if n < 10 {
        seq![digit_char(n)]
    } else {
        dec(n / 10).push(digit_char(n % 10))
    }
}

/// `s` with zeros in front up to `w` characters.
pub open spec fn zero_pad(s: Seq<char>, w: nat) -> Seq<char> {
    if s.len() >= w {
        s
    } else {
        Seq::new((w - s.len()) as nat, |i: int| '0') + s
    }
}

/// `HH:MM:SS,mmm` for `ms`, a negative value taken as zero; the hours take
/// as many digits as they need.
pub open spec fn time_text(ms: int) -> Seq<char> {
    let t = if ms < 0 {
        0nat
    } else {
        ms as nat
    };
    zero_pad(dec(t / 3600000), 2) + seq![':'] + zero_pad(dec((t / 60000) % 60), 2) + seq![':']
        + zero_pad(dec((t / 1000) % 60), 2) + seq![','] + zero_pad(dec(t % 1000), 3)
}

/// Appends the decimal digits of `n`.
pub fn push_dec(out: &mut Vec<char>, n: u128)
    ensures
        final(out)@ == old(out)@ + dec(n as nat),
    decreases n,
{
    if n >= 10 {
        push_dec(out, n / 10);
    }
    let c = ((n % 10) as u32 + '0' as u32) as u8 as char;
    out.push(c);
    assert(c == digit_char((n % 10) as nat));
}

/// Appends `n` zero-padded to `w` digits.
pub fn push_padded(out: &mut Vec<char>, n: u128, w: usize)
    ensures
        final(out)@ == old(out)@ + zero_pad(dec(n as nat), w as nat),
{
    let mut d: Vec<char> = Vec::new();
    push_dec(&mut d, n);
    assert(d@ =~= dec(n as nat));
    let ghost start = out@;
    if d.len() < w {
        let zeros = w - d.len();
        let mut k: usize = 0;
        while k < zeros
            invariant
                k <= zeros,
                out@ =~= start + Seq::new(k as nat, |i: int| '0'),
            decreases zeros - k,
        {
            out.push('0');
            k = k + 1;
        }
    }
    let ghost mid = out@;
    let mut k: usize = 0;
    while k < d.len()
        invariant
            k <= d.len(),
            out@ =~= mid + d@.take(k as int),
        decreases d.len() - k,
    {
        out.push(d[k]);
        k = k + 1;
    }
    assert(d@.take(d.len() as int) =~= d@);
}

/// Appends `time_text(ms)`.
pub fn push_time(out: &mut Vec<char>, ms: i128)
    ensures
        final(out)@ == old(out)@ + time_text(ms as int),
{
    let t: u128 = if ms < 0 {
        0
    } else {
        ms as u128
    };
    let ghost start = out@;
    push_padded(out, t / 3600000, 2);
    out.push(':');
    push_padded(out, (t / 60000) % 60, 2);
    out.push(':');
    push_padded(out, (t / 1000) % 60, 2);
    out.push(',');
    push_padded(out, t % 1000, 3);
    assert(out@ =~= start + time_text(ms as int));
}

proof fn lemma_dec(n: nat)
    ensures
        dec(n).len() >= 1,
        all_digits(dec(n)),
        digits_val(dec(n)) == n,
    decreases n,
{
    if n >= 10 {
        lemma_dec(n / 10);
        let d = dec(n);
        assert(d.drop_last() =~= dec(n / 10));
        assert forall|i: int| 0 <= i < d.len() implies is_digit(#[trigger] d[i]) by {
            if i < d.len() - 1 {
                assert(d[i] == dec(n / 10)[i]);
            }
        }
        assert(digit_val(digit_char((n % 10) as nat)) == n % 10);
        lemma_fundamental_div_mod(n as int, 10);
        assert(d.last() == digit_char((n % 10) as nat));
        assert(digits_val(d) == digits_val(dec(n / 10)) * 10 + digit_val(d.last()));
        assert(digits_val(d) == (n / 10) * 10 + n % 10);
        assert(digits_val(d) == n);
    } else {
        assert(dec(n).drop_last() =~= Seq::<char>::empty());
        assert(digits_val(Seq::<char>::empty()) == 0);
        assert(digit_val(digit_char(n)) == n);
        assert(digits_val(dec(n)) == digits_val(dec(n).drop_last()) * 10 + digit_val(dec(n).last()));
    }
}

proof fn lemma_zeros(z: Seq<char>, s: Seq<char>)
    requires
        forall|i: int| 0 <= i < z.len() ==> #[trigger] z[i] == '0',
    ensures
        digits_val(z + s) == digits_val(s),
    decreases z.len() + s.len(),
{
    if s.len() > 0 {
        assert((z + s).drop_last() =~= z + s.drop_last());
        lemma_zeros(z, s.drop_last());
    } else if z.len() > 0 {
        assert((z + s).drop_last() =~= z.drop_last() + s);
        lemma_zeros(z.drop_last(), s);
    } else {
        assert(z + s =~= s);
    }
}

proof fn lemma_padded(n: nat, w: nat)
    ensures
        zero_pad(dec(n), w).len() >= 1,
        all_digits(zero_pad(dec(n), w)),
        digits_val(zero_pad(dec(n), w)) == n,
{
    lemma_dec(n);
    let d = dec(n);
    if d.len() < w {
        let z = Seq::new((w - d.len()) as nat, |i: int| '0');
        lemma_zeros(z, d);
        let p = z + d;
        assert forall|i: int| 0 <= i < p.len() implies is_digit(#[trigger] p[i]) by {
            if i >= z.len() {
                assert(p[i] == d[i - z.len()]);
            }
        }
    }
}

proof fn lemma_int_of_digits(p: Seq<char>)
    requires
        p.len() >= 1,
        all_digits(p),
        digits_val(p) <= i64::MAX,
    ensures
        int_of(p) == Some(digits_val(p)),
{
    assert(is_digit(p[0]));
    assert(digits_val(p) >= 0) by {
        lemma_digits_nonneg(p);
    }
}

proof fn lemma_digits_nonneg(p: Seq<char>)
    requires
        all_digits(p),
    ensures
        digits_val(p) >= 0,
    decreases p.len(),
{
    if p.len() > 0 {
        assert(is_digit(p[p.len() - 1]));
        lemma_digits_nonneg(p.drop_last());
    }
}

proof fn lemma_split_len(p: Seq<char>)
    ensures
        split_fields(p).len() >= 1,
    decreases p.len(),
{
    if p.len() > 0 {
        lemma_split_len(p.drop_last());
    }
}

proof fn lemma_split_plain(p: Seq<char>, s: Seq<char>)
    requires
        forall|i: int| 0 <= i < s.len() ==> !is_sep(#[trigger] s[i]),
    ensures
        split_fields(p + s) == split_fields(p).update(
            split_fields(p).len() - 1,
            split_fields(p).last() + s,
        ),
    decreases s.len(),
{
    lemma_split_len(p);
    if s.len() == 0 {
        assert(p + s =~= p);
        assert(split_fields(p).last() + s =~= split_fields(p).last());
        assert(split_fields(p).update(split_fields(p).len() - 1, split_fields(p).last())
            =~= split_fields(p));
    } else {
        lemma_split_plain(p, s.drop_last());
        assert((p + s).drop_last() =~= p + s.drop_last());
        assert(!is_sep(s[s.len() - 1]));
        assert((split_fields(p).last() + s.drop_last()).push(s.last()) =~= split_fields(p).last()
            + s);
        assert(split_fields(p + s) =~= split_fields(p).update(
            split_fields(p).len() - 1,
            split_fields(p).last() + s,
        ));
    }
}

proof fn lemma_split_sep(p: Seq<char>, c: char)
    requires
        is_sep(c),
    ensures
        split_fields(p + seq![c]) == split_fields(p).push(Seq::empty()),
{
    assert((p + seq![c]).drop_last() =~= p);
}

proof fn lemma_digits_plain(p: Seq<char>)
    requires
        all_digits(p),
    ensures
        forall|i: int| 0 <= i < p.len() ==> !is_sep(#[trigger] p[i]),
{
    assert forall|i: int| 0 <= i < p.len() implies !is_sep(#[trigger] p[i]) by {
        assert(is_digit(p[i]));
    }
}

/// A timecode written for a non-negative time reads back to that time.
pub proof fn lemma_time_text_reads_back(ms: int)
    requires
        0 <= ms <= i64::MAX,
    ensures
        timecode_spec(time_text(ms)) == Some(ms),
{
    let t = ms as nat;
    let h = t / 3600000;
    let m = (t / 60000) % 60;
    let s = (t / 1000) % 60;
    let x = t % 1000;
    let f1 = zero_pad(dec(h), 2);
    let f2 = zero_pad(dec(m), 2);
    let f3 = zero_pad(dec(s), 2);
    let f4 = zero_pad(dec(x), 3);
    lemma_padded(h, 2);
    lemma_padded(m, 2);
    lemma_padded(s, 2);
    lemma_padded(x, 3);
    lemma_digits_plain(f1);
    lemma_digits_plain(f2);
    lemma_digits_plain(f3);
    lemma_digits_plain(f4);
    let e = Seq::<char>::empty();
    lemma_split_plain(e, f1);
    assert(e + f1 =~= f1);
    assert(split_fields(f1) =~= seq![f1]);
    let a1 = f1 + seq![':'];
    lemma_split_sep(f1, ':');
    lemma_split_plain(a1, f2);
    let a2 = a1 + f2;
    assert(split_fields(a2) =~= seq![f1, f2]);
    lemma_split_sep(a2, ':');
    let a3 = a2 + seq![':'];
    lemma_split_plain(a3, f3);
    let a4 = a3 + f3;
    assert(split_fields(a4) =~= seq![f1, f2, f3]);
    lemma_split_sep(a4, ',');
    let a5 = a4 + seq![','];
    lemma_split_plain(a5, f4);
    let a6 = a5 + f4;
    assert(split_fields(a6) =~= seq![f1, f2, f3, f4]);
    assert(a6 == time_text(ms));
    lemma_div_denominator(t as int, 1000, 60);
    lemma_div_denominator(t as int, 60000, 60);
    lemma_fundamental_div_mod(t as int, 1000);
    lemma_fundamental_div_mod(t as int / 1000, 60);
    lemma_fundamental_div_mod(t as int / 60000, 60);
    assert(h <= i64::MAX && m <= i64::MAX && s <= i64::MAX && x <= i64::MAX);
    lemma_int_of_digits(f1);
    lemma_int_of_digits(f2);
    lemma_int_of_digits(f3);
    lemma_int_of_digits(f4);
    assert(total_ms(h as int, m as int, s as int, x as int) == ms);
}

/// A field of exactly `w` decimal digits.
pub open spec fn is_field(f: Seq<char>, w: nat) -> bool {
    f.len() == w && all_digits(f)
}

proof fn lemma_pad_push(s: Seq<char>, c: char, w: nat)
    requires
        w >= 1,
    ensures
        zero_pad(s.push(c), w) == zero_pad(s, (w - 1) as nat).push(c),
{
    assert(zero_pad(s.push(c), w) =~= zero_pad(s, (w - 1) as nat).push(c));
}

proof fn lemma_field_is_padded(f: Seq<char>, w: nat)
    requires
        w >= 1,
        is_field(f, w),
    ensures
        digits_val(f) >= 0,
        f == zero_pad(dec(digits_val(f) as nat), w),
    decreases w,
{
    lemma_digits_nonneg(f);
    let c = f.last();
    assert(is_digit(f[f.len() - 1]));
    let d = digit_val(c);
    assert(digit_char(d as nat) == c);
    let n = digits_val(f);
    if w == 1 {
        assert(f.drop_last() =~= Seq::<char>::empty());
        assert(n == d);
        assert(f =~= seq![c]);
    } else {
        let g = f.drop_last();
        assert forall|i: int| 0 <= i < g.len() implies is_digit(#[trigger] g[i]) by {
            assert(g[i] == f[i]);
        }
        lemma_field_is_padded(g, (w - 1) as nat);
        let v = digits_val(g);
        assert(n == v * 10 + d);
        assert(n / 10 == v && n % 10 == d);
        lemma_pad_push(dec(v as nat), c, w);
        if n >= 10 {
            assert(dec(n as nat) == dec(v as nat).push(c));
            assert(f =~= g.push(c));
        } else {
            assert(v == 0);
            assert(dec(n as nat) =~= seq![c]);
            assert(dec(0) =~= seq!['0']);
            assert(zero_pad(seq![c], w) =~= zero_pad(seq!['0'], (w - 1) as nat).push(c));
            assert(f =~= g.push(c));
        }
    }
}

pub open spec fn pow10(k: nat) -> int
    decreases k,
{
    if k == 0 {
        1
    } else {
        10 * pow10((k - 1) as nat)
    }
}

proof fn lemma_digits_below(f: Seq<char>)
    requires
        all_digits(f),
    ensures
        digits_val(f) < pow10(f.len()),
    decreases f.len(),
{
    if f.len() > 0 {
        let g = f.drop_last();
        assert forall|i: int| 0 <= i < g.len() implies is_digit(#[trigger] g[i]) by {
            assert(g[i] == f[i]);
        }
        assert(is_digit(f[f.len() - 1]));
        lemma_digits_below(g);
        assert(g.len() + 1 == f.len());
    }
}

proof fn lemma_time_parts(h: int, m: int, s: int, x: int)
    requires
        0 <= h < 100,
        0 <= m < 60,
        0 <= s < 60,
        0 <= x < 1000,
    ensures
        total_ms(h, m, s, x) / 3600000 == h,
        (total_ms(h, m, s, x) / 60000) % 60 == m,
        (total_ms(h, m, s, x) / 1000) % 60 == s,
        total_ms(h, m, s, x) % 1000 == x,
{
    let t = total_ms(h, m, s, x);
    assert(t == h * 3600000 + m * 60000 + s * 1000 + x);
    assert(t / 1000 == h * 3600 + m * 60 + s);
    assert(t / 60000 == h * 60 + m);
}

/// A timecode written with two-digit hours, minutes and seconds (minutes and
/// seconds under 60) and three-digit milliseconds reads to a time whose
/// written timecode is the same text, character for character.
pub proof fn lemma_canonical_timecode(
    tc: Seq<char>,
    f1: Seq<char>,
    f2: Seq<char>,
    f3: Seq<char>,
    f4: Seq<char>,
)
    requires
        tc == f1 + seq![':'] + f2 + seq![':'] + f3 + seq![','] + f4,
        is_field(f1, 2),
        is_field(f2, 2),
        is_field(f3, 2),
        is_field(f4, 3),
        digits_val(f2) < 60,
        digits_val(f3) < 60,
    ensures
        timecode_spec(tc) == Some(
            total_ms(digits_val(f1), digits_val(f2), digits_val(f3), digits_val(f4)),
        ),
        time_text(total_ms(digits_val(f1), digits_val(f2), digits_val(f3), digits_val(f4)))
            == tc,
{
    lemma_field_is_padded(f1, 2);
    lemma_field_is_padded(f2, 2);
    lemma_field_is_padded(f3, 2);
    lemma_field_is_padded(f4, 3);
    let h = digits_val(f1);
    let m = digits_val(f2);
    let s = digits_val(f3);
    let x = digits_val(f4);
    lemma_digits_below(f1);
    lemma_digits_below(f4);
    assert(pow10(2) == 100 && pow10(3) == 1000) by {
        reveal_with_fuel(pow10, 4);
    }
    let t = total_ms(h, m, s, x);
    lemma_time_parts(h, m, s, x);
    assert(time_text(t) == tc);
    lemma_time_text_reads_back(t);
}

/// A timecode in the form `HH:MM:SS,mmm`, minutes and seconds under 60.
pub open spec fn canonical(tc: Seq<char>) -> bool {
    &&& tc.len() == 12
    &&& tc[2] == ':' && tc[5] == ':' && tc[8] == ','
    &&& is_field(tc.subrange(0, 2), 2) && is_field(tc.subrange(3, 5), 2)
    &&& is_field(tc.subrange(6, 8), 2) && is_field(tc.subrange(9, 12), 3)
    &&& digits_val(tc.subrange(3, 5)) < 60 && digits_val(tc.subrange(6, 8)) < 60
}

/// A canonical timecode reads to a time of at least zero whose written
/// timecode is the same text.
pub proof fn lemma_canonical_reads_back(tc: Seq<char>)
    requires
        canonical(tc),
    ensures
        timecode_spec(tc) matches Some(t) && 0 <= t && time_text(t) == tc,
{
    let f1 = tc.subrange(0, 2);
    let f2 = tc.subrange(3, 5);
    let f3 = tc.subrange(6, 8);
    let f4 = tc.subrange(9, 12);
    assert(tc =~= f1 + seq![':'] + f2 + seq![':'] + f3 + seq![','] + f4);
    lemma_canonical_timecode(tc, f1, f2, f3, f4);
    lemma_digits_nonneg(f1);
    lemma_digits_nonneg(f2);
    lemma_digits_nonneg(f3);
    lemma_digits_nonneg(f4);
}

} // verus!
