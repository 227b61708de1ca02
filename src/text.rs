//! The text form of a coefficient table: cells in decimal, separated by
//! commas within a row and by newlines between rows.
//!
//! A coefficient `v` (thousandths) is written as `-` when negative, the whole
//! part in decimal, then, when the part below one is not zero, `.` and up to
//! three digits with trailing zeros dropped (`-1500` is `-1.5`, `200` is `0.2`).
//! Reading accepts white space around a cell, a leading `+`, and any number
//! of digits after the dot, of which the first three count.

use vstd::prelude::*;

verus! {

/// The byte that separates the cells of a row.
pub const COMMA: u8 = 44;

/// The byte that separates rows.
pub const NEWLINE: u8 = 10;

pub const MINUS: u8 = 45;

pub const PLUS: u8 = 43;

pub const DOT: u8 = 46;

/// The byte of the digit `0`.
pub const ZERO: u8 = 48;

/// The byte of the decimal digit `d`.
pub open spec fn digit(d: int) -> u8 {
    (ZERO + d) as u8
}

/// The decimal digits of `n`, most significant first.
pub open spec fn digits(n: nat) -> Seq<u8>
    decreases n,
{
    if n < 10 {
        seq![digit(n as int)]
    } else {
        digits(n / 10).push(digit((n % 10) as int))
    }
}

/// The digits of a nonzero fraction `f` thousandths, trailing zeros dropped.
pub open spec fn frac_digits(f: int) -> Seq<u8> {
    if f % 10 != 0 {
        seq![digit(f / 100), digit((f / 10) % 10), digit(f % 10)]
    } else if (f / 10) % 10 != 0 {
        seq![digit(f / 100), digit((f / 10) % 10)]
    } else {
        seq![digit(f / 100)]
    }
}

/// The text of coefficient `v`.
pub open spec fn format_coef(v: int) -> Seq<u8> {
    let a = if v < 0 {
        -v
    } else {
        v
    };
    let sign = if v < 0 {
        seq![MINUS]
    } else {
        Seq::empty()
    };
    let frac = if a % 1000 == 0 {
        Seq::empty()
    } else {
        seq![DOT] + frac_digits(a % 1000)
    };
    sign + digits((a / 1000) as nat) + frac
}

/// The first `k` texts of `cells` joined by `sep`.
pub open spec fn join(cells: Seq<Seq<u8>>, sep: u8, k: int) -> Seq<u8>
    decreases k,
{
    if k <= 0 {
        Seq::empty()
    } else if k == 1 {
        cells[0]
    } else {
        join(cells, sep, k - 1).push(sep) + cells[k - 1]
    }
}

pub open spec fn is_space(b: u8) -> bool {
    b == 32 || (9 <= b && b <= 13)
}

pub open spec fn is_digit(b: u8) -> bool {
    ZERO <= b && b <= ZERO + 9
}

pub open spec fn all_digits(s: Seq<u8>) -> bool {
    forall|i: int| 0 <= i < s.len() ==> is_digit(#[trigger] s[i])
}

/// `s` without its leading white space.
pub open spec fn trim_start(s: Seq<u8>) -> Seq<u8>
    decreases s.len(),
{
    if s.len() > 0 && is_space(s[0]) {
        trim_start(s.subrange(1, s.len() as int))
    } else {
        s
    }
}

/// `s` without its trailing white space.
pub open spec fn trim_end(s: Seq<u8>) -> Seq<u8>
    decreases s.len(),
{
    if s.len() > 0 && is_space(s.last()) {
        trim_end(s.drop_last())
    } else {
        s
    }
}

/// The value of a string of decimal digits.
pub open spec fn digits_value(s: Seq<u8>) -> int
    decreases s.len(),
{
    if s.len() == 0 {
        0
    } else {
        digits_value(s.drop_last()) * 10 + (s.last() - ZERO)
    }
}

/// The index of the first `b` in `s`, or `s.len()` when there is none.
pub open spec fn find(s: Seq<u8>, b: u8) -> int
    decreases s.len(),
{
    if s.len() == 0 {
        0
    } else if s[0] == b {
        0
    } else {
        1 + find(s.subrange(1, s.len() as int), b)
    }
}

/// The pieces of `s` between the separators `sep`.
pub open spec fn split(s: Seq<u8>, sep: u8) -> Seq<Seq<u8>>
    decreases s.len(),
{
    let f = find(s, sep);
    if f < 0 || f >= s.len() {
        seq![s]
    } else {
        seq![s.subrange(0, f)] + split(s.subrange(f + 1, s.len() as int), sep)
    }
}

/// The thousandths of a fraction's digits: the first three, padded with zeros.
pub open spec fn frac_value(f: Seq<u8>) -> int {
    if f.len() == 0 {
        0
    } else if f.len() == 1 {
        digits_value(f) * 100
    } else if f.len() == 2 {
        digits_value(f) * 10
    } else {
        digits_value(f.subrange(0, 3))
    }
}

/// An unsigned decimal: digits, optionally a dot and more digits, at least one digit in all.
pub open spec fn unsigned_ok(u: Seq<u8>) -> bool {
    let d = find(u, DOT);
    let whole = u.subrange(0, d);
    let frac = if d < u.len() {
        u.subrange(d + 1, u.len() as int)
    } else {
        Seq::empty()
    };
    all_digits(whole) && all_digits(frac) && whole.len() + frac.len() > 0
}

/// The value of an unsigned decimal, in thousandths; digits past the third after the dot are dropped.
pub open spec fn unsigned_value(u: Seq<u8>) -> int {
    let d = find(u, DOT);
    let frac = if d < u.len() {
        u.subrange(d + 1, u.len() as int)
    } else {
        Seq::empty()
    };
    digits_value(u.subrange(0, d)) * 1000 + frac_value(frac)
}

/// A coefficient read from text: white space around it is ignored, a sign may
/// lead, and its size must stay within `i32::MAX` thousandths.
pub open spec fn parse_coef(part: Seq<u8>) -> Option<i32> {
    let t = trim_end(trim_start(part));
    let neg = t.len() > 0 && t[0] == MINUS;
    let u = if t.len() > 0 && (t[0] == MINUS || t[0] == PLUS) {
        t.subrange(1, t.len() as int)
    } else {
        t
    };
    if unsigned_ok(u) && unsigned_value(u) <= i32::MAX {
        Some(
            (if neg {
                -unsigned_value(u)
            } else {
                unsigned_value(u)
            }) as i32,
        )
    } else {
        None
    }
}

/// The coefficients of one line: its comma-separated parts, up to the first that does not read.
pub open spec fn line_cells(parts: Seq<Seq<u8>>) -> Seq<i32>
    decreases parts.len(),
{
    if parts.len() == 0 {
        Seq::empty()
    } else {
        match parse_coef(parts[0]) {
            Some(v) => seq![v] + line_cells(parts.subrange(1, parts.len() as int)),
            None => Seq::empty(),
        }
    }
}

/// The coefficients of all lines, one line after another.
pub open spec fn lines_cells(lines: Seq<Seq<u8>>) -> Seq<i32>
    decreases lines.len(),
{
    if lines.len() == 0 {
        Seq::empty()
    } else {
        line_cells(split(lines[0], COMMA)) + lines_cells(lines.subrange(1, lines.len() as int))
    }
}

/// Whether `s` is white space only.
pub open spec fn is_blank(s: Seq<u8>) -> bool {
    forall|i: int| 0 <= i < s.len() ==> is_space(#[trigger] s[i])
}

/// Whether every part reads as a coefficient.
pub open spec fn parts_read(parts: Seq<Seq<u8>>) -> bool
    decreases parts.len(),
{
    parts.len() == 0 || (parse_coef(parts[0]) is Some && parts_read(parts.subrange(1, parts.len() as int)))
}

/// Whether every line is blank or has every comma-separated part read as a coefficient.
pub open spec fn lines_read(lines: Seq<Seq<u8>>) -> bool
    decreases lines.len(),
{
    lines.len() == 0 || ((is_blank(lines[0]) || parts_read(split(lines[0], COMMA))) && lines_read(
        lines.subrange(1, lines.len() as int),
    ))
}

/// Whether the whole text is well formed: no part of any line fails to read,
/// blank lines aside.
pub open spec fn text_reads(text: Seq<u8>) -> bool {
    lines_read(split(text, NEWLINE))
}

/// The coefficients that a text holds, row after row.
pub open spec fn text_cells(text: Seq<u8>) -> Seq<i32> {
    lines_cells(split(text, NEWLINE))
}

proof fn lemma_find(s: Seq<u8>, b: u8, i: int)
    requires
        0 <= i <= s.len(),
        forall|j: int| 0 <= j < i ==> s[j] != b,
        i == s.len() || s[i] == b,
    ensures
        find(s, b) == i,
    decreases i,
{
    if i > 0 {
        let rest = s.subrange(1, s.len() as int);
        assert forall|j: int| 0 <= j < i - 1 implies rest[j] != b by {
            assert(rest[j] == s[j + 1]);
        }
        if i - 1 < rest.len() {
            assert(rest[i - 1] == s[i]);
        }
        lemma_find(rest, b, i - 1);
    }
}

proof fn lemma_digits_prefix(s: Seq<u8>, k: int)
    requires
        0 <= k <= s.len(),
        all_digits(s),
    ensures
        digits_value(s.subrange(0, k)) <= digits_value(s),
        0 <= digits_value(s.subrange(0, k)),
    decreases s.len(),
{
    if k < s.len() {
        let d = s.drop_last();
        assert(all_digits(d)) by {
            assert forall|i: int| 0 <= i < d.len() implies is_digit(#[trigger] d[i]) by {
                assert(d[i] == s[i]);
            }
        }
        lemma_digits_prefix(d, k);
        assert(d.subrange(0, k) == s.subrange(0, k));
        assert(is_digit(s[s.len() - 1]));
        lemma_digits_prefix(d, d.len() as int);
        assert(d.subrange(0, d.len() as int) == d);
    } else {
        assert(s.subrange(0, k) == s);
        lemma_digits_nonneg(s);
    }
}

proof fn lemma_digits_nonneg(s: Seq<u8>)
    requires
        all_digits(s),
    ensures
        0 <= digits_value(s),
    decreases s.len(),
{
    if s.len() > 0 {
        let d = s.drop_last();
        assert forall|i: int| 0 <= i < d.len() implies is_digit(#[trigger] d[i]) by {
            assert(d[i] == s[i]);
        }
        lemma_digits_nonneg(d);
        assert(is_digit(s[s.len() - 1]));
    }
}

proof fn lemma_frac_nonneg(f: Seq<u8>)
    requires
        all_digits(f),
    ensures
        frac_value(f) >= 0,
{
    lemma_digits_nonneg(f);
    if f.len() >= 3 {
        assert(all_digits(f.subrange(0, 3))) by {
            assert forall|i: int| 0 <= i < 3 implies is_digit(#[trigger] f.subrange(0, 3)[i]) by {
                assert(f.subrange(0, 3)[i] == f[i]);
            }
        }
        lemma_digits_nonneg(f.subrange(0, 3));
    }
}

/// The index of the first `sep` in `text[a..b]`, or `b`.
fn find_in(text: &[u8], a: usize, b: usize, sep: u8) -> (q: usize)
    requires
        a <= b <= text@.len(),
    ensures
        a <= q <= b,
        q - a == find(text@.subrange(a as int, b as int), sep),
{
    let mut q = a;
    while q < b && text[q] != sep
        invariant
            a <= q <= b,
            b <= text@.len(),
            forall|j: int| a <= j < q ==> text@[j] != sep,
        decreases b - q,
    {
        q += 1;
    }
    proof {
        let s = text@.subrange(a as int, b as int);
        assert forall|j: int| 0 <= j < q - a implies s[j] != sep by {
            assert(s[j] == text@[a + j]);
        }
        if q < b {
            assert(s[q - a] == text@[q as int]);
        }
        lemma_find(s, sep, q - a);
    }
    q
}

/// Reads the coefficient in `text[a..b]`.
fn parse_part(text: &[u8], a: usize, b: usize) -> (r: Option<i32>)
    requires
        a <= b <= text@.len(),
    ensures
        r == parse_coef(text@.subrange(a as int, b as int)),
{
    let ghost part = text@.subrange(a as int, b as int);
    let mut lo = a;
    while lo < b && (text[lo] == 32 || (9 <= text[lo] && text[lo] <= 13))
        invariant
            a <= lo <= b,
            b <= text@.len(),
            trim_start(part) == trim_start(text@.subrange(lo as int, b as int)),
        decreases b - lo,
    {
        assert(text@.subrange(lo as int, b as int).subrange(1, (b - lo) as int) == text@.subrange(lo + 1, b as int));
        lo += 1;
    }
    assert(trim_start(part) == text@.subrange(lo as int, b as int));
    let mut hi = b;
    while hi > lo && (text[hi - 1] == 32 || (9 <= text[hi - 1] && text[hi - 1] <= 13))
        invariant
            lo <= hi <= b,
            b <= text@.len(),
            trim_end(trim_start(part)) == trim_end(text@.subrange(lo as int, hi as int)),
        decreases hi - lo,
    {
        assert(text@.subrange(lo as int, hi as int).drop_last() == text@.subrange(lo as int, hi - 1));
        hi -= 1;
    }
    let ghost t = text@.subrange(lo as int, hi as int);
    assert(trim_end(trim_start(part)) == t);
    let neg = lo < hi && text[lo] == MINUS;
    let p = if lo < hi && (text[lo] == MINUS || text[lo] == PLUS) {
        lo + 1
    } else {
        lo
    };
    let ghost u = text@.subrange(p as int, hi as int);
    assert(p > lo ==> t.subrange(1, t.len() as int) == u);
    assert(p == lo ==> t == u);
    let d = find_in(text, p, hi, DOT);
    let ghost whole = u.subrange(0, d - p);
    assert(whole == text@.subrange(p as int, d as int));
    let mut acc: u64 = 0;
    let mut i = p;
    while i < d
        invariant
            a <= b <= text@.len(),
            part == text@.subrange(a as int, b as int),
            t == text@.subrange(lo as int, hi as int),
            trim_end(trim_start(part)) == t,
            neg == (t.len() > 0 && t[0] == MINUS),
            u == (if t.len() > 0 && (t[0] == MINUS || t[0] == PLUS) {
                t.subrange(1, t.len() as int)
            } else {
                t
            }),
            u == text@.subrange(p as int, hi as int),
            find(u, DOT) == d - p,
            lo <= p <= d,
            p <= i <= d,
            d <= hi,
            hi <= text@.len(),
            whole == text@.subrange(p as int, d as int),
            all_digits(text@.subrange(p as int, i as int)),
            acc == digits_value(text@.subrange(p as int, i as int)),
            acc <= 2_147_483,
        decreases d - i,
    {
        let c = text[i];
        if !(ZERO <= c && c <= ZERO + 9) {
            proof {
                assert(whole[i - p] == c);
                assert(!all_digits(whole));
                assert(u.subrange(0, d - p) == whole);
            }
            return None;
        }
        assert(text@.subrange(p as int, i + 1).drop_last() == text@.subrange(p as int, i as int));
        acc = acc * 10 + (c - ZERO) as u64;
        assert(all_digits(text@.subrange(p as int, i + 1))) by {
            assert forall|j: int| 0 <= j < i + 1 - p implies is_digit(#[trigger] text@.subrange(p as int, i + 1)[j]) by {
                if j < i - p {
                    assert(text@.subrange(p as int, i + 1)[j] == text@.subrange(p as int, i as int)[j]);
                }
            }
        }
        if acc > 2_147_483 {
            proof {
                assert(u.subrange(0, d - p) == whole);
                if all_digits(whole) {
                    lemma_digits_prefix(whole, i + 1 - p);
                    assert(whole.subrange(0, i + 1 - p) == text@.subrange(p as int, i + 1));
                    let frac = if d < u.len() + p {
                        u.subrange(d - p + 1, u.len() as int)
                    } else {
                        Seq::<u8>::empty()
                    };
                    if all_digits(frac) {
                        lemma_frac_nonneg(frac);
                    }
                }
            }
            return None;
        }
        i += 1;
    }
    assert(whole == text@.subrange(p as int, i as int));
    let mut frac_len: usize = 0;
    let mut f: u64 = 0;
    if d < hi {
        let mut j = d + 1;
        while j < hi
            invariant
                a <= b <= text@.len(),
                part == text@.subrange(a as int, b as int),
                t == text@.subrange(lo as int, hi as int),
                trim_end(trim_start(part)) == t,
                neg == (t.len() > 0 && t[0] == MINUS),
                u == (if t.len() > 0 && (t[0] == MINUS || t[0] == PLUS) {
                    t.subrange(1, t.len() as int)
                } else {
                    t
                }),
                u == text@.subrange(p as int, hi as int),
                find(u, DOT) == d - p,
                lo <= p <= d,
                whole == text@.subrange(p as int, d as int),
                all_digits(whole),
                acc == digits_value(whole),
                acc <= 2_147_483,
                d + 1 <= j <= hi,
                hi <= text@.len(),
                frac_len == j - d - 1,
                all_digits(text@.subrange(d + 1, j as int)),
                f == digits_value(text@.subrange(d + 1, d + 1 + if frac_len < 3 { frac_len as int } else { 3 })),
                f < (if frac_len == 0 {
                    1int
                } else if frac_len == 1 {
                    10int
                } else if frac_len == 2 {
                    100int
                } else {
                    1000int
                }),
            decreases hi - j,
        {
            let c = text[j];
            if !(ZERO <= c && c <= ZERO + 9) {
                proof {
                    assert(u.subrange(d - p + 1, u.len() as int)[j - d - 1] == c);
                    assert(!all_digits(u.subrange(d - p + 1, u.len() as int)));
                }
                return None;
            }
            if frac_len < 3 {
                assert(text@.subrange(d + 1, j + 1).drop_last() == text@.subrange(d + 1, j as int));
                proof {
                    lemma_digits_nonneg(text@.subrange(d + 1, j as int));
                }
                f = f * 10 + (c - ZERO) as u64;
            }
            assert(all_digits(text@.subrange(d + 1, j + 1))) by {
                assert forall|k: int| 0 <= k < j + 1 - d - 1 implies is_digit(#[trigger] text@.subrange(d + 1, j + 1)[k]) by {
                    if k < j - d - 1 {
                        assert(text@.subrange(d + 1, j + 1)[k] == text@.subrange(d + 1, j as int)[k]);
                    }
                }
            }
            frac_len += 1;
            j += 1;
        }
    }
    let ghost frac = if d < u.len() + p {
        u.subrange(d - p + 1, u.len() as int)
    } else {
        Seq::<u8>::empty()
    };
    assert(d < hi ==> frac == text@.subrange(d + 1, hi as int));
    assert(frac.len() == frac_len);
    assert(all_digits(frac));
    if d - p + frac_len == 0 {
        return None;
    }
    let fv: u64 = if frac_len == 0 {
        0
    } else if frac_len == 1 {
        f * 100
    } else if frac_len == 2 {
        f * 10
    } else {
        f
    };
    assert(fv == frac_value(frac)) by {
        if frac_len == 1 || frac_len == 2 {
            assert(frac.subrange(0, frac_len as int) == frac);
        }
        if frac_len >= 3 {
            assert(frac.subrange(0, 3) == text@.subrange(d + 1, d + 4));
        }
        if frac_len > 0 {
            assert(text@.subrange(d + 1, d + 1 + if frac_len < 3 { frac_len as int } else { 3 }) == frac.subrange(0, if frac_len < 3 { frac_len as int } else { 3 }));
        }
    }
    assert(unsigned_ok(u));
    let value: u64 = acc * 1000 + fv;
    assert(value == unsigned_value(u));
    if value > i32::MAX as u64 {
        return None;
    }
    if neg {
        Some(0 - value as i32)
    } else {
        Some(value as i32)
    }
}

/// One step of `split`: the piece up to the first separator, then the pieces after it.
proof fn lemma_split_step(text: Seq<u8>, p: int, q: int, b: int, sep: u8)
    requires
        0 <= p <= q <= b <= text.len(),
        q - p == find(text.subrange(p, b), sep),
    ensures
        q == b ==> split(text.subrange(p, b), sep) == seq![text.subrange(p, b)],
        q < b ==> split(text.subrange(p, b), sep) == seq![text.subrange(p, q)] + split(
            text.subrange(q + 1, b),
            sep,
        ),
{
    let s = text.subrange(p, b);
    if q < b {
        assert(s.subrange(0, q - p) == text.subrange(p, q));
        assert(s.subrange(q - p + 1, s.len() as int) == text.subrange(q + 1, b));
    }
}

/// Appends the coefficients of the line `text[a..b]`.
fn push_line_cells(text: &[u8], a: usize, b: usize, out: &mut Vec<i32>)
    requires
        a <= b <= text@.len(),
    ensures
        final(out)@ == old(out)@ + line_cells(split(text@.subrange(a as int, b as int), COMMA)),
{
    let ghost target = old(out)@ + line_cells(split(text@.subrange(a as int, b as int), COMMA));
    let mut p = a;
    let mut going = true;
    while going
        invariant
            a <= p <= b <= text@.len(),
            going ==> out@ + line_cells(split(text@.subrange(p as int, b as int), COMMA)) == target,
            !going ==> out@ == target,
        decreases b - p + if going { 1int } else { 0int },
    {
        let q = find_in(text, p, b, COMMA);
        proof {
            lemma_split_step(text@, p as int, q as int, b as int, COMMA);
        }
        let ghost parts = split(text@.subrange(p as int, b as int), COMMA);
        assert(parts[0] == text@.subrange(p as int, q as int)) by {
            if q == b {
                assert(parts == seq![text@.subrange(p as int, b as int)]);
            }
        }
        let ghost rest = parts.subrange(1, parts.len() as int);
        assert(q < b ==> rest == split(text@.subrange(q + 1, b as int), COMMA));
        assert(q == b ==> rest.len() == 0);
        match parse_part(text, p, q) {
            Some(v) => {
                assert(line_cells(parts) == seq![v] + line_cells(rest));
                out.push(v);
                if q < b {
                    assert(out@ + line_cells(rest) == target);
                    p = q + 1;
                } else {
                    assert(line_cells(rest) == Seq::<i32>::empty());
                    assert(out@ == target);
                    going = false;
                }
            },
            None => {
                assert(line_cells(parts) == Seq::<i32>::empty());
                assert(out@ + Seq::<i32>::empty() == out@);
                going = false;
            },
        }
    }
}

/// The coefficients that `text` holds, row after row: each line's
/// comma-separated parts up to the first that does not read.
pub fn parse_cells(text: &[u8]) -> (r: Vec<i32>)
    ensures
        r@ == text_cells(text@),
{
    let b = text.len();
    let mut out: Vec<i32> = Vec::new();
    let ghost target = text_cells(text@);
    assert(text@.subrange(0, b as int) == text@);
    let mut p: usize = 0;
    let mut going = true;
    while going
        invariant
            p <= b == text@.len(),
            target == text_cells(text@),
            going ==> out@ + lines_cells(split(text@.subrange(p as int, b as int), NEWLINE)) == target,
            !going ==> out@ == target,
        decreases b - p + if going { 1int } else { 0int },
    {
        let q = find_in(text, p, b, NEWLINE);
        proof {
            lemma_split_step(text@, p as int, q as int, b as int, NEWLINE);
        }
        let ghost lines = split(text@.subrange(p as int, b as int), NEWLINE);
        assert(lines[0] == text@.subrange(p as int, q as int)) by {
            if q == b {
                assert(lines == seq![text@.subrange(p as int, b as int)]);
            }
        }
        let ghost rest = lines.subrange(1, lines.len() as int);
        assert(q < b ==> rest == split(text@.subrange(q + 1, b as int), NEWLINE));
        assert(q == b ==> rest.len() == 0);
        assert(lines_cells(lines) == line_cells(split(lines[0], COMMA)) + lines_cells(rest));
        let ghost before = out@;
        push_line_cells(text, p, q, &mut out);
        assert(before + (line_cells(split(lines[0], COMMA)) + lines_cells(rest)) == out@ + lines_cells(rest));
        if q < b {
            p = q + 1;
        } else {
            assert(lines_cells(rest) == Seq::<i32>::empty());
            assert(out@ + Seq::<i32>::empty() == out@);
            going = false;
        }
    }
    out
}

/// Whether the line `text[a..b]` is blank or has every part read.
fn line_reads(text: &[u8], a: usize, b: usize) -> (r: bool)
    requires
        a <= b <= text@.len(),
    ensures
        r == (is_blank(text@.subrange(a as int, b as int)) || parts_read(
            split(text@.subrange(a as int, b as int), COMMA),
        )),
{
    let mut i = a;
    while i < b && (text[i] == 32 || (9 <= text[i] && text[i] <= 13))
        invariant
            a <= i <= b <= text@.len(),
            forall|j: int| a <= j < i ==> is_space(#[trigger] text@[j]),
        decreases b - i,
    {
        i += 1;
    }
    if i == b {
        assert(is_blank(text@.subrange(a as int, b as int))) by {
            assert forall|j: int| 0 <= j < b - a implies is_space(#[trigger] text@.subrange(a as int, b as int)[j]) by {
                assert(text@.subrange(a as int, b as int)[j] == text@[a + j]);
            }
        }
        return true;
    }
    assert(!is_space(text@.subrange(a as int, b as int)[i - a]));
    let ghost whole = parts_read(split(text@.subrange(a as int, b as int), COMMA));
    let mut p = a;
    loop
        invariant
            a <= p <= b <= text@.len(),
            whole == parts_read(split(text@.subrange(a as int, b as int), COMMA)),
            !is_blank(text@.subrange(a as int, b as int)),
            whole == parts_read(split(text@.subrange(p as int, b as int), COMMA)),
        decreases b - p,
    {
        let q = find_in(text, p, b, COMMA);
        proof {
            lemma_split_step(text@, p as int, q as int, b as int, COMMA);
        }
        let ghost parts = split(text@.subrange(p as int, b as int), COMMA);
        assert(parts[0] == text@.subrange(p as int, q as int)) by {
            if q == b {
                assert(parts == seq![text@.subrange(p as int, b as int)]);
            }
        }
        let ghost rest = parts.subrange(1, parts.len() as int);
        assert(q < b ==> rest == split(text@.subrange(q + 1, b as int), COMMA));
        assert(q == b ==> rest.len() == 0);
        if parse_part(text, p, q).is_none() {
            return false;
        }
        if q == b {
            assert(parts_read(rest));
            assert(parts_read(parts));
            return true;
        }
        p = q + 1;
    }
}

/// Whether `text` is well formed, line by line.
pub fn text_is_well_formed(text: &[u8]) -> (r: bool)
    ensures
        r == text_reads(text@),
{
    let b = text.len();
    assert(text@.subrange(0, b as int) == text@);
    let mut p: usize = 0;
    loop
        invariant
            p <= b == text@.len(),
            text_reads(text@) == lines_read(split(text@.subrange(p as int, b as int), NEWLINE)),
        decreases b - p,
    {
        let q = find_in(text, p, b, NEWLINE);
        proof {
            lemma_split_step(text@, p as int, q as int, b as int, NEWLINE);
        }
        let ghost lines = split(text@.subrange(p as int, b as int), NEWLINE);
        assert(lines[0] == text@.subrange(p as int, q as int)) by {
            if q == b {
                assert(lines == seq![text@.subrange(p as int, b as int)]);
            }
        }
        let ghost rest = lines.subrange(1, lines.len() as int);
        assert(q < b ==> rest == split(text@.subrange(q + 1, b as int), NEWLINE));
        assert(q == b ==> rest.len() == 0);
        if !line_reads(text, p, q) {
            return false;
        }
        if q == b {
            assert(lines_read(rest));
            assert(lines_read(lines));
            return true;
        }
        p = q + 1;
    }
}

/// Every coefficient read from text may be negated without overflow.
pub proof fn lemma_text_cells_valid(text: Seq<u8>)
    ensures
        forall|i: int| 0 <= i < text_cells(text).len() ==> #[trigger] text_cells(text)[i] > i32::MIN,
{
    lemma_lines_cells_valid(split(text, NEWLINE));
}

proof fn lemma_lines_cells_valid(lines: Seq<Seq<u8>>)
    ensures
        forall|i: int| 0 <= i < lines_cells(lines).len() ==> #[trigger] lines_cells(lines)[i] > i32::MIN,
    decreases lines.len(),
{
    if lines.len() > 0 {
        let first = line_cells(split(lines[0], COMMA));
        let rest = lines_cells(lines.subrange(1, lines.len() as int));
        lemma_line_cells_valid(split(lines[0], COMMA));
        lemma_lines_cells_valid(lines.subrange(1, lines.len() as int));
        assert forall|i: int| 0 <= i < (first + rest).len() implies #[trigger] (first + rest)[i] > i32::MIN by {
            if i >= first.len() {
                assert((first + rest)[i] == rest[i - first.len()]);
            }
        }
    }
}

proof fn lemma_line_cells_valid(parts: Seq<Seq<u8>>)
    ensures
        forall|i: int| 0 <= i < line_cells(parts).len() ==> #[trigger] line_cells(parts)[i] > i32::MIN,
    decreases parts.len(),
{
    if parts.len() > 0 {
        let rest = parts.subrange(1, parts.len() as int);
        lemma_line_cells_valid(rest);
        if let Some(v) = parse_coef(parts[0]) {
            let t = trim_end(trim_start(parts[0]));
            let u = if t.len() > 0 && (t[0] == MINUS || t[0] == PLUS) {
                t.subrange(1, t.len() as int)
            } else {
                t
            };
            let d = find(u, DOT);
            lemma_digits_nonneg(u.subrange(0, d));
            lemma_frac_nonneg(
                if d < u.len() {
                    u.subrange(d + 1, u.len() as int)
                } else {
                    Seq::empty()
                },
            );
            let all = seq![v] + line_cells(rest);
            assert forall|i: int| 0 <= i < all.len() implies #[trigger] all[i] > i32::MIN by {
                if i > 0 {
                    assert(all[i] == line_cells(rest)[i - 1]);
                }
            }
        }
    }
}

/// Whether `s` holds no byte `b`.
pub open spec fn free_of(s: Seq<u8>, b: u8) -> bool {
    forall|i: int| 0 <= i < s.len() ==> #[trigger] s[i] != b
}

proof fn lemma_find_range(s: Seq<u8>, b: u8)
    ensures
        0 <= find(s, b) <= s.len(),
        find(s, b) < s.len() ==> s[find(s, b)] == b,
        forall|i: int| 0 <= i < find(s, b) ==> #[trigger] s[i] != b,
    decreases s.len(),
{
    if s.len() > 0 && s[0] != b {
        let rest = s.subrange(1, s.len() as int);
        lemma_find_range(rest, b);
        assert forall|i: int| 0 <= i < find(s, b) implies #[trigger] s[i] != b by {
            if i > 0 {
                assert(s[i] == rest[i - 1]);
            }
        }
    }
}

proof fn lemma_find_concat(x: Seq<u8>, z: Seq<u8>, b: u8)
    ensures
        find(x + z, b) == if find(x, b) < x.len() {
            find(x, b)
        } else {
            x.len() + find(z, b)
        },
    decreases x.len(),
{
    lemma_find_range(x, b);
    if x.len() == 0 {
        assert(x + z == z);
    } else if x[0] != b {
        let rest = x.subrange(1, x.len() as int);
        assert((x + z).subrange(1, (x + z).len() as int) == rest + z);
        lemma_find_concat(rest, z, b);
    }
}

proof fn lemma_split_free(x: Seq<u8>, b: u8)
    requires
        free_of(x, b),
    ensures
        split(x, b) == seq![x],
{
    lemma_find_range(x, b);
}

proof fn lemma_split_concat(x: Seq<u8>, y: Seq<u8>, b: u8)
    ensures
        split(x.push(b) + y, b) == split(x, b) + split(y, b),
    decreases x.len(),
{
    let w = x.push(b) + y;
    let f = find(x, b);
    lemma_find_range(x, b);
    lemma_find_concat(x.push(b), y, b);
    lemma_find_concat(x, seq![b], b);
    assert(x.push(b) == x + seq![b]);
    lemma_find_range(w, b);
    if f >= x.len() {
        assert(find(seq![b], b) == 0);
        assert(w.subrange(0, x.len() as int) == x);
        assert(w.subrange(x.len() + 1int, w.len() as int) == y);
        assert(split(x, b) == seq![x]);
    } else {
        let rest = x.subrange(f + 1, x.len() as int);
        assert(w.subrange(0, f) == x.subrange(0, f));
        assert(w.subrange(f + 1, w.len() as int) == rest.push(b) + y);
        lemma_split_concat(rest, y, b);
        assert(seq![x.subrange(0, f)] + (split(rest, b) + split(y, b)) == (seq![x.subrange(0, f)] + split(rest, b))
            + split(y, b));
    }
}

/// Splitting the joined pieces at the separator gives back the pieces, when none holds the separator.
pub proof fn lemma_split_join(cells: Seq<Seq<u8>>, sep: u8, k: int)
    requires
        1 <= k <= cells.len(),
        forall|i: int| 0 <= i < cells.len() ==> free_of(#[trigger] cells[i], sep),
    ensures
        split(join(cells, sep, k), sep) == cells.subrange(0, k),
    decreases k,
{
    if k == 1 {
        lemma_split_free(cells[0], sep);
        assert(cells.subrange(0, 1) == seq![cells[0]]);
    } else {
        lemma_split_join(cells, sep, k - 1);
        lemma_split_concat(join(cells, sep, k - 1), cells[k - 1], sep);
        lemma_split_free(cells[k - 1], sep);
        assert(cells.subrange(0, k - 1) + seq![cells[k - 1]] == cells.subrange(0, k));
    }
}

/// Joined pieces hold a byte only where a piece or the separator does.
pub proof fn lemma_join_free(cells: Seq<Seq<u8>>, sep: u8, k: int, b: u8)
    requires
        k <= cells.len(),
        sep != b,
        forall|i: int| 0 <= i < cells.len() ==> free_of(#[trigger] cells[i], b),
    ensures
        free_of(join(cells, sep, k), b),
    decreases k,
{
    if k > 1 {
        lemma_join_free(cells, sep, k - 1, b);
        let x = join(cells, sep, k - 1).push(sep);
        let y = cells[k - 1];
        assert forall|i: int| 0 <= i < (x + y).len() implies #[trigger] (x + y)[i] != b by {
            if i >= x.len() {
                assert((x + y)[i] == y[i - x.len()]);
            } else if i < x.len() - 1 {
                assert(x[i] == join(cells, sep, k - 1)[i]);
            }
        }
    } else if k == 1 {
        assert(free_of(cells[0], b));
    }
}

proof fn lemma_digit(d: int)
    requires
        0 <= d < 10,
    ensures
        digit(d) == ZERO + d,
        is_digit(digit(d)),
{
}

proof fn lemma_digits(n: nat)
    ensures
        digits(n).len() >= 1,
        all_digits(digits(n)),
        digits_value(digits(n)) == n,
    decreases n,
{
    if n >= 10 {
        lemma_digits(n / 10);
        let prev = digits(n / 10);
        let all = prev.push(digit((n % 10) as int));
        lemma_digit((n % 10) as int);
        assert(all.drop_last() == prev);
        assert(all.last() == digit((n % 10) as int));
        assert(digits(n) == all);
        assert(digits_value(all) == digits_value(prev) * 10 + (n % 10));
        assert(digits_value(digits(n)) == n);
        assert forall|i: int| 0 <= i < all.len() implies is_digit(#[trigger] all[i]) by {
            if i < prev.len() {
                assert(all[i] == prev[i]);
            }
        }
        vstd::arithmetic::div_mod::lemma_fundamental_div_mod(n as int, 10);
    } else {
        lemma_digit(n as int);
        assert(seq![digit(n as int)].drop_last() == Seq::<u8>::empty());
        assert(digits(n) == seq![digit(n as int)]);
        assert(digits_value(seq![digit(n as int)]) == digits_value(Seq::<u8>::empty()) * 10 + n);
    }
}

proof fn lemma_frac_digits(f: int)
    requires
        1 <= f < 1000,
    ensures
        1 <= frac_digits(f).len() <= 3,
        all_digits(frac_digits(f)),
        frac_value(frac_digits(f)) == f,
{
    let d1 = f / 100;
    let d2 = (f / 10) % 10;
    let d3 = f % 10;
    vstd::arithmetic::div_mod::lemma_fundamental_div_mod(f, 10);
    vstd::arithmetic::div_mod::lemma_fundamental_div_mod(f / 10, 10);
    vstd::arithmetic::div_mod::lemma_div_denominator(f, 10, 10);
    assert(f == d1 * 100 + d2 * 10 + d3);
    let a = digit(d1);
    let b = digit(d2);
    let c = digit(d3);
    lemma_digit(d1);
    lemma_digit(d2);
    lemma_digit(d3);
    assert(seq![a, b, c].drop_last() == seq![a, b]);
    assert(seq![a, b].drop_last() == seq![a]);
    assert(seq![a].drop_last() == Seq::<u8>::empty());
    assert(seq![a, b, c].subrange(0, 3) == seq![a, b, c]);
    assert(digits_value(Seq::<u8>::empty()) == 0);
    assert(digits_value(seq![a]) == d1);
    assert(digits_value(seq![a, b]) == d1 * 10 + d2);
    assert(digits_value(seq![a, b, c]) == (d1 * 10 + d2) * 10 + d3);
    if d3 != 0 {
        assert(frac_digits(f) == seq![a, b, c]);
    } else if d2 != 0 {
        assert(frac_digits(f) == seq![a, b]);
    } else {
        assert(frac_digits(f) == seq![a]);
    }
}

proof fn lemma_free_of_concat(x: Seq<u8>, y: Seq<u8>, b: u8)
    requires
        free_of(x, b),
        free_of(y, b),
    ensures
        free_of(x + y, b),
{
    assert forall|i: int| 0 <= i < (x + y).len() implies #[trigger] (x + y)[i] != b by {
        if i >= x.len() {
            assert((x + y)[i] == y[i - x.len()]);
        }
    }
}

/// The text of a coefficient's size `a`, without a sign.
pub open spec fn unsigned_text(a: int) -> Seq<u8> {
    digits((a / 1000) as nat) + if a % 1000 == 0 {
        Seq::empty()
    } else {
        seq![DOT] + frac_digits(a % 1000)
    }
}

proof fn lemma_unsigned_text(a: int)
    requires
        0 <= a <= i32::MAX,
    ensures
        unsigned_ok(unsigned_text(a)),
        unsigned_value(unsigned_text(a)) == a,
        unsigned_text(a).len() > 0,
        is_digit(unsigned_text(a)[0]),
        is_digit(unsigned_text(a).last()),
        free_of(unsigned_text(a), COMMA),
        free_of(unsigned_text(a), NEWLINE),
{
    let ds = digits((a / 1000) as nat);
    lemma_digits((a / 1000) as nat);
    let f = a % 1000;
    let frac = if f == 0 {
        Seq::<u8>::empty()
    } else {
        seq![DOT] + frac_digits(f)
    };
    if f != 0 {
        lemma_frac_digits(f);
    }
    let u = ds + frac;
    assert(u == unsigned_text(a));
    assert(u[0] == ds[0]);
    if f == 0 {
        assert(u.last() == ds.last());
    } else {
        assert(u.last() == frac_digits(f).last());
    }
    assert(free_of(ds, DOT));
    lemma_find_range(ds, DOT);
    lemma_find_concat(ds, frac, DOT);
    let d = find(u, DOT);
    assert(d == ds.len());
    assert(u.subrange(0, d) == ds);
    if f != 0 {
        assert(u.subrange(d + 1, u.len() as int) == frac_digits(f));
    }
    vstd::arithmetic::div_mod::lemma_fundamental_div_mod(a, 1000);
    assert(free_of(ds, COMMA) && free_of(ds, NEWLINE));
    if f != 0 {
        assert(free_of(frac_digits(f), COMMA) && free_of(frac_digits(f), NEWLINE));
        lemma_free_of_concat(seq![DOT], frac_digits(f), COMMA);
        lemma_free_of_concat(seq![DOT], frac_digits(f), NEWLINE);
    }
    lemma_free_of_concat(ds, frac, COMMA);
    lemma_free_of_concat(ds, frac, NEWLINE);
}

/// Reading a coefficient's text gives back the coefficient, and the text
/// holds no comma and no newline.
pub proof fn lemma_parse_format(v: int)
    requires
        -i32::MAX <= v <= i32::MAX,
    ensures
        parse_coef(format_coef(v)) == Some(v as i32),
        free_of(format_coef(v), COMMA),
        free_of(format_coef(v), NEWLINE),
{
    let a = if v < 0 {
        -v
    } else {
        v
    };
    let sign = if v < 0 {
        seq![MINUS]
    } else {
        Seq::<u8>::empty()
    };
    let u = unsigned_text(a);
    lemma_unsigned_text(a);
    let full = sign + u;
    assert(full == format_coef(v));
    assert(full[0] == if v < 0 { MINUS } else { u[0] });
    assert(full.last() == u.last());
    assert(trim_start(full) == full);
    assert(trim_end(full) == full);
    if v < 0 {
        assert(full.subrange(1, full.len() as int) == u);
    }
    lemma_free_of_concat(sign, u, COMMA);
    lemma_free_of_concat(sign, u, NEWLINE);
}

/// When every part reads, a line's coefficients are the parts' values in order.
pub proof fn lemma_line_cells_all(parts: Seq<Seq<u8>>, vals: Seq<i32>)
    requires
        parts.len() == vals.len(),
        forall|i: int| 0 <= i < parts.len() ==> parse_coef(#[trigger] parts[i]) == Some(vals[i]),
    ensures
        line_cells(parts) == vals,
        parts_read(parts),
    decreases parts.len(),
{
    if parts.len() > 0 {
        let rest = parts.subrange(1, parts.len() as int);
        let rvals = vals.subrange(1, vals.len() as int);
        assert forall|i: int| 0 <= i < rest.len() implies parse_coef(#[trigger] rest[i]) == Some(rvals[i]) by {
            assert(rest[i] == parts[i + 1]);
        }
        lemma_line_cells_all(rest, rvals);
        assert(parse_coef(parts[0]) == Some(vals[0]));
        assert(seq![vals[0]] + rvals == vals);
    }
}

/// When every line's parts all read, the lines read.
pub proof fn lemma_lines_read_all(lines: Seq<Seq<u8>>)
    requires
        forall|y: int| 0 <= y < lines.len() ==> parts_read(split(#[trigger] lines[y], COMMA)),
    ensures
        lines_read(lines),
    decreases lines.len(),
{
    if lines.len() > 0 {
        let rest = lines.subrange(1, lines.len() as int);
        assert forall|y: int| 0 <= y < rest.len() implies parts_read(split(#[trigger] rest[y], COMMA)) by {
            assert(rest[y] == lines[y + 1]);
        }
        lemma_lines_read_all(rest);
        assert(parts_read(split(lines[0], COMMA)));
    }
}

/// When every line yields `n` coefficients, the coefficient `x` of line `y`
/// stands at `x + y * n`.
pub proof fn lemma_lines_cells_uniform(lines: Seq<Seq<u8>>, n: int)
    requires
        n >= 0,
        forall|y: int| 0 <= y < lines.len() ==> (#[trigger] line_cells(split(lines[y], COMMA))).len() == n,
    ensures
        lines_cells(lines).len() == lines.len() * n,
        forall|x: int, y: int|
            0 <= x < n && 0 <= y < lines.len() ==> #[trigger] lines_cells(lines)[x + y * n] == line_cells(
                split(lines[y], COMMA),
            )[x],
    decreases lines.len(),
{
    if lines.len() > 0 {
        let rest = lines.subrange(1, lines.len() as int);
        assert forall|y: int| 0 <= y < rest.len() implies (#[trigger] line_cells(split(rest[y], COMMA))).len() == n by {
            assert(rest[y] == lines[y + 1]);
        }
        lemma_lines_cells_uniform(rest, n);
        let first = line_cells(split(lines[0], COMMA));
        assert(lines_cells(lines) == first + lines_cells(rest));
        assert(lines_cells(lines).len() == lines.len() * n) by (nonlinear_arith)
            requires
                lines_cells(lines).len() == n + rest.len() * n,
                rest.len() == lines.len() - 1,
        ;
        assert forall|x: int, y: int| 0 <= x < n && 0 <= y < lines.len() implies #[trigger] lines_cells(lines)[x + y * n]
            == line_cells(split(lines[y], COMMA))[x] by {
            assert(x + y * n < lines.len() * n) by (nonlinear_arith)
                requires
                    0 <= x < n,
                    0 <= y < lines.len(),
            ;
            if y == 0 {
                assert((first + lines_cells(rest))[x] == first[x]);
            } else {
                assert(x + y * n == n + (x + (y - 1) * n)) by (nonlinear_arith);
                assert(x + (y - 1) * n < rest.len() * n) by (nonlinear_arith)
                    requires
                        0 <= x < n,
                        1 <= y < lines.len(),
                        rest.len() == lines.len() - 1,
                ;
                assert((first + lines_cells(rest))[x + y * n] == lines_cells(rest)[x + (y - 1) * n]);
                assert(0 <= x + (y - 1) * n) by (nonlinear_arith)
                    requires
                        0 <= x,
                        y >= 1,
                        n >= 0,
                ;
                assert(rest[y - 1] == lines[y]);
            }
        }
    }
}

/// Appends the decimal digits of `n`.
fn push_digits(out: &mut Vec<u8>, n: u32)
    ensures
        final(out)@ == old(out)@ + digits(n as nat),
    decreases n,
{
    if n >= 10 {
        push_digits(out, n / 10);
    }
    out.push(ZERO + (n % 10) as u8);
}

/// Appends the text of coefficient `v`.
pub fn push_coef(out: &mut Vec<u8>, v: i32)
    requires
        v > i32::MIN,
    ensures
        final(out)@ == old(out)@ + format_coef(v as int),
{
    let a: u32 = if v < 0 {
        (0 - v) as u32
    } else {
        v as u32
    };
    let ghost start = out@;
    if v < 0 {
        out.push(MINUS);
    }
    let ghost signed = out@;
    push_digits(out, a / 1000);
    let f = a % 1000;
    if f != 0 {
        out.push(DOT);
        out.push(ZERO + (f / 100) as u8);
        if f % 10 != 0 {
            out.push(ZERO + ((f / 10) % 10) as u8);
            out.push(ZERO + (f % 10) as u8);
        } else if (f / 10) % 10 != 0 {
            out.push(ZERO + ((f / 10) % 10) as u8);
        }
    }
    proof {
        let sign = if v < 0 {
            seq![MINUS]
        } else {
            Seq::<u8>::empty()
        };
        assert(signed == start + sign);
        let frac = if a % 1000 == 0 {
            Seq::<u8>::empty()
        } else {
            seq![DOT] + frac_digits((a % 1000) as int)
        };
        assert(out@ == start + sign + digits((a / 1000) as nat) + frac);
    }
}

} // verus!
