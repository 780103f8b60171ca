use vstd::prelude::*;
use crate::grid::{ElevationGrid, GridError, GridModel, MAX_MAGNITUDE, SCALE, cell_value, in_range};

verus! {

/// ASCII whitespace, as `split_whitespace` treats it.
pub open spec fn is_space(b: u8) -> bool {
    b == 32 || b == 9 || b == 10 || b == 11 || b == 12 || b == 13
}

/// The words of `s` when `cur` is the word being read before it.
pub open spec fn words_after(s: Seq<u8>, cur: Seq<u8>) -> Seq<Seq<u8>>
    decreases s.len(),
{
    if s.len() == 0 {
        if cur.len() == 0 { seq![] } else { seq![cur] }
    } else if is_space(s[0]) {
        let done: Seq<Seq<u8>> = if cur.len() == 0 { seq![] } else { seq![cur] };
        done + words_after(s.drop_first(), seq![])
    } else {
        words_after(s.drop_first(), cur.push(s[0]))
    }
}

/// The maximal runs of non-whitespace bytes of `s`, in order.
pub open spec fn words(s: Seq<u8>) -> Seq<Seq<u8>> {
    words_after(s, seq![])
}

fn is_space_byte(b: u8) -> (r: bool)
    ensures
        r == is_space(b),
{
    b == 32 || b == 9 || b == 10 || b == 11 || b == 12 || b == 13
}

/// The bounds of the words of `s[lo..hi]`.
fn split_words(s: &[u8], lo: usize, hi: usize) -> (spans: Vec<(usize, usize)>)
    requires
        lo <= hi <= s@.len(),
    ensures
        spans@.len() == words(s@.subrange(lo as int, hi as int)).len(),
        forall|k: int| 0 <= k < spans@.len() ==> {
            let (a, b) = #[trigger] spans@[k];
            &&& lo <= a < b <= hi
            &&& s@.subrange(a as int, b as int) == words(s@.subrange(lo as int, hi as int))[k]
        },
{
    let ghost whole = s@.subrange(lo as int, hi as int);
    let mut spans: Vec<(usize, usize)> = Vec::new();
    let mut i: usize = lo;
    let mut start: usize = lo;
    assert(s@.subrange(lo as int, lo as int) =~= seq![]);
    assert(spans@.map_values(|p: (usize, usize)| s@.subrange(p.0 as int, p.1 as int))
        + words_after(whole, seq![]) =~= words(whole));
    while i < hi
        invariant
            lo <= start <= i <= hi <= s@.len(),
            forall|k: int| 0 <= k < spans@.len() ==> {
                let (a, b) = #[trigger] spans@[k];
                &&& lo <= a < b <= start
                &&& s@.subrange(a as int, b as int) == words(whole)[k]
            },
            forall|j: int| start <= j < i ==> !is_space(#[trigger] s@[j]),
            words(whole) == spans@.map_values(|p: (usize, usize)| s@.subrange(p.0 as int, p.1 as int))
                + words_after(s@.subrange(i as int, hi as int), s@.subrange(start as int, i as int)),
        decreases hi - i,
    {
        let ghost rest = s@.subrange(i as int, hi as int);
        let ghost cur = s@.subrange(start as int, i as int);
        assert(rest.drop_first() =~= s@.subrange(i + 1, hi as int));
        let ghost before = spans@.map_values(|p: (usize, usize)| s@.subrange(p.0 as int, p.1 as int));
        if is_space_byte(s[i]) {
            if start < i {
                spans.push((start, i));
                assert(spans@.map_values(|p: (usize, usize)| s@.subrange(p.0 as int, p.1 as int))
                    =~= before + seq![cur]);
                assert(words(whole)[before.len() as int] == cur) by {
                    assert((before + seq![cur] + words_after(s@.subrange(i + 1, hi as int), seq![]))[before.len() as int] == cur);
                }
            } else {
                assert(cur =~= seq![]);
            }
            i = i + 1;
            start = i;
            assert(s@.subrange(start as int, i as int) =~= seq![]);
        } else {
            assert(cur.push(s@[i as int]) =~= s@.subrange(start as int, i + 1));
            i = i + 1;
        }
    }
    let ghost cur = s@.subrange(start as int, i as int);
    let ghost before = spans@.map_values(|p: (usize, usize)| s@.subrange(p.0 as int, p.1 as int));
    assert(s@.subrange(i as int, hi as int) =~= seq![]);
    if start < i {
        spans.push((start, i));
        assert(spans@.map_values(|p: (usize, usize)| s@.subrange(p.0 as int, p.1 as int))
            =~= before + seq![cur]);
        assert(words(whole)[before.len() as int] == cur) by {
            assert((before + seq![cur])[before.len() as int] == cur);
        }
    } else {
        assert(cur =~= seq![]);
        assert(words(whole) =~= before + seq![]);
    }
    let ghost after = spans@.map_values(|p: (usize, usize)| s@.subrange(p.0 as int, p.1 as int));
    assert(words(whole) =~= after);
    spans
}


pub open spec fn is_digit(b: u8) -> bool {
    48 <= b <= 57
}

pub open spec fn all_digits(d: Seq<u8>) -> bool {
    forall|i: int| 0 <= i < d.len() ==> is_digit(#[trigger] d[i])
}

/// The number that the decimal digits `d` spell.
pub open spec fn digits_val(d: Seq<u8>) -> nat
    decreases d.len(),
{
    if d.len() == 0 {
        0
    } else {
        (digits_val(d.drop_last()) * 10 + (d.last() - 48)) as nat
    }
}

pub open spec fn pow10(n: nat) -> nat
    decreases n,
{
    if n == 0 { 1 } else { 10 * pow10((n - 1) as nat) }
}

/// A count as `u32::from_str` reads it: an optional `+`, then decimal digits.
pub open spec fn parse_count(w: Seq<u8>) -> Option<nat> {
    let d = if w.len() > 0 && w[0] == 43 { w.drop_first() } else { w };
    if d.len() > 0 && all_digits(d) && digits_val(d) <= u32::MAX {
        Some(digits_val(d))
    } else {
        None
    }
}

/// The position of the first `.` in `b`, or its length.
pub open spec fn dot_index(b: Seq<u8>) -> nat
    decreases b.len(),
{
    if b.len() == 0 || b[0] == 46 { 0 } else { 1 + dot_index(b.drop_first()) }
}

/// The fraction digits cut or padded with zeros to six places.
pub open spec fn six_places(f: Seq<u8>) -> Seq<u8> {
    (f + seq![48u8, 48u8, 48u8, 48u8, 48u8, 48u8]).take(6)
}

/// The most digits before the decimal point that a value may have.
pub const MAX_INT_DIGITS: usize = 9;

/// A decimal number in fixed point (millionths): an optional sign, digits,
/// and an optional `.` followed by digits, with at least one digit in all and
/// at most nine before the point. Digits past the sixth decimal place are
/// dropped. Exponents, `inf` and `nan` are not read as numbers.
pub open spec fn parse_decimal(w: Seq<u8>) -> Option<int> {
    let signed = w.len() > 0 && (w[0] == 45 || w[0] == 43);
    let body = if signed { w.drop_first() } else { w };
    let k = dot_index(body);
    let ip = body.take(k as int);
    let fp = if k < body.len() { body.skip(k as int + 1) } else { seq![] };
    if all_digits(ip) && all_digits(fp) && ip.len() + fp.len() > 0 && ip.len() <= MAX_INT_DIGITS {
        let m = digits_val(ip + six_places(fp)) as int;
        Some(if w.len() > 0 && w[0] == 45 { -m } else { m })
    } else {
        None
    }
}

proof fn lemma_digits_step(d: Seq<u8>, j: int)
    requires
        0 <= j < d.len(),
        is_digit(d[j]),
    ensures
        digits_val(d.take(j + 1)) == digits_val(d.take(j)) * 10 + (d[j] - 48),
{
    assert(d.take(j + 1).drop_last() =~= d.take(j));
    assert(d.take(j + 1).last() == d[j]);
}

proof fn lemma_digits_prefix_le(d: Seq<u8>, j: int)
    requires
        0 <= j <= d.len(),
        all_digits(d),
    ensures
        digits_val(d.take(j)) <= digits_val(d),
    decreases d.len(),
{
    if j < d.len() {
        let e = d.drop_last();
        assert(d.take(j) =~= e.take(j));
        assert(all_digits(e)) by {
            assert forall|i: int| 0 <= i < e.len() implies is_digit(#[trigger] e[i]) by {
                assert(e[i] == d[i]);
            }
        }
        lemma_digits_prefix_le(e, j);
        assert(e =~= d.take(d.len() - 1));
    } else {
        assert(d.take(j) =~= d);
    }
}

proof fn lemma_pow10_mono(i: nat, j: nat)
    requires
        i <= j,
    ensures
        pow10(i) <= pow10(j),
    decreases j,
{
    if i < j {
        lemma_pow10_mono(i, (j - 1) as nat);
    }
}

proof fn lemma_dot_index(b: Seq<u8>, m: int)
    requires
        0 <= m <= b.len(),
        forall|j: int| 0 <= j < m ==> b[j] != 46,
        m == b.len() || b[m] == 46,
    ensures
        dot_index(b) == m,
    decreases m,
{
    if m > 0 {
        lemma_dot_index(b.drop_first(), m - 1);
    }
}

fn is_digit_byte(b: u8) -> (r: bool)
    ensures
        r == is_digit(b),
{
    48 <= b && b <= 57
}

/// `s[lo..hi]` read as a count.
fn parse_count_at(s: &[u8], lo: usize, hi: usize) -> (r: Option<u32>)
    requires
        lo <= hi <= s@.len(),
    ensures
        r matches Some(n) ==> parse_count(s@.subrange(lo as int, hi as int)) == Some(n as nat),
        r is None ==> parse_count(s@.subrange(lo as int, hi as int)) is None,
{
    let ghost w = s@.subrange(lo as int, hi as int);
    let mut p: usize = lo;
    if p < hi && s[p] == 43 {
        p = p + 1;
    }
    let ghost d = s@.subrange(p as int, hi as int);
    assert(d =~= (if w.len() > 0 && w[0] == 43 { w.drop_first() } else { w }));
    if p == hi {
        assert(d.len() == 0);
        return None;
    }
    let mut j: usize = p;
    while j < hi
        invariant
            p <= j <= hi <= s@.len(),
            d == s@.subrange(p as int, hi as int),
            w == s@.subrange(lo as int, hi as int),
            d == (if w.len() > 0 && w[0] == 43 { w.drop_first() } else { w }),
            forall|i: int| p <= i < j ==> is_digit(#[trigger] s@[i]),
        decreases hi - j,
    {
        if !is_digit_byte(s[j]) {
            assert(!is_digit(d[j - p]));
            return None;
        }
        j = j + 1;
    }
    assert(all_digits(d)) by {
        assert forall|i: int| 0 <= i < d.len() implies is_digit(#[trigger] d[i]) by {
            assert(d[i] == s@[p + i]);
        }
    }
    let mut acc: u64 = 0;
    let mut k: usize = p;
    assert(d.take(0) =~= seq![]);
    while k < hi
        invariant
            p <= k <= hi <= s@.len(),
            d == s@.subrange(p as int, hi as int),
            w == s@.subrange(lo as int, hi as int),
            d == (if w.len() > 0 && w[0] == 43 { w.drop_first() } else { w }),
            all_digits(d),
            acc == digits_val(d.take(k - p)),
            acc <= u32::MAX,
        decreases hi - k,
    {
        proof {
            lemma_digits_step(d, k - p);
        }
        assert(is_digit(d[k - p]));
        acc = acc * 10 + (s[k] - 48) as u64;
        k = k + 1;
        if acc > 0xffff_ffff {
            proof {
                lemma_digits_prefix_le(d, k - p);
            }
            return None;
        }
    }
    assert(d.take(d.len() as int) =~= d);
    Some(acc as u32)
}


fn all_digits_at(s: &[u8], lo: usize, hi: usize) -> (r: bool)
    requires
        lo <= hi <= s@.len(),
    ensures
        r == all_digits(s@.subrange(lo as int, hi as int)),
{
    let mut j: usize = lo;
    while j < hi
        invariant
            lo <= j <= hi <= s@.len(),
            forall|i: int| lo <= i < j ==> is_digit(#[trigger] s@[i]),
        decreases hi - j,
    {
        if !is_digit_byte(s[j]) {
            assert(!is_digit(s@.subrange(lo as int, hi as int)[j - lo]));
            return false;
        }
        j = j + 1;
    }
    assert forall|i: int| 0 <= i < hi - lo implies is_digit(#[trigger] s@.subrange(lo as int, hi as int)[i]) by {
        assert(s@.subrange(lo as int, hi as int)[i] == s@[lo + i]);
    }
    true
}

/// The digits of `s[p..q]` followed by those of `s[fp_lo..hi]` cut or padded
/// to six places, read as one number.
#[verifier::rlimit(40)]
fn fixed_point_magnitude(s: &[u8], p: usize, q: usize, fp_lo: usize, hi: usize) -> (acc: u64)
    requires
        p <= q <= fp_lo <= hi <= s@.len(),
        q - p <= MAX_INT_DIGITS,
        all_digits(s@.subrange(p as int, q as int)),
        all_digits(s@.subrange(fp_lo as int, hi as int)),
    ensures
        acc == digits_val(s@.subrange(p as int, q as int) + six_places(s@.subrange(fp_lo as int, hi as int))),
        acc <= MAX_MAGNITUDE,
{
    let ghost ip = s@.subrange(p as int, q as int);
    let ghost fp = s@.subrange(fp_lo as int, hi as int);
    let ip_len: usize = q - p;
    let fp_len: usize = hi - fp_lo;
    proof {
        lemma_pow10_mono(0, 15);
    }
    let ghost digs = ip + six_places(fp);
    let n: usize = ip_len + 6;
    let mut acc: u64 = 0;
    let mut j: usize = 0;
    assert(digs.take(0) =~= seq![]);
    while j < n
        invariant
            j <= n == ip_len + 6,
            ip_len == q - p,
            fp_len == hi - fp_lo,
            ip_len <= MAX_INT_DIGITS,
            p <= q <= hi <= s@.len(),
            fp_lo <= hi,
            ip == s@.subrange(p as int, q as int),
            fp == s@.subrange(fp_lo as int, hi as int),
            digs == ip + six_places(fp),
            all_digits(ip),
            all_digits(fp),
            acc == digits_val(digs.take(j as int)),
            acc < pow10(j as nat),
            pow10(j as nat) <= pow10(15),
        decreases n - j,
    {
        let b: u8 = if j < ip_len {
            s[p + j]
        } else if j - ip_len < fp_len {
            s[fp_lo + (j - ip_len)]
        } else {
            48
        };
        assert(digs[j as int] == b) by {
            if j >= ip_len {
                let f = j - ip_len;
                assert(six_places(fp)[f as int] == (fp + seq![48u8, 48u8, 48u8, 48u8, 48u8, 48u8])[f as int]);
            }
        }
        assert(is_digit(b)) by {
            if j < ip_len {
                assert(ip[j as int] == b);
            } else if j - ip_len < fp_len {
                assert(fp[(j - ip_len) as int] == b);
            }
        }
        proof {
            lemma_digits_step(digs, j as int);
            lemma_pow10_mono((j + 1) as nat, 15);
            reveal_with_fuel(pow10, 16);
        }
        acc = acc * 10 + (b - 48) as u64;
        j = j + 1;
    }
    assert(digs.take(n as int) =~= digs);
    proof {
        reveal_with_fuel(pow10, 16);
    }
    acc
}

/// `s[lo..hi]` read as a fixed-point decimal.
fn parse_decimal_at(s: &[u8], lo: usize, hi: usize) -> (r: Option<i64>)
    requires
        lo <= hi <= s@.len(),
    ensures
        r matches Some(v) ==> parse_decimal(s@.subrange(lo as int, hi as int)) == Some(v as int),
        r matches Some(v) ==> in_range(v as int),
        r is None ==> parse_decimal(s@.subrange(lo as int, hi as int)) is None,
{
    let ghost w = s@.subrange(lo as int, hi as int);
    let neg = lo < hi && s[lo] == 45;
    let mut p: usize = lo;
    if p < hi && (s[p] == 45 || s[p] == 43) {
        p = p + 1;
    }
    let ghost body = s@.subrange(p as int, hi as int);
    assert(body =~= (if w.len() > 0 && (w[0] == 45 || w[0] == 43) { w.drop_first() } else { w }));
    let mut q: usize = p;
    while q < hi && s[q] != 46
        invariant
            p <= q <= hi <= s@.len(),
            forall|j: int| p <= j < q ==> s@[j] != 46,
        decreases hi - q,
    {
        q = q + 1;
    }
    proof {
        lemma_dot_index(body, q - p);
    }
    let fp_lo: usize = if q < hi { q + 1 } else { hi };
    let ghost ip = s@.subrange(p as int, q as int);
    let ghost fp = s@.subrange(fp_lo as int, hi as int);
    assert(ip =~= body.take(q - p));
    assert(fp =~= (if q - p < body.len() { body.skip(q - p + 1) } else { seq![] }));
    if !all_digits_at(s, p, q) || !all_digits_at(s, fp_lo, hi) {
        return None;
    }
    let ip_len: usize = q - p;
    let fp_len: usize = hi - fp_lo;
    if ip_len + fp_len == 0 || ip_len > MAX_INT_DIGITS {
        return None;
    }
    let acc = fixed_point_magnitude(s, p, q, fp_lo, hi);
    let m = acc as i64;
    Some(if neg { -m } else { m })
}


/// What `s` holds after its first `n` newlines (empty if it has fewer).
pub open spec fn skip_lines(s: Seq<u8>, n: nat) -> Seq<u8>
    decreases s.len(),
{
    if n == 0 || s.len() == 0 {
        s
    } else if s[0] == 10 {
        skip_lines(s.drop_first(), (n - 1) as nat)
    } else {
        skip_lines(s.drop_first(), n)
    }
}

/// The number of bytes of `s` before its first newline.
pub open spec fn line_len(s: Seq<u8>) -> nat
    decreases s.len(),
{
    if s.len() == 0 || s[0] == 10 { 0 } else { 1 + line_len(s.drop_first()) }
}

/// The header is the first six lines; the data values follow it.
pub const HEADER_LINES: usize = 6;

/// Line `k` of `s`, counting from zero, without its newline.
pub open spec fn line_of(s: Seq<u8>, k: nat) -> Seq<u8> {
    let t = skip_lines(s, k);
    t.take(line_len(t) as int)
}

/// The keys that a header line may set.
#[derive(Debug, Clone, Copy, PartialEq, Eq, Structural)]
pub enum HeaderKey {
    Cols,
    Rows,
    CellSize,
    NoData,
}

/// The key that the word `w` names, if any: `ncols`, `nrows`, `cellsize` or
/// `nodata_value`, compared byte by byte (case-sensitive).
pub open spec fn key_of(w: Seq<u8>) -> Option<HeaderKey> {
    if w.len() == 5 && w[0] == 110 && w[1] == 99 && w[2] == 111 && w[3] == 108 && w[4] == 115 {
        Some(HeaderKey::Cols)
    } else if w.len() == 5 && w[0] == 110 && w[1] == 114 && w[2] == 111 && w[3] == 119 && w[4] == 115 {
        Some(HeaderKey::Rows)
    } else if w.len() == 8 && w[0] == 99 && w[1] == 101 && w[2] == 108 && w[3] == 108 && w[4] == 115
        && w[5] == 105 && w[6] == 122 && w[7] == 101 {
        Some(HeaderKey::CellSize)
    } else if w.len() == 12 && w[0] == 110 && w[1] == 111 && w[2] == 100 && w[3] == 97 && w[4] == 116
        && w[5] == 97 && w[6] == 95 && w[7] == 118 && w[8] == 97 && w[9] == 108 && w[10] == 117
        && w[11] == 101 {
        Some(HeaderKey::NoData)
    } else {
        None
    }
}

/// The value that header line `k` gives to `key`: the line must be exactly
/// the key's name and one more word.
pub open spec fn header_entry(s: Seq<u8>, k: nat, key: HeaderKey) -> Option<Seq<u8>> {
    let ws = words(line_of(s, k));
    if ws.len() == 2 && key_of(ws[0]) == Some(key) { Some(ws[1]) } else { None }
}

/// The value that the last of the first `n` lines naming `key` gives it.
pub open spec fn header_value(s: Seq<u8>, key: HeaderKey, n: nat) -> Option<Seq<u8>>
    decreases n,
{
    if n == 0 {
        None
    } else {
        match header_entry(s, (n - 1) as nat, key) {
            Some(v) => Some(v),
            None => header_value(s, key, (n - 1) as nat),
        }
    }
}

/// `v` is a valid value for `key`.
pub open spec fn field_ok(key: HeaderKey, v: Seq<u8>) -> bool {
    match key {
        HeaderKey::Cols | HeaderKey::Rows => parse_count(v) is Some,
        HeaderKey::CellSize => parse_decimal(v) matches Some(c) && c > 0,
        HeaderKey::NoData => parse_decimal(v) is Some,
    }
}

/// Every key that a header line sets gets a valid value.
pub open spec fn header_ok(s: Seq<u8>) -> bool {
    forall|k: nat, key: HeaderKey| k < HEADER_LINES ==> (#[trigger] header_entry(s, k, key) matches Some(v) ==> field_ok(key, v))
}

/// The data words that read as numbers, in order, with the no-data value made `None`.
pub open spec fn data_cells(ws: Seq<Seq<u8>>, nodata: Option<int>) -> Seq<Option<int>>
    decreases ws.len(),
{
    if ws.len() == 0 {
        seq![]
    } else {
        let prev = data_cells(ws.drop_last(), nodata);
        match parse_decimal(ws.last()) {
            Some(v) => prev.push(if nodata == Some(v) { None } else { Some(v) }),
            None => prev,
        }
    }
}

/// The grid that the text `s` describes, or why there is none.
pub open spec fn parse_grid(s: Seq<u8>) -> Result<GridModel, GridError> {
    let cols = header_value(s, HeaderKey::Cols, HEADER_LINES as nat);
    let rows = header_value(s, HeaderKey::Rows, HEADER_LINES as nat);
    if !header_ok(s) || cols is None || rows is None {
        Err(GridError::Parse)
    } else {
        let width = parse_count(cols->0)->0;
        let height = parse_count(rows->0)->0;
        let cell_size = match header_value(s, HeaderKey::CellSize, HEADER_LINES as nat) {
            Some(v) => parse_decimal(v)->0,
            None => SCALE as int,
        };
        let nodata = match header_value(s, HeaderKey::NoData, HEADER_LINES as nat) {
            Some(v) => parse_decimal(v),
            None => None,
        };
        let cells = data_cells(words(skip_lines(s, HEADER_LINES as nat)), nodata);
        if width == 0 || height == 0 {
            Err(GridError::Parse)
        } else if cells.len() != width * height {
            Err(GridError::ShapeMismatch)
        } else {
            Ok(GridModel { width, height, cell_size, cells })
        }
    }
}

proof fn lemma_line_end(t: Seq<u8>, m: int)
    requires
        0 <= m <= t.len(),
        forall|j: int| 0 <= j < m ==> t[j] != 10,
        m == t.len() || t[m] == 10,
    ensures
        line_len(t) == m,
        skip_lines(t, 1) == (if m < t.len() { t.skip(m + 1) } else { seq![] }),
    decreases m,
{
    if m > 0 {
        lemma_line_end(t.drop_first(), m - 1);
        assert(skip_lines(t, 1) == skip_lines(t.drop_first(), 1));
        if m < t.len() {
            assert(t.drop_first().skip(m - 1 + 1) =~= t.skip(m + 1));
        } else {
            assert(skip_lines(t.drop_first(), 1) == Seq::<u8>::empty());
        }
    } else if m < t.len() {
        assert(skip_lines(t.drop_first(), 0) == t.drop_first());
        assert(t.drop_first() =~= t.skip(1));
    } else {
        assert(t =~= seq![]);
    }
}

proof fn lemma_skip_lines_succ(s: Seq<u8>, k: nat)
    ensures
        skip_lines(s, k + 1) == skip_lines(skip_lines(s, k), 1),
    decreases s.len(),
{
    if k > 0 && s.len() > 0 {
        if s[0] == 10 {
            lemma_skip_lines_succ(s.drop_first(), (k - 1) as nat);
        } else {
            lemma_skip_lines_succ(s.drop_first(), k);
        }
    }
}

/// The key that `s[a..b]` names.
fn key_at(s: &[u8], a: usize, b: usize) -> (r: Option<HeaderKey>)
    requires
        a <= b <= s@.len(),
    ensures
        r == key_of(s@.subrange(a as int, b as int)),
{
    let ghost w = s@.subrange(a as int, b as int);
    let n = b - a;
    assert(forall|i: int| 0 <= i < n ==> w[i] == s@[a + i]);
    if n == 5 && s[a] == 110 && s[a + 1] == 99 && s[a + 2] == 111 && s[a + 3] == 108 && s[a + 4] == 115 {
        Some(HeaderKey::Cols)
    } else if n == 5 && s[a] == 110 && s[a + 1] == 114 && s[a + 2] == 111 && s[a + 3] == 119 && s[a + 4] == 115 {
        Some(HeaderKey::Rows)
    } else if n == 8 && s[a] == 99 && s[a + 1] == 101 && s[a + 2] == 108 && s[a + 3] == 108 && s[a + 4] == 115
        && s[a + 5] == 105 && s[a + 6] == 122 && s[a + 7] == 101 {
        Some(HeaderKey::CellSize)
    } else if n == 12 && s[a] == 110 && s[a + 1] == 111 && s[a + 2] == 100 && s[a + 3] == 97 && s[a + 4] == 116
        && s[a + 5] == 97 && s[a + 6] == 95 && s[a + 7] == 118 && s[a + 8] == 97 && s[a + 9] == 108
        && s[a + 10] == 117 && s[a + 11] == 101 {
        Some(HeaderKey::NoData)
    } else {
        None
    }
}


/// The header values read so far.
struct HeaderFields {
    cols: Option<u32>,
    rows: Option<u32>,
    cell_size: Option<i64>,
    nodata: Option<i64>,
}

/// `f` holds what the first `n` lines of `s` give to each key.
spec fn fields_match(s: Seq<u8>, n: nat, f: HeaderFields) -> bool {
    &&& (f.cols is None <==> header_value(s, HeaderKey::Cols, n) is None)
    &&& (f.cols matches Some(c) ==> parse_count(header_value(s, HeaderKey::Cols, n)->0) == Some(c as nat))
    &&& (f.rows is None <==> header_value(s, HeaderKey::Rows, n) is None)
    &&& (f.rows matches Some(c) ==> parse_count(header_value(s, HeaderKey::Rows, n)->0) == Some(c as nat))
    &&& (f.cell_size is None <==> header_value(s, HeaderKey::CellSize, n) is None)
    &&& (f.cell_size matches Some(c) ==> parse_decimal(header_value(s, HeaderKey::CellSize, n)->0) == Some(c as int)
        && 0 < c <= MAX_MAGNITUDE)
    &&& (f.nodata is None <==> header_value(s, HeaderKey::NoData, n) is None)
    &&& (f.nodata matches Some(c) ==> parse_decimal(header_value(s, HeaderKey::NoData, n)->0) == Some(c as int))
}

/// Applies header line `k`, which is `s[lo..hi]`, to `f`.
fn apply_header_line(s: &[u8], lo: usize, hi: usize, f: HeaderFields, Ghost(k): Ghost<nat>) -> (r: Result<HeaderFields, GridError>)
    requires
        lo <= hi <= s@.len(),
        s@.subrange(lo as int, hi as int) == line_of(s@, k),
        fields_match(s@, k, f),
    ensures
        r matches Ok(f2) ==> fields_match(s@, k + 1, f2)
            && forall|key: HeaderKey| (#[trigger] header_entry(s@, k, key) matches Some(v) ==> field_ok(key, v)),
        r matches Err(e) ==> e == GridError::Parse,
        r is Err ==> exists|key: HeaderKey| (#[trigger] header_entry(s@, k, key) matches Some(v) && !field_ok(key, v)),
{
    let spans = split_words(s, lo, hi);
    let ghost ws = words(line_of(s@, k));
    let mut f = f;
    if spans.len() == 2 {
        let (a0, b0) = spans[0];
        let (a1, b1) = spans[1];
        assert(s@.subrange(a0 as int, b0 as int) == ws[0]);
        assert(s@.subrange(a1 as int, b1 as int) == ws[1]);
        match key_at(s, a0, b0) {
            Some(HeaderKey::Cols) => match parse_count_at(s, a1, b1) {
                Some(n) => { f.cols = Some(n); },
                None => {
                    assert(header_entry(s@, k, HeaderKey::Cols) is Some);
                    return Err(GridError::Parse);
                },
            },
            Some(HeaderKey::Rows) => match parse_count_at(s, a1, b1) {
                Some(n) => { f.rows = Some(n); },
                None => {
                    assert(header_entry(s@, k, HeaderKey::Rows) is Some);
                    return Err(GridError::Parse);
                },
            },
            Some(HeaderKey::CellSize) => match parse_decimal_at(s, a1, b1) {
                Some(c) => {
                    if c <= 0 {
                        assert(header_entry(s@, k, HeaderKey::CellSize) is Some);
                        return Err(GridError::Parse);
                    }
                    f.cell_size = Some(c);
                },
                None => {
                    assert(header_entry(s@, k, HeaderKey::CellSize) is Some);
                    return Err(GridError::Parse);
                },
            },
            Some(HeaderKey::NoData) => match parse_decimal_at(s, a1, b1) {
                Some(c) => { f.nodata = Some(c); },
                None => {
                    assert(header_entry(s@, k, HeaderKey::NoData) is Some);
                    return Err(GridError::Parse);
                },
            },
            None => {},
        }
    }
    Ok(f)
}

/// Reads an elevation grid from its text: six header lines of `key value`
/// pairs (`ncols`, `nrows`, `cellsize`, `nodata_value`; other lines are
/// ignored), then whitespace-separated values in row-major order. Values equal
/// to the no-data value become `None`; words that are no number are skipped.
pub fn asc_to_image(content: &[u8]) -> (r: Result<ElevationGrid, GridError>)
    ensures
        match parse_grid(content@) {
            Ok(m) => r matches Ok(g) && g@ == m && g.wf(),
            Err(e) => r matches Err(e2) && e2 == e,
        },
{
    let len = content.len();
    let mut pos: usize = 0;
    let mut f = HeaderFields { cols: None, rows: None, cell_size: None, nodata: None };
    let mut k: usize = 0;
    assert(content@.skip(0) =~= content@);
    while k < HEADER_LINES
        invariant
            pos <= len == content@.len(),
            k <= HEADER_LINES,
            content@.skip(pos as int) == skip_lines(content@, k as nat),
            fields_match(content@, k as nat, f),
            forall|k2: nat, key: HeaderKey| k2 < k ==> (#[trigger] header_entry(content@, k2, key) matches Some(v) ==> field_ok(key, v)),
        decreases HEADER_LINES - k,
    {
        let mut e: usize = pos;
        while e < len && content[e] != 10
            invariant
                pos <= e <= len == content@.len(),
                forall|j: int| pos <= j < e ==> content@[j] != 10,
            decreases len - e,
        {
            e = e + 1;
        }
        let ghost t = content@.skip(pos as int);
        proof {
            lemma_line_end(t, e - pos);
            lemma_skip_lines_succ(content@, k as nat);
        }
        assert(t.take(e - pos) =~= content@.subrange(pos as int, e as int));
        let r = apply_header_line(content, pos, e, f, Ghost(k as nat));
        match r {
            Ok(f2) => { f = f2; },
            Err(err) => {
                assert(!header_ok(content@));
                return Err(err);
            },
        }
        if e < len {
            assert(t.skip(e - pos + 1) =~= content@.skip(e + 1));
            pos = e + 1;
        } else {
            assert(content@.skip(len as int) =~= seq![]);
            pos = len;
        }
        k = k + 1;
    }
    assert(header_ok(content@));
    let (width, height) = match (f.cols, f.rows) {
        (Some(w), Some(h)) => (w, h),
        _ => { return Err(GridError::Parse); },
    };
    if width == 0 || height == 0 {
        return Err(GridError::Parse);
    }
    let spans = split_words(content, pos, len);
    let ghost ws = words(content@.subrange(pos as int, len as int));
    assert(content@.subrange(pos as int, len as int) =~= content@.skip(pos as int));
    let ghost nodata_val = cell_value(f.nodata);
    let mut cells: Vec<Option<i64>> = Vec::new();
    let mut i: usize = 0;
    assert(ws.take(0) =~= seq![]);
    assert(cells@.map_values(|c: Option<i64>| cell_value(c)) =~= seq![]);
    while i < spans.len()
        invariant
            i <= spans@.len() == ws.len(),
            forall|j: int| 0 <= j < spans@.len() ==> {
                let (a, b) = #[trigger] spans@[j];
                &&& pos <= a < b <= len
                &&& content@.subrange(a as int, b as int) == ws[j]
            },
            len == content@.len(),
            cells@.map_values(|c: Option<i64>| cell_value(c)) == data_cells(ws.take(i as int), nodata_val),
            crate::grid::cells_in_range(cells@),
            cells@.len() <= i,
            nodata_val == cell_value(f.nodata),
        decreases spans@.len() - i,
    {
        let (a, b) = spans[i];
        let ghost prev = cells@;
        assert(ws.take(i + 1).drop_last() =~= ws.take(i as int));
        assert(ws.take(i + 1).last() == ws[i as int]);
        match parse_decimal_at(content, a, b) {
            Some(v) => {
                let c = match f.nodata {
                    Some(nd) => if nd == v { None } else { Some(v) },
                    None => Some(v),
                };
                cells.push(c);
                assert(cells@.map_values(|c: Option<i64>| cell_value(c))
                    =~= prev.map_values(|c: Option<i64>| cell_value(c)).push(cell_value(c)));
            },
            None => {},
        }
        i = i + 1;
    }
    assert(ws.take(ws.len() as int) =~= ws);
    proof {
        assert(width as int * height as int <= 0xffff_ffff * 0xffff_ffff) by (nonlinear_arith)
            requires width <= 0xffff_ffff, height <= 0xffff_ffff;
    }
    if cells.len() as u64 != width as u64 * height as u64 {
        return Err(GridError::ShapeMismatch);
    }
    let cell_size = match f.cell_size {
        Some(c) => c,
        None => SCALE,
    };
    let g = ElevationGrid { width, height, cell_size, cells };
    assert(g@.cells =~= g.cells@.map_values(|c: Option<i64>| cell_value(c)));
    Ok(g)
}

} // verus!
