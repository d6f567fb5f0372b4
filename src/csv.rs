//! Comma-separated text: lines, cells, and fixed-point decimal cells.
use vstd::prelude::*;

use crate::fixed::MICRO;

verus! {

/// The fields of `b` between occurrences of `sep` (always at least one).
pub open spec fn split_on(b: Seq<u8>, sep: u8) -> Seq<Seq<u8>>
    decreases b.len(),
{
    if b.len() == 0 {
        seq![seq![]]
    } else {
        let prev = split_on(b.drop_last(), sep);
        if b.last() == sep {
            prev.push(seq![])
        } else {
            prev.update(prev.len() - 1, prev.last().push(b.last()))
        }
    }
}

pub proof fn lemma_split_on_nonempty(b: Seq<u8>, sep: u8)
    ensures
        split_on(b, sep).len() >= 1,
    decreases b.len(),
{
    if b.len() > 0 {
        lemma_split_on_nonempty(b.drop_last(), sep);
    }
}

/// A line without its trailing carriage return, if any.
pub open spec fn strip_cr(line: Seq<u8>) -> Seq<u8> {
    if line.len() > 0 && line.last() == 13 {
        line.drop_last()
    } else {
        line
    }
}

/// The lines of a text: split at line feeds, a carriage return before a line
/// feed dropped, no line after a final line feed.
pub open spec fn lines_of(b: Seq<u8>) -> Seq<Seq<u8>> {
    let f = split_on(b, 10);
    let body = f.drop_last().map_values(|l: Seq<u8>| strip_cr(l));
    if f.last().len() == 0 {
        body
    } else {
        body.push(f.last())
    }
}

/// Whether a byte is ASCII white space.
pub open spec fn is_space(c: u8) -> bool {
    c == 32 || (9 <= c && c <= 13)
}

/// Whether a line holds nothing but white space.
pub open spec fn is_blank(line: Seq<u8>) -> bool {
    forall|i: int| 0 <= i < line.len() ==> is_space(#[trigger] line[i])
}

/// Whether every byte is a decimal digit.
pub open spec fn all_digits(d: Seq<u8>) -> bool {
    forall|i: int| 0 <= i < d.len() ==> 48 <= #[trigger] d[i] <= 57
}

/// The number that a string of decimal digits spells.
pub open spec fn digits_value(d: Seq<u8>) -> int
    decreases d.len(),
{
    if d.len() == 0 {
        0
    } else {
        digits_value(d.drop_last()) * 10 + (d.last() - 48)
    }
}

/// The first `k` fraction digits as a number, missing digits read as zeros.
pub open spec fn fraction_value(f: Seq<u8>, k: int) -> int
    decreases k,
{
    if k <= 0 {
        0
    } else {
        fraction_value(f, k - 1) * 10 + if k - 1 < f.len() {
            f[k - 1] - 48
        } else {
            0
        }
    }
}

/// The index of the first `c` in `s` from `i` on, or `s.len()`.
pub open spec fn find_byte(s: Seq<u8>, c: u8, i: int) -> int
    decreases s.len() - i,
{
    if i < 0 || i >= s.len() {
        s.len() as int
    } else if s[i] == c {
        i
    } else {
        find_byte(s, c, i + 1)
    }
}

/// The magnitude of an unsigned decimal in micro-units, truncated past six
/// fraction digits; `None` when it is not digits with at most one point and
/// at least one digit.
pub open spec fn unsigned_value(u: Seq<u8>) -> Option<int> {
    let k = find_byte(u, 46, 0);
    let ip = u.take(k);
    let fp = if k < u.len() { u.skip(k + 1) } else { seq![] };
    if all_digits(ip) && all_digits(fp) && ip.len() + fp.len() >= 1 {
        Some(digits_value(ip) * MICRO + fraction_value(fp, 6))
    } else {
        None
    }
}

/// The value of a decimal cell in micro-units: an optional sign, then an
/// unsigned decimal.
pub open spec fn decimal_value(c: Seq<u8>) -> Option<int> {
    if c.len() > 0 && c[0] == 45 {
        match unsigned_value(c.skip(1)) {
            Some(v) => Some(-v),
            None => None,
        }
    } else if c.len() > 0 && c[0] == 43 {
        unsigned_value(c.skip(1))
    } else {
        unsigned_value(c)
    }
}

/// The value of a cell: its decimal value, or 0 when it is not a number.
/// Fixed point has no room for exponents or non-finite values, so cells such
/// as `1e1`, `inf` or `nan` are not numbers here and read as 0.
pub open spec fn cell_value(c: Seq<u8>) -> int {
    match decimal_value(c) {
        Some(v) => v,
        None => 0,
    }
}

/// Splits bytes at every occurrence of `sep`.
pub fn split_bytes(b: &[u8], sep: u8) -> (r: Vec<Vec<u8>>)
    ensures
        r@.map_values(|f: Vec<u8>| f@) == split_on(b@, sep),
{
    let mut r: Vec<Vec<u8>> = Vec::new();
    let mut cur: Vec<u8> = Vec::new();
    let mut i: usize = 0;
    while i < b.len()
        invariant
            i <= b.len(),
            r@.map_values(|f: Vec<u8>| f@).push(cur@) == split_on(b@.take(i as int), sep),
        decreases b.len() - i,
    {
        let ghost prev = r@.map_values(|f: Vec<u8>| f@).push(cur@);
        assert(b@.take(i + 1).drop_last() == b@.take(i as int));
        if b[i] == sep {
            let done = cur;
            r.push(done);
            cur = Vec::new();
            assert(r@.map_values(|f: Vec<u8>| f@).push(cur@) =~= prev.push(seq![]));
        } else {
            cur.push(b[i]);
            assert(r@.map_values(|f: Vec<u8>| f@).push(cur@) =~= prev.update(
                prev.len() - 1,
                prev.last().push(b[i as int]),
            ));
        }
        i += 1;
    }
    assert(b@.take(i as int) == b@);
    r.push(cur);
    r
}

/// The lines of a text.
pub fn split_lines(b: &[u8]) -> (r: Vec<Vec<u8>>)
    ensures
        r@.map_values(|l: Vec<u8>| l@) == lines_of(b@),
{
    let fields = split_bytes(b, 10);
    proof {
        lemma_split_on_nonempty(b@, 10);
    }
    let ghost f = split_on(b@, 10);
    let n = fields.len();
    let mut r: Vec<Vec<u8>> = Vec::new();
    let mut i: usize = 0;
    while i + 1 < n
        invariant
            n == fields.len(),
            n >= 1,
            fields@.map_values(|l: Vec<u8>| l@) == f,
            i < n,
            r@.map_values(|l: Vec<u8>| l@) == f.take(i as int).map_values(|l: Seq<u8>| strip_cr(l)),
        decreases n - i,
    {
        let line = &fields[i];
        let mut copy: Vec<u8> = Vec::new();
        let mut end = line.len();
        if end > 0 && line[end - 1] == 13 {
            end = end - 1;
        }
        let mut j: usize = 0;
        while j < end
            invariant
                end <= line.len(),
                j <= end,
                copy@ == line@.take(j as int),
            decreases end - j,
        {
            copy.push(line[j]);
            j += 1;
        }
        assert(f[i as int] == line@);
        assert(copy@ =~= strip_cr(line@));
        let ghost old_r = r@;
        r.push(copy);
        assert(r@.map_values(|l: Vec<u8>| l@) =~= old_r.map_values(|l: Vec<u8>| l@).push(strip_cr(f[i as int])));
        assert(f.take(i + 1) =~= f.take(i as int).push(f[i as int]));
        assert(f.take(i + 1).map_values(|l: Seq<u8>| strip_cr(l)) =~= f.take(i as int).map_values(|l: Seq<u8>| strip_cr(l)).push(strip_cr(f[i as int])));
        assert(r@.map_values(|l: Vec<u8>| l@) =~= f.take(i + 1).map_values(|l: Seq<u8>| strip_cr(l)));
        i += 1;
    }
    assert(f.drop_last() =~= f.take(i as int));
    let last = &fields[n - 1];
    assert(f.last() == last@);
    if last.len() > 0 {
        let mut copy: Vec<u8> = Vec::new();
        let mut j: usize = 0;
        while j < last.len()
            invariant
                j <= last.len(),
                copy@ == last@.take(j as int),
            decreases last.len() - j,
        {
            copy.push(last[j]);
            j += 1;
        }
        assert(copy@ =~= last@);
        let ghost old_r = r@;
        r.push(copy);
        assert(r@.map_values(|l: Vec<u8>| l@) =~= old_r.map_values(|l: Vec<u8>| l@).push(last@));
        assert(r@.map_values(|l: Vec<u8>| l@) =~= lines_of(b@));
    }
    r
}

/// Whether a line holds nothing but white space.
pub fn blank(line: &Vec<u8>) -> (r: bool)
    ensures
        r == is_blank(line@),
{
    let mut i: usize = 0;
    while i < line.len()
        invariant
            i <= line.len(),
            forall|k: int| 0 <= k < i ==> is_space(#[trigger] line@[k]),
        decreases line.len() - i,
    {
        let c = line[i];
        if !(c == 32 || (9 <= c && c <= 13)) {
            return false;
        }
        i += 1;
    }
    true
}

proof fn lemma_digits_nonneg(d: Seq<u8>)
    requires
        all_digits(d),
    ensures
        digits_value(d) >= 0,
    decreases d.len(),
{
    if d.len() > 0 {
        assert(all_digits(d.drop_last()));
        lemma_digits_nonneg(d.drop_last());
    }
}

proof fn lemma_digits_prefix(d: Seq<u8>, j: int)
    requires
        all_digits(d),
        0 <= j <= d.len(),
    ensures
        digits_value(d.take(j)) <= digits_value(d),
    decreases d.len(),
{
    if j < d.len() {
        assert(all_digits(d.drop_last()));
        assert(d.drop_last().take(j) == d.take(j));
        lemma_digits_prefix(d.drop_last(), j);
        lemma_digits_nonneg(d.drop_last());
    } else {
        assert(d.take(j) == d);
    }
}

proof fn lemma_fraction_bound(f: Seq<u8>, k: int)
    requires
        all_digits(f),
        0 <= k,
    ensures
        0 <= fraction_value(f, k) < vstd::arithmetic::power::pow(10, k as nat),
    decreases k,
{
    vstd::arithmetic::power::lemma_pow_positive(10, k as nat);
    if k > 0 {
        lemma_fraction_bound(f, k - 1);
        vstd::arithmetic::power::lemma_pow_adds(10, (k - 1) as nat, 1);
        vstd::arithmetic::power::lemma_pow1(10);
        let p = vstd::arithmetic::power::pow(10, (k - 1) as nat);
        let v = fraction_value(f, k - 1);
        let dg = if k - 1 < f.len() { f[k - 1] - 48 } else { 0 };
        assert(0 <= dg <= 9);
        assert(0 <= v * 10 + dg < p * 10) by (nonlinear_arith)
            requires 0 <= v < p, 0 <= dg <= 9;
    }
}

proof fn lemma_pow10_6()
    ensures
        vstd::arithmetic::power::pow(10, 6) == 1_000_000,
{
    reveal_with_fuel(vstd::arithmetic::power::pow, 7);
}

/// Whether `c[lo..hi]` is all decimal digits.
fn digits_in(c: &Vec<u8>, lo: usize, hi: usize) -> (r: bool)
    requires
        lo <= hi <= c.len(),
    ensures
        r == all_digits(c@.subrange(lo as int, hi as int)),
{
    let mut i = lo;
    while i < hi
        invariant
            lo <= i <= hi <= c.len(),
            forall|k: int| lo <= k < i ==> 48 <= #[trigger] c@[k] <= 57,
        decreases hi - i,
    {
        if c[i] < 48 || c[i] > 57 {
            assert(c@.subrange(lo as int, hi as int)[i - lo] == c@[i as int]);
            return false;
        }
        i += 1;
    }
    assert forall|k: int| 0 <= k < hi - lo implies 48 <= #[trigger] c@.subrange(lo as int, hi as int)[k] <= 57 by {
        assert(c@.subrange(lo as int, hi as int)[k] == c@[lo + k]);
    }
    true
}

/// The number spelled by the digits `c[lo..hi]`, or `None` when it exceeds `cap`.
fn digits_up_to(c: &Vec<u8>, lo: usize, hi: usize, cap: u64) -> (r: Option<u64>)
    requires
        lo <= hi <= c.len(),
        all_digits(c@.subrange(lo as int, hi as int)),
        cap <= 1_000_000_000_000,
    ensures
        match r {
            Some(v) => v == digits_value(c@.subrange(lo as int, hi as int)) && v <= cap,
            None => digits_value(c@.subrange(lo as int, hi as int)) > cap,
        },
{
    let ghost d = c@.subrange(lo as int, hi as int);
    let mut acc: u64 = 0;
    let mut i = lo;
    while i < hi
        invariant
            lo <= i <= hi <= c.len(),
            d == c@.subrange(lo as int, hi as int),
            all_digits(d),
            cap <= 1_000_000_000_000,
            acc == digits_value(d.take(i - lo)),
            acc <= cap,
        decreases hi - i,
    {
        assert(d.take(i - lo + 1).drop_last() == d.take(i - lo));
        assert(d[i - lo] == c@[i as int]);
        let dg = (c[i] - 48) as u64;
        let next = acc * 10 + dg;
        if next > cap {
            proof {
                lemma_digits_prefix(d, i - lo + 1);
            }
            return None;
        }
        acc = next;
        i += 1;
    }
    assert(d.take(i - lo) == d);
    Some(acc)
}

/// The first six fraction digits `c[lo..hi]` as millionths.
fn fraction_micro(c: &Vec<u8>, lo: usize, hi: usize) -> (r: u64)
    requires
        lo <= hi <= c.len(),
        all_digits(c@.subrange(lo as int, hi as int)),
    ensures
        r == fraction_value(c@.subrange(lo as int, hi as int), 6),
        r < 1_000_000,
{
    let ghost f = c@.subrange(lo as int, hi as int);
    let mut acc: u64 = 0;
    let mut k: usize = 0;
    while k < 6
        invariant
            lo <= hi <= c.len(),
            f == c@.subrange(lo as int, hi as int),
            all_digits(f),
            k <= 6,
            acc == fraction_value(f, k as int),
        decreases 6 - k,
    {
        proof {
            lemma_fraction_bound(f, k as int);
            vstd::arithmetic::power::lemma_pow_increases(10, k as nat, 6);
            lemma_pow10_6();
        }
        let dg: u64 = if k < hi - lo {
            assert(f[k as int] == c@[lo + k]);
            (c[lo + k] - 48) as u64
        } else {
            0
        };
        acc = acc * 10 + dg;
        k += 1;
    }
    proof {
        lemma_fraction_bound(f, 6);
        lemma_pow10_6();
    }
    acc
}

/// The value of a cell in micro-units (0 when it is not a number), or `None`
/// when that value exceeds `limit` in magnitude.
pub fn parse_cell(c: &Vec<u8>, limit: i64) -> (r: Option<i64>)
    requires
        0 <= limit <= 1_000_000_000_000_000,
    ensures
        match r {
            Some(v) => v == cell_value(c@) && -limit <= v <= limit,
            None => !(-limit <= cell_value(c@) <= limit),
        },
{
    let n = c.len();
    let mut start: usize = 0;
    let mut neg = false;
    if n > 0 && c[0] == 45 {
        neg = true;
        start = 1;
    } else if n > 0 && c[0] == 43 {
        start = 1;
    }
    let ghost u = c@.skip(start as int);
    assert(start == 0 ==> u == c@);
    let mut k = start;
    while k < n && c[k] != 46
        invariant
            start <= k <= n,
            n == c.len(),
            u == c@.skip(start as int),
            find_byte(u, 46, 0) == find_byte(u, 46, k - start),
        decreases n - k,
    {
        assert(u[k - start] == c@[k as int]);
        k += 1;
    }
    proof {
        if k < n {
            assert(u[k - start] == c@[k as int]);
        }
        assert(find_byte(u, 46, 0) == k - start);
        assert(u.take(k - start) =~= c@.subrange(start as int, k as int));
    }
    let frac_lo = if k < n {
        k + 1
    } else {
        n
    };
    proof {
        if k < n {
            assert(u.skip(k - start + 1) =~= c@.subrange(frac_lo as int, n as int));
        } else {
            assert(c@.subrange(frac_lo as int, n as int) =~= seq![]);
        }
    }
    let ip_ok = digits_in(c, start, k);
    let fp_ok = digits_in(c, frac_lo, n);
    if !(ip_ok && fp_ok && (k - start) + (n - frac_lo) >= 1) {
        return Some(0);
    }
    let cap = (limit / MICRO) as u64;
    let whole = match digits_up_to(c, start, k, cap) {
        Some(w) => w,
        None => {
            proof {
                let ip = c@.subrange(start as int, k as int);
                let fp = c@.subrange(frac_lo as int, n as int);
                lemma_fraction_bound(fp, 6);
                vstd::arithmetic::power::lemma_pow_positive(10, 6);
                assert(digits_value(ip) >= cap + 1);
                assert(digits_value(ip) * MICRO >= (cap + 1) * MICRO) by (nonlinear_arith)
                    requires digits_value(ip) >= cap + 1;
                vstd::arithmetic::div_mod::lemma_fundamental_div_mod(limit as int, MICRO as int);
            }
            return None;
        },
    };
    let frac = fraction_micro(c, frac_lo, n);
    let mag = (whole as i64) * MICRO + (frac as i64);
    if mag > limit {
        return None;
    }
    if neg {
        Some(-mag)
    } else {
        Some(mag)
    }
}

} // verus!
