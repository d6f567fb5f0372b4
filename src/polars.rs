//! Boat polars: speed through water by true wind speed and angle.
use vstd::prelude::*;

use crate::csv::{
    blank, cell_value, is_blank, lemma_split_on_nonempty, lines_of, parse_cell, split_bytes,
    split_lines, split_on,
};
use crate::fixed::{clamp, floor_div, floor_div_i128};

verus! {

/// Largest magnitude of a polar value: 1000 knots or degrees, in micro-units.
pub const POLAR_LIMIT: i64 = 1_000_000_000;

/// A tabulated polar: `speeds[i][j]` is the boat speed at `twa[i]` and `tws[j]`.
/// Speeds and wind speeds are in micro-knots, angles in micro-degrees.
#[derive(Debug, Clone)]
pub struct PolarData {
    pub tws: Vec<i64>,
    pub twa: Vec<i64>,
    pub speeds: Vec<Vec<i64>>,
}

/// Why a polar file could not be loaded.
#[derive(Debug, Clone, Copy, PartialEq, Eq, Structural)]
pub enum PolarError {
    /// The text has no header line.
    MissingHeader,
    /// A row has a different number of speeds than the header has wind speeds.
    RowLength,
    /// A value lies beyond the polar range.
    OutOfRange,
    /// An axis decreases somewhere.
    Unsorted,
}

/// The lines that are not blank, in order.
pub open spec fn non_blank(ls: Seq<Seq<u8>>) -> Seq<Seq<u8>>
    decreases ls.len(),
{
    if ls.len() == 0 {
        seq![]
    } else if is_blank(ls.last()) {
        non_blank(ls.drop_last())
    } else {
        non_blank(ls.drop_last()).push(ls.last())
    }
}

/// The cells of the header line of a polar file.
pub open spec fn header_cells(text: Seq<u8>) -> Seq<Seq<u8>> {
    split_on(lines_of(text)[0], 44)
}

/// The cells of each data row of a polar file: the lines after the header
/// that are not blank.
pub open spec fn row_cells(text: Seq<u8>) -> Seq<Seq<Seq<u8>>> {
    non_blank(lines_of(text).skip(1)).map_values(|l: Seq<u8>| split_on(l, 44))
}

/// The wind-speed axis that the header spells.
pub open spec fn header_tws(text: Seq<u8>) -> Seq<i64> {
    header_cells(text).skip(1).map_values(|c: Seq<u8>| cell_value(c) as i64)
}

/// The wind-angle axis that the first cells of the rows spell.
pub open spec fn rows_twa(text: Seq<u8>) -> Seq<i64> {
    row_cells(text).map_values(|r: Seq<Seq<u8>>| cell_value(r[0]) as i64)
}

/// Whether every cell from index `from` on has a value within the polar range.
pub open spec fn cells_in_range(cells: Seq<Seq<u8>>, from: int) -> bool {
    forall|j: int| from <= j < cells.len() ==> -POLAR_LIMIT <= cell_value(#[trigger] cells[j]) <= POLAR_LIMIT
}

/// Whether an axis never decreases.
pub open spec fn ascending(a: Seq<i64>) -> bool {
    forall|i: int, j: int| 0 <= i <= j < a.len() ==> a[i] <= a[j]
}

/// Whether every value of a sequence is within the polar range.
pub open spec fn in_polar_range(a: Seq<i64>) -> bool {
    forall|i: int| 0 <= i < a.len() ==> -POLAR_LIMIT <= #[trigger] a[i] <= POLAR_LIMIT
}

/// The first `k >= i` with `a[k] <= x <= a[k + 1]`, or -1 when there is none.
pub open spec fn first_bracket(a: Seq<i64>, x: int, i: int) -> int
    decreases a.len() - i,
{
    if i < 0 || i + 1 >= a.len() {
        -1
    } else if a[i] <= x && x <= a[i + 1] {
        i
    } else {
        first_bracket(a, x, i + 1)
    }
}

/// The lower index of the bracket of `x` on an axis.
pub open spec fn lower_index(a: Seq<i64>, x: int) -> int {
    if first_bracket(a, x, 0) >= 0 {
        first_bracket(a, x, 0)
    } else {
        0
    }
}

/// The upper index of the bracket of `x` on an axis.
pub open spec fn upper_index(a: Seq<i64>, x: int) -> int {
    if first_bracket(a, x, 0) >= 0 {
        first_bracket(a, x, 0) + 1
    } else {
        a.len() - 1
    }
}

/// Numerator of the fraction of `x` across its bracket (0 when the bracket collapses).
pub open spec fn frac_num(a: Seq<i64>, x: int) -> int {
    if a[lower_index(a, x)] == a[upper_index(a, x)] {
        0
    } else {
        x - a[lower_index(a, x)]
    }
}

/// Denominator of the fraction of `x` across its bracket (1 when the bracket collapses).
pub open spec fn frac_den(a: Seq<i64>, x: int) -> int {
    if a[lower_index(a, x)] == a[upper_index(a, x)] {
        1
    } else {
        a[upper_index(a, x)] - a[lower_index(a, x)]
    }
}

/// Bilinear mix of four corners, with fractions `fs / ds` across the first
/// index and `ft / dt` across the second, rounded down.
pub open spec fn bilinear(
    v00: int,
    v01: int,
    v10: int,
    v11: int,
    fs: int,
    ds: int,
    ft: int,
    dt: int,
) -> int {
    floor_div(
        v00 * ((ds - fs) * (dt - ft)) + v01 * (fs * (dt - ft)) + v10 * ((ds - fs) * ft) + v11 * (fs
            * ft),
        ds * dt,
    )
}

/// The interpolated boat speed of a polar at a true wind speed and angle.
pub open spec fn speed_at(
    tws: Seq<i64>,
    twa: Seq<i64>,
    speeds: Seq<Seq<i64>>,
    s: int,
    a: int,
) -> int {
    if tws.len() == 0 || twa.len() == 0 {
        0
    } else {
        let xs = clamp(s, tws[0] as int, tws.last() as int);
        let xa = clamp(a, twa[0] as int, twa.last() as int);
        let j0 = lower_index(tws, xs);
        let j1 = upper_index(tws, xs);
        let i0 = lower_index(twa, xa);
        let i1 = upper_index(twa, xa);
        if j0 == j1 && i0 == i1 {
            speeds[i0][j0] as int
        } else {
            bilinear(
                speeds[i0][j0] as int,
                speeds[i0][j1] as int,
                speeds[i1][j0] as int,
                speeds[i1][j1] as int,
                frac_num(tws, xs),
                frac_den(tws, xs),
                frac_num(twa, xa),
                frac_den(twa, xa),
            )
        }
    }
}

proof fn lemma_first_bracket(a: Seq<i64>, x: int, i: int)
    requires
        0 <= i,
    ensures
        first_bracket(a, x, i) == -1 || (i <= first_bracket(a, x, i) && first_bracket(a, x, i) + 1
            < a.len() && a[first_bracket(a, x, i)] <= x <= a[first_bracket(a, x, i) + 1]),
    decreases a.len() - i,
{
    if i + 1 < a.len() && !(a[i] <= x && x <= a[i + 1]) {
        lemma_first_bracket(a, x, i + 1);
    }
}

/// Index of the first bracket of `x` on an axis, if any.
fn find_bracket(a: &Vec<i64>, x: i64) -> (r: Option<usize>)
    ensures
        match r {
            Some(k) => first_bracket(a@, x as int, 0) == k,
            None => first_bracket(a@, x as int, 0) == -1,
        },
{
    let mut i: usize = 0;
    while i < a.len() && i + 1 < a.len()
        invariant
            first_bracket(a@, x as int, 0) == first_bracket(a@, x as int, i as int),
        decreases a.len() - i,
    {
        if a[i] <= x && x <= a[i + 1] {
            return Some(i);
        }
        i += 1;
    }
    None
}

proof fn lemma_bilinear_bound(
    v00: int,
    v01: int,
    v10: int,
    v11: int,
    fs: int,
    ds: int,
    ft: int,
    dt: int,
    m: int,
)
    requires
        -m <= v00 <= m,
        -m <= v01 <= m,
        -m <= v10 <= m,
        -m <= v11 <= m,
        0 <= fs <= ds,
        0 <= ft <= dt,
        ds >= 1,
        dt >= 1,
        m >= 0,
    ensures
        0 <= (ds - fs) * (dt - ft) <= ds * dt,
        0 <= fs * (dt - ft) <= ds * dt,
        0 <= (ds - fs) * ft <= ds * dt,
        0 <= fs * ft <= ds * dt,
        -m <= bilinear(v00, v01, v10, v11, fs, ds, ft, dt) <= m,
{
    let w00 = (ds - fs) * (dt - ft);
    let w01 = fs * (dt - ft);
    let w10 = (ds - fs) * ft;
    let w11 = fs * ft;
    let d = ds * dt;
    assert(w00 >= 0 && w01 >= 0 && w10 >= 0 && w11 >= 0) by (nonlinear_arith)
        requires 0 <= fs <= ds, 0 <= ft <= dt, w00 == (ds - fs) * (dt - ft), w01 == fs * (dt - ft),
            w10 == (ds - fs) * ft, w11 == fs * ft;
    assert(w00 + w01 + w10 + w11 == d) by (nonlinear_arith)
        requires w00 == (ds - fs) * (dt - ft), w01 == fs * (dt - ft), w10 == (ds - fs) * ft,
            w11 == fs * ft, d == ds * dt;
    assert(-m * w00 <= v00 * w00 <= m * w00) by (nonlinear_arith)
        requires -m <= v00 <= m, w00 >= 0;
    assert(-m * w01 <= v01 * w01 <= m * w01) by (nonlinear_arith)
        requires -m <= v01 <= m, w01 >= 0;
    assert(-m * w10 <= v10 * w10 <= m * w10) by (nonlinear_arith)
        requires -m <= v10 <= m, w10 >= 0;
    assert(-m * w11 <= v11 * w11 <= m * w11) by (nonlinear_arith)
        requires -m <= v11 <= m, w11 >= 0;
    assert(m * w00 + m * w01 + m * w10 + m * w11 == m * d) by (nonlinear_arith)
        requires w00 + w01 + w10 + w11 == d;
    assert((-m) * w00 + (-m) * w01 + (-m) * w10 + (-m) * w11 == (-m) * d) by (nonlinear_arith)
        requires w00 + w01 + w10 + w11 == d;
    let n = v00 * w00 + v01 * w01 + v10 * w10 + v11 * w11;
    assert(d >= 1) by (nonlinear_arith)
        requires ds >= 1, dt >= 1, d == ds * dt;
    assert((-m) * d <= n <= m * d);
    vstd::arithmetic::div_mod::lemma_div_is_ordered(n, m * d, d);
    vstd::arithmetic::div_mod::lemma_div_is_ordered((-m) * d, n, d);
    vstd::arithmetic::div_mod::lemma_div_multiples_vanish(m, d);
    vstd::arithmetic::div_mod::lemma_div_multiples_vanish(-m, d);
    assert((-m) * d == d * (-m)) by (nonlinear_arith);
    assert(m * d == d * m) by (nonlinear_arith);
}

/// Clamps `x` into `[lo, hi]` (`lo <= hi`).
fn clamp_i64(x: i64, lo: i64, hi: i64) -> (r: i64)
    ensures
        r == clamp(x as int, lo as int, hi as int),
{
    if x < lo {
        lo
    } else if x > hi {
        hi
    } else {
        x
    }
}

/// The bracket of `x` on a non-empty axis, as (lower, upper) indices.
fn bracket(a: &Vec<i64>, x: i64) -> (r: (usize, usize))
    requires
        a.len() > 0,
    ensures
        r.0 == lower_index(a@, x as int),
        r.1 == upper_index(a@, x as int),
        r.0 <= r.1 < a.len(),
{
    proof {
        lemma_first_bracket(a@, x as int, 0);
    }
    match find_bracket(a, x) {
        Some(k) => (k, k + 1),
        None => (0, a.len() - 1),
    }
}

/// The fraction of `x` across `[lo, hi]`, as (numerator, denominator).
fn fraction(x: i64, lo: i64, hi: i64) -> (r: (i64, i64))
    requires
        lo <= x <= hi,
        -POLAR_LIMIT <= lo,
        hi <= POLAR_LIMIT,
    ensures
        r.0 == (if lo == hi { 0 } else { x - lo }),
        r.1 == (if lo == hi { 1 } else { hi - lo }),
        0 <= r.0 <= r.1,
        1 <= r.1 <= 2 * POLAR_LIMIT,
{
    if lo == hi {
        (0, 1)
    } else {
        (x - lo, hi - lo)
    }
}

impl Default for PolarData {
    /// The empty polar, which gives zero speed everywhere.
    fn default() -> (r: PolarData)
        ensures
            r.tws@.len() == 0,
            r.twa@.len() == 0,
            r.speeds@.len() == 0,
    {
        PolarData { tws: Vec::new(), twa: Vec::new(), speeds: Vec::new() }
    }
}

impl PolarData {
    /// The speed table as rows of values.
    pub open spec fn table(&self) -> Seq<Seq<i64>> {
        self.speeds@.map_values(|row: Vec<i64>| row@)
    }

    /// Rows aligned with the angle axis, each as long as the wind-speed axis;
    /// axes ascending; every value within the polar range.
    pub open spec fn wf(&self) -> bool {
        &&& self.speeds.len() == self.twa.len()
        &&& forall|i: int|
            0 <= i < self.speeds.len() ==> (#[trigger] self.speeds[i]).len() == self.tws.len()
                && in_polar_range(self.speeds[i]@)
        &&& ascending(self.tws@)
        &&& ascending(self.twa@)
        &&& in_polar_range(self.tws@)
        &&& in_polar_range(self.twa@)
    }

    /// The interpolated speed at a true wind speed and angle.
    pub open spec fn speed(&self, tws: int, twa: int) -> int {
        speed_at(self.tws@, self.twa@, self.table(), tws, twa)
    }

    /// Boat speed (micro-knots) at a true wind speed (micro-knots) and angle
    /// (micro-degrees): both clamped to the axes, then mixed bilinearly
    /// between the four surrounding table values. An empty polar gives 0.
    pub fn get_speed(&self, target_tws: i64, target_twa: i64) -> (r: i64)
        requires
            self.wf(),
        ensures
            r == self.speed(target_tws as int, target_twa as int),
            -POLAR_LIMIT <= r <= POLAR_LIMIT,
    {
        if self.tws.len() == 0 || self.twa.len() == 0 {
            return 0;
        }
        let ns = self.tws.len();
        let na = self.twa.len();
        let xs = clamp_i64(target_tws, self.tws[0], self.tws[ns - 1]);
        let xa = clamp_i64(target_twa, self.twa[0], self.twa[na - 1]);
        assert(self.tws@.last() == self.tws[ns - 1]);
        assert(self.twa@.last() == self.twa[na - 1]);
        let (j0, j1) = bracket(&self.tws, xs);
        let (i0, i1) = bracket(&self.twa, xa);
        proof {
            lemma_first_bracket(self.tws@, xs as int, 0);
            lemma_first_bracket(self.twa@, xa as int, 0);
            assert(self.table()[i0 as int] == self.speeds[i0 as int]@);
            assert(self.table()[i1 as int] == self.speeds[i1 as int]@);
        }
        let v00 = self.speeds[i0][j0];
        let v01 = self.speeds[i0][j1];
        let v10 = self.speeds[i1][j0];
        let v11 = self.speeds[i1][j1];
        if j0 == j1 && i0 == i1 {
            return v00;
        }
        let (fs, ds) = fraction(xs, self.tws[j0], self.tws[j1]);
        let (ft, dt) = fraction(xa, self.twa[i0], self.twa[i1]);
        proof {
            lemma_bilinear_bound(
                v00 as int,
                v01 as int,
                v10 as int,
                v11 as int,
                fs as int,
                ds as int,
                ft as int,
                dt as int,
                POLAR_LIMIT as int,
            );
            assert(ds as int * dt as int <= 4 * POLAR_LIMIT * POLAR_LIMIT) by (nonlinear_arith)
                requires 1 <= ds <= 2 * POLAR_LIMIT, 1 <= dt <= 2 * POLAR_LIMIT;
        }
        let (v00, v01, v10, v11) = (v00 as i128, v01 as i128, v10 as i128, v11 as i128);
        let (fs, ds, ft, dt) = (fs as i128, ds as i128, ft as i128, dt as i128);
        assert(1 <= ds * dt <= 4 * POLAR_LIMIT * POLAR_LIMIT) by (nonlinear_arith)
            requires 1 <= ds <= 2 * POLAR_LIMIT, 1 <= dt <= 2 * POLAR_LIMIT;
        let d = ds * dt;
        let w00 = (ds - fs) * (dt - ft);
        let w01 = fs * (dt - ft);
        let w10 = (ds - fs) * ft;
        let w11 = fs * ft;
        proof {
            let lim = POLAR_LIMIT as int;
            assert forall|v: int, w: int| -lim <= v <= lim && 0 <= w <= d implies -lim * (4 * lim
                * lim) <= #[trigger] (v * w) <= lim * (4 * lim * lim) by {
                assert(-lim * (4 * lim * lim) <= v * w <= lim * (4 * lim * lim)) by (nonlinear_arith)
                    requires -lim <= v <= lim, 0 <= w <= d, d <= 4 * lim * lim, lim >= 0;
            }
        }
        let n = v00 * w00 + v01 * w01 + v10 * w10 + v11 * w11;
        let q = floor_div_i128(n, d);
        q as i64
    }
}

/// The speed depends on the axes and the table alone: two polars holding the
/// same values give the same speed at the same wind, lookup after lookup.
pub proof fn lemma_speed_repeatable(p: &PolarData, q: &PolarData, tws: int, twa: int)
    requires
        p.tws@ == q.tws@,
        p.twa@ == q.twa@,
        p.table() == q.table(),
    ensures
        p.speed(tws, twa) == q.speed(tws, twa),
{
}

/// Whether an axis strictly increases.
pub open spec fn strictly_ascending(a: Seq<i64>) -> bool {
    forall|i: int, j: int| 0 <= i < j < a.len() ==> a[i] < a[j]
}

proof fn lemma_first_bracket_at(a: Seq<i64>, x: int, i: int, t: int)
    requires
        0 <= i <= t,
        t + 1 < a.len(),
        a[t] <= x <= a[t + 1],
        forall|k: int| i <= k < t ==> !(a[k] <= x && x <= #[trigger] a[k + 1]),
    ensures
        first_bracket(a, x, i) == t,
    decreases t - i,
{
    if i < t {
        assert(!(a[i] <= x && x <= a[i + 1]));
        lemma_first_bracket_at(a, x, i + 1, t);
    }
}

/// At a node of a strictly ascending axis the bracket puts the whole weight on that node.
proof fn lemma_bracket_at_node(a: Seq<i64>, j: int)
    requires
        strictly_ascending(a),
        0 <= j < a.len(),
    ensures
        clamp(a[j] as int, a[0] as int, a.last() as int) == a[j],
        lower_index(a, a[j] as int) <= upper_index(a, a[j] as int) < a.len(),
        frac_den(a, a[j] as int) >= 1,
        (lower_index(a, a[j] as int) == j && frac_num(a, a[j] as int) == 0) || (upper_index(
            a,
            a[j] as int,
        ) == j && frac_num(a, a[j] as int) == frac_den(a, a[j] as int)),
{
    let x = a[j] as int;
    let n = a.len() as int;
    assert(a[0] <= a[j] <= a[n - 1]);
    if n == 1 {
        assert(first_bracket(a, x, 0) == -1);
    } else if j == 0 {
        lemma_first_bracket_at(a, x, 0, 0);
    } else {
        assert forall|k: int| 0 <= k < j - 1 implies !(a[k] <= x && x <= #[trigger] a[k + 1]) by {
            assert(a[k + 1] < a[j]);
        }
        lemma_first_bracket_at(a, x, 0, j - 1);
    }
}

proof fn lemma_bilinear_corner(
    v00: int,
    v01: int,
    v10: int,
    v11: int,
    fs: int,
    ds: int,
    ft: int,
    dt: int,
)
    requires
        ds >= 1,
        dt >= 1,
        fs == 0 || fs == ds,
        ft == 0 || ft == dt,
    ensures
        bilinear(v00, v01, v10, v11, fs, ds, ft, dt) == (if ft == 0 {
            if fs == 0 {
                v00
            } else {
                v01
            }
        } else {
            if fs == 0 {
                v10
            } else {
                v11
            }
        }),
{
    let d = ds * dt;
    let n = v00 * ((ds - fs) * (dt - ft)) + v01 * (fs * (dt - ft)) + v10 * ((ds - fs) * ft) + v11 * (
    fs * ft);
    let v = if ft == 0 {
        if fs == 0 {
            v00
        } else {
            v01
        }
    } else {
        if fs == 0 {
            v10
        } else {
            v11
        }
    };
    assert(n == d * v) by (nonlinear_arith)
        requires
            fs == 0 || fs == ds,
            ft == 0 || ft == dt,
            d == ds * dt,
            n == v00 * ((ds - fs) * (dt - ft)) + v01 * (fs * (dt - ft)) + v10 * ((ds - fs) * ft) + v11
                * (fs * ft),
            v == if ft == 0 {
                if fs == 0 {
                    v00
                } else {
                    v01
                }
            } else {
                if fs == 0 {
                    v10
                } else {
                    v11
                }
            },
    ;
    assert(d >= 1) by (nonlinear_arith)
        requires ds >= 1, dt >= 1, d == ds * dt;
    vstd::arithmetic::div_mod::lemma_div_multiples_vanish(v, d);
}

/// On strictly ascending axes, the speed at a tabulated wind speed and angle
/// is the tabulated value itself.
pub proof fn lemma_speed_at_grid_point(p: &PolarData, i: int, j: int)
    requires
        p.wf(),
        strictly_ascending(p.tws@),
        strictly_ascending(p.twa@),
        0 <= i < p.twa.len(),
        0 <= j < p.tws.len(),
    ensures
        p.speed(p.tws[j] as int, p.twa[i] as int) == p.table()[i][j],
{
    let s = p.tws[j] as int;
    let a = p.twa[i] as int;
    lemma_bracket_at_node(p.tws@, j);
    lemma_bracket_at_node(p.twa@, i);
    let j0 = lower_index(p.tws@, s);
    let j1 = upper_index(p.tws@, s);
    let i0 = lower_index(p.twa@, a);
    let i1 = upper_index(p.twa@, a);
    let t = p.table();
    if !(j0 == j1 && i0 == i1) {
        lemma_bilinear_corner(
            t[i0][j0] as int,
            t[i0][j1] as int,
            t[i1][j0] as int,
            t[i1][j1] as int,
            frac_num(p.tws@, s),
            frac_den(p.tws@, s),
            frac_num(p.twa@, a),
            frac_den(p.twa@, a),
        );
    }
}

/// Whether adjacent values of an axis never decrease.
fn ascending_exec(a: &Vec<i64>) -> (r: bool)
    ensures
        r == ascending(a@),
{
    let mut i: usize = 0;
    while i < a.len() && i + 1 < a.len()
        invariant
            a.len() == 0 || i < a.len(),
            forall|p: int, q: int| 0 <= p <= q <= i && q < a.len() ==> a@[p] <= a@[q],
        decreases a.len() - i,
    {
        if a[i] > a[i + 1] {
            return false;
        }
        i += 1;
    }
    true
}

/// The cells of the lines after the first that are not blank.
fn data_rows(lines: &Vec<Vec<u8>>) -> (r: Vec<Vec<Vec<u8>>>)
    requires
        lines.len() >= 1,
    ensures
        r.len() == non_blank(lines@.map_values(|l: Vec<u8>| l@).skip(1)).len(),
        forall|i: int|
            0 <= i < r.len() ==> (#[trigger] r[i])@.map_values(|c: Vec<u8>| c@) == split_on(
                non_blank(lines@.map_values(|l: Vec<u8>| l@).skip(1))[i],
                44,
            ),
{
    let ghost lv = lines@.map_values(|l: Vec<u8>| l@);
    let mut r: Vec<Vec<Vec<u8>>> = Vec::new();
    let mut i: usize = 1;
    while i < lines.len()
        invariant
            1 <= i <= lines.len(),
            lv == lines@.map_values(|l: Vec<u8>| l@),
            r.len() == non_blank(lv.subrange(1, i as int)).len(),
            forall|k: int|
                0 <= k < r.len() ==> (#[trigger] r[k])@.map_values(|c: Vec<u8>| c@) == split_on(
                    non_blank(lv.subrange(1, i as int))[k],
                    44,
                ),
        decreases lines.len() - i,
    {
        let ghost prev = non_blank(lv.subrange(1, i as int));
        assert(lv.subrange(1, i + 1).drop_last() == lv.subrange(1, i as int));
        assert(lv.subrange(1, i + 1).last() == lines[i as int]@);
        if !blank(&lines[i]) {
            let cells = split_bytes(lines[i].as_slice(), 44);
            r.push(cells);
        }
        i += 1;
    }
    assert(lv.subrange(1, i as int) == lv.skip(1));
    r
}

/// The values of the cells from index `from` on, or `None` when one lies
/// beyond the polar range.
fn parse_cells(cells: &Vec<Vec<u8>>, from: usize) -> (r: Option<Vec<i64>>)
    requires
        from <= cells.len(),
    ensures
        match r {
            Some(v) => cells_in_range(cells@.map_values(|c: Vec<u8>| c@), from as int) && v.len()
                == cells.len() - from && forall|j: int|
                0 <= j < v.len() ==> #[trigger] v[j] == cell_value(cells[from + j]@),
            None => !cells_in_range(cells@.map_values(|c: Vec<u8>| c@), from as int),
        },
{
    let ghost cv = cells@.map_values(|c: Vec<u8>| c@);
    let mut v: Vec<i64> = Vec::new();
    let mut j = from;
    while j < cells.len()
        invariant
            from <= j <= cells.len(),
            cv == cells@.map_values(|c: Vec<u8>| c@),
            v.len() == j - from,
            forall|k: int| 0 <= k < v.len() ==> #[trigger] v[k] == cell_value(cells[from + k]@),
            forall|k: int| from <= k < j ==> -POLAR_LIMIT <= cell_value(#[trigger] cv[k]) <= POLAR_LIMIT,
        decreases cells.len() - j,
    {
        match parse_cell(&cells[j], POLAR_LIMIT) {
            Some(x) => v.push(x),
            None => {
                assert(cv[j as int] == cells[j as int]@);
                return None;
            },
        }
        j += 1;
    }
    Some(v)
}

impl PolarData {
    /// Loads a polar from CSV text. The first line is `label,tws1,tws2,...`;
    /// each following line that is not blank is `twa,speed1,speed2,...`.
    /// Cells are fixed-point decimals (six fraction digits kept); a cell that
    /// is not a number (exponent forms such as `1e1` included) counts as 0.
    pub fn load_from_csv(text: &[u8]) -> (r: Result<PolarData, PolarError>)
        ensures
            r == Err::<PolarData, PolarError>(PolarError::MissingHeader) <==> lines_of(text@).len() == 0,
            r == Err::<PolarData, PolarError>(PolarError::RowLength) <==> lines_of(text@).len() > 0
                && exists|i: int|
                0 <= i < row_cells(text@).len() && (#[trigger] row_cells(text@)[i]).len()
                    != header_cells(text@).len(),
            r == Err::<PolarData, PolarError>(PolarError::OutOfRange) <==> lines_of(text@).len() > 0
                && (forall|i: int|
                0 <= i < row_cells(text@).len() ==> (#[trigger] row_cells(text@)[i]).len()
                    == header_cells(text@).len()) && !(cells_in_range(header_cells(text@), 1)
                && forall|i: int|
                0 <= i < row_cells(text@).len() ==> cells_in_range(#[trigger] row_cells(text@)[i], 0)),
            r == Err::<PolarData, PolarError>(PolarError::Unsorted) <==> lines_of(text@).len() > 0
                && (forall|i: int|
                0 <= i < row_cells(text@).len() ==> (#[trigger] row_cells(text@)[i]).len()
                    == header_cells(text@).len()) && cells_in_range(header_cells(text@), 1) && (
                forall|i: int|
                    0 <= i < row_cells(text@).len() ==> cells_in_range(#[trigger] row_cells(text@)[i], 0))
                && !(ascending(header_tws(text@)) && ascending(rows_twa(text@))),
            r matches Ok(p) ==> {
                &&& p.wf()
                &&& p.tws.len() == header_cells(text@).len() - 1
                &&& forall|j: int| 0 <= j < p.tws.len() ==> #[trigger] p.tws[j] == cell_value(header_cells(text@)[j + 1])
                &&& p.twa.len() == row_cells(text@).len()
                &&& forall|i: int| 0 <= i < p.twa.len() ==> #[trigger] p.twa[i] == cell_value(row_cells(text@)[i][0])
                &&& forall|i: int, j: int|
                    0 <= i < p.twa.len() && 0 <= j < p.tws.len() ==> #[trigger] p.speeds[i][j] == cell_value(
                        row_cells(text@)[i][j + 1],
                    )
            },
    {
        let lines = split_lines(text);
        if lines.len() == 0 {
            return Err(PolarError::MissingHeader);
        }
        let ghost lv = lines@.map_values(|l: Vec<u8>| l@);
        let header = split_bytes(lines[0].as_slice(), 44);
        let rows = data_rows(&lines);
        proof {
            assert(lv == lines_of(text@));
            assert(lines_of(text@).len() == lines.len());
            assert(lv[0] == lines[0]@);
            assert(header@.map_values(|c: Vec<u8>| c@) == header_cells(text@));
            assert(rows.len() == row_cells(text@).len());
            assert forall|i: int| 0 <= i < rows.len() implies (#[trigger] rows[i])@.map_values(
                |c: Vec<u8>| c@,
            ) == row_cells(text@)[i] by {}
        }
        let n_cols = header.len();
        proof {
            lemma_split_on_nonempty(lines[0]@, 44);
        }
        let mut i: usize = 0;
        while i < rows.len()
            invariant
                i <= rows.len(),
                n_cols == header.len(),
                lines_of(text@).len() > 0,
                header@.map_values(|c: Vec<u8>| c@) == header_cells(text@),
                rows.len() == row_cells(text@).len(),
                forall|k: int| 0 <= k < rows.len() ==> (#[trigger] rows[k])@.map_values(
                    |c: Vec<u8>| c@,
                ) == row_cells(text@)[k],
                forall|k: int| 0 <= k < i ==> (#[trigger] rows[k]).len() == n_cols,
            decreases rows.len() - i,
        {
            if rows[i].len() != n_cols {
                proof {
                    assert(rows[i as int]@.map_values(|c: Vec<u8>| c@).len() == rows[i as int].len());
                    assert(row_cells(text@)[i as int].len() != header_cells(text@).len());
                }
                return Err(PolarError::RowLength);
            }
            i += 1;
        }
        proof {
            assert forall|k: int| 0 <= k < row_cells(text@).len() implies (#[trigger] row_cells(
                text@,
            )[k]).len() == header_cells(text@).len() by {
                assert(rows[k]@.map_values(|c: Vec<u8>| c@).len() == rows[k].len());
            }
        }
        let tws = match parse_cells(&header, 1) {
            Some(v) => v,
            None => {
                return Err(PolarError::OutOfRange);
            },
        };
        let mut twa: Vec<i64> = Vec::new();
        let mut speeds: Vec<Vec<i64>> = Vec::new();
        let mut i: usize = 0;
        while i < rows.len()
            invariant
                i <= rows.len(),
                n_cols == header.len(),
                lines_of(text@).len() > 0,
                header@.map_values(|c: Vec<u8>| c@) == header_cells(text@),
                n_cols >= 1,
                forall|k: int| 0 <= k < rows.len() ==> (#[trigger] rows[k]).len() == n_cols,
                rows.len() == row_cells(text@).len(),
                forall|k: int| 0 <= k < rows.len() ==> (#[trigger] rows[k])@.map_values(
                    |c: Vec<u8>| c@,
                ) == row_cells(text@)[k],
                twa.len() == i,
                speeds.len() == i,
                forall|k: int| 0 <= k < i ==> cells_in_range(#[trigger] row_cells(text@)[k], 0),
                forall|k: int| 0 <= k < i ==> #[trigger] twa[k] == cell_value(row_cells(text@)[k][0]),
                forall|k: int|
                    0 <= k < i ==> (#[trigger] speeds[k]).len() == n_cols - 1 && in_polar_range(
                        speeds[k]@,
                    ) && -POLAR_LIMIT <= twa[k] <= POLAR_LIMIT,
                forall|k: int, j: int|
                    0 <= k < i && 0 <= j < n_cols - 1 ==> #[trigger] speeds[k][j] == cell_value(
                        row_cells(text@)[k][j + 1],
                    ),
            decreases rows.len() - i,
        {
            let vals = match parse_cells(&rows[i], 0) {
                Some(v) => v,
                None => {
                    proof {
                        assert(rows[i as int]@.map_values(|c: Vec<u8>| c@) == row_cells(text@)[i as int]);
                        assert(!cells_in_range(row_cells(text@)[i as int], 0));
                        assert forall|k: int| 0 <= k < row_cells(text@).len() implies (#[trigger] row_cells(
                            text@,
                        )[k]).len() == header_cells(text@).len() by {
                            assert(rows[k]@.map_values(|c: Vec<u8>| c@).len() == rows[k].len());
                        }
                    }
                    return Err(PolarError::OutOfRange);
                },
            };
            proof {
                assert(rows[i as int]@.map_values(|c: Vec<u8>| c@) == row_cells(text@)[i as int]);
                assert forall|j: int| 0 <= j < vals.len() implies #[trigger] vals[j] == cell_value(
                    row_cells(text@)[i as int][j],
                ) && -POLAR_LIMIT <= vals[j] <= POLAR_LIMIT by {
                    assert(rows[i as int]@.map_values(|c: Vec<u8>| c@)[j] == rows[i as int][j]@);
                }
            }
            twa.push(vals[0]);
            let mut sp: Vec<i64> = Vec::new();
            let mut j: usize = 1;
            while j < vals.len()
                invariant
                    1 <= j <= vals.len(),
                    sp.len() == j - 1,
                    forall|q: int| 0 <= q < sp.len() ==> #[trigger] sp[q] == vals[q + 1],
                decreases vals.len() - j,
            {
                sp.push(vals[j]);
                j += 1;
            }
            speeds.push(sp);
            i += 1;
        }
        proof {
            assert forall|j: int| 0 <= j < tws.len() implies -POLAR_LIMIT <= #[trigger] tws[j]
                <= POLAR_LIMIT && tws[j] == cell_value(header_cells(text@)[j + 1]) by {
                assert(header@.map_values(|c: Vec<u8>| c@)[j + 1] == header[j + 1]@);
            }
            assert(tws@ =~= header_tws(text@));
            assert(twa@ =~= rows_twa(text@));
        }
        if !ascending_exec(&tws) || !ascending_exec(&twa) {
            return Err(PolarError::Unsorted);
        }
        let p = PolarData { tws, twa, speeds };
        assert(p.wf());
        Ok(p)
    }
}

} // verus!
