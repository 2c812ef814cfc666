use vstd::prelude::*;
use vstd::math::abs;

verus! {

/// Entry `j` of the combination of the first `m` rows with coefficients `c`.
pub open spec fn comb_entry(c: Seq<int>, rows: Seq<Seq<int>>, m: int, j: int) -> int
    decreases m,
{
    if m <= 0 {
        0
    } else {
        comb_entry(c, rows, m - 1, j) + c[m - 1] * rows[m - 1][j]
    }
}

/// The integer linear combination of `rows` with coefficients `c`, as a vector
/// of the given width.
pub open spec fn lin_comb(c: Seq<int>, rows: Seq<Seq<int>>, width: int) -> Seq<int> {
    Seq::new(width as nat, |j: int| comb_entry(c, rows, rows.len() as int, j))
}

/// Whether `v` lies in the lattice spanned over the integers by `rows`.
pub open spec fn in_lattice(v: Seq<int>, rows: Seq<Seq<int>>, width: int) -> bool {
    exists|c: Seq<int>| c.len() == rows.len() && v == lin_comb(c, rows, width)
}

/// The vector `v - x * w`, taken entrywise.
pub open spec fn vec_sub_scaled(v: Seq<int>, w: Seq<int>, x: int) -> Seq<int> {
    Seq::new(v.len(), |j: int| v[j] - x * w[j])
}

/// The coefficient sequence that picks out row `t` alone.
pub open spec fn unit_coeffs(len: int, t: int) -> Seq<int> {
    Seq::new(len as nat, |i: int| if i == t { 1int } else { 0int })
}

pub proof fn lemma_comb_entry_unit(rows: Seq<Seq<int>>, m: int, t: int, j: int)
    requires
        0 <= m <= rows.len(),
    ensures
        comb_entry(unit_coeffs(rows.len() as int, t), rows, m, j) == if 0 <= t < m {
            rows[t][j]
        } else {
            0
        },
    decreases m,
{
    if m > 0 {
        lemma_comb_entry_unit(rows, m - 1, t, j);
    }
}

/// Each row of a basis lies in its own lattice.
pub proof fn lemma_row_in_lattice(rows: Seq<Seq<int>>, t: int, width: int)
    requires
        0 <= t < rows.len(),
        rows[t].len() == width,
        width >= 0,
    ensures
        in_lattice(rows[t], rows, width),
{
    let c = unit_coeffs(rows.len() as int, t);
    assert forall|j: int| 0 <= j < width implies lin_comb(c, rows, width)[j] == rows[t][j] by {
        lemma_comb_entry_unit(rows, rows.len() as int, t, j);
    }
    assert(rows[t] =~= lin_comb(c, rows, width));
    assert(c.len() == rows.len());
    assert(c.len() == rows.len() && rows[t] == lin_comb(c, rows, width));
}

pub proof fn lemma_comb_entry_sub_scaled(
    c1: Seq<int>,
    c2: Seq<int>,
    rows: Seq<Seq<int>>,
    x: int,
    m: int,
    j: int,
)
    requires
        0 <= m <= rows.len(),
        c1.len() == rows.len(),
        c2.len() == rows.len(),
    ensures
        comb_entry(vec_sub_scaled(c1, c2, x), rows, m, j) == comb_entry(c1, rows, m, j) - x
            * comb_entry(c2, rows, m, j),
    decreases m,
{
    if m > 0 {
        lemma_comb_entry_sub_scaled(c1, c2, rows, x, m - 1, j);
        let e1 = comb_entry(c1, rows, m - 1, j);
        let e2 = comb_entry(c2, rows, m - 1, j);
        let a1 = c1[m - 1];
        let a2 = c2[m - 1];
        let w = rows[m - 1][j];
        assert((a1 - x * a2) * w == a1 * w - x * (a2 * w)) by (nonlinear_arith);
        assert(e1 + a1 * w - x * (e2 + a2 * w) == e1 - x * e2 + (a1 * w - x * (a2 * w)))
            by (nonlinear_arith);
    }
}

/// The lattice is closed under subtracting an integer multiple of one member
/// from another.
pub proof fn lemma_lattice_closed_sub_scaled(
    v: Seq<int>,
    w: Seq<int>,
    x: int,
    rows: Seq<Seq<int>>,
    width: int,
)
    requires
        in_lattice(v, rows, width),
        in_lattice(w, rows, width),
        v.len() == width,
        w.len() == width,
    ensures
        in_lattice(vec_sub_scaled(v, w, x), rows, width),
{
    let c1 = choose|c: Seq<int>| c.len() == rows.len() && v == lin_comb(c, rows, width);
    let c2 = choose|c: Seq<int>| c.len() == rows.len() && w == lin_comb(c, rows, width);
    let c = vec_sub_scaled(c1, c2, x);
    assert forall|j: int| 0 <= j < width implies lin_comb(c, rows, width)[j] == vec_sub_scaled(
        v,
        w,
        x,
    )[j] by {
        lemma_comb_entry_sub_scaled(c1, c2, rows, x, rows.len() as int, j);
    }
    assert(vec_sub_scaled(v, w, x) =~= lin_comb(c, rows, width));
    assert(c.len() == rows.len() && vec_sub_scaled(v, w, x) == lin_comb(c, rows, width));
}

pub proof fn lemma_comb_entry_zero_coeffs(rows: Seq<Seq<int>>, m: int, j: int)
    requires
        0 <= m <= rows.len(),
    ensures
        comb_entry(unit_coeffs(rows.len() as int, -1), rows, m, j) == 0,
    decreases m,
{
    if m > 0 {
        lemma_comb_entry_zero_coeffs(rows, m - 1, j);
    }
}

/// The combination of the first `m` rows, as a vector of the given width.
pub open spec fn comb_prefix(c: Seq<int>, rows: Seq<Seq<int>>, m: int, width: int) -> Seq<int> {
    Seq::new(width as nat, |j: int| comb_entry(c, rows, m, j))
}

pub proof fn lemma_comb_prefix_in_lattice(
    c: Seq<int>,
    b1: Seq<Seq<int>>,
    b2: Seq<Seq<int>>,
    m: int,
    width: int,
)
    requires
        0 <= m <= b1.len(),
        width >= 0,
        forall|t: int| 0 <= t < b1.len() ==> (#[trigger] b1[t]).len() == width,
        forall|t: int| 0 <= t < b1.len() ==> in_lattice(#[trigger] b1[t], b2, width),
    ensures
        in_lattice(comb_prefix(c, b1, m, width), b2, width),
    decreases m,
{
    if m == 0 {
        let z = unit_coeffs(b2.len() as int, -1);
        assert forall|j: int| 0 <= j < width implies lin_comb(z, b2, width)[j] == comb_prefix(
            c,
            b1,
            0,
            width,
        )[j] by {
            lemma_comb_entry_zero_coeffs(b2, b2.len() as int, j);
        }
        assert(comb_prefix(c, b1, 0, width) =~= lin_comb(z, b2, width));
        assert(z.len() == b2.len() && comb_prefix(c, b1, 0, width) == lin_comb(z, b2, width));
    } else {
        lemma_comb_prefix_in_lattice(c, b1, b2, m - 1, width);
        let prev = comb_prefix(c, b1, m - 1, width);
        let cur = comb_prefix(c, b1, m, width);
        assert forall|j: int| 0 <= j < width implies cur[j] == vec_sub_scaled(
            prev,
            b1[m - 1],
            -c[m - 1],
        )[j] by {
            assert(cur[j] == comb_entry(c, b1, m, j));
            assert(comb_entry(c, b1, m, j) == comb_entry(c, b1, m - 1, j) + c[m - 1] * b1[m - 1][j]);
            assert(prev[j] == comb_entry(c, b1, m - 1, j));
            assert(vec_sub_scaled(prev, b1[m - 1], -c[m - 1])[j] == prev[j] - (-c[m - 1]) * b1[m
                - 1][j]);
            assert(c[m - 1] * b1[m - 1][j] == -((-c[m - 1]) * b1[m - 1][j])) by (nonlinear_arith);
        }
        assert(cur =~= vec_sub_scaled(prev, b1[m - 1], -c[m - 1]));
        lemma_lattice_closed_sub_scaled(prev, b1[m - 1], -c[m - 1], b2, width);
    }
}

/// A member of the lattice of `b1` lies in the lattice of `b2` whenever every
/// row of `b1` does.
pub proof fn lemma_sub_lattice(v: Seq<int>, b1: Seq<Seq<int>>, b2: Seq<Seq<int>>, width: int)
    requires
        width >= 0,
        in_lattice(v, b1, width),
        forall|t: int| 0 <= t < b1.len() ==> (#[trigger] b1[t]).len() == width,
        forall|t: int| 0 <= t < b1.len() ==> in_lattice(#[trigger] b1[t], b2, width),
    ensures
        in_lattice(v, b2, width),
{
    let c = choose|c: Seq<int>| c.len() == b1.len() && v == lin_comb(c, b1, width);
    assert(v =~= comb_prefix(c, b1, b1.len() as int, width));
    lemma_comb_prefix_in_lattice(c, b1, b2, b1.len() as int, width);
}

/// Two bases whose rows lie in each other's lattices generate the same
/// lattice: membership transfers in both directions.
pub proof fn lemma_same_lattice(v: Seq<int>, b1: Seq<Seq<int>>, b2: Seq<Seq<int>>, width: int)
    requires
        width >= 0,
        forall|t: int| 0 <= t < b1.len() ==> (#[trigger] b1[t]).len() == width,
        forall|t: int| 0 <= t < b2.len() ==> (#[trigger] b2[t]).len() == width,
        forall|t: int| 0 <= t < b1.len() ==> in_lattice(#[trigger] b1[t], b2, width),
        forall|t: int| 0 <= t < b2.len() ==> in_lattice(#[trigger] b2[t], b1, width),
    ensures
        in_lattice(v, b1, width) == in_lattice(v, b2, width),
{
    if in_lattice(v, b1, width) {
        lemma_sub_lattice(v, b1, b2, width);
    }
    if in_lattice(v, b2, width) {
        lemma_sub_lattice(v, b2, b1, width);
    }
}

/// The largest absolute value among entries `from..to` of `v`; zero for an
/// empty range.
pub open spec fn max_abs_upto(v: Seq<int>, from: int, to: int) -> int
    decreases to - from,
{
    if to <= from {
        0
    } else {
        let rest = max_abs_upto(v, from, to - 1);
        if abs(v[to - 1]) as int >= rest {
            abs(v[to - 1]) as int
        } else {
            rest
        }
    }
}

/// A positive range maximum is attained by some non-zero entry.
pub proof fn lemma_max_abs_witness(v: Seq<int>, from: int, to: int)
    requires
        max_abs_upto(v, from, to) > 0,
    ensures
        exists|j: int| from <= j < to && #[trigger] v[j] != 0,
    decreases to - from,
{
    if to > from {
        if abs(v[to - 1]) as int >= max_abs_upto(v, from, to - 1) {
            assert(v[to - 1] != 0);
        } else {
            lemma_max_abs_witness(v, from, to - 1);
        }
    }
}

pub proof fn lemma_max_abs_upto_bound(v: Seq<int>, from: int, to: int, j: int)
    requires
        from <= j < to,
    ensures
        abs(v[j]) <= max_abs_upto(v, from, to),
        max_abs_upto(v, from, to) >= 0,
    decreases to - from,
{
    if j < to - 1 {
        lemma_max_abs_upto_bound(v, from, to - 1, j);
    }
}

} // verus!
