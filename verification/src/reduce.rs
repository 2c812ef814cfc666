use vstd::prelude::*;
use vstd::pervasive::VecAdditionalExecFns;
use crate::bignum::{BigNum, big_mul, big_sub, big_lt};
use crate::dec::{
    Dec, DecVal, dec_add, dec_sub, dec_mul, dec_div, dec_with_prec, dec_le, dec_lt, dec_round_int,
    dec_eq_val, dec_add_val, dec_mul_val, dec_div_val, dec_le_val, dec_abs_val, scale_in_range,
};
use crate::lattice::{vals, dot};
use crate::linalg::{
    in_lattice, vec_sub_scaled, lemma_row_in_lattice, lemma_lattice_closed_sub_scaled,
    lemma_sub_lattice, max_abs_upto,
};
use crate::clock::{instant_now, instant_elapsed, duration_millis};

verus! {

/// The alphabet size: a candidate row must keep every coefficient strictly
/// below it in absolute value.
pub const SIGMA: u64 = 26;

/// The internally enforced delta bound: (delta + 1) / 2, as the wrappers
/// compute it.
pub open spec fn shifted_delta(d: DecVal) -> DecVal {
    let sum = dec_add_val(d, DecVal { m: 1, s: 0 });
    dec_div_val(sum.m, sum.s, 2, 0)
}

/// The internally enforced eta bound built from a representation `e` of
/// 2 * eta: (e + 1) / 4, as the wrappers compute it.
pub open spec fn shifted_eta_from(e: DecVal) -> DecVal {
    let sum = dec_add_val(e, DecVal { m: 1, s: 0 });
    dec_div_val(sum.m, sum.s, 4, 0)
}

/// A row solves the search when its first `k` entries (the hash image) are
/// all zero and no coefficient reaches the alphabet size in absolute value.
pub open spec fn row_is_valid(v: Seq<int>, k: int) -> bool {
    &&& forall|j: int| 0 <= j < k ==> v[j] == 0
    &&& max_abs_upto(v, k, v.len() as int) < SIGMA as int
}

/// Why one size-reduction pass over a row ended.
pub enum RowExit {
    /// Every stored projection coefficient of the row is within the shifted
    /// eta bound.
    Small,
    /// The row already solves the search.
    Solution,
    /// The wall-clock timeout fired.
    TimedOut,
    /// The iteration budget ran out.
    Exhausted,
    /// A zero Gram-Schmidt norm or an out-of-window scale was met and the
    /// reduction was abandoned.
    Degenerate,
}

/// Why the whole reduction ended.
pub enum ReduceExit {
    /// The working index reached the basis size: every row is size-reduced.
    Completed,
    /// A row solving the search was met and the reduction stopped early.
    Solution,
    /// The wall-clock timeout fired.
    TimedOut,
    /// The iteration budget ran out.
    Exhausted,
    /// A zero Gram-Schmidt norm or an out-of-window scale was met and the
    /// reduction was abandoned.
    Degenerate,
}

/// Frames compose: a state that differs from `mid` only in row `kk`, where
/// `mid` differs from `base` only in row `kk`, differs from `base` only in
/// row `kk`.
pub proof fn lemma_frame_step(cur: L2, mid: L2, base: L2, kk: int)
    requires
        mid.same_rows_except(base, kk),
        cur.same_rows_except(mid, kk),
        mid.b@.len() == base.b@.len(),
        mid.r@.len() == base.r@.len(),
        mid.mu@.len() == base.mu@.len(),
        mid.s@.len() == base.s@.len(),
    ensures
        cur.same_rows_except(base, kk),
{
}

/// A size-reduced row stays size-reduced when its stored coefficients and
/// the eta bound are untouched.
pub proof fn lemma_size_reduced_row_framed(cur: L2, prev: L2, t: int)
    requires
        cur.mu@.len() == prev.mu@.len(),
        0 <= t < prev.mu@.len(),
        cur.mu@[t] == prev.mu@[t],
        cur.eta == prev.eta,
        prev.size_reduced_row(t),
    ensures
        cur.size_reduced_row(t),
{
    assert forall|j: int| 0 <= j < t implies dec_le_val(
        dec_abs_val(#[trigger] ((cur.mu@[t])@[j])@),
        cur.eta@,
    ) by {
        assert(((cur.mu@[t])@[j])@ == ((prev.mu@[t])@[j])@);
        assert(dec_le_val(dec_abs_val(((prev.mu@[t])@[j])@), prev.eta@));
    }
}

/// Size-reducedness of all rows below `upto` survives changes that keep those
/// rows of `mu` and the eta bound.
pub proof fn lemma_reduced_rows_mu_framed(cur: L2, prev: L2, upto: int)
    requires
        cur.mu@.len() == prev.mu@.len(),
        upto <= prev.mu@.len(),
        forall|t: int| 1 <= t < upto ==> cur.mu@[t] == prev.mu@[t],
        cur.eta == prev.eta,
        prev.rows_size_reduced(upto),
    ensures
        cur.rows_size_reduced(upto),
{
    assert forall|t: int| 1 <= t < upto implies #[trigger] cur.size_reduced_row(t) by {
        lemma_size_reduced_row_framed(cur, prev, t);
    }
}

/// Update one entry of a matrix held as a vector of rows.
pub(crate) fn mat_set<T>(m: &mut Vec<Vec<T>>, i: usize, j: usize, v: T)
    requires
        i < old(m)@.len(),
        j < old(m)@[i as int]@.len(),
    ensures
        final(m)@.len() == old(m)@.len(),
        final(m)@[i as int]@ == old(m)@[i as int]@.update(j as int, v),
        forall|t: int| 0 <= t < old(m)@.len() && t != i ==> final(m)@[t] == old(m)@[t],
{
    let row = &mut m[i];
    row.set(j, v);
}

/// The state of one reduction in progress: the integer basis, the
/// Gram-Schmidt data held as decimals, the shifted bounds, and the clock.
pub struct L2 {
    pub b: Vec<Vec<BigNum>>,
    pub r: Vec<Vec<Dec>>,
    pub mu: Vec<Vec<Dec>>,
    pub s: Vec<Vec<Dec>>,
    pub delta: Dec,
    pub eta: Dec,
    pub precision: u64,
    pub timeout_millis: u64,
    pub start: std::time::Instant,
    pub n_: usize,
}

impl L2 {
    pub open spec fn size(self) -> int {
        self.b@.len() as int
    }

    /// The basis as a matrix of mathematical integers.
    pub open spec fn bvals(self) -> Seq<Seq<int>> {
        self.b@.map_values(|row: Vec<BigNum>| vals(row@))
    }

    pub open spec fn wf(self) -> bool {
        &&& 1 <= self.b@.len()
        &&& self.n_ < self.b@.len()
        &&& forall|i: int| 0 <= i < self.size() ==> (#[trigger] self.b@[i])@.len() == self.size()
        &&& self.r@.len() == self.size()
        &&& forall|i: int| 0 <= i < self.size() ==> (#[trigger] self.r@[i])@.len() == self.size()
        &&& self.mu@.len() == self.size()
        &&& forall|i: int| 0 <= i < self.size() ==> (#[trigger] self.mu@[i])@.len() == self.size()
        &&& self.s@.len() == self.size()
        &&& forall|i: int| 0 <= i < self.size() ==> (#[trigger] self.s@[i])@.len() == self.size()
    }

    /// The fields a reduction never changes, and the basis dimensions.
    pub open spec fn same_aux(self, o: L2) -> bool {
        &&& self.n_ == o.n_
        &&& self.precision == o.precision
        &&& self.timeout_millis == o.timeout_millis
        &&& self.start == o.start
        &&& self.delta == o.delta
        &&& self.eta == o.eta
        &&& self.b@.len() == o.b@.len()
    }

    /// Every row of the current basis lies in the lattice spanned by `b0`.
    pub open spec fn rows_in_lattice(self, b0: Seq<Seq<int>>) -> bool {
        forall|t: int|
            0 <= t < self.size() ==> in_lattice(#[trigger] self.bvals()[t], b0, self.size())
    }

    /// Every row of `b0` lies in the lattice spanned by the current basis, so
    /// nothing of the original span has been lost.
    pub open spec fn lattice_spans(self, b0: Seq<Seq<int>>) -> bool {
        forall|t: int|
            0 <= t < b0.len() ==> in_lattice(#[trigger] b0[t], self.bvals(), self.size())
    }

    /// Rows of the four matrices other than `kk` agree with `o`'s.
    pub open spec fn same_rows_except(self, o: L2, kk: int) -> bool {
        &&& forall|t: int| 0 <= t < o.b@.len() && t != kk ==> self.b@[t] == o.b@[t]
        &&& forall|t: int| 0 <= t < o.r@.len() && t != kk ==> self.r@[t] == o.r@[t]
        &&& forall|t: int| 0 <= t < o.mu@.len() && t != kk ==> self.mu@[t] == o.mu@[t]
        &&& forall|t: int| 0 <= t < o.s@.len() && t != kk ==> self.s@[t] == o.s@[t]
    }

    /// Every stored projection coefficient of row `t` is within the shifted
    /// eta bound: the row is size-reduced at the working precision.
    pub open spec fn size_reduced_row(self, t: int) -> bool {
        forall|j: int|
            0 <= j < t ==> dec_le_val(dec_abs_val(#[trigger] ((self.mu@[t])@[j])@), self.eta@)
    }

    /// Every row below `upto` is size-reduced.
    pub open spec fn rows_size_reduced(self, upto: int) -> bool {
        forall|t: int| 1 <= t < upto ==> #[trigger] self.size_reduced_row(t)
    }

    /// Builds the state for one reduction over basis `b`: the bounds are
    /// shifted to the internally enforced delta' = (delta + 1) / 2 and
    /// eta' = (2 * eta + 1) / 4, the Gram-Schmidt matrices start at zero,
    /// and the clock starts now. The stored delta' is pinned exactly over the
    /// decimal names; the stored eta' is pinned up to the representation the
    /// product `2 * eta` came back with, which multiplication only fixes in
    /// value and scale.
    pub fn new(
        b: Vec<Vec<BigNum>>,
        delta: Dec,
        eta: Dec,
        precision: u64,
        timeout_millis: u64,
        n_: usize,
    ) -> (l: L2)
        requires
            1 <= b@.len(),
            n_ < b@.len(),
            forall|i: int| 0 <= i < b@.len() ==> (#[trigger] b@[i])@.len() == b@.len(),
            scale_in_range(delta@.s),
            scale_in_range(eta@.s),
        ensures
            l.wf(),
            l.b == b,
            l.n_ == n_,
            l.precision == precision,
            l.timeout_millis == timeout_millis,
            l.delta@ == shifted_delta(delta@),
            exists|e: DecVal|
                #![auto]
                dec_eq_val(e, dec_mul_val(eta@, DecVal { m: 2, s: 0 })) && scale_in_range(e.s)
                    && l.eta@ == shifted_eta_from(e),
            forall|i: int, j: int|
                0 <= i < l.size() && 0 <= j < l.size() ==> #[trigger] ((l.r@[i])@[j])@ == (DecVal {
                    m: 0,
                    s: 0,
                }),
            forall|i: int, j: int|
                0 <= i < l.size() && 0 <= j < l.size() ==> #[trigger] ((l.mu@[i])@[j])@ == (DecVal {
                    m: 0,
                    s: 0,
                }),
            forall|i: int, j: int|
                0 <= i < l.size() && 0 <= j < l.size() ==> #[trigger] ((l.s@[i])@[j])@ == (DecVal {
                    m: 0,
                    s: 0,
                }),
    {
        let n = b.len();
        let one = Dec::from_i64(1);
        let two = Dec::from_i64(2);
        let four = Dec::from_i64(4);
        let delta2 = dec_div(&dec_add(&delta, &one), &two);
        let eta_doubled = dec_mul(&eta, &two);
        let eta2 = dec_div(&dec_add(&eta_doubled, &one), &four);
        proof {
            assert(dec_eq_val(eta_doubled@, dec_mul_val(eta@, DecVal { m: 2, s: 0 }))
                && scale_in_range(eta_doubled@.s) && eta2@ == shifted_eta_from(eta_doubled@));
        }
        let mut r: Vec<Vec<Dec>> = Vec::new();
        while r.len() < n
            invariant
                r@.len() <= n,
                forall|i: int| 0 <= i < r@.len() ==> (#[trigger] r@[i])@.len() == n,
                forall|i: int, j: int|
                    0 <= i < r@.len() && 0 <= j < n ==> #[trigger] ((r@[i])@[j])@ == (DecVal {
                        m: 0,
                        s: 0,
                    }),
            decreases n - r@.len(),
        {
            let mut row: Vec<Dec> = Vec::new();
            while row.len() < n
                invariant
                    row@.len() <= n,
                    forall|j: int|
                        0 <= j < row@.len() ==> (#[trigger] row@[j])@ == (DecVal { m: 0, s: 0 }),
                decreases n - row@.len(),
            {
                row.push(Dec::from_i64(0));
            }
            r.push(row);
        }
        let mut mu: Vec<Vec<Dec>> = Vec::new();
        while mu.len() < n
            invariant
                mu@.len() <= n,
                forall|i: int| 0 <= i < mu@.len() ==> (#[trigger] mu@[i])@.len() == n,
                forall|i: int, j: int|
                    0 <= i < mu@.len() && 0 <= j < n ==> #[trigger] ((mu@[i])@[j])@ == (DecVal {
                        m: 0,
                        s: 0,
                    }),
            decreases n - mu@.len(),
        {
            let mut row: Vec<Dec> = Vec::new();
            while row.len() < n
                invariant
                    row@.len() <= n,
                    forall|j: int|
                        0 <= j < row@.len() ==> (#[trigger] row@[j])@ == (DecVal { m: 0, s: 0 }),
                decreases n - row@.len(),
            {
                row.push(Dec::from_i64(0));
            }
            mu.push(row);
        }
        let mut s: Vec<Vec<Dec>> = Vec::new();
        while s.len() < n
            invariant
                s@.len() <= n,
                forall|i: int| 0 <= i < s@.len() ==> (#[trigger] s@[i])@.len() == n,
                forall|i: int, j: int|
                    0 <= i < s@.len() && 0 <= j < n ==> #[trigger] ((s@[i])@[j])@ == (DecVal {
                        m: 0,
                        s: 0,
                    }),
            decreases n - s@.len(),
        {
            let mut row: Vec<Dec> = Vec::new();
            while row.len() < n
                invariant
                    row@.len() <= n,
                    forall|j: int|
                        0 <= j < row@.len() ==> (#[trigger] row@[j])@ == (DecVal { m: 0, s: 0 }),
                decreases n - row@.len(),
            {
                row.push(Dec::from_i64(0));
            }
            s.push(row);
        }
        let start = instant_now();
        L2 { b, r, mu, s, delta: delta2, eta: eta2, precision, timeout_millis, start, n_ }
    }

    /// Milliseconds since the reduction started, clamped to a machine word.
    /// The reading comes from the host clock and nothing is promised of it.
    pub fn runtime_millis(&self) -> u64 {
        let d = instant_elapsed(&self.start);
        let ms = duration_millis(&d);
        if ms > u64::MAX as u128 {
            u64::MAX
        } else {
            ms as u64
        }
    }

    /// Whether the wall-clock timeout has fired. The reading comes from the
    /// host clock and nothing is promised of the answer.
    pub fn check_time_out(&self) -> bool {
        let d = instant_elapsed(&self.start);
        let ms = duration_millis(&d);
        ms > self.timeout_millis as u128
    }

    /// The largest absolute value among the coefficient columns of row `i`.
    pub fn row_max(&self, i: usize) -> (r: BigNum)
        requires
            self.wf(),
            i < self.size(),
        ensures
            r@ == max_abs_upto(self.bvals()[i as int], self.n_ as int, self.size()),
    {
        let n = self.b.len();
        let mut best = BigNum::from_u64(0);
        let mut j: usize = self.n_;
        while j < n
            invariant
                self.wf(),
                i < self.size(),
                n == self.size(),
                self.n_ <= j <= n,
                best@ == max_abs_upto(self.bvals()[i as int], self.n_ as int, j as int),
            decreases n - j,
        {
            let a = self.b[i][j].abs_val();
            proof {
                assert(self.bvals()[i as int] == vals(self.b@[i as int]@));
                assert(self.bvals()[i as int][j as int] == (self.b@[i as int]@[j as int])@);
            }
            if big_lt(&best, &a) {
                best = a;
            }
            j += 1;
        }
        best
    }

    /// Whether row `i` is a valid solution: zero hash image and all
    /// coefficients strictly inside the alphabet.
    pub fn check_row(&self, i: usize) -> (r: bool)
        requires
            self.wf(),
            i < self.size(),
        ensures
            r == row_is_valid(self.bvals()[i as int], self.n_ as int),
    {
        let mut j: usize = 0;
        while j < self.n_
            invariant
                self.wf(),
                i < self.size(),
                j <= self.n_,
                forall|t: int| 0 <= t < j ==> self.bvals()[i as int][t] == 0,
            decreases self.n_ - j,
        {
            proof {
                assert(self.bvals()[i as int] == vals(self.b@[i as int]@));
                assert(self.bvals()[i as int][j as int] == (self.b@[i as int]@[j as int])@);
            }
            if !self.b[i][j].is_zero() {
                return false;
            }
            j += 1;
        }
        let rm = self.row_max(i);
        let sigma = BigNum::from_u64(SIGMA);
        proof {
            assert(self.bvals()[i as int].len() == self.size());
        }
        big_lt(&rm, &sigma)
    }

    /// One pass of the Cholesky-style factorisation: recomputes rows
    /// `0..i` of `r` and `mu` and the running sums `s[i]`, truncating every
    /// intermediate to the configured precision. Returns false when a zero
    /// squared Gram-Schmidt norm turns up, which the construction invariant
    /// rules out for a basis this crate builds, or when a stored scale has
    /// left the window the decimal arithmetic accepts; the caller then
    /// abandons the reduction rather than divide by zero or overflow a scale.
    fn cfa(&mut self, i: usize) -> (ok: bool)
        requires
            old(self).wf(),
            1 <= i < old(self).size(),
        ensures
            final(self).wf(),
            final(self).same_aux(*old(self)),
            final(self).b == old(self).b,
            final(self).same_rows_except(*old(self), i as int),
            ok ==> forall|t: int| 0 <= t < i ==> ((#[trigger] old(self).r@[t])@[t])@.m != 0,
    {
        let n = self.b.len();
        let mut j: usize = 0;
        while j < i
            invariant
                self.wf(),
                old(self).wf(),
                self.same_aux(*old(self)),
                self.b == old(self).b,
                self.same_rows_except(*old(self), i as int),
                j <= i,
                1 <= i < self.size(),
                n == self.size(),
                forall|t: int| 0 <= t < j ==> ((#[trigger] old(self).r@[t])@[t])@.m != 0,
            decreases i - j,
        {
            let d = dot(&self.b[i], &self.b[j]);
            let v = dec_with_prec(&Dec::from_bignum(d), self.precision);
            let ghost c0 = *self;
            mat_set(&mut self.r, i, j, v);
            proof {
                lemma_frame_step(*self, c0, *old(self), i as int);
            }
            let mut kx: usize = 0;
            while kx < j
                invariant
                    self.wf(),
                    old(self).wf(),
                    self.same_aux(*old(self)),
                    self.b == old(self).b,
                    self.same_rows_except(*old(self), i as int),
                    kx <= j < i < self.size(),
                    forall|t: int| 0 <= t < j ==> ((#[trigger] old(self).r@[t])@[t])@.m != 0,
                decreases j - kx,
            {
                if !self.mu[j][kx].scale_ok() || !self.r[i][kx].scale_ok() {
                    return false;
                }
                let mul = dec_mul(&self.mu[j][kx], &self.r[i][kx]);
                if !self.r[i][j].scale_ok() || !mul.scale_ok() {
                    return false;
                }
                let nv = dec_with_prec(&dec_sub(&self.r[i][j], &mul), self.precision);
                let ghost c1 = *self;
                mat_set(&mut self.r, i, j, nv);
                proof {
                    lemma_frame_step(*self, c1, *old(self), i as int);
                }
                kx += 1;
            }
            if self.r[j][j].is_zero() {
                return false;
            }
            proof {
                assert(self.r@[j as int] == old(self).r@[j as int]);
            }
            if !self.r[i][j].scale_ok() || !self.r[j][j].scale_ok() {
                return false;
            }
            let q = dec_div(&self.r[i][j], &self.r[j][j]);
            let ghost c2 = *self;
            mat_set(&mut self.mu, i, j, q);
            proof {
                lemma_frame_step(*self, c2, *old(self), i as int);
            }
            let d2 = dot(&self.b[i], &self.b[i]);
            let v2 = dec_with_prec(&Dec::from_bignum(d2), self.precision);
            let ghost c3 = *self;
            mat_set(&mut self.s, i, 0, v2);
            proof {
                lemma_frame_step(*self, c3, *old(self), i as int);
            }
            let mut m: usize = 1;
            while m <= i
                invariant
                    self.wf(),
                    old(self).wf(),
                    self.same_aux(*old(self)),
                    self.b == old(self).b,
                    self.same_rows_except(*old(self), i as int),
                    1 <= m <= i + 1,
                    i < n,
                    j < i,
                    n == self.size(),
                    forall|t: int| 0 <= t <= j ==> ((#[trigger] old(self).r@[t])@[t])@.m != 0,
                decreases i + 1 - m,
            {
                if !self.mu[i][m - 1].scale_ok() || !self.r[i][m - 1].scale_ok() {
                    return false;
                }
                let mul = dec_mul(&self.mu[i][m - 1], &self.r[i][m - 1]);
                if !self.s[i][m - 1].scale_ok() || !mul.scale_ok() {
                    return false;
                }
                let nv = dec_with_prec(&dec_sub(&self.s[i][m - 1], &mul), self.precision);
                let ghost c4 = *self;
                mat_set(&mut self.s, i, m, nv);
                proof {
                    lemma_frame_step(*self, c4, *old(self), i as int);
                }
                m += 1;
            }
            let last = self.s[i][i].dup();
            let ghost c5 = *self;
            mat_set(&mut self.r, i, i, last);
            proof {
                lemma_frame_step(*self, c5, *old(self), i as int);
            }
            j += 1;
        }
        true
    }

    /// Size-reduces row `kk`: repeats the factorisation and subtracts rounded
    /// multiples of earlier rows until every `|mu[kk][j]|` is within the
    /// shifted eta bound, the row already solves the search, or the timeout
    /// fires. Every basis change subtracts an integer multiple of another
    /// row, so membership in the lattice of `b0` is kept. The fuel bounds the
    /// iteration count so the loop provably ends; it is far too large to be
    /// exhausted in practice.
    fn reduce_row(&mut self, kk: usize, fuel: &mut u64, Ghost(b0): Ghost<Seq<Seq<int>>>) -> (st:
        RowExit)
        requires
            old(self).wf(),
            1 <= kk < old(self).size(),
            old(self).rows_in_lattice(b0),
            old(self).lattice_spans(b0),
        ensures
            final(self).wf(),
            final(self).same_aux(*old(self)),
            final(self).rows_in_lattice(b0),
            final(self).lattice_spans(b0),
            final(self).same_rows_except(*old(self), kk as int),
            *final(fuel) <= *old(fuel),
            st == RowExit::Small ==> final(self).size_reduced_row(kk as int),
            st == RowExit::Solution ==> row_is_valid(
                final(self).bvals()[kk as int],
                old(self).n_ as int,
            ),
    {
        let n = self.b.len();
        loop
            invariant
                self.wf(),
                old(self).wf(),
                self.same_aux(*old(self)),
                self.rows_in_lattice(b0),
                self.lattice_spans(b0),
                self.same_rows_except(*old(self), kk as int),
                1 <= kk < self.size(),
                n == self.size(),
                *fuel <= *old(fuel),
            decreases *fuel,
        {
            if *fuel == 0 {
                return RowExit::Exhausted;
            }
            *fuel = *fuel - 1;
            let ghost snap = *self;
            let ok = self.cfa(kk);
            proof {
                assert(self.b == snap.b);
                assert(self.bvals() == snap.bvals());
                assert(self.rows_in_lattice(b0));
                assert(self.lattice_spans(b0));
                lemma_frame_step(*self, snap, *old(self), kk as int);
            }
            if !ok {
                return RowExit::Degenerate;
            }
            let mut small = true;
            let mut j: usize = 0;
            while j < kk
                invariant
                    self.wf(),
                    kk < self.size(),
                    j <= kk,
                    small == (forall|t: int|
                        0 <= t < j ==> dec_le_val(
                            dec_abs_val(#[trigger] ((self.mu@[kk as int])@[t])@),
                            self.eta@,
                        )),
                decreases kk - j,
            {
                let a = self.mu[kk][j].abs_val();
                if !dec_le(&a, &self.eta) {
                    small = false;
                }
                proof {
                    assert(a@ == dec_abs_val(((self.mu@[kk as int])@[j as int])@));
                }
                j += 1;
            }
            if small {
                return RowExit::Small;
            }
            if self.check_row(kk) {
                return RowExit::Solution;
            }
            if self.check_time_out() {
                return RowExit::TimedOut;
            }
            let mut i: usize = kk;
            while i > 0
                invariant
                    self.wf(),
                    old(self).wf(),
                    self.same_aux(*old(self)),
                    self.rows_in_lattice(b0),
                    self.lattice_spans(b0),
                    self.same_rows_except(*old(self), kk as int),
                    i <= kk < self.size(),
                    n == self.size(),
                    *fuel <= *old(fuel),
                decreases i,
            {
                i -= 1;
                if !self.mu[kk][i].scale_ok() {
                    return RowExit::Degenerate;
                }
                let x = dec_round_int(&self.mu[kk][i]);
                let xd = Dec::from_bignum(x.dup());
                let mut j2: usize = 0;
                while j2 < i
                    invariant
                        self.wf(),
                        old(self).wf(),
                        self.same_aux(*old(self)),
                        self.rows_in_lattice(b0),
                        self.lattice_spans(b0),
                        self.same_rows_except(*old(self), kk as int),
                        j2 <= i < kk < self.size(),
                        xd@.s == 0,
                        *fuel <= *old(fuel),
                    decreases i - j2,
                {
                    let ghost pr1 = *self;
                    if !self.mu[i][j2].scale_ok() {
                        return RowExit::Degenerate;
                    }
                    let mul = dec_with_prec(&dec_mul(&xd, &self.mu[i][j2]), self.precision);
                    if !self.mu[kk][j2].scale_ok() || !mul.scale_ok() {
                        return RowExit::Degenerate;
                    }
                    let nv = dec_with_prec(&dec_sub(&self.mu[kk][j2], &mul), self.precision);
                    mat_set(&mut self.mu, kk, j2, nv);
                    proof {
                        assert(self.b == pr1.b);
                        assert(self.bvals() == pr1.bvals());
                        assert(self.rows_in_lattice(b0));
                        assert(self.lattice_spans(b0));
                        lemma_frame_step(*self, pr1, *old(self), kk as int);
                    }
                    j2 += 1;
                }
                let ghost pre = *self;
                let ghost old_bk = vals(self.b@[kk as int]@);
                let ghost wrow = vals(self.b@[i as int]@);
                proof {
                    assert(pre.bvals()[kk as int] == vals(pre.b@[kk as int]@));
                    assert(pre.bvals()[i as int] == vals(pre.b@[i as int]@));
                    assert(in_lattice(old_bk, b0, n as int));
                    assert(in_lattice(wrow, b0, n as int));
                }
                let mut j3: usize = 0;
                while j3 < n
                    invariant
                        pre.wf(),
                        old(self).wf(),
                        pre.rows_in_lattice(b0),
                        pre.lattice_spans(b0),
                        pre.same_rows_except(*old(self), kk as int),
                        pre.same_aux(*old(self)),
                        in_lattice(old_bk, b0, n as int),
                        in_lattice(wrow, b0, n as int),
                        i < kk < pre.size(),
                        n == pre.size(),
                        j3 <= n,
                        old_bk == vals(pre.b@[kk as int]@),
                        wrow == vals(pre.b@[i as int]@),
                        self.r == pre.r,
                        self.mu == pre.mu,
                        self.s == pre.s,
                        self.n_ == pre.n_,
                        self.precision == pre.precision,
                        self.timeout_millis == pre.timeout_millis,
                        self.start == pre.start,
                        self.delta == pre.delta,
                        self.eta == pre.eta,
                        self.b@.len() == pre.b@.len(),
                        forall|t: int| 0 <= t < n && t != kk ==> self.b@[t] == pre.b@[t],
                        (self.b@[kk as int])@.len() == n,
                        forall|c: int|
                            0 <= c < j3 ==> #[trigger] ((self.b@[kk as int])@[c])@ == old_bk[c]
                                - x@ * wrow[c],
                        forall|c: int|
                            j3 <= c < n ==> #[trigger] ((self.b@[kk as int])@[c])@ == old_bk[c],
                    decreases n - j3,
                {
                    let prod = big_mul(&x, &self.b[i][j3]);
                    let nv = big_sub(&self.b[kk][j3], &prod);
                    proof {
                        assert(((self.b@[i as int])@[j3 as int])@ == wrow[j3 as int]);
                    }
                    mat_set(&mut self.b, kk, j3, nv);
                    j3 += 1;
                }
                proof {
                    assert(vals(self.b@[kk as int]@) =~= vec_sub_scaled(old_bk, wrow, x@));
                    assert(pre.bvals()[kk as int] == old_bk);
                    assert(pre.bvals()[i as int] == wrow);
                    assert(old_bk.len() == n);
                    assert(wrow.len() == n);
                    lemma_lattice_closed_sub_scaled(old_bk, wrow, x@, b0, n as int);
                    assert forall|t: int| 0 <= t < n implies in_lattice(
                        #[trigger] self.bvals()[t],
                        b0,
                        n as int,
                    ) by {
                        if t == kk {
                            assert(self.bvals()[t] == vals(self.b@[t]@));
                        } else {
                            assert(self.bvals()[t] == vals(self.b@[t]@));
                            assert(pre.bvals()[t] == vals(pre.b@[t]@));
                            assert(self.b@[t] == pre.b@[t]);
                        }
                    }
                    assert forall|t: int| 0 <= t < n implies (#[trigger] self.b@[t])@.len()
                        == n by {
                        if t != kk {
                            assert(self.b@[t] == pre.b@[t]);
                        }
                    }
                    assert(self.r == pre.r);
                    assert(self.mu == pre.mu);
                    assert(self.s == pre.s);
                    assert(self.wf());
                    let newrow = vals(self.b@[kk as int]@);
                    let wnew = vals(self.b@[i as int]@);
                    assert(self.b@[i as int] == pre.b@[i as int]);
                    assert(wnew == wrow);
                    assert(newrow.len() == n);
                    assert(wnew.len() == n);
                    assert forall|c: int| 0 <= c < n implies old_bk[c] == vec_sub_scaled(
                        newrow,
                        wnew,
                        -(x@),
                    )[c] by {
                        assert(newrow[c] == (self.b@[kk as int]@[c])@);
                        assert(wnew[c] == (self.b@[i as int]@[c])@);
                        assert(newrow[c] == old_bk[c] - x@ * wrow[c]);
                        assert(vec_sub_scaled(newrow, wnew, -(x@))[c] == newrow[c] - (-(x@))
                            * wnew[c]);
                        assert((-(x@)) * wnew[c] == -(x@ * wnew[c])) by (nonlinear_arith);
                        assert(wnew[c] == wrow[c]);
                    }
                    assert(old_bk =~= vec_sub_scaled(newrow, wnew, -(x@)));
                    assert(newrow == self.bvals()[kk as int]);
                    assert(wnew == self.bvals()[i as int]);
                    lemma_row_in_lattice(self.bvals(), kk as int, n as int);
                    lemma_row_in_lattice(self.bvals(), i as int, n as int);
                    lemma_lattice_closed_sub_scaled(newrow, wnew, -(x@), self.bvals(), n as int);
                    assert forall|t: int| 0 <= t < n implies in_lattice(
                        #[trigger] pre.bvals()[t],
                        self.bvals(),
                        n as int,
                    ) by {
                        if t == kk {
                            assert(pre.bvals()[t] == old_bk);
                        } else {
                            assert(pre.bvals()[t] == vals(pre.b@[t]@));
                            assert(self.bvals()[t] == vals(self.b@[t]@));
                            assert(self.b@[t] == pre.b@[t]);
                            lemma_row_in_lattice(self.bvals(), t, n as int);
                        }
                    }
                    assert forall|t: int| 0 <= t < pre.bvals().len() implies (
                    #[trigger] pre.bvals()[t]).len() == n by {
                        assert(pre.bvals()[t] == vals(pre.b@[t]@));
                    }
                    assert forall|u: int| 0 <= u < b0.len() implies in_lattice(
                        #[trigger] b0[u],
                        self.bvals(),
                        n as int,
                    ) by {
                        assert(in_lattice(b0[u], pre.bvals(), n as int));
                        lemma_sub_lattice(b0[u], pre.bvals(), self.bvals(), n as int);
                    }
                    assert(self.lattice_spans(b0));
                    lemma_frame_step(*self, pre, *old(self), kk as int);
                }
            }
        }
    }

    /// Runs the L2 reduction to completion, early solution, or timeout. Every
    /// row of the final basis is an integer linear combination of the rows of
    /// `b0`, the basis the reduction started from: row operations subtract
    /// integer multiples and the deep insertion only rotates rows. On a
    /// completed run every row is size-reduced against the stored shifted eta
    /// bound; the stored Lovasz sums of rows a deep insertion moved are stale
    /// by construction, so no clause is stated over them.
    pub fn reduce(&mut self, Ghost(b0): Ghost<Seq<Seq<int>>>) -> (st: ReduceExit)
        requires
            old(self).wf(),
            old(self).rows_in_lattice(b0),
            old(self).lattice_spans(b0),
        ensures
            final(self).wf(),
            final(self).same_aux(*old(self)),
            final(self).rows_in_lattice(b0),
            final(self).lattice_spans(b0),
            st == ReduceExit::Completed ==> final(self).rows_size_reduced(final(self).size()),
            st == ReduceExit::Solution ==> exists|t: int|
                0 <= t < final(self).size() && row_is_valid(
                    #[trigger] final(self).bvals()[t],
                    final(self).n_ as int,
                ),
    {
        let n = self.b.len();
        let d = dot(&self.b[0], &self.b[0]);
        let v = dec_with_prec(&Dec::from_bignum(d), self.precision);
        let ghost pr0 = *self;
        mat_set(&mut self.r, 0, 0, v);
        proof {
            assert(self.b == pr0.b);
            assert(self.bvals() == pr0.bvals());
            assert(self.rows_in_lattice(b0));
            assert(self.lattice_spans(b0));
        }
        let mut fuel: u64 = 0xffff_ffff_ffff_ffff;
        let mut kk: usize = 1;
        while kk < n
            invariant
                self.wf(),
                old(self).wf(),
                self.same_aux(*old(self)),
                self.rows_in_lattice(b0),
                self.lattice_spans(b0),
                self.rows_size_reduced(kk as int),
                1 <= kk <= n,
                n == self.size(),
            decreases fuel,
        {
            if fuel == 0 {
                return ReduceExit::Exhausted;
            }
            fuel = fuel - 1;
            let ghost prev = *self;
            let rst = self.reduce_row(kk, &mut fuel, Ghost(b0));
            proof {
                assert forall|t: int| 1 <= t < kk implies self.mu@[t] == prev.mu@[t] by {
                    assert(t != kk);
                }
                lemma_reduced_rows_mu_framed(*self, prev, kk as int);
            }
            match rst {
                RowExit::Degenerate => {
                    return ReduceExit::Degenerate;
                },
                RowExit::TimedOut => {
                    return ReduceExit::TimedOut;
                },
                RowExit::Exhausted => {
                    return ReduceExit::Exhausted;
                },
                RowExit::Solution => {
                    return ReduceExit::Solution;
                },
                RowExit::Small => {},
            }
            if self.check_row(kk) {
                return ReduceExit::Solution;
            }
            if self.check_time_out() {
                return ReduceExit::TimedOut;
            }
            proof {
                assert(self.size_reduced_row(kk as int));
                assert(self.rows_size_reduced(kk + 1));
            }
            let k_ = kk;
            while kk >= 1
                invariant
                    self.wf(),
                    old(self).wf(),
                    self.same_aux(*old(self)),
                    self.rows_in_lattice(b0),
                    self.lattice_spans(b0),
                    self.rows_size_reduced(k_ + 1),
                    kk <= k_ < self.size(),
                    n == self.size(),
                decreases kk,
            {
                if !self.delta.scale_ok() || !self.r[kk - 1][kk - 1].scale_ok() {
                    return ReduceExit::Degenerate;
                }
                let prod = dec_mul(&self.delta, &self.r[kk - 1][kk - 1]);
                if !dec_lt(&self.s[k_][kk - 1], &prod) {
                    break ;
                }
                kk -= 1;
            }
            if k_ != kk {
                let mut i2: usize = 0;
                while i2 < kk
                    invariant
                        self.wf(),
                        old(self).wf(),
                        self.same_aux(*old(self)),
                        self.rows_in_lattice(b0),
                        self.lattice_spans(b0),
                        self.rows_size_reduced(kk as int),
                        self.size_reduced_row(k_ as int),
                        i2 <= kk < k_ < self.size(),
                        n == self.size(),
                        forall|t2: int|
                            0 <= t2 < i2 ==> #[trigger] ((self.mu@[kk as int])@[t2])@ == ((
                            self.mu@[k_ as int])@[t2])@,
                    decreases kk - i2,
                {
                    let ghost pr2 = *self;
                    let mv = self.mu[k_][i2].dup();
                    mat_set(&mut self.mu, kk, i2, mv);
                    let rv = self.r[k_][i2].dup();
                    mat_set(&mut self.r, kk, i2, rv);
                    proof {
                        assert(self.b == pr2.b);
                        assert(self.bvals() == pr2.bvals());
                        assert(self.rows_in_lattice(b0));
                        assert(self.lattice_spans(b0));
                        assert(self.mu@[k_ as int] == pr2.mu@[k_ as int]);
                        assert forall|t: int| 1 <= t < kk implies self.mu@[t] == pr2.mu@[t] by {
                            assert(t != kk);
                        }
                        lemma_reduced_rows_mu_framed(*self, pr2, kk as int);
                        lemma_size_reduced_row_framed(*self, pr2, k_ as int);
                    }
                    i2 += 1;
                }
                proof {
                    assert forall|j4: int| 0 <= j4 < kk implies dec_le_val(
                        dec_abs_val(#[trigger] ((self.mu@[kk as int])@[j4])@),
                        self.eta@,
                    ) by {
                        assert(((self.mu@[kk as int])@[j4])@ == ((self.mu@[k_ as int])@[j4])@);
                        assert(dec_le_val(
                            dec_abs_val(((self.mu@[k_ as int])@[j4])@),
                            self.eta@,
                        ));
                    }
                    assert(self.size_reduced_row(kk as int));
                    assert(self.rows_size_reduced(kk + 1));
                }
                let ghost pr3 = *self;
                let sv = self.s[k_][kk].dup();
                mat_set(&mut self.r, kk, kk, sv);
                proof {
                    assert(self.b == pr3.b);
                    assert(self.bvals() == pr3.bvals());
                    assert(self.rows_in_lattice(b0));
                    assert(self.lattice_spans(b0));
                    assert(self.mu == pr3.mu);
                    lemma_reduced_rows_mu_framed(*self, pr3, kk + 1);
                }
                // Rotate the block of rows kk..=k_ right by one: the former
                // row k_ becomes row kk and the others shift down.
                let ghost pre = *self;
                let moved = self.b.remove(k_);
                self.b.insert(kk, moved);
                proof {
                    let rem = pre.b@.remove(k_ as int);
                    pre.b@.remove_ensures(k_ as int);
                    rem.insert_ensures(kk as int, pre.b@[k_ as int]);
                    assert(self.b@ == rem.insert(kk as int, pre.b@[k_ as int]));
                    assert(self.b@.len() == pre.b@.len());
                    assert forall|t: int| 0 <= t < n implies (#[trigger] self.b@[t])
                        == pre.b@[rotate_src(t, kk as int, k_ as int)] by {
                        if t < kk as int {
                            assert(self.b@[t] == rem[t]);
                            assert(rem[t] == pre.b@[t]);
                        } else if t == kk as int {
                            assert(self.b@[t] == pre.b@[k_ as int]);
                        } else {
                            assert(self.b@[(t - 1) + 1] == rem[t - 1]);
                            if t <= k_ as int {
                                assert(rem[t - 1] == pre.b@[t - 1]);
                            } else {
                                assert(rem[t - 1] == pre.b@[t]);
                            }
                        }
                    }
                    assert forall|t: int| 0 <= t < n implies in_lattice(
                        #[trigger] self.bvals()[t],
                        b0,
                        n as int,
                    ) by {
                        let u = rotate_src(t, kk as int, k_ as int);
                        assert(self.bvals()[t] == vals(self.b@[t]@));
                        assert(pre.bvals()[u] == vals(pre.b@[u]@));
                        assert(in_lattice(pre.bvals()[u], b0, n as int));
                    }
                    assert forall|t: int| 0 <= t < n implies (#[trigger] self.b@[t])@.len()
                        == n by {
                        let u = rotate_src(t, kk as int, k_ as int);
                        assert(self.b@[t] == pre.b@[u]);
                    }
                    assert(self.wf());
                    assert(self.mu == pre.mu);
                    lemma_reduced_rows_mu_framed(*self, pre, kk + 1);
                    assert forall|u: int| 0 <= u < n implies in_lattice(
                        #[trigger] pre.bvals()[u],
                        self.bvals(),
                        n as int,
                    ) by {
                        let t = rotate_dst(u, kk as int, k_ as int);
                        assert(rotate_src(t, kk as int, k_ as int) == u);
                        assert(self.b@[t] == pre.b@[u]);
                        assert(self.bvals()[t] == vals(self.b@[t]@));
                        assert(pre.bvals()[u] == vals(pre.b@[u]@));
                        lemma_row_in_lattice(self.bvals(), t, n as int);
                    }
                    assert forall|t: int| 0 <= t < pre.bvals().len() implies (
                    #[trigger] pre.bvals()[t]).len() == n by {
                        assert(pre.bvals()[t] == vals(pre.b@[t]@));
                    }
                    assert forall|u: int| 0 <= u < b0.len() implies in_lattice(
                        #[trigger] b0[u],
                        self.bvals(),
                        n as int,
                    ) by {
                        assert(in_lattice(b0[u], pre.bvals(), n as int));
                        lemma_sub_lattice(b0[u], pre.bvals(), self.bvals(), n as int);
                    }
                    assert(self.lattice_spans(b0));
                }
            }
            kk += 1;
        }
        ReduceExit::Completed
    }
}

/// Runs one reduction over the given basis and hands the rows back together
/// with the reason the reduction ended. Whatever state it reached, every
/// returned row is an integer linear combination of the input rows, and every
/// input row still lies in the lattice the returned rows span: the lattice is
/// preserved.
pub fn reduce_basis(
    b: Vec<Vec<BigNum>>,
    delta: Dec,
    eta: Dec,
    precision: u64,
    timeout_millis: u64,
    n_: usize,
) -> (r: (Vec<Vec<BigNum>>, ReduceExit))
    requires
        1 <= b@.len(),
        n_ < b@.len(),
        forall|i: int| 0 <= i < b@.len() ==> (#[trigger] b@[i])@.len() == b@.len(),
        scale_in_range(delta@.s),
        scale_in_range(eta@.s),
    ensures
        r.0@.len() == b@.len(),
        forall|t: int| 0 <= t < r.0@.len() ==> (#[trigger] r.0@[t])@.len() == b@.len(),
        forall|t: int|
            0 <= t < r.0@.len() ==> in_lattice(
                vals((#[trigger] r.0@[t])@),
                b@.map_values(|row: Vec<BigNum>| vals(row@)),
                b@.len() as int,
            ),
        forall|t: int|
            0 <= t < b@.len() ==> in_lattice(
                vals((#[trigger] b@[t])@),
                r.0@.map_values(|row: Vec<BigNum>| vals(row@)),
                b@.len() as int,
            ),
{
    let ghost b0 = b@.map_values(|row: Vec<BigNum>| vals(row@));
    let mut l2 = L2::new(b, delta, eta, precision, timeout_millis, n_);
    proof {
        assert forall|t: int| 0 <= t < l2.size() implies in_lattice(
            #[trigger] l2.bvals()[t],
            b0,
            l2.size(),
        ) by {
            assert(l2.bvals()[t] == vals(l2.b@[t]@));
            lemma_row_in_lattice(b0, t, l2.size());
        }
        assert forall|t: int| 0 <= t < b0.len() implies in_lattice(
            #[trigger] b0[t],
            l2.bvals(),
            l2.size(),
        ) by {
            assert(b0[t] == l2.bvals()[t]);
            assert(l2.bvals()[t] == vals(l2.b@[t]@));
            lemma_row_in_lattice(l2.bvals(), t, l2.size());
        }
    }
    let st = l2.reduce(Ghost(b0));
    proof {
        assert forall|t: int| 0 <= t < l2.b@.len() implies in_lattice(
            vals((#[trigger] l2.b@[t])@),
            b0,
            l2.b@.len() as int,
        ) by {
            assert(l2.bvals()[t] == vals(l2.b@[t]@));
        }
        assert forall|t: int| 0 <= t < b0.len() implies in_lattice(
            vals((#[trigger] b@[t])@),
            l2.b@.map_values(|row: Vec<BigNum>| vals(row@)),
            l2.b@.len() as int,
        ) by {
            assert(b0[t] == vals(b@[t]@));
            assert(l2.bvals() == l2.b@.map_values(|row: Vec<BigNum>| vals(row@)));
        }
    }
    (l2.b, st)
}

/// Where row `t` of the rotated basis came from: rotating rows `kk..=k_`
/// right by one sends row `k_` to position `kk` and shifts the block down.
pub open spec fn rotate_src(t: int, kk: int, k_: int) -> int {
    if t < kk || t > k_ {
        t
    } else if t == kk {
        k_
    } else {
        t - 1
    }
}

/// Where row `u` of the basis lands under the same rotation: the inverse of
/// `rotate_src`.
pub open spec fn rotate_dst(u: int, kk: int, k_: int) -> int {
    if u < kk || u > k_ {
        u
    } else if u == k_ {
        kk
    } else {
        u + 1
    }
}

} // verus!
