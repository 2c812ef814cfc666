use vstd::prelude::*;
use vstd::arithmetic::power::pow;
use vstd::arithmetic::div_mod::{lemma_add_mod_noop, lemma_mul_mod_noop_right};
use vstd::arithmetic::mul::lemma_mul_nonnegative;
use crate::bignum::{BigNum, big_eq, big_mul, big_add, big_rem, big_lt};
use crate::dec::{
    Dec, DecVal, dec_lt_val, dec_mul_val, dec_lt, dec_mul, lemma_dec_eq_lt_congr, scale_in_range,
};
use crate::lattice::{vals, powers, build_basis, basis_entry};
use crate::linalg::{
    in_lattice, lemma_row_in_lattice, lemma_max_abs_upto_bound, lemma_max_abs_witness,
};
use crate::reduce::{L2, SIGMA};

verus! {

/// The first `n` terms of the rolling hash of a byte string, each power
/// already reduced: the sum of `s[j] * (q^j mod p)`.
pub open spec fn wsum(s: Seq<u8>, q: int, p: int, n: int) -> int
    decreases n,
{
    if n <= 0 {
        0
    } else {
        wsum(s, q, p, n - 1) + (s[n - 1] as int) * (pow(q, (n - 1) as nat) % p)
    }
}

/// The first `n` terms of the rolling hash polynomial of a character string:
/// the sum of `s[j] * q^j`.
pub open spec fn hash_prefix(s: Seq<char>, q: int, n: int) -> int
    decreases n,
{
    if n <= 0 {
        0
    } else {
        hash_prefix(s, q, n - 1) + (s[n - 1] as int) * pow(q, (n - 1) as nat)
    }
}

/// The polynomial rolling hash of `s` under base `q` and modulus `p`.
pub open spec fn poly_hash(s: Seq<char>, q: int, p: int) -> int {
    hash_prefix(s, q, s.len() as int) % p
}

/// Every character of `s` lies in the alphabet, 'a' onwards.
pub open spec fn alpha_ok(s: Seq<char>) -> bool {
    forall|j: int|
        0 <= j < s.len() ==> 97 <= ((#[trigger] s[j]) as int) && (s[j] as int) < 97 + SIGMA as int
}

/// Reducing each power before the sum does not change the hash: the reduced
/// weighted sum and the full polynomial agree modulo `p`.
pub proof fn lemma_wsum_mod(s: Seq<u8>, c: Seq<char>, q: int, p: int, n: int)
    requires
        p >= 1,
        n <= s.len(),
        c.len() == s.len(),
        forall|j: int| 0 <= j < s.len() ==> (#[trigger] c[j]) as int == s[j] as int,
    ensures
        wsum(s, q, p, n) % p == hash_prefix(c, q, n) % p,
    decreases n,
{
    if n > 0 {
        lemma_wsum_mod(s, c, q, p, n - 1);
        let w1 = wsum(s, q, p, n - 1);
        let h1 = hash_prefix(c, q, n - 1);
        let sv = s[n - 1] as int;
        let pw = pow(q, (n - 1) as nat);
        lemma_add_mod_noop(w1, sv * (pw % p), p);
        lemma_mul_mod_noop_right(sv, pw, p);
        lemma_add_mod_noop(h1, sv * pw, p);
        assert((c[n - 1] as int) * pw == sv * pw);
    }
}

/// Recomputes the hash of both byte strings under every modulus-base pair
/// and says whether they agree modulo every modulus: two weighted sums that
/// differ by a multiple of the modulus are the same hash. Every position of
/// both strings enters the recomputation: the whole configured length is
/// walked, never a shorter bound.
pub fn collision_check(a: &Vec<u8>, b: &Vec<u8>, modulo: &Vec<BigNum>, base: &Vec<BigNum>) -> (r:
    bool)
    requires
        a@.len() == b@.len(),
        modulo@.len() == base@.len(),
        forall|i: int| 0 <= i < modulo@.len() ==> (#[trigger] modulo@[i])@ >= 1,
        forall|i: int| 0 <= i < base@.len() ==> (#[trigger] base@[i])@ >= 0,
    ensures
        r == forall|i: int|
            0 <= i < modulo@.len() ==> wsum(a@, base@[i]@, (#[trigger] modulo@[i])@, a@.len() as int)
                % modulo@[i]@ == wsum(b@, base@[i]@, modulo@[i]@, b@.len() as int) % modulo@[i]@,
{
    let k = modulo.len();
    let length = a.len();
    let mut i: usize = 0;
    while i < k
        invariant
            0 <= i <= k,
            k == modulo@.len(),
            k == base@.len(),
            length == a@.len(),
            length == b@.len(),
            forall|t: int| 0 <= t < modulo@.len() ==> (#[trigger] modulo@[t])@ >= 1,
            forall|t: int| 0 <= t < base@.len() ==> (#[trigger] base@[t])@ >= 0,
            forall|t: int|
                0 <= t < i ==> wsum(a@, base@[t]@, (#[trigger] modulo@[t])@, a@.len() as int)
                    % modulo@[t]@ == wsum(b@, base@[t]@, modulo@[t]@, b@.len() as int)
                    % modulo@[t]@,
        decreases k - i,
    {
        let pw = powers(&base[i], &modulo[i], length);
        let mut ha = BigNum::from_u64(0);
        let mut hb = BigNum::from_u64(0);
        let mut j: usize = 0;
        while j < length
            invariant
                0 <= j <= length,
                i < k,
                k == modulo@.len(),
                k == base@.len(),
                length == a@.len(),
                length == b@.len(),
                forall|t: int| 0 <= t < modulo@.len() ==> (#[trigger] modulo@[t])@ >= 1,
                pw@.len() >= length,
                forall|t: int|
                    0 <= t < pw@.len() ==> (#[trigger] pw@[t])@ == pow(base@[i as int]@, t as nat)
                        % modulo@[i as int]@,
                ha@ == wsum(a@, base@[i as int]@, modulo@[i as int]@, j as int),
                hb@ == wsum(b@, base@[i as int]@, modulo@[i as int]@, j as int),
                ha@ >= 0,
                hb@ >= 0,
            decreases length - j,
        {
            let av = BigNum::from_u64(a[j] as u64);
            let bv = BigNum::from_u64(b[j] as u64);
            proof {
                assert(pw@[j as int]@ == pow(base@[i as int]@, j as nat) % modulo@[i as int]@);
                assert(av@ == a@[j as int] as int);
                assert(bv@ == b@[j as int] as int);
                assert(modulo@[i as int]@ >= 1);
                vstd::arithmetic::div_mod::lemma_mod_bound(
                    pow(base@[i as int]@, j as nat),
                    modulo@[i as int]@,
                );
                lemma_mul_nonnegative(pw@[j as int]@, av@);
                lemma_mul_nonnegative(pw@[j as int]@, bv@);
            }
            ha = big_add(&ha, &big_mul(&pw[j], &av));
            hb = big_add(&hb, &big_mul(&pw[j], &bv));
            proof {
                assert(ha@ == wsum(a@, base@[i as int]@, modulo@[i as int]@, j + 1) && hb@ == wsum(
                    b@,
                    base@[i as int]@,
                    modulo@[i as int]@,
                    j + 1,
                )) by (nonlinear_arith)
                    requires
                        ha@ == wsum(a@, base@[i as int]@, modulo@[i as int]@, j as int) + (
                        pw@[j as int])@ * av@,
                        hb@ == wsum(b@, base@[i as int]@, modulo@[i as int]@, j as int) + (
                        pw@[j as int])@ * bv@,
                        0 <= j < a@.len(),
                        b@.len() == a@.len(),
                        (pw@[j as int])@ == pow(base@[i as int]@, j as nat) % modulo@[i as int]@,
                        av@ == a@[j as int] as int,
                        bv@ == b@[j as int] as int,
                        wsum(a@, base@[i as int]@, modulo@[i as int]@, j + 1) == wsum(
                            a@,
                            base@[i as int]@,
                            modulo@[i as int]@,
                            j as int,
                        ) + (a@[j as int] as int) * (pow(base@[i as int]@, j as nat)
                            % modulo@[i as int]@),
                        wsum(b@, base@[i as int]@, modulo@[i as int]@, j + 1) == wsum(
                            b@,
                            base@[i as int]@,
                            modulo@[i as int]@,
                            j as int,
                        ) + (b@[j as int] as int) * (pow(base@[i as int]@, j as nat)
                            % modulo@[i as int]@),
                ;
            }
            j += 1;
        }
        let ra = big_rem(&ha, &modulo[i]);
        let rb = big_rem(&hb, &modulo[i]);
        if !big_eq(&ra, &rb) {
            return false;
        }
        i += 1;
    }
    true
}

/// Turns a difference vector into two byte strings over the alphabet: where
/// the difference is non-negative the first string takes 'a' and the second
/// absorbs it, and the other way round where it is negative, so at every
/// position at least one of the pair is 'a'.
pub fn decode_row(row: &Vec<BigNum>, n_: usize, length: usize) -> (r: (Vec<u8>, Vec<u8>))
    requires
        row@.len() == n_ + length,
        forall|j: int|
            n_ <= j < row@.len() ==> -(SIGMA as int) < (#[trigger] row@[j])@ < SIGMA as int,
    ensures
        r.0@.len() == length,
        r.1@.len() == length,
        forall|j: int| 0 <= j < length ==> 97 <= #[trigger] r.0@[j] < 97 + SIGMA,
        forall|j: int| 0 <= j < length ==> 97 <= #[trigger] r.1@[j] < 97 + SIGMA,
        forall|j: int|
            0 <= j < length ==> (#[trigger] r.1@[j]) as int - r.0@[j] as int == (row@[n_ + j])@,
        forall|j: int| 0 <= j < length ==> (#[trigger] r.0@[j]) == 97 || r.1@[j] == 97,
{
    let total = row.len();
    let mut a: Vec<u8> = Vec::new();
    let mut b: Vec<u8> = Vec::new();
    let mut j: usize = 0;
    while j < length
        invariant
            0 <= j <= length,
            total == row@.len(),
            row@.len() == n_ + length,
            forall|t: int|
                n_ <= t < row@.len() ==> -(SIGMA as int) < (#[trigger] row@[t])@ < SIGMA as int,
            a@.len() == j,
            b@.len() == j,
            forall|t: int| 0 <= t < j ==> 97 <= #[trigger] a@[t] < 97 + SIGMA,
            forall|t: int| 0 <= t < j ==> 97 <= #[trigger] b@[t] < 97 + SIGMA,
            forall|t: int|
                0 <= t < j ==> (#[trigger] b@[t]) as int - a@[t] as int == (row@[n_ + t])@,
            forall|t: int| 0 <= t < j ==> (#[trigger] a@[t]) == 97 || b@[t] == 97,
        decreases length - j,
    {
        proof {
            assert(-(SIGMA as int) < (row@[(n_ + j) as int])@ < SIGMA as int);
        }
        let d = row[n_ + j].try_to_i64().unwrap();
        if d >= 0 {
            a.push(97u8);
            b.push(97u8 + (d as u8));
        } else {
            a.push(97u8 + ((-d) as u8));
            b.push(97u8);
        }
        j += 1;
    }
    (a, b)
}

/// Relies on String::from_utf8: ASCII bytes decode to exactly those code
/// points, one character per byte.
#[verifier::external_body]
fn string_from_ascii(v: Vec<u8>) -> (r: String)
    requires
        forall|i: int| 0 <= i < v@.len() ==> v@[i] < 128,
    ensures
        r@ == v@.map_values(|x: u8| x as char),
{
    String::from_utf8(v).unwrap()
}

/// The input bundle of the collision search. The caller validates every
/// field before entry; `valid` states the contract.
pub struct Parameters {
    pub length: usize,
    pub modulo: Vec<BigNum>,
    pub base: Vec<BigNum>,
    pub lambda: BigNum,
    pub delta: Dec,
    pub eta: Dec,
    pub precision: u64,
    pub timeout_millis: u64,
}

impl Parameters {
    /// What the caller owes: a positive length, at least one modulus-base
    /// pair with each modulus at least two and each base a canonical residue,
    /// a positive scaling factor, delta strictly between one quarter and one,
    /// eta strictly above one half with its square below delta, a precision
    /// between one and a hundred digits, and a positive timeout. The two
    /// decimal bounds must also carry scales inside the machine window the
    /// decimal arithmetic accepts.
    pub open spec fn valid(self) -> bool {
        &&& self.length >= 1
        &&& self.modulo@.len() >= 1
        &&& self.modulo@.len() == self.base@.len()
        &&& self.length + self.modulo@.len() <= usize::MAX
        &&& forall|i: int| 0 <= i < self.modulo@.len() ==> (#[trigger] self.modulo@[i])@ >= 2
        &&& forall|i: int|
            0 <= i < self.base@.len() ==> 0 <= (#[trigger] self.base@[i])@ && self.base@[i]@
                < self.modulo@[i]@
        &&& self.lambda@ >= 1
        &&& scale_in_range(self.delta@.s)
        &&& scale_in_range(self.eta@.s)
        &&& dec_lt_val(DecVal { m: 25, s: 2 }, self.delta@)
        &&& dec_lt_val(self.delta@, DecVal { m: 1, s: 0 })
        &&& dec_lt_val(DecVal { m: 5, s: 1 }, self.eta@)
        &&& dec_lt_val(dec_mul_val(self.eta@, self.eta@), self.delta@)
        &&& 1 <= self.precision <= 100
        &&& self.timeout_millis >= 1
    }
}

/// Checks the whole caller contract on a parameter bundle, so that an
/// unverified caller can test it before entering the search.
pub fn parameters_valid(p: &Parameters) -> (r: bool)
    ensures
        r == p.valid(),
{
    if p.length < 1 {
        return false;
    }
    let k = p.modulo.len();
    if k < 1 || p.base.len() != k {
        return false;
    }
    if p.length > usize::MAX - k {
        return false;
    }
    let two = BigNum::from_u64(2);
    let mut i: usize = 0;
    while i < k
        invariant
            0 <= i <= k,
            k == p.modulo@.len(),
            k == p.base@.len(),
            two@ == 2,
            forall|t: int| 0 <= t < i ==> (#[trigger] p.modulo@[t])@ >= 2,
            forall|t: int|
                0 <= t < i ==> 0 <= (#[trigger] p.base@[t])@ && p.base@[t]@ < p.modulo@[t]@,
        decreases k - i,
    {
        if big_lt(&p.modulo[i], &two) {
            return false;
        }
        if !p.base[i].is_nonneg() {
            return false;
        }
        if !big_lt(&p.base[i], &p.modulo[i]) {
            return false;
        }
        i += 1;
    }
    let one = BigNum::from_u64(1);
    if big_lt(&p.lambda, &one) {
        return false;
    }
    if !p.delta.scale_ok() {
        return false;
    }
    if !p.eta.scale_ok() {
        return false;
    }
    let quarter = Dec { man: BigNum::from_i64(25), scale: 2 };
    if !dec_lt(&quarter, &p.delta) {
        return false;
    }
    let one_dec = Dec::from_i64(1);
    if !dec_lt(&p.delta, &one_dec) {
        return false;
    }
    let half = Dec { man: BigNum::from_i64(5), scale: 1 };
    if !dec_lt(&half, &p.eta) {
        return false;
    }
    let eta_sq = dec_mul(&p.eta, &p.eta);
    let below = dec_lt(&eta_sq, &p.delta);
    proof {
        lemma_dec_eq_lt_congr(eta_sq@, dec_mul_val(p.eta@, p.eta@), p.delta@);
    }
    if !below {
        return false;
    }
    if p.precision < 1 || p.precision > 100 {
        return false;
    }
    if p.timeout_millis < 1 {
        return false;
    }
    true
}

/// The outcome of one collision search.
pub enum AntiResult {
    /// The reduction finished without a valid row: the elapsed milliseconds
    /// and, where some row had a zero hash image, the coefficient portion of
    /// the one with the smallest max-norm.
    NotFound(u64, Option<Vec<BigNum>>),
    /// The wall-clock timeout fired; the best coefficient vector seen, as
    /// above.
    TimeOut(Option<Vec<BigNum>>),
    /// A verified collision: the elapsed milliseconds and the two strings.
    Found(u64, String, String),
    /// A candidate passed the row test but failed the hash recomputation, or
    /// the factorisation met a zero norm: an internal inconsistency.
    Unknown,
}

/// The lattice basis the search starts from, as a function of the parameters
/// alone.
pub open spec fn initial_basis_of(p: Parameters) -> Seq<Seq<int>> {
    Seq::new(
        (p.length + p.modulo@.len()) as nat,
        |r: int|
            Seq::new(
                (p.length + p.modulo@.len()) as nat,
                |c: int|
                    basis_entry(
                        p.length as int,
                        p.modulo@.len() as int,
                        vals(p.modulo@),
                        vals(p.base@),
                        p.lambda@,
                        r,
                        c,
                    ),
            ),
    )
}

/// What a reported best vector is: the coefficient portion of some member of
/// the search lattice whose whole hash image is zero.
pub open spec fn is_best_vector(v: Seq<int>, p: Parameters) -> bool {
    exists|w: Seq<int>|
        #![auto]
        {
            &&& w.len() == p.length + p.modulo@.len()
            &&& in_lattice(w, initial_basis_of(p), (p.length + p.modulo@.len()) as int)
            &&& forall|j: int| 0 <= j < p.modulo@.len() ==> w[j] == 0
            &&& v == w.subrange(p.modulo@.len() as int, w.len() as int)
        }
}

/// The collision search: builds the lattice, reduces it, and scans the
/// reduced basis for a valid row. On success the two returned strings have
/// the configured length, differ, stay inside the alphabet, and hash
/// identically under every modulus-base pair; a row whose difference vector
/// is all zeros stands for the zero vector, not a collision, and is
/// discarded.
pub fn anti_hash(parameters: Parameters) -> (r: AntiResult)
    requires
        parameters.valid(),
    ensures
        match r {
            AntiResult::Found(t, a, b) => {
                &&& a@.len() == parameters.length as int
                &&& b@.len() == parameters.length as int
                &&& a@ != b@
                &&& alpha_ok(a@)
                &&& alpha_ok(b@)
                &&& forall|i: int|
                    0 <= i < parameters.modulo@.len() ==> poly_hash(
                        a@,
                        parameters.base@[i]@,
                        (#[trigger] parameters.modulo@[i])@,
                    ) == poly_hash(b@, parameters.base@[i]@, parameters.modulo@[i]@)
            },
            AntiResult::NotFound(t, bv) => bv matches Some(v) ==> v@.len()
                == parameters.length as int && is_best_vector(vals(v@), parameters),
            AntiResult::TimeOut(bv) => bv matches Some(v) ==> v@.len() == parameters.length as int
                && is_best_vector(vals(v@), parameters),
            AntiResult::Unknown => true,
        },
{
    let Parameters { length, modulo, base, lambda, delta, eta, precision, timeout_millis } =
        parameters;
    let k = modulo.len();
    let bas = build_basis(length, &modulo, &base, &lambda);
    let n_total = length + k;
    proof {
        let m = bas@.map_values(|row: Vec<BigNum>| vals(row@));
        assert forall|t: int| 0 <= t < bas@.len() implies (#[trigger] bas@[t])@.len()
            == bas@.len() by {
            assert(m[t] == vals(bas@[t]@));
            assert(m[t].len() == n_total);
        }
    }
    let mut l2 = L2::new(bas, delta, eta, precision, timeout_millis, k);
    let ghost b0 = l2.bvals();
    proof {
        let init = initial_basis_of(parameters);
        assert forall|t: int| 0 <= t < n_total implies #[trigger] b0[t] == init[t] by {
            assert(b0[t] == vals(l2.b@[t]@));
            assert forall|c: int| 0 <= c < n_total implies #[trigger] b0[t][c] == init[t][c] by {
                assert(b0[t][c] == (l2.b@[t]@[c])@);
            }
            assert(b0[t] =~= init[t]);
        }
        assert(b0 =~= init);
    }
    proof {
        assert forall|t: int| 0 <= t < l2.size() implies in_lattice(
            #[trigger] l2.bvals()[t],
            b0,
            l2.size(),
        ) by {
            assert(l2.bvals()[t] == vals(l2.b@[t]@));
            lemma_row_in_lattice(b0, t, l2.size());
        }
        assert forall|t: int| 0 <= t < b0.len() implies in_lattice(
            #[trigger] b0[t],
            l2.bvals(),
            l2.size(),
        ) by {
            assert(b0[t] == l2.bvals()[t]);
            assert(l2.bvals()[t] == vals(l2.b@[t]@));
            lemma_row_in_lattice(l2.bvals(), t, l2.size());
        }
    }
    let st = l2.reduce(Ghost(b0));
    if matches!(st, crate::reduce::ReduceExit::Degenerate) {
        return AntiResult::Unknown;
    }
    let sigma_big = BigNum::from_u64(SIGMA);
    let zero_big = BigNum::from_u64(0);
    let mut best: Option<BigNum> = None;
    let mut best_vec: Option<Vec<BigNum>> = None;
    let mut idx: usize = 0;
    while idx < n_total
        invariant
            l2.wf(),
            n_total == l2.size(),
            l2.n_ == k,
            k == modulo@.len(),
            k == base@.len(),
            n_total == length + k,
            length >= 1,
            modulo == parameters.modulo,
            base == parameters.base,
            length == parameters.length,
            forall|i: int| 0 <= i < modulo@.len() ==> (#[trigger] modulo@[i])@ >= 2,
            forall|i: int| 0 <= i < base@.len() ==> (#[trigger] base@[i])@ >= 0,
            sigma_big@ == SIGMA as int,
            zero_big@ == 0,
            b0 == initial_basis_of(parameters),
            l2.rows_in_lattice(b0),
            best_vec matches Some(v) ==> v@.len() == length as int && is_best_vector(
                vals(v@),
                parameters,
            ),
        decreases n_total - idx,
    {
        let mut zero_pre = true;
        let mut j: usize = 0;
        while j < k
            invariant
                l2.wf(),
                idx < l2.size(),
                l2.n_ == k,
                j <= k,
                zero_pre == (forall|t: int| 0 <= t < j ==> l2.bvals()[idx as int][t] == 0),
            decreases k - j,
        {
            proof {
                assert(l2.bvals()[idx as int] == vals(l2.b@[idx as int]@));
                assert(l2.bvals()[idx as int][j as int] == (l2.b@[idx as int]@[j as int])@);
            }
            if !l2.b[idx][j].is_zero() {
                zero_pre = false;
            }
            j += 1;
        }
        if zero_pre {
            let cur = l2.row_max(idx);
            if big_lt(&cur, &sigma_big) {
                if big_lt(&zero_big, &cur) {
                    let ghost rowv = l2.bvals()[idx as int];
                    proof {
                        assert(rowv == vals(l2.b@[idx as int]@));
                        assert forall|t: int|
                            k <= t < l2.b@[idx as int]@.len() implies -(SIGMA as int) < ((
                        #[trigger] l2.b@[idx as int]@[t])@) && (l2.b@[idx as int]@[t])@ < (
                        SIGMA as int) by {
                            lemma_max_abs_upto_bound(rowv, k as int, n_total as int, t);
                            assert(rowv[t] == (l2.b@[idx as int]@[t])@);
                        }
                    }
                    let (abytes, bbytes) = decode_row(&l2.b[idx], k, length);
                    if !collision_check(&abytes, &bbytes, &modulo, &base) {
                        return AntiResult::Unknown;
                    }
                    let elapsed = l2.runtime_millis();
                    let ghost av = abytes@;
                    let ghost bv = bbytes@;
                    let sa = string_from_ascii(abytes);
                    let sb = string_from_ascii(bbytes);
                    proof {
                        assert(modulo == parameters.modulo);
                        assert(base == parameters.base);
                        assert(sa@.len() == av.len());
                        assert(sb@.len() == bv.len());
                        assert forall|t: int| 0 <= t < length implies ((#[trigger] sa@[t]) as int
                            == av[t] as int) && (sb@[t] as int == bv[t] as int) by {
                            assert(sa@[t] == (av[t] as char));
                            assert(sb@[t] == (bv[t] as char));
                        }
                        lemma_max_abs_witness(rowv, k as int, n_total as int);
                        let w = choose|t: int| k <= t < n_total && #[trigger] rowv[t] != 0;
                        assert(bv[w - k] as int - av[w - k] as int == rowv[w]);
                        assert(sa@[w - k] as int != sb@[w - k] as int);
                        assert(sa@ != sb@);
                        assert forall|i: int| 0 <= i < modulo@.len() implies poly_hash(
                            sa@,
                            base@[i]@,
                            (#[trigger] modulo@[i])@,
                        ) == poly_hash(sb@, base@[i]@, modulo@[i]@) by {
                            lemma_wsum_mod(av, sa@, base@[i]@, modulo@[i]@, length as int);
                            lemma_wsum_mod(bv, sb@, base@[i]@, modulo@[i]@, length as int);
                            assert(wsum(av, base@[i]@, modulo@[i]@, av.len() as int) % modulo@[i]@
                                == wsum(bv, base@[i]@, modulo@[i]@, bv.len() as int)
                                % modulo@[i]@);
                        }
                    }
                    return AntiResult::Found(elapsed, sa, sb);
                }
            } else {
                let better = match &best {
                    Option::None => true,
                    Option::Some(bb) => big_lt(&cur, bb),
                };
                if better {
                    let mut part: Vec<BigNum> = Vec::new();
                    let mut j2: usize = k;
                    while j2 < n_total
                        invariant
                            l2.wf(),
                            idx < l2.size(),
                            n_total == l2.size(),
                            k <= j2 <= n_total,
                            part@.len() == j2 - k,
                            forall|t: int|
                                0 <= t < j2 - k ==> (#[trigger] part@[t])@ == l2.bvals()[idx as int][k
                                    + t],
                        decreases n_total - j2,
                    {
                        proof {
                            assert(l2.bvals()[idx as int] == vals(l2.b@[idx as int]@));
                            assert(l2.bvals()[idx as int][j2 as int] == (l2.b@[idx as int]@[j2 as int])@);
                        }
                        part.push(l2.b[idx][j2].dup());
                        j2 += 1;
                    }
                    proof {
                        let w = l2.bvals()[idx as int];
                        assert(w == vals(l2.b@[idx as int]@));
                        assert(w.len() == n_total);
                        assert(vals(part@) =~= w.subrange(k as int, w.len() as int));
                        assert(in_lattice(w, b0, n_total as int));
                        assert(w.len() == parameters.length + parameters.modulo@.len());
                        assert(is_best_vector(vals(part@), parameters));
                    }
                    best = Some(cur);
                    best_vec = Some(part);
                }
            }
        }
        idx += 1;
    }
    if l2.check_time_out() {
        AntiResult::TimeOut(best_vec)
    } else {
        AntiResult::NotFound(l2.runtime_millis(), best_vec)
    }
}

} // verus!
