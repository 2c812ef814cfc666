use vstd::prelude::*;
use vstd::arithmetic::power::pow;
use vstd::arithmetic::div_mod::{lemma_mod_bound, lemma_mul_mod_noop_left};
use vstd::arithmetic::mul::lemma_mul_nonnegative;
use crate::bignum::{BigNum, big_mul, big_rem};

verus! {

/// The values of a sequence of big numbers.
pub open spec fn vals(v: Seq<BigNum>) -> Seq<int> {
    v.map_values(|x: BigNum| x@)
}

/// Sum of the first `n` pairwise products.
pub open spec fn dot_prefix(a: Seq<int>, b: Seq<int>, n: int) -> int
    decreases n,
{
    if n <= 0 {
        0
    } else {
        dot_prefix(a, b, n - 1) + a[n - 1] * b[n - 1]
    }
}

/// The inner product of two equally long vectors.
pub open spec fn dot_ints(a: Seq<int>, b: Seq<int>) -> int {
    dot_prefix(a, b, a.len() as int)
}

/// The entry the lattice builder puts at row `r`, column `c` of the basis for
/// string length `n` and `k` modulus-base pairs: rows below `n` carry the
/// scaled powers and a unit coefficient, the last `k` rows carry the scaled
/// moduli.
pub open spec fn basis_entry(
    n: int,
    k: int,
    modulo: Seq<int>,
    base: Seq<int>,
    lambda: int,
    r: int,
    c: int,
) -> int {
    if r < n {
        if c < k {
            (pow(base[c], r as nat) % modulo[c]) * lambda
        } else if c == k + r {
            1
        } else {
            0
        }
    } else {
        if c == r - n {
            modulo[c] * lambda
        } else {
            0
        }
    }
}

/// Whether `b` is exactly the built basis for these parameters.
pub open spec fn is_initial_basis(
    b: Seq<Seq<int>>,
    n: int,
    k: int,
    modulo: Seq<int>,
    base: Seq<int>,
    lambda: int,
) -> bool {
    &&& b.len() == n + k
    &&& forall|r: int| 0 <= r < n + k ==> (#[trigger] b[r]).len() == n + k
    &&& forall|r: int, c: int|
        0 <= r < n + k && 0 <= c < n + k ==> #[trigger] b[r][c] == basis_entry(
            n,
            k,
            modulo,
            base,
            lambda,
            r,
            c,
        )
}

/// The powers of `base` modulo `modulo`: entry `j` is `base^j mod modulo`.
/// At least one entry is produced even for a zero length.
pub fn powers(base: &BigNum, modulo: &BigNum, length: usize) -> (r: Vec<BigNum>)
    requires
        base@ >= 0,
        modulo@ >= 1,
    ensures
        r@.len() == if length == 0 {
            1int
        } else {
            length as int
        },
        forall|j: int| 0 <= j < r@.len() ==> (#[trigger] r@[j])@ == pow(base@, j as nat) % modulo@,
        forall|j: int| 0 <= j < r@.len() ==> 0 <= (#[trigger] r@[j])@ < modulo@,
{
    let mut result: Vec<BigNum> = Vec::new();
    let one = BigNum::from_u64(1);
    let first = big_rem(&one, modulo);
    proof {
        assert(pow(base@, 0) == 1) by {
            vstd::arithmetic::power::lemma_pow0(base@);
        }
        lemma_mod_bound(1int, modulo@);
    }
    result.push(first);
    let mut j: usize = 1;
    while j < length
        invariant
            1 <= j,
            length >= 1 ==> j <= length,
            length == 0 ==> j == 1,
            base@ >= 0,
            modulo@ >= 1,
            result@.len() == j,
            forall|i: int|
                0 <= i < j ==> (#[trigger] result@[i])@ == pow(base@, i as nat) % modulo@,
            forall|i: int| 0 <= i < j ==> 0 <= (#[trigger] result@[i])@ < modulo@,
        decreases length - j,
    {
        let prev = &result[j - 1];
        let prod = big_mul(prev, base);
        proof {
            lemma_mul_nonnegative(prev@, base@);
        }
        let next = big_rem(&prod, modulo);
        proof {
            lemma_mul_mod_noop_left(pow(base@, (j - 1) as nat), base@, modulo@);
            assert(pow(base@, j as nat) == pow(base@, (j - 1) as nat) * base@) by {
                vstd::arithmetic::power::lemma_pow1(base@);
                vstd::arithmetic::power::lemma_pow_adds(base@, (j - 1) as nat, 1);
            }
            lemma_mod_bound(prod@, modulo@);
        }
        result.push(next);
        j += 1;
    }
    result
}

/// The inner product of two equally long vectors of big numbers.
pub fn dot(a: &Vec<BigNum>, b: &Vec<BigNum>) -> (r: BigNum)
    requires
        a@.len() == b@.len(),
    ensures
        r@ == dot_ints(vals(a@), vals(b@)),
{
    let n = a.len();
    let mut acc = BigNum::from_u64(0);
    let mut i: usize = 0;
    while i < n
        invariant
            0 <= i <= n,
            n == a@.len(),
            n == b@.len(),
            acc@ == dot_prefix(vals(a@), vals(b@), i as int),
        decreases n - i,
    {
        let prod = big_mul(&a[i], &b[i]);
        acc = crate::bignum::big_add(&acc, &prod);
        i += 1;
    }
    acc
}

/// Builds the (n + k) x (n + k) collision lattice: for each pair `i`, column
/// `i` of row `j < n` holds `(base_i^j mod modulo_i) * lambda`, row `n + i`
/// holds `modulo_i * lambda` in column `i` alone, and each row `j < n` holds a
/// one in column `k + j`; everything else is zero.
pub fn build_basis(
    length: usize,
    modulo: &Vec<BigNum>,
    base: &Vec<BigNum>,
    lambda: &BigNum,
) -> (b: Vec<Vec<BigNum>>)
    requires
        length >= 1,
        modulo@.len() == base@.len(),
        length + modulo@.len() <= usize::MAX,
        forall|i: int| 0 <= i < modulo@.len() ==> (#[trigger] modulo@[i])@ >= 1,
        forall|i: int| 0 <= i < base@.len() ==> (#[trigger] base@[i])@ >= 0,
    ensures
        b@.len() == length + modulo@.len(),
        is_initial_basis(
            b@.map_values(|row: Vec<BigNum>| vals(row@)),
            length as int,
            modulo@.len() as int,
            vals(modulo@),
            vals(base@),
            lambda@,
        ),
{
    let k = modulo.len();
    let n_total = length + k;
    let mut pows: Vec<Vec<BigNum>> = Vec::new();
    let mut i: usize = 0;
    while i < k
        invariant
            0 <= i <= k,
            k == modulo@.len(),
            k == base@.len(),
            length >= 1,
            forall|t: int| 0 <= t < modulo@.len() ==> (#[trigger] modulo@[t])@ >= 1,
            forall|t: int| 0 <= t < base@.len() ==> (#[trigger] base@[t])@ >= 0,
            pows@.len() == i,
            forall|t: int| 0 <= t < i ==> (#[trigger] pows@[t])@.len() == length,
            forall|t: int, j: int|
                0 <= t < i && 0 <= j < length ==> #[trigger] ((pows@[t])@[j])@ == pow(
                    base@[t]@,
                    j as nat,
                ) % modulo@[t]@,
        decreases k - i,
    {
        let p = powers(&base[i], &modulo[i], length);
        pows.push(p);
        i += 1;
    }
    let mut b: Vec<Vec<BigNum>> = Vec::new();
    let mut r: usize = 0;
    while r < n_total
        invariant
            0 <= r <= n_total,
            n_total == length + k,
            k == modulo@.len(),
            k == base@.len(),
            length >= 1,
            pows@.len() == k,
            forall|t: int| 0 <= t < k ==> (#[trigger] pows@[t])@.len() == length,
            forall|t: int, j: int|
                0 <= t < k && 0 <= j < length ==> #[trigger] ((pows@[t])@[j])@ == pow(
                    base@[t]@,
                    j as nat,
                ) % modulo@[t]@,
            b@.len() == r,
            forall|t: int| 0 <= t < r ==> (#[trigger] b@[t])@.len() == n_total,
            forall|t: int, c: int|
                0 <= t < r && 0 <= c < n_total ==> #[trigger] ((b@[t])@[c])@ == basis_entry(
                    length as int,
                    k as int,
                    vals(modulo@),
                    vals(base@),
                    lambda@,
                    t,
                    c,
                ),
        decreases n_total - r,
    {
        let mut row: Vec<BigNum> = Vec::new();
        let mut c: usize = 0;
        while c < n_total
            invariant
                0 <= c <= n_total,
                n_total == length + k,
                k == modulo@.len(),
                k == base@.len(),
                length >= 1,
                r < n_total,
                pows@.len() == k,
                forall|t: int| 0 <= t < k ==> (#[trigger] pows@[t])@.len() == length,
                forall|t: int, j: int|
                    0 <= t < k && 0 <= j < length ==> #[trigger] ((pows@[t])@[j])@ == pow(
                        base@[t]@,
                        j as nat,
                    ) % modulo@[t]@,
                row@.len() == c,
                forall|t: int|
                    0 <= t < c ==> ((#[trigger] row@[t]))@ == basis_entry(
                        length as int,
                        k as int,
                        vals(modulo@),
                        vals(base@),
                        lambda@,
                        r as int,
                        t,
                    ),
            decreases n_total - c,
        {
            let entry: BigNum = if r < length {
                if c < k {
                    big_mul(&pows[c][r], lambda)
                } else if c == k + r {
                    BigNum::from_u64(1)
                } else {
                    BigNum::from_u64(0)
                }
            } else {
                if c == r - length {
                    big_mul(&modulo[c], lambda)
                } else {
                    BigNum::from_u64(0)
                }
            };
            row.push(entry);
            c += 1;
        }
        b.push(row);
        r += 1;
    }
    proof {
        let m = b@.map_values(|row: Vec<BigNum>| vals(row@));
        assert forall|t: int, c: int|
            0 <= t < n_total && 0 <= c < n_total implies #[trigger] m[t][c] == basis_entry(
            length as int,
            k as int,
            vals(modulo@),
            vals(base@),
            lambda@,
            t,
            c,
        ) by {
            assert(m[t] == vals(b@[t]@));
            assert(m[t][c] == (b@[t]@[c])@);
        }
        assert forall|t: int| 0 <= t < n_total implies (#[trigger] m[t]).len() == n_total by {
            assert(m[t] == vals(b@[t]@));
        }
    }
    b
}

} // verus!

