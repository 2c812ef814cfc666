use vstd::prelude::*;

verus! {

use bigdecimal::num_bigint::BigInt;
use bigdecimal::num_bigint::Sign;

/// Value of a little-endian base-256 digit string, least significant byte first.
pub open spec fn le_bytes_value(s: Seq<u8>) -> nat
    decreases s.len(),
{
    if s.len() == 0 {
        0
    } else {
        s[0] as nat + 256 * le_bytes_value(s.skip(1))
    }
}

pub open spec fn pow256(e: nat) -> nat
    decreases e,
{
    if e == 0 {
        1
    } else {
        256 * pow256((e - 1) as nat)
    }
}

/// An arbitrary-precision signed integer: a sign flag and a little-endian
/// magnitude. Trailing zero bytes are permitted, and a value whose magnitude
/// is all zeros denotes zero whatever the flag says, so every pair of fields
/// is meaningful and no well-formedness condition is needed.
pub struct BigNum {
    pub neg: bool,
    pub mag: Vec<u8>,
}

impl View for BigNum {
    type V = int;

    open spec fn view(&self) -> int {
        if self.neg {
            -(le_bytes_value(self.mag@) as int)
        } else {
            le_bytes_value(self.mag@) as int
        }
    }
}

pub proof fn lemma_le_bytes_value_push(s: Seq<u8>, b: u8)
    ensures
        le_bytes_value(s.push(b)) == le_bytes_value(s) + b * pow256(s.len()),
    decreases s.len(),
{
    if s.len() == 0 {
        assert(s.push(b).skip(1) =~= Seq::<u8>::empty());
        assert(le_bytes_value(s.push(b)) == b as nat + 256 * le_bytes_value(Seq::<u8>::empty()));
        assert(pow256(0) == 1);
    } else {
        assert(s.push(b).skip(1) =~= s.skip(1).push(b));
        lemma_le_bytes_value_push(s.skip(1), b);
        assert(s.skip(1).len() == (s.len() - 1) as nat);
        assert(pow256(s.len()) == 256 * pow256((s.len() - 1) as nat));
        assert(le_bytes_value(s.push(b)) == s[0] as nat + 256 * le_bytes_value(s.skip(1).push(b)));
        assert(256 * (le_bytes_value(s.skip(1)) + b * pow256((s.len() - 1) as nat)) == 256
            * le_bytes_value(s.skip(1)) + b * (256 * pow256((s.len() - 1) as nat)))
            by (nonlinear_arith);
    }
}

pub proof fn lemma_le_bytes_value_zero(s: Seq<u8>)
    requires
        forall|i: int| 0 <= i < s.len() ==> s[i] == 0,
    ensures
        le_bytes_value(s) == 0,
    decreases s.len(),
{
    if s.len() > 0 {
        lemma_le_bytes_value_zero(s.skip(1));
    }
}

pub proof fn lemma_le_bytes_value_nonzero(s: Seq<u8>, i: int)
    requires
        0 <= i < s.len(),
        s[i] != 0,
    ensures
        le_bytes_value(s) > 0,
    decreases s.len(),
{
    if i > 0 {
        lemma_le_bytes_value_nonzero(s.skip(1), i - 1);
    }
}

/// Value of the bytes from position `i` on, least significant first.
pub open spec fn le_bytes_value_from(s: Seq<u8>, i: int) -> nat {
    le_bytes_value(s.subrange(i, s.len() as int))
}

pub proof fn lemma_le_bytes_value_from_step(s: Seq<u8>, i: int)
    requires
        0 <= i < s.len(),
    ensures
        le_bytes_value_from(s, i) == s[i] as nat + 256 * le_bytes_value_from(s, i + 1),
{
    assert(s.subrange(i, s.len() as int).skip(1) =~= s.subrange(i + 1, s.len() as int));
}

/// The whole value splits as the part below `i` plus the rest scaled.
pub proof fn lemma_le_bytes_split(s: Seq<u8>, i: int)
    requires
        0 <= i <= s.len(),
    ensures
        le_bytes_value(s) == le_bytes_value(s.subrange(0, i)) + pow256(i as nat)
            * le_bytes_value_from(s, i),
    decreases i,
{
    if i == 0 {
        assert(s.subrange(0, 0) =~= Seq::<u8>::empty());
        assert(le_bytes_value(s.subrange(0, 0)) == 0);
        assert(s.subrange(0, s.len() as int) =~= s);
        assert(le_bytes_value_from(s, 0) == le_bytes_value(s));
        assert(pow256(0) == 1);
        assert(pow256(0) * le_bytes_value_from(s, 0) == le_bytes_value(s));
    } else {
        lemma_le_bytes_split(s, i - 1);
        lemma_le_bytes_value_from_step(s, i - 1);
        lemma_le_bytes_value_push(s.subrange(0, i - 1), s[i - 1]);
        assert(s.subrange(0, i) =~= s.subrange(0, i - 1).push(s[i - 1]));
        assert(s.subrange(0, i - 1).len() == i - 1);
        let lo = le_bytes_value(s.subrange(0, i - 1));
        let p1 = pow256((i - 1) as nat);
        let f1 = le_bytes_value_from(s, i - 1);
        let f0 = le_bytes_value_from(s, i);
        assert(le_bytes_value(s) == lo + p1 * f1);
        assert(f1 == s[i - 1] as nat + 256 * f0);
        assert(p1 * f1 == s[i - 1] as nat * p1 + (256 * p1) * f0) by (nonlinear_arith)
            requires
                f1 == s[i - 1] as nat + 256 * f0,
        ;
        assert(le_bytes_value(s.subrange(0, i)) == lo + s[i - 1] * p1);
        assert(pow256(i as nat) == 256 * p1);
        assert(pow256(i as nat) * f0 == (256 * p1) * f0);
        assert(le_bytes_value(s) == le_bytes_value(s.subrange(0, i)) + pow256(i as nat) * f0);
    }
}

pub proof fn lemma_pow256_mono(a: nat, b: nat)
    requires
        a <= b,
    ensures
        pow256(a) <= pow256(b),
    decreases b,
{
    if a < b {
        lemma_pow256_mono(a, (b - 1) as nat);
        assert(pow256((b - 1) as nat) <= 256 * pow256((b - 1) as nat)) by (nonlinear_arith)
            requires
                pow256((b - 1) as nat) >= 0,
        ;
    }
}

pub proof fn lemma_pow256_8()
    ensures
        pow256(7) == 0x100_0000_0000_0000,
        pow256(8) == 0x1_0000_0000_0000_0000,
{
    assert(pow256(0) == 1);
    assert(pow256(1) == 256);
    assert(pow256(2) == 0x1_0000);
    assert(pow256(3) == 0x100_0000);
    assert(pow256(4) == 0x1_0000_0000);
    assert(pow256(5) == 0x100_0000_0000);
    assert(pow256(6) == 0x1_0000_0000_0000);
    assert(pow256(7) == 0x100_0000_0000_0000);
}

impl BigNum {
    /// A copy with the same value.
    pub fn dup(&self) -> (r: BigNum)
        ensures
            r@ == self@,
    {
        let n = self.mag.len();
        let mut mag: Vec<u8> = Vec::new();
        let mut i: usize = 0;
        while i < n
            invariant
                0 <= i <= n,
                n == self.mag@.len(),
                mag@ =~= self.mag@.subrange(0, i as int),
            decreases n - i,
        {
            mag.push(self.mag[i]);
            i += 1;
        }
        proof {
            assert(mag@ =~= self.mag@);
        }
        BigNum { neg: self.neg, mag }
    }

    pub fn from_u64(x: u64) -> (r: BigNum)
        ensures
            r@ == x as int,
    {
        let mut mag: Vec<u8> = Vec::new();
        let mut v: u64 = x;
        proof {
            assert(mag@ =~= Seq::<u8>::empty());
            assert(le_bytes_value(mag@) == 0);
            assert(pow256(0) == 1);
        }
        while v > 0
            invariant
                x as nat == le_bytes_value(mag@) + (v as nat) * pow256(mag@.len()),
            decreases v,
        {
            let b: u8 = (v % 256) as u8;
            proof {
                lemma_le_bytes_value_push(mag@, b);
                assert((v as nat) * pow256(mag@.len()) == (b as nat) * pow256(mag@.len()) + ((v
                    / 256) as nat) * (256 * pow256(mag@.len()))) by (nonlinear_arith)
                    requires
                        v as nat == b as nat + 256 * ((v / 256) as nat),
                ;
            }
            mag.push(b);
            v = v / 256;
        }
        BigNum { neg: false, mag }
    }

    pub fn from_i64(x: i64) -> (r: BigNum)
        ensures
            r@ == x as int,
    {
        if x >= 0 {
            Self::from_u64(x as u64)
        } else {
            let m: u64 = (-(x as i128)) as u64;
            let p = Self::from_u64(m);
            BigNum { neg: true, mag: p.mag }
        }
    }

    pub fn is_zero(&self) -> (r: bool)
        ensures
            r == (self@ == 0),
    {
        let n = self.mag.len();
        let mut i: usize = 0;
        while i < n
            invariant
                0 <= i <= n,
                n == self.mag@.len(),
                forall|j: int| 0 <= j < i ==> self.mag@[j] == 0,
            decreases n - i,
        {
            if self.mag[i] != 0 {
                proof {
                    lemma_le_bytes_value_nonzero(self.mag@, i as int);
                }
                return false;
            }
            i += 1;
        }
        proof {
            lemma_le_bytes_value_zero(self.mag@);
        }
        true
    }

    /// Whether the value is at least zero.
    pub fn is_nonneg(&self) -> (r: bool)
        ensures
            r == (self@ >= 0),
    {
        if self.neg {
            self.is_zero()
        } else {
            true
        }
    }

    /// The value with its sign flipped.
    pub fn negate(&self) -> (r: BigNum)
        ensures
            r@ == -self@,
    {
        let d = self.dup();
        BigNum { neg: !d.neg, mag: d.mag }
    }

    /// The absolute value.
    pub fn abs_val(&self) -> (r: BigNum)
        ensures
            r@ == if self@ >= 0 {
                self@
            } else {
                -self@
            },
    {
        let d = self.dup();
        BigNum { neg: false, mag: d.mag }
    }

    /// The value as a machine integer, or `None` where it does not fit.
    pub fn try_to_i64(&self) -> (r: Option<i64>)
        ensures
            match r {
                Some(v) => v as int == self@,
                None => self@ < i64::MIN as int || self@ > i64::MAX as int,
            },
    {
        let n = self.mag.len();
        let mut hi: usize = n;
        // Drop zero bytes from the top; what remains must fit in eight bytes.
        while hi > 0 && self.mag[hi - 1] == 0
            invariant
                0 <= hi <= n,
                n == self.mag@.len(),
                le_bytes_value_from(self.mag@, hi as int) == 0,
            decreases hi,
        {
            proof {
                lemma_le_bytes_value_from_step(self.mag@, hi - 1);
            }
            hi -= 1;
        }
        proof {
            lemma_pow256_8();
        }
        if hi > 8 {
            proof {
                lemma_mag_lower_bound(self.mag@, hi as int);
                lemma_pow256_mono(8, (hi - 1) as nat);
            }
            return None;
        }
        let ghost s = self.mag@;
        let mut acc: u64 = 0;
        let mut i: usize = hi;
        while i > 0
            invariant
                0 <= i <= hi <= 8,
                hi <= n,
                n == s.len(),
                s == self.mag@,
                acc as nat == le_bytes_value(s.subrange(i as int, hi as int)),
                acc < pow256((hi - i) as nat),
            decreases i,
        {
            let b = self.mag[i - 1];
            proof {
                lemma_pow256_8();
                assert(s.subrange(i - 1, hi as int).skip(1) =~= s.subrange(i as int, hi as int));
                assert(le_bytes_value(s.subrange(i - 1, hi as int)) == s[i - 1] as nat + 256
                    * le_bytes_value(s.subrange(i as int, hi as int)));
                lemma_pow256_mono((hi - i) as nat, 7);
                assert(pow256((hi - i + 1) as nat) == 256 * pow256((hi - i) as nat));
            }
            acc = acc * 256 + (b as u64);
            i -= 1;
        }
        proof {
            lemma_le_bytes_split(s, hi as int);
            assert(le_bytes_value(s) == acc as nat);
        }
        if self.neg {
            if acc < 0x8000_0000_0000_0000u64 {
                Some(-(acc as i64))
            } else if acc == 0x8000_0000_0000_0000u64 {
                Some(i64::MIN)
            } else {
                None
            }
        } else {
            if acc <= 0x7fff_ffff_ffff_ffffu64 {
                Some(acc as i64)
            } else {
                None
            }
        }
    }
}

/// Relies on num-bigint's `BigInt` addition, with `BigInt::from_bytes_le` and
/// `BigInt::to_bytes_le` carrying the little-endian sign-magnitude form in and
/// out: the result is the exact sum.
#[verifier::external_body]
pub(crate) fn big_add(a: &BigNum, b: &BigNum) -> (r: BigNum)
    ensures
        r@ == a@ + b@,
{
    let sa = if a.neg { Sign::Minus } else { Sign::Plus };
    let sb = if b.neg { Sign::Minus } else { Sign::Plus };
    let x = BigInt::from_bytes_le(sa, &a.mag) + BigInt::from_bytes_le(sb, &b.mag);
    let (s, mag) = x.to_bytes_le();
    BigNum { neg: matches!(s, Sign::Minus), mag }
}

/// Relies on num-bigint's `BigInt` subtraction, with `BigInt::from_bytes_le`
/// and `BigInt::to_bytes_le` carrying the little-endian sign-magnitude form in
/// and out: the result is the exact difference.
#[verifier::external_body]
pub(crate) fn big_sub(a: &BigNum, b: &BigNum) -> (r: BigNum)
    ensures
        r@ == a@ - b@,
{
    let sa = if a.neg { Sign::Minus } else { Sign::Plus };
    let sb = if b.neg { Sign::Minus } else { Sign::Plus };
    let x = BigInt::from_bytes_le(sa, &a.mag) - BigInt::from_bytes_le(sb, &b.mag);
    let (s, mag) = x.to_bytes_le();
    BigNum { neg: matches!(s, Sign::Minus), mag }
}

/// Relies on num-bigint's `BigInt` multiplication, with `BigInt::from_bytes_le`
/// and `BigInt::to_bytes_le` carrying the little-endian sign-magnitude form in
/// and out: the result is the exact product.
#[verifier::external_body]
pub(crate) fn big_mul(a: &BigNum, b: &BigNum) -> (r: BigNum)
    ensures
        r@ == a@ * b@,
{
    let sa = if a.neg { Sign::Minus } else { Sign::Plus };
    let sb = if b.neg { Sign::Minus } else { Sign::Plus };
    let x = BigInt::from_bytes_le(sa, &a.mag) * BigInt::from_bytes_le(sb, &b.mag);
    let (s, mag) = x.to_bytes_le();
    BigNum { neg: matches!(s, Sign::Minus), mag }
}

/// Relies on num-bigint's `BigInt` remainder: for a non-negative dividend and
/// a positive divisor the truncated remainder it computes coincides with the
/// mathematical one.
#[verifier::external_body]
pub(crate) fn big_rem(a: &BigNum, m: &BigNum) -> (r: BigNum)
    requires
        a@ >= 0,
        m@ > 0,
    ensures
        r@ == a@ % m@,
{
    let sa = if a.neg { Sign::Minus } else { Sign::Plus };
    let sm = if m.neg { Sign::Minus } else { Sign::Plus };
    let x = BigInt::from_bytes_le(sa, &a.mag) % BigInt::from_bytes_le(sm, &m.mag);
    let (s, mag) = x.to_bytes_le();
    BigNum { neg: matches!(s, Sign::Minus), mag }
}

/// Relies on num-bigint's `Ord` for `BigInt`, which orders by numeric value.
#[verifier::external_body]
pub(crate) fn big_lt(a: &BigNum, b: &BigNum) -> (r: bool)
    ensures
        r == (a@ < b@),
{
    let sa = if a.neg { Sign::Minus } else { Sign::Plus };
    let sb = if b.neg { Sign::Minus } else { Sign::Plus };
    BigInt::from_bytes_le(sa, &a.mag) < BigInt::from_bytes_le(sb, &b.mag)
}

/// Relies on num-bigint's `PartialEq` for `BigInt`, which compares numeric
/// values.
#[verifier::external_body]
pub(crate) fn big_eq(a: &BigNum, b: &BigNum) -> (r: bool)
    ensures
        r == (a@ == b@),
{
    let sa = if a.neg { Sign::Minus } else { Sign::Plus };
    let sb = if b.neg { Sign::Minus } else { Sign::Plus };
    BigInt::from_bytes_le(sa, &a.mag) == BigInt::from_bytes_le(sb, &b.mag)
}

/// A magnitude whose byte at position `hi - 1` is non-zero is at least
/// `pow256(hi - 1)`.
pub proof fn lemma_mag_lower_bound(s: Seq<u8>, hi: int)
    requires
        0 < hi <= s.len(),
        s[hi - 1] != 0,
    ensures
        le_bytes_value(s) >= pow256((hi - 1) as nat),
{
    lemma_le_bytes_split(s, hi - 1);
    lemma_le_bytes_value_from_step(s, hi - 1);
    assert(pow256((hi - 1) as nat) * le_bytes_value_from(s, hi - 1) >= pow256((hi - 1) as nat) * 1)
        by (nonlinear_arith)
        requires
            le_bytes_value_from(s, hi - 1) >= 1,
            pow256((hi - 1) as nat) >= 0,
    ;
}

} // verus!
