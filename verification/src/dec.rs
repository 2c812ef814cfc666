use vstd::prelude::*;
use crate::bignum::BigNum;

verus! {

use bigdecimal::BigDecimal;
use bigdecimal::num_bigint::BigInt;
use bigdecimal::num_bigint::Sign;

/// Mathematical reading of a decimal: the number `m * 10^(-s)`.
pub ghost struct DecVal {
    pub m: int,
    pub s: int,
}

pub open spec fn pow10(e: nat) -> nat
    decreases e,
{
    if e == 0 {
        1
    } else {
        10 * pow10((e - 1) as nat)
    }
}

/// The two pairs denote the same number.
pub open spec fn dec_eq_val(a: DecVal, b: DecVal) -> bool {
    if a.s <= b.s {
        a.m * pow10((b.s - a.s) as nat) == b.m
    } else {
        a.m == b.m * pow10((a.s - b.s) as nat)
    }
}

/// The number `a` is at most the number `b`.
pub open spec fn dec_le_val(a: DecVal, b: DecVal) -> bool {
    if a.s <= b.s {
        a.m * pow10((b.s - a.s) as nat) <= b.m
    } else {
        a.m <= b.m * pow10((a.s - b.s) as nat)
    }
}

/// The number `a` is strictly below the number `b`.
pub open spec fn dec_lt_val(a: DecVal, b: DecVal) -> bool {
    if a.s <= b.s {
        a.m * pow10((b.s - a.s) as nat) < b.m
    } else {
        a.m < b.m * pow10((a.s - b.s) as nat)
    }
}

/// One exact representation of the sum, on the finer of the two scales.
pub open spec fn dec_add_val(a: DecVal, b: DecVal) -> DecVal {
    if a.s >= b.s {
        DecVal { m: a.m + b.m * pow10((a.s - b.s) as nat), s: a.s }
    } else {
        DecVal { m: a.m * pow10((b.s - a.s) as nat) + b.m, s: b.s }
    }
}

/// One exact representation of the difference, on the finer of the two scales.
pub open spec fn dec_sub_val(a: DecVal, b: DecVal) -> DecVal {
    if a.s >= b.s {
        DecVal { m: a.m - b.m * pow10((a.s - b.s) as nat), s: a.s }
    } else {
        DecVal { m: a.m * pow10((b.s - a.s) as nat) - b.m, s: b.s }
    }
}

/// The exact representation of the product.
pub open spec fn dec_mul_val(a: DecVal, b: DecVal) -> DecVal {
    DecVal { m: a.m * b.m, s: a.s + b.s }
}

/// The absolute value of a decimal: the significand loses its sign, the
/// scale stays.
pub open spec fn dec_abs_val(v: DecVal) -> DecVal {
    DecVal { m: if v.m >= 0 { v.m } else { -v.m }, s: v.s }
}

/// The integer `r` is the number `v` rounded to a nearest integer: exact when
/// the scale is not positive, and otherwise within one half, which is
/// `|2 * r * 10^s - 2 * m| <= 10^s` once both sides are scaled by `2 * 10^s`.
pub open spec fn rounds_to(r: int, v: DecVal) -> bool {
    if v.s >= 0 {
        -(pow10(v.s as nat) as int) <= 2 * r * pow10(v.s as nat) - 2 * v.m <= pow10(v.s as nat)
    } else {
        r == v.m * pow10((-v.s) as nat)
    }
}

/// What `BigDecimal::div` returns for the representation of the two operands;
/// the quotient is rounded to the crate's fixed maximal precision, so it is a
/// function of the four components alone.
pub uninterp spec fn dec_div_val(am: int, asc: int, bm: int, bs: int) -> DecVal;

/// What `BigDecimal::with_prec` returns for a representation and a precision:
/// the same number with its significand rounded to `p` significant digits.
pub uninterp spec fn dec_prec_val(m: int, s: int, p: int) -> DecVal;

pub proof fn lemma_pow10_pos(e: nat)
    ensures
        pow10(e) >= 1,
    decreases e,
{
    if e > 0 {
        lemma_pow10_pos((e - 1) as nat);
    }
}

pub proof fn lemma_pow10_adds(x: nat, y: nat)
    ensures
        pow10(x + y) == pow10(x) * pow10(y),
    decreases x,
{
    if x == 0 {
        assert(pow10(y) == 1 * pow10(y));
    } else {
        lemma_pow10_adds((x - 1) as nat, y);
        assert(pow10((x - 1) as nat + y) == pow10((x - 1) as nat) * pow10(y));
        assert(pow10(x + y) == 10 * pow10((x + y - 1) as nat));
        assert(10 * (pow10((x - 1) as nat) * pow10(y)) == (10 * pow10((x - 1) as nat)) * pow10(y))
            by (nonlinear_arith);
    }
}

/// The strict order of two decimals agrees with comparing both significands
/// brought to any common scale at or beyond both.
pub proof fn lemma_dec_lt_scaled(a: DecVal, b: DecVal, s: int)
    requires
        s >= a.s,
        s >= b.s,
    ensures
        dec_lt_val(a, b) == (a.m * pow10((s - a.s) as nat) < b.m * pow10((s - b.s) as nat)),
{
    if a.s <= b.s {
        let x = a.m * pow10((b.s - a.s) as nat);
        let y = b.m;
        let c = pow10((s - b.s) as nat);
        lemma_pow10_pos((s - b.s) as nat);
        lemma_pow10_adds((b.s - a.s) as nat, (s - b.s) as nat);
        assert((a.m * pow10((b.s - a.s) as nat)) * pow10((s - b.s) as nat) == a.m * (pow10((b.s
            - a.s) as nat) * pow10((s - b.s) as nat))) by (nonlinear_arith);
        assert((x < y) == (x * c < y * c)) by (nonlinear_arith)
            requires
                c >= 1,
        ;
    } else {
        let x = a.m;
        let y = b.m * pow10((a.s - b.s) as nat);
        let c = pow10((s - a.s) as nat);
        lemma_pow10_pos((s - a.s) as nat);
        lemma_pow10_adds((a.s - b.s) as nat, (s - a.s) as nat);
        assert((b.m * pow10((a.s - b.s) as nat)) * pow10((s - a.s) as nat) == b.m * (pow10((a.s
            - b.s) as nat) * pow10((s - a.s) as nat))) by (nonlinear_arith);
        assert((x < y) == (x * c < y * c)) by (nonlinear_arith)
            requires
                c >= 1,
        ;
    }
}

/// Equality of two decimals agrees with comparing both significands brought
/// to any common scale at or beyond both.
pub proof fn lemma_dec_eq_scaled(a: DecVal, b: DecVal, s: int)
    requires
        s >= a.s,
        s >= b.s,
    ensures
        dec_eq_val(a, b) == (a.m * pow10((s - a.s) as nat) == b.m * pow10((s - b.s) as nat)),
{
    if a.s <= b.s {
        let x = a.m * pow10((b.s - a.s) as nat);
        let y = b.m;
        let c = pow10((s - b.s) as nat);
        lemma_pow10_pos((s - b.s) as nat);
        lemma_pow10_adds((b.s - a.s) as nat, (s - b.s) as nat);
        assert((a.m * pow10((b.s - a.s) as nat)) * pow10((s - b.s) as nat) == a.m * (pow10((b.s
            - a.s) as nat) * pow10((s - b.s) as nat))) by (nonlinear_arith);
        assert((x == y) == (x * c == y * c)) by (nonlinear_arith)
            requires
                c >= 1,
        ;
    } else {
        let x = a.m;
        let y = b.m * pow10((a.s - b.s) as nat);
        let c = pow10((s - a.s) as nat);
        lemma_pow10_pos((s - a.s) as nat);
        lemma_pow10_adds((a.s - b.s) as nat, (s - a.s) as nat);
        assert((b.m * pow10((a.s - b.s) as nat)) * pow10((s - a.s) as nat) == b.m * (pow10((a.s
            - b.s) as nat) * pow10((s - a.s) as nat))) by (nonlinear_arith);
        assert((x == y) == (x * c == y * c)) by (nonlinear_arith)
            requires
                c >= 1,
        ;
    }
}

/// Decimals that denote the same number compare the same way against any
/// third decimal.
pub proof fn lemma_dec_eq_lt_congr(a: DecVal, b: DecVal, c: DecVal)
    requires
        dec_eq_val(a, b),
    ensures
        dec_lt_val(a, c) == dec_lt_val(b, c),
{
    let s = if a.s >= b.s && a.s >= c.s {
        a.s
    } else if b.s >= c.s {
        b.s
    } else {
        c.s
    };
    lemma_dec_eq_scaled(a, b, s);
    lemma_dec_lt_scaled(a, c, s);
    lemma_dec_lt_scaled(b, c, s);
}

/// The window of scales the arithmetic wrappers accept. bigdecimal computes
/// scale differences and sums in `i64`; inside this window they stay far from
/// the overflow that would panic, whatever mix of operands arrives.
pub const MAX_SCALE: i64 = 0x1_0000_0000;

pub open spec fn scale_in_range(s: int) -> bool {
    -MAX_SCALE <= s <= MAX_SCALE
}

/// An arbitrary-precision decimal: a big-integer significand and a base-ten
/// scale; the value is `man * 10^(-scale)`.
pub struct Dec {
    pub man: BigNum,
    pub scale: i64,
}

impl View for Dec {
    type V = DecVal;

    open spec fn view(&self) -> DecVal {
        DecVal { m: self.man@, s: self.scale as int }
    }
}

impl Dec {
    pub fn from_i64(x: i64) -> (r: Dec)
        ensures
            r@ == (DecVal { m: x as int, s: 0 }),
    {
        Dec { man: BigNum::from_i64(x), scale: 0 }
    }

    pub fn from_bignum(n: BigNum) -> (r: Dec)
        ensures
            r@ == (DecVal { m: n@, s: 0 }),
    {
        Dec { man: n, scale: 0 }
    }

    /// A copy with the same value.
    pub fn dup(&self) -> (r: Dec)
        ensures
            r@ == self@,
    {
        Dec { man: self.man.dup(), scale: self.scale }
    }

    pub fn is_zero(&self) -> (r: bool)
        ensures
            r == (self@.m == 0),
    {
        self.man.is_zero()
    }

    /// Whether the scale sits inside the window the arithmetic wrappers
    /// accept.
    pub fn scale_ok(&self) -> (r: bool)
        ensures
            r == scale_in_range(self@.s),
    {
        -MAX_SCALE <= self.scale && self.scale <= MAX_SCALE
    }

    /// The absolute value; the scale is kept.
    pub fn abs_val(&self) -> (r: Dec)
        ensures
            r@.m == if self@.m >= 0 {
                self@.m
            } else {
                -self@.m
            },
            r@.s == self@.s,
    {
        Dec { man: self.man.abs_val(), scale: self.scale }
    }
}

/// Relies on bigdecimal's `BigDecimal` addition, which aligns both operands
/// to the finer scale and adds the significands exactly, with `BigDecimal::new`
/// and `BigDecimal::into_bigint_and_exponent` carrying the form in and out.
/// The scale window keeps its internal scale differences inside `i64`.
#[verifier::external_body]
pub(crate) fn dec_add(a: &Dec, b: &Dec) -> (r: Dec)
    requires
        scale_in_range(a@.s),
        scale_in_range(b@.s),
    ensures
        r@ == dec_add_val(a@, b@),
{
    let sa = if a.man.neg { Sign::Minus } else { Sign::Plus };
    let sb = if b.man.neg { Sign::Minus } else { Sign::Plus };
    let x = BigDecimal::new(BigInt::from_bytes_le(sa, &a.man.mag), a.scale) + BigDecimal::new(
        BigInt::from_bytes_le(sb, &b.man.mag),
        b.scale,
    );
    let (bi, sc) = x.into_bigint_and_exponent();
    let (s, mag) = bi.to_bytes_le();
    Dec { man: BigNum { neg: matches!(s, Sign::Minus), mag }, scale: sc }
}

/// Relies on bigdecimal's `BigDecimal` subtraction, which is exact in value;
/// when an operand is zero it keeps that operand's form, otherwise it aligns
/// to the finer scale, so the result carries one of the two scales. The scale
/// window keeps its internal scale differences inside `i64`.
#[verifier::external_body]
pub(crate) fn dec_sub(a: &Dec, b: &Dec) -> (r: Dec)
    requires
        scale_in_range(a@.s),
        scale_in_range(b@.s),
    ensures
        dec_eq_val(r@, dec_sub_val(a@, b@)),
        r@.s == a@.s || r@.s == b@.s,
{
    let sa = if a.man.neg { Sign::Minus } else { Sign::Plus };
    let sb = if b.man.neg { Sign::Minus } else { Sign::Plus };
    let x = BigDecimal::new(BigInt::from_bytes_le(sa, &a.man.mag), a.scale) - BigDecimal::new(
        BigInt::from_bytes_le(sb, &b.man.mag),
        b.scale,
    );
    let (bi, sc) = x.into_bigint_and_exponent();
    let (s, mag) = bi.to_bytes_le();
    Dec { man: BigNum { neg: matches!(s, Sign::Minus), mag }, scale: sc }
}

/// Relies on bigdecimal's `BigDecimal` multiplication, which is exact in
/// value; an operand equal to one may be answered by the other operand
/// unchanged, otherwise the significands multiply and the scales add. The
/// scale window keeps the scale sum inside `i64`.
#[verifier::external_body]
pub(crate) fn dec_mul(a: &Dec, b: &Dec) -> (r: Dec)
    requires
        scale_in_range(a@.s),
        scale_in_range(b@.s),
    ensures
        dec_eq_val(r@, dec_mul_val(a@, b@)),
        r@.s == a@.s + b@.s || r@.s == a@.s || r@.s == b@.s,
{
    let sa = if a.man.neg { Sign::Minus } else { Sign::Plus };
    let sb = if b.man.neg { Sign::Minus } else { Sign::Plus };
    let x = BigDecimal::new(BigInt::from_bytes_le(sa, &a.man.mag), a.scale) * BigDecimal::new(
        BigInt::from_bytes_le(sb, &b.man.mag),
        b.scale,
    );
    let (bi, sc) = x.into_bigint_and_exponent();
    let (s, mag) = bi.to_bytes_le();
    Dec { man: BigNum { neg: matches!(s, Sign::Minus), mag }, scale: sc }
}

/// Relies on bigdecimal's `BigDecimal` division, which panics on a zero
/// divisor and otherwise rounds the quotient at a fixed maximal precision, a
/// function of the two representations alone. The scale window keeps its
/// internal scale difference inside `i64`.
#[verifier::external_body]
pub(crate) fn dec_div(a: &Dec, b: &Dec) -> (r: Dec)
    requires
        b@.m != 0,
        scale_in_range(a@.s),
        scale_in_range(b@.s),
    ensures
        r@ == dec_div_val(a@.m, a@.s, b@.m, b@.s),
{
    let sa = if a.man.neg { Sign::Minus } else { Sign::Plus };
    let sb = if b.man.neg { Sign::Minus } else { Sign::Plus };
    let x = BigDecimal::new(BigInt::from_bytes_le(sa, &a.man.mag), a.scale) / BigDecimal::new(
        BigInt::from_bytes_le(sb, &b.man.mag),
        b.scale,
    );
    let (bi, sc) = x.into_bigint_and_exponent();
    let (s, mag) = bi.to_bytes_le();
    Dec { man: BigNum { neg: matches!(s, Sign::Minus), mag }, scale: sc }
}

/// Relies on bigdecimal's `BigDecimal::with_prec`, which rounds the
/// significand to the given number of significant digits, a function of the
/// representation and the precision alone; the scale moves by the digit-count
/// difference, so it grows by less than the precision. The scale window keeps
/// the adjustment inside `i64`.
#[verifier::external_body]
pub(crate) fn dec_with_prec(a: &Dec, p: u64) -> (r: Dec)
    requires
        scale_in_range(a@.s),
    ensures
        r@ == dec_prec_val(a@.m, a@.s, p as int),
        r@.s <= a@.s + p,
{
    let sa = if a.man.neg { Sign::Minus } else { Sign::Plus };
    let x = BigDecimal::new(BigInt::from_bytes_le(sa, &a.man.mag), a.scale).with_prec(p);
    let (bi, sc) = x.into_bigint_and_exponent();
    let (s, mag) = bi.to_bytes_le();
    Dec { man: BigNum { neg: matches!(s, Sign::Minus), mag }, scale: sc }
}

/// Relies on bigdecimal's `BigDecimal::round` with zero digits after the
/// point, whose default mode rounds half to even, so the result is a nearest
/// integer; `into_bigint_and_exponent` then yields it with a zero exponent.
/// The scale window keeps the internal scale difference inside `i64`.
#[verifier::external_body]
pub(crate) fn dec_round_int(a: &Dec) -> (r: BigNum)
    requires
        scale_in_range(a@.s),
    ensures
        rounds_to(r@, a@),
{
    let sa = if a.man.neg { Sign::Minus } else { Sign::Plus };
    let x = BigDecimal::new(BigInt::from_bytes_le(sa, &a.man.mag), a.scale).round(0);
    let (bi, _) = x.into_bigint_and_exponent();
    let (s, mag) = bi.to_bytes_le();
    BigNum { neg: matches!(s, Sign::Minus), mag }
}

/// Relies on bigdecimal's `Ord` for `BigDecimal`, which orders by numeric
/// value.
#[verifier::external_body]
pub(crate) fn dec_le(a: &Dec, b: &Dec) -> (r: bool)
    ensures
        r == dec_le_val(a@, b@),
{
    let sa = if a.man.neg { Sign::Minus } else { Sign::Plus };
    let sb = if b.man.neg { Sign::Minus } else { Sign::Plus };
    BigDecimal::new(BigInt::from_bytes_le(sa, &a.man.mag), a.scale) <= BigDecimal::new(
        BigInt::from_bytes_le(sb, &b.man.mag),
        b.scale,
    )
}

/// Relies on bigdecimal's `Ord` for `BigDecimal`, which orders by numeric
/// value.
#[verifier::external_body]
pub(crate) fn dec_lt(a: &Dec, b: &Dec) -> (r: bool)
    ensures
        r == dec_lt_val(a@, b@),
{
    let sa = if a.man.neg { Sign::Minus } else { Sign::Plus };
    let sb = if b.man.neg { Sign::Minus } else { Sign::Plus };
    BigDecimal::new(BigInt::from_bytes_le(sa, &a.man.mag), a.scale) < BigDecimal::new(
        BigInt::from_bytes_le(sb, &b.man.mag),
        b.scale,
    )
}

} // verus!
