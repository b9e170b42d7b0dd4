use malachite::num::conversion::string::options::ToSciOptions;
use malachite::num::conversion::traits::{ExactFrom, ToSci};
use malachite::rational_sequences::RationalSequence;
use malachite::{Natural, Rational};
use vstd::prelude::*;

verus! {

/// The natural number held by little-endian 64-bit limbs.
pub open spec fn limbs_value(l: Seq<u64>) -> nat
    decreases l.len(),
{
    if l.len() == 0 {
        0
    } else {
        l[0] as nat + 0x1_0000_0000_0000_0000nat * limbs_value(l.drop_first())
    }
}

/// Every digit is below the base.
pub open spec fn digits_below(ds: Seq<u8>, b: nat) -> bool {
    forall|i: int| 0 <= i < ds.len() ==> (ds[i] as nat) < b
}

/// The natural number held by digits of base `b`, least significant first.
pub open spec fn le_digits_value(ds: Seq<u8>, b: nat) -> nat
    decreases ds.len(),
{
    if ds.len() == 0 {
        0
    } else {
        ds[0] as nat + b * le_digits_value(ds.drop_first(), b)
    }
}

/// The natural number held by digits of base `b`, most significant first.
pub open spec fn be_digits_value(ds: Seq<u8>, b: nat) -> nat
    decreases ds.len(),
{
    if ds.len() == 0 {
        0
    } else {
        be_digits_value(ds.drop_last(), b) * b + ds.last() as nat
    }
}

/// Two fractions `(numerator, denominator)` with non-zero denominators
/// denote the same rational number.
pub open spec fn rat_eq(a: (int, int), b: (int, int)) -> bool {
    a.0 * b.1 == b.0 * a.1
}

pub open spec fn rat_add(a: (int, int), b: (int, int)) -> (int, int) {
    (a.0 * b.1 + b.0 * a.1, a.1 * b.1)
}

pub open spec fn rat_sub(a: (int, int), b: (int, int)) -> (int, int) {
    (a.0 * b.1 - b.0 * a.1, a.1 * b.1)
}

pub open spec fn rat_mul(a: (int, int), b: (int, int)) -> (int, int) {
    (a.0 * b.0, a.1 * b.1)
}

pub open spec fn rat_div(a: (int, int), b: (int, int)) -> (int, int) {
    (a.0 * b.1, a.1 * b.0)
}

pub open spec fn rat_neg(a: (int, int)) -> (int, int) {
    (-a.0, a.1)
}

/// The value of a numeral with integer digits `before` (least significant
/// first) and fractional digits `after` (most significant first).
pub open spec fn digits_fraction(before: Seq<u8>, after: Seq<u8>, b: nat) -> (int, int) {
    let scale = vstd::arithmetic::power::pow(b as int, after.len());
    (le_digits_value(before, b) * scale + be_digits_value(after, b), scale)
}

/// What `to_sci_with_options` renders for the rational `num / den`, with
/// `precision` significant digits, or in full where `precision` is `None`.
pub uninterp spec fn sci_text(num: int, den: int, precision: Option<u64>) -> Seq<char>;

/// What `Display` renders for the rational `num / den`: the fraction in
/// lowest terms.
pub uninterp spec fn fraction_text(num: int, den: int) -> Seq<char>;

/// An exact rational number: a sign and a numerator and denominator, each a
/// natural number held in little-endian 64-bit limbs.
#[derive(Clone, Debug)]
pub struct Ratio {
    pub negative: bool,
    pub numerator: Vec<u64>,
    pub denominator: Vec<u64>,
}

impl Ratio {
    pub open spec fn num(&self) -> int {
        if self.negative {
            -limbs_value(self.numerator@)
        } else {
            limbs_value(self.numerator@) as int
        }
    }

    pub open spec fn den(&self) -> int {
        limbs_value(self.denominator@) as int
    }

    /// The value as a fraction `(numerator, denominator)`.
    pub open spec fn model(&self) -> (int, int) {
        (self.num(), self.den())
    }

    pub open spec fn wf(&self) -> bool {
        self.den() > 0
    }

    /// A copy of this number.
    pub fn duplicate(&self) -> (r: Ratio)
        ensures
            r.model() == self.model(),
            r.wf() == self.wf(),
    {
        Ratio {
            negative: self.negative,
            numerator: copy_limbs(&self.numerator),
            denominator: copy_limbs(&self.denominator),
        }
    }

    /// Whether the value is zero.
    pub fn is_zero(&self) -> (r: bool)
        ensures
            r == (self.num() == 0),
    {
        let mut i: usize = 0;
        while i < self.numerator.len()
            invariant
                i <= self.numerator.len(),
                forall|j: int| 0 <= j < i ==> self.numerator@[j] == 0,
            decreases self.numerator.len() - i,
        {
            if self.numerator[i] != 0 {
                proof {
                    lemma_limbs_nonzero(self.numerator@, i as int);
                }
                return false;
            }
            i = i + 1;
        }
        proof {
            lemma_limbs_zero(self.numerator@);
        }
        true
    }
}

fn copy_limbs(v: &Vec<u64>) -> (r: Vec<u64>)
    ensures
        r@ == v@,
{
    let mut r: Vec<u64> = Vec::new();
    let mut i: usize = 0;
    while i < v.len()
        invariant
            i <= v.len(),
            r@ == v@.subrange(0, i as int),
        decreases v.len() - i,
    {
        r.push(v[i]);
        i = i + 1;
        assert(r@ =~= v@.subrange(0, i as int));
    }
    assert(r@ =~= v@);
    r
}

proof fn lemma_limbs_nonzero(l: Seq<u64>, i: int)
    requires
        0 <= i < l.len(),
        l[i] != 0,
    ensures
        limbs_value(l) > 0,
    decreases l.len(),
{
    if i > 0 {
        lemma_limbs_nonzero(l.drop_first(), i - 1);
    }
}

proof fn lemma_limbs_zero(l: Seq<u64>)
    requires
        forall|j: int| 0 <= j < l.len() ==> l[j] == 0,
    ensures
        limbs_value(l) == 0,
    decreases l.len(),
{
    if l.len() > 0 {
        lemma_limbs_zero(l.drop_first());
    }
}

/// Relies on `Rational::from_digits`: the exact value of the digits in base
/// `base`, integer digits least significant first and fractional digits
/// most significant first. It panics on a digit at or above the base, which
/// `requires` leaves out.
#[verifier::external_body]
fn from_digits(base: u8, before: &Vec<u8>, after: &Vec<u8>) -> (r: Ratio)
    requires
        base >= 2,
        digits_below(before@, base as nat),
        digits_below(after@, base as nat),
    ensures
        r.wf(),
        rat_eq(r.model(), digits_fraction(before@, after@, base as nat)),
{
    let b: Vec<Natural> = before.iter().map(|&d| Natural::from(d)).collect();
    let a: Vec<Natural> = after.iter().map(|&d| Natural::from(d)).collect();
    let q = Rational::from_digits(&Natural::from(base), b, RationalSequence::from_vec(a));
    let negative = q < 0u32;
    let (n, d) = q.into_numerator_and_denominator();
    Ratio { negative, numerator: n.into_limbs_asc(), denominator: d.into_limbs_asc() }
}


/// Relies on `Rational`'s `Add`: the exact sum.
#[verifier::external_body]
fn rational_add(a: &Ratio, b: &Ratio) -> (r: Ratio)
    requires
        a.wf(),
        b.wf(),
    ensures
        r.wf(),
        rat_eq(r.model(), rat_add(a.model(), b.model())),
{
    let x = Rational::from_sign_and_naturals(!a.negative, Natural::from_limbs_asc(&a.numerator), Natural::from_limbs_asc(&a.denominator));
    let y = Rational::from_sign_and_naturals(!b.negative, Natural::from_limbs_asc(&b.numerator), Natural::from_limbs_asc(&b.denominator));
    let q = x + y;
    let negative = q < 0u32;
    let (n, d) = q.into_numerator_and_denominator();
    Ratio { negative, numerator: n.into_limbs_asc(), denominator: d.into_limbs_asc() }
}

/// Relies on `Rational`'s `Sub`: the exact difference.
#[verifier::external_body]
fn rational_sub(a: &Ratio, b: &Ratio) -> (r: Ratio)
    requires
        a.wf(),
        b.wf(),
    ensures
        r.wf(),
        rat_eq(r.model(), rat_sub(a.model(), b.model())),
{
    let x = Rational::from_sign_and_naturals(!a.negative, Natural::from_limbs_asc(&a.numerator), Natural::from_limbs_asc(&a.denominator));
    let y = Rational::from_sign_and_naturals(!b.negative, Natural::from_limbs_asc(&b.numerator), Natural::from_limbs_asc(&b.denominator));
    let q = x - y;
    let negative = q < 0u32;
    let (n, d) = q.into_numerator_and_denominator();
    Ratio { negative, numerator: n.into_limbs_asc(), denominator: d.into_limbs_asc() }
}

/// Relies on `Rational`'s `Mul`: the exact product.
#[verifier::external_body]
fn rational_mul(a: &Ratio, b: &Ratio) -> (r: Ratio)
    requires
        a.wf(),
        b.wf(),
    ensures
        r.wf(),
        rat_eq(r.model(), rat_mul(a.model(), b.model())),
{
    let x = Rational::from_sign_and_naturals(!a.negative, Natural::from_limbs_asc(&a.numerator), Natural::from_limbs_asc(&a.denominator));
    let y = Rational::from_sign_and_naturals(!b.negative, Natural::from_limbs_asc(&b.numerator), Natural::from_limbs_asc(&b.denominator));
    let q = x * y;
    let negative = q < 0u32;
    let (n, d) = q.into_numerator_and_denominator();
    Ratio { negative, numerator: n.into_limbs_asc(), denominator: d.into_limbs_asc() }
}

/// Relies on `Rational`'s `Div`: the exact quotient; it panics on a zero
/// divisor, which `requires` leaves out.
#[verifier::external_body]
fn rational_div(a: &Ratio, b: &Ratio) -> (r: Ratio)
    requires
        a.wf(),
        b.wf(),
        b.num() != 0,
    ensures
        r.wf(),
        rat_eq(r.model(), rat_div(a.model(), b.model())),
{
    let x = Rational::from_sign_and_naturals(!a.negative, Natural::from_limbs_asc(&a.numerator), Natural::from_limbs_asc(&a.denominator));
    let y = Rational::from_sign_and_naturals(!b.negative, Natural::from_limbs_asc(&b.numerator), Natural::from_limbs_asc(&b.denominator));
    let q = x / y;
    let negative = q < 0u32;
    let (n, d) = q.into_numerator_and_denominator();
    Ratio { negative, numerator: n.into_limbs_asc(), denominator: d.into_limbs_asc() }
}

/// Relies on `ToSci::to_sci_with_options` with the default options
/// (base 10, rounding to nearest) and either `precision` significant digits
/// or, for `None`, the complete expansion. It panics on a zero precision, on
/// one above `i64::MAX`, and in complete mode on a value whose expansion
/// does not terminate; the `requires` leaves these out.
#[verifier::external_body]
fn sci(a: &Ratio, precision: Option<u64>) -> (r: String)
    requires
        a.wf(),
        match precision {
            Some(p) => precision_ok(p),
            None => terminates(a.model()),
        },
    ensures
        r@ == sci_text(a.num(), a.den(), precision),
{
    let x = Rational::from_sign_and_naturals(!a.negative, Natural::from_limbs_asc(&a.numerator), Natural::from_limbs_asc(&a.denominator));
    let mut options = ToSciOptions::default();
    match precision {
        Some(p) => options.set_precision(p),
        None => options.set_size_complete(),
    }
    x.to_sci_with_options(options).to_string()
}

/// Relies on `Rational`'s `Display`.
#[verifier::external_body]
fn fraction(a: &Ratio) -> (r: String)
    requires
        a.wf(),
    ensures
        r@ == fraction_text(a.num(), a.den()),
{
    let x = Rational::from_sign_and_naturals(!a.negative, Natural::from_limbs_asc(&a.numerator), Natural::from_limbs_asc(&a.denominator));
    x.to_string()
}

/// The value of a decimal expansion: integer digits `ip` (least
/// significant first), then after the point the digits `nr` once and the
/// digits `rp` repeated forever.
pub open spec fn expansion_value(ip: Seq<u8>, nr: Seq<u8>, rp: Seq<u8>) -> (int, int) {
    let p = vstd::arithmetic::power::pow(10, nr.len());
    if rp.len() == 0 {
        (le_digits_value(ip, 10) * p + be_digits_value(nr, 10), p)
    } else {
        let d = p * (vstd::arithmetic::power::pow(10, rp.len()) - 1);
        (le_digits_value(ip, 10) * d + be_digits_value(nr + rp, 10) - be_digits_value(nr, 10), d)
    }
}

pub open spec fn decimal_digits_ok(ds: Seq<u8>) -> bool {
    forall|i: int| 0 <= i < ds.len() ==> ds[i] < 10
}

/// Relies on `Rational::into_digits` in base 10 and `RationalSequence::into_vecs`:
/// the integer digits (least significant first), and the fractional digits
/// split into a part that comes once and a part that repeats, in simplest
/// form, so that nothing repeats exactly when the expansion terminates.
#[verifier::external_body]
fn decimal_digits(a: &Ratio) -> (r: (Vec<u8>, Vec<u8>, Vec<u8>))
    requires
        a.wf(),
        a.num() >= 0,
    ensures
        decimal_digits_ok(r.0@),
        decimal_digits_ok(r.1@),
        decimal_digits_ok(r.2@),
        rat_eq(a.model(), expansion_value(r.0@, r.1@, r.2@)),
        r.2@.len() == 0 <==> terminates(a.model()),
{
    let x = Rational::from_sign_and_naturals(!a.negative, Natural::from_limbs_asc(&a.numerator), Natural::from_limbs_asc(&a.denominator));
    let (ip, frac) = x.into_digits(&Natural::from(10u32));
    let (nr, rp) = frac.into_vecs();
    let ip = ip.iter().map(u8::exact_from).collect();
    let nr = nr.iter().map(u8::exact_from).collect();
    let rp = rp.iter().map(u8::exact_from).collect();
    (ip, nr, rp)
}

pub open spec fn rat_abs(a: (int, int)) -> (int, int) {
    (if a.0 < 0 { -a.0 } else { a.0 }, a.1)
}

/// A value and its negation both terminate or both do not.
pub proof fn lemma_terminates_neg(a: (int, int))
    requires
        a.1 > 0,
    ensures
        terminates(a) == terminates(rat_neg(a)),
{
    if terminates(a) {
        let k = choose|k: nat| (a.0 * vstd::arithmetic::power::pow(10, k)) % a.1 == 0;
        lemma_mod_zero_neg(a.0 * vstd::arithmetic::power::pow(10, k), a.1);
        assert((-a.0) * vstd::arithmetic::power::pow(10, k) == -(a.0 * vstd::arithmetic::power::pow(10, k))) by (nonlinear_arith);
        assert(((-a.0) * vstd::arithmetic::power::pow(10, k)) % a.1 == 0);
    }
    if terminates(rat_neg(a)) {
        let k = choose|k: nat| ((-a.0) * vstd::arithmetic::power::pow(10, k)) % a.1 == 0;
        lemma_mod_zero_neg((-a.0) * vstd::arithmetic::power::pow(10, k), a.1);
        assert(a.0 * vstd::arithmetic::power::pow(10, k) == -((-a.0) * vstd::arithmetic::power::pow(10, k))) by (nonlinear_arith);
        assert((a.0 * vstd::arithmetic::power::pow(10, k)) % a.1 == 0);
    }
}

proof fn lemma_mod_zero_neg(x: int, d: int)
    requires
        d > 0,
        x % d == 0,
    ensures
        (-x) % d == 0,
{
    vstd::arithmetic::div_mod::lemma_fundamental_div_mod(x, d);
    let q = x / d;
    assert(-x == (-q) * d) by (nonlinear_arith)
        requires
            x == d * q + 0,
    ;
    vstd::arithmetic::div_mod::lemma_mod_multiples_basic(-q, d);
}

/// A number of significant digits that values can be displayed with.
pub open spec fn precision_ok(p: u64) -> bool {
    0 < p <= i64::MAX
}

/// The value has a finite expansion in base 10.
pub open spec fn terminates(a: (int, int)) -> bool {
    exists|k: nat| (a.0 * vstd::arithmetic::power::pow(10, k)) % a.1 == 0
}

impl Ratio {
    /// The exact value of digits in radix `base`: integer digits least
    /// significant first, fractional digits most significant first.
    pub fn from_digits(base: u8, before: &Vec<u8>, after: &Vec<u8>) -> (r: Ratio)
        requires
            base >= 2,
            digits_below(before@, base as nat),
            digits_below(after@, base as nat),
        ensures
            r.wf(),
            rat_eq(r.model(), digits_fraction(before@, after@, base as nat)),
    {
        from_digits(base, before, after)
    }

    pub fn add(&self, other: &Ratio) -> (r: Ratio)
        requires
            self.wf(),
            other.wf(),
        ensures
            r.wf(),
            rat_eq(r.model(), rat_add(self.model(), other.model())),
    {
        rational_add(self, other)
    }

    pub fn sub(&self, other: &Ratio) -> (r: Ratio)
        requires
            self.wf(),
            other.wf(),
        ensures
            r.wf(),
            rat_eq(r.model(), rat_sub(self.model(), other.model())),
    {
        rational_sub(self, other)
    }

    pub fn mul(&self, other: &Ratio) -> (r: Ratio)
        requires
            self.wf(),
            other.wf(),
        ensures
            r.wf(),
            rat_eq(r.model(), rat_mul(self.model(), other.model())),
    {
        rational_mul(self, other)
    }

    /// The exact quotient, or `None` for a zero divisor.
    pub fn checked_div(&self, other: &Ratio) -> (r: Option<Ratio>)
        requires
            self.wf(),
            other.wf(),
        ensures
            r is None <==> other.num() == 0,
            r is Some ==> r->0.wf() && rat_eq(r->0.model(), rat_div(self.model(), other.model())),
    {
        if other.is_zero() {
            None
        } else {
            Some(rational_div(self, other))
        }
    }

    /// The negated value. Only the sign changes.
    pub fn neg(&self) -> (r: Ratio)
        requires
            self.wf(),
        ensures
            r.wf(),
            r.model() == rat_neg(self.model()),
            rat_eq(r.model(), rat_neg(self.model())),
    {
        proof {
            if self.negative {
                assert(self.num() == -limbs_value(self.numerator@));
            }
        }
        Ratio {
            negative: !self.negative,
            numerator: self.numerator.clone(),
            denominator: self.denominator.clone(),
        }
    }

    /// The decimal digits of a non-negative value: integer digits (least
    /// significant first), digits after the point that come once, and
    /// digits that then repeat; nothing repeats exactly when the expansion
    /// terminates.
    pub fn decimal_digits(&self) -> (r: (Vec<u8>, Vec<u8>, Vec<u8>))
        requires
            self.wf(),
            self.num() >= 0,
        ensures
            decimal_digits_ok(r.0@),
            decimal_digits_ok(r.1@),
            decimal_digits_ok(r.2@),
            rat_eq(self.model(), expansion_value(r.0@, r.1@, r.2@)),
            r.2@.len() == 0 <==> terminates(self.model()),
    {
        decimal_digits(self)
    }

    /// Scientific notation with `precision` significant digits, or the
    /// complete expansion for `None`, which must terminate.
    pub fn to_sci(&self, precision: Option<u64>) -> (r: String)
        requires
            self.wf(),
            match precision {
                Some(p) => precision_ok(p),
                None => terminates(self.model()),
            },
        ensures
            r@ == sci_text(self.num(), self.den(), precision),
    {
        sci(self, precision)
    }

    /// The value in lowest terms, as `n/d` or `n`.
    pub fn to_fraction_string(&self) -> (r: String)
        requires
            self.wf(),
        ensures
            r@ == fraction_text(self.num(), self.den()),
    {
        fraction(self)
    }
}


pub proof fn lemma_rat_eq_trans(a: (int, int), b: (int, int), c: (int, int))
    requires
        rat_eq(a, b),
        rat_eq(b, c),
        b.1 != 0,
    ensures
        rat_eq(a, c),
{
    assert(b.1 * (a.0 * c.1 - c.0 * a.1) == 0) by (nonlinear_arith)
        requires
            a.0 * b.1 == b.0 * a.1,
            b.0 * c.1 == c.0 * b.1,
    ;
    assert((a.0 * c.1 - c.0 * a.1) == 0) by (nonlinear_arith)
        requires
            b.1 * (a.0 * c.1 - c.0 * a.1) == 0,
            b.1 != 0,
    ;
}

/// Equal fractions with non-zero denominators are zero together.
pub proof fn lemma_rat_eq_zero(a: (int, int), b: (int, int))
    requires
        rat_eq(a, b),
        a.1 != 0,
        b.1 != 0,
    ensures
        (a.0 == 0) == (b.0 == 0),
{
    if a.0 == 0 {
        assert(b.0 * a.1 == 0);
        assert(b.0 == 0) by (nonlinear_arith)
            requires
                b.0 * a.1 == 0,
                a.1 != 0,
        ;
    }
    if b.0 == 0 {
        assert(a.0 * b.1 == 0);
        assert(a.0 == 0) by (nonlinear_arith)
            requires
                a.0 * b.1 == 0,
                b.1 != 0,
        ;
    }
}

/// `(x * y) * (z * w) == (x * z) * (y * w)`.
proof fn lemma_swap_middle(x: int, y: int, z: int, w: int)
    ensures
        (x * y) * (z * w) == (x * z) * (y * w),
{
    assert((x * y) * (z * w) == (x * z) * (y * w)) by (nonlinear_arith);
}

/// The four operations respect equality of fractions.
pub proof fn lemma_rat_ops_congruent(x: (int, int), x2: (int, int), y: (int, int), y2: (int, int))
    requires
        rat_eq(x, x2),
        rat_eq(y, y2),
    ensures
        rat_eq(rat_add(x, y), rat_add(x2, y2)),
        rat_eq(rat_sub(x, y), rat_sub(x2, y2)),
        rat_eq(rat_mul(x, y), rat_mul(x2, y2)),
        rat_eq(rat_div(x, y), rat_div(x2, y2)),
        rat_eq(rat_neg(x), rat_neg(x2)),
{
    let (a, b) = x;
    let (c, d) = x2;
    let (e, f) = y;
    let (g, h) = y2;
    lemma_swap_middle(a, f, d, h);
    lemma_swap_middle(e, b, d, h);
    lemma_swap_middle(c, h, b, f);
    lemma_swap_middle(g, d, b, f);
    assert((e * b) * (d * h) == (e * h) * (b * d)) by {
        lemma_swap_middle(e, b, h, d);
        vstd::arithmetic::mul::lemma_mul_is_commutative(d, h);
    }
    assert((g * d) * (b * f) == (g * f) * (b * d)) by {
        lemma_swap_middle(g, d, f, b);
        vstd::arithmetic::mul::lemma_mul_is_commutative(b, f);
    }
    assert((c * h) * (b * f) == (c * b) * (f * h)) by {
        lemma_swap_middle(c, h, b, f);
        vstd::arithmetic::mul::lemma_mul_is_commutative(h, f);
    }
    vstd::arithmetic::mul::lemma_mul_is_distributive_add_other_way(d * h, a * f, e * b);
    vstd::arithmetic::mul::lemma_mul_is_distributive_add_other_way(b * f, c * h, g * d);
    vstd::arithmetic::mul::lemma_mul_is_distributive_sub_other_way(d * h, a * f, e * b);
    vstd::arithmetic::mul::lemma_mul_is_distributive_sub_other_way(b * f, c * h, g * d);
    assert((a * e) * (d * h) == (c * g) * (b * f)) by (nonlinear_arith)
        requires
            a * d == c * b,
            e * h == g * f,
    ;
    assert((a * f) * (d * g) == (c * h) * (b * e)) by (nonlinear_arith)
        requires
            a * d == c * b,
            e * h == g * f,
    ;
    assert((-a) * d == (-c) * b) by (nonlinear_arith)
        requires
            a * d == c * b,
    ;
}

} // verus!
