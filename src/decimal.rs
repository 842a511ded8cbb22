use crate::wide::{abs_int, in_wide_range, trunc_div, wide_max, wide_min, WideInt256};
use soroban_sdk::Env;
use vstd::prelude::*;

verus! {

/// `10^n`.
pub open spec fn pow10(n: nat) -> int
    decreases n,
{
    if n == 0 {
        1
    } else {
        10 * pow10((n - 1) as nat)
    }
}

/// The number of raw units in one: `10^18`.
pub open spec fn scale() -> int {
    1_000_000_000_000_000_000
}

/// Raw value of the fixed-point product of raw values `a` and `b`: the double
/// scale product brought back to the scale, rounded toward zero.
pub open spec fn mul_raw(a: int, b: int) -> int {
    trunc_div(a * b, scale())
}

/// Raw value of the ratio `n / d`: `n * 10^18 / d`, rounded toward zero.
pub open spec fn ratio_raw(n: int, d: int) -> int {
    trunc_div(n * scale(), d)
}

/// Raw value of `atomics` read at `places` decimal places: scaled up exactly
/// when `places <= 18`, cut toward zero otherwise.
pub open spec fn atomics_raw(atomics: int, places: int) -> int {
    if places <= 18 {
        atomics * pow10((18 - places) as nat)
    } else {
        trunc_div(atomics, pow10((places - 18) as nat))
    }
}

/// Raw value left by the squaring loop of `pow` from base `x`, accumulator `y`
/// and remaining exponent `n >= 1`. Each step rounds, so the order of the
/// products is part of the result.
pub open spec fn pow_steps(x: int, y: int, n: nat) -> int
    decreases n,
{
    if n <= 1 {
        mul_raw(x, y)
    } else if n % 2 == 0 {
        pow_steps(mul_raw(x, x), y, n / 2)
    } else {
        pow_steps(mul_raw(x, x), mul_raw(x, y), ((n - 1) / 2) as nat)
    }
}

/// Whether every raw product that the squaring loop forms is representable.
pub open spec fn pow_steps_fit(x: int, y: int, n: nat) -> bool
    decreases n,
{
    if n <= 1 {
        in_wide_range(x * y)
    } else if n % 2 == 0 {
        in_wide_range(x * x) && pow_steps_fit(mul_raw(x, x), y, n / 2)
    } else {
        in_wide_range(x * y) && in_wide_range(x * x) && pow_steps_fit(
            mul_raw(x, x),
            mul_raw(x, y),
            ((n - 1) / 2) as nat,
        )
    }
}

/// Raw value of `base` raised to `exp` by repeated squaring; one for `exp == 0`.
pub open spec fn pow_raw(base: int, exp: nat) -> int {
    if exp == 0 {
        scale()
    } else {
        pow_steps(base, scale(), exp)
    }
}

/// Failure that a caller may branch on.
#[derive(Clone, Copy, Debug, PartialEq, Eq, Structural)]
pub enum Error {
    DivideByZero,
}

/// A fixed-point decimal: the raw integer `r` stands for `r / 10^18`.
#[derive(Clone, Copy, Debug, PartialEq, Eq, Structural)]
pub struct Decimal256(pub WideInt256);

impl View for Decimal256 {
    type V = int;

    /// The raw value.
    open spec fn view(&self) -> int {
        self.0@
    }
}

/// `trunc_div` stays in range except for `MIN / -1`.
pub proof fn lemma_trunc_div_in_range(a: int, b: int)
    requires
        in_wide_range(a),
        b != 0,
        a != wide_min() || b != -1,
    ensures
        in_wide_range(trunc_div(a, b)),
        abs_int(trunc_div(a, b)) <= abs_int(a),
{
    let x = abs_int(a);
    let y = abs_int(b);
    assert(x / y <= x) by (nonlinear_arith)
        requires
            x >= 0,
            y >= 1,
    ;
    assert(0 <= x / y) by (nonlinear_arith)
        requires
            x >= 0,
            y >= 1,
    ;
    if a == wide_min() && b < 0 {
        assert(x / y <= x / 2) by (nonlinear_arith)
            requires
                x >= 0,
                y >= 2,
        ;
    }
}

/// A multiple of the scale is never the smallest wide value.
pub proof fn lemma_scaled_not_min(n: int)
    ensures
        n * scale() != wide_min(),
{
}

/// `10^n` for `n <= 38`, the powers that fit in `i128`.
pub(crate) fn pow10_i128(n: u32) -> (r: i128)
    requires
        n <= 38,
    ensures
        r as int == pow10(n as nat),
{
    let mut r: i128 = 1;
    let mut i: u32 = 0;
    while i < n
        invariant
            i <= n <= 38,
            r as int == pow10(i as nat),
        decreases n - i,
    {
        proof {
            lemma_pow10_bound(i as nat);
            reveal_with_fuel(pow10, 38);
        }
        r = r * 10;
        i = i + 1;
    }
    r
}

proof fn lemma_pow10_bound(n: nat)
    requires
        n < 38,
    ensures
        0 < pow10(n) <= pow10(37),
{
    lemma_pow10_monotone(n, 37);
}

/// Powers of ten are positive and grow with the exponent.
pub proof fn lemma_pow10_monotone(n: nat, m: nat)
    requires
        n <= m,
    ensures
        0 < pow10(n) <= pow10(m),
    decreases m,
{
    if m > 0 && n < m {
        lemma_pow10_monotone(n, (m - 1) as nat);
    } else if m > 0 {
        lemma_pow10_monotone(0, (m - 1) as nat);
    }
}

impl Decimal256 {
    /// A decimal whose raw value is `value`.
    pub fn new(_env: &Env, value: i128) -> (r: Decimal256)
        ensures
            r@ == value as int,
    {
        Decimal256(WideInt256::from_i128(value))
    }

    /// A decimal whose raw value is `value`.
    pub fn raw(_env: &Env, value: i128) -> (r: Decimal256)
        ensures
            r@ == value as int,
    {
        Decimal256(WideInt256::from_i128(value))
    }

    /// The scale `10^18` as a wide integer.
    pub fn decimal_fractional(_env: &Env) -> (r: WideInt256)
        ensures
            r@ == scale(),
    {
        WideInt256::from_i128(1_000_000_000_000_000_000)
    }

    /// One.
    pub fn one(_env: &Env) -> (r: Decimal256)
        ensures
            r@ == scale(),
    {
        Decimal256(WideInt256::from_i128(1_000_000_000_000_000_000))
    }

    /// Zero.
    pub fn zero(_env: &Env) -> (r: Decimal256)
        ensures
            r@ == 0,
    {
        Decimal256(WideInt256::zero())
    }

    /// The decimal with the largest raw value, `2^255 - 1`.
    pub fn max(_env: &Env) -> (r: Decimal256)
        ensures
            r@ == wide_max(),
    {
        Decimal256(WideInt256::max_value())
    }

    /// `x` percent: raw value `x * 10^16`.
    pub fn percent(_env: &Env, x: i64) -> (r: Decimal256)
        ensures
            r@ == x * 10_000_000_000_000_000,
    {
        Decimal256(WideInt256::from_i128((x as i128) * 10_000_000_000_000_000))
    }

    /// `x` per mille: raw value `x * 10^15`.
    pub fn permille(_env: &Env, x: i64) -> (r: Decimal256)
        ensures
            r@ == x * 1_000_000_000_000_000,
    {
        Decimal256(WideInt256::from_i128((x as i128) * 1_000_000_000_000_000))
    }

    /// `x` basis points: raw value `x * 10^14`.
    pub fn bps(_env: &Env, x: i64) -> (r: Decimal256)
        ensures
            r@ == x * 100_000_000_000_000,
    {
        Decimal256(WideInt256::from_i128((x as i128) * 100_000_000_000_000))
    }

    /// The number of decimal places, the same for every decimal.
    pub fn decimal_places(&self) -> (r: i32)
        ensures
            r == 18,
    {
        18
    }

    fn numerator(&self) -> (r: WideInt256)
        ensures
            r@ == self@,
    {
        self.0
    }

    /// The scale `10^18` by which the raw value is divided.
    pub fn denominator(&self, _env: &Env) -> (r: WideInt256)
        ensures
            r@ == scale(),
    {
        WideInt256::from_i128(1_000_000_000_000_000_000)
    }

    /// Whether the value is zero.
    pub fn is_zero(&self, _env: &Env) -> (r: bool)
        ensures
            r == (self@ == 0),
    {
        self.0.is_zero()
    }

    /// The raw value, when it fits in `i128`.
    pub fn atomics(&self) -> (r: Option<i128>)
        ensures
            r.is_some() <==> i128::MIN <= self@ <= i128::MAX,
            r.is_some() ==> r.unwrap() as int == self@,
    {
        self.0.to_i128()
    }

    /// Reads `atomics` as a number with `decimal_places` decimal places.
    /// Fewer places than eighteen scale it up exactly, in `i128`; more places
    /// cut the extra digits toward zero.
    pub fn from_atomics(_env: &Env, atomics: i128, decimal_places: i32) -> (r: Decimal256)
        requires
            decimal_places < 18 ==> 18 - decimal_places <= 38 && i128::MIN <= atomics
                * pow10((18 - decimal_places) as nat) <= i128::MAX,
            decimal_places > 18 ==> decimal_places - 18 <= 38,
        ensures
            r@ == atomics_raw(atomics as int, decimal_places as int),
    {
        if decimal_places < 18 {
            let factor = pow10_i128((18 - decimal_places) as u32);
            Decimal256(WideInt256::from_i128(atomics * factor))
        } else if decimal_places == 18 {
            Decimal256(WideInt256::from_i128(atomics))
        } else {
            let factor = pow10_i128((decimal_places - 18) as u32);
            proof {
                lemma_pow10_monotone(0, (decimal_places - 18) as nat);
            }
            let q = atomics / factor;
            assert(q == trunc_div(atomics as int, factor as int));
            Decimal256(WideInt256::from_i128(q))
        }
    }

    /// The value `numerator / denominator`: raw value
    /// `numerator * 10^18 / denominator`, rounded toward zero, computed in wide
    /// arithmetic. The denominator must be nonzero.
    pub fn from_ratio(env: &Env, numerator: WideInt256, denominator: WideInt256) -> (r: Decimal256)
        requires
            denominator@ != 0,
            in_wide_range(numerator@ * scale()),
        ensures
            r@ == ratio_raw(numerator@, denominator@),
    {
        let scaled = numerator.mul(env, &Self::decimal_fractional(env));
        proof {
            lemma_scaled_not_min(numerator@);
            lemma_trunc_div_in_range(scaled@, denominator@);
        }
        Decimal256(scaled.div(env, &denominator))
    }

    /// As `from_ratio`, with a zero denominator reported as an error.
    pub fn checked_from_ratio(env: &Env, numerator: WideInt256, denominator: WideInt256) -> (r:
        Result<Decimal256, Error>)
        requires
            in_wide_range(numerator@ * scale()),
        ensures
            r is Err <==> denominator@ == 0,
            r is Err ==> r == Err::<Decimal256, Error>(Error::DivideByZero),
            r is Ok ==> r.unwrap()@ == ratio_raw(numerator@, denominator@),
    {
        if denominator.is_zero() {
            Err(Error::DivideByZero)
        } else {
            Ok(Self::from_ratio(env, numerator, denominator))
        }
    }

    /// `self * numerator / denominator` on raw values, with the product taken
    /// before the one rounding division.
    pub fn multiply_ratio(&self, env: &Env, numerator: Decimal256, denominator: Decimal256) -> (r:
        Decimal256)
        requires
            denominator@ != 0,
            in_wide_range(self@ * numerator@),
            in_wide_range(self@ * numerator@ * scale()),
        ensures
            r@ == ratio_raw(self@ * numerator@, denominator@),
    {
        Decimal256::from_ratio(env, self.0.mul(env, &numerator.0), denominator.0)
    }

    /// The exact sum.
    pub fn add(self, env: &Env, other: Decimal256) -> (r: Decimal256)
        requires
            in_wide_range(self@ + other@),
        ensures
            r@ == self@ + other@,
    {
        Decimal256(self.0.add(env, &other.0))
    }

    /// The exact difference.
    pub fn sub(self, env: &Env, other: Decimal256) -> (r: Decimal256)
        requires
            in_wide_range(self@ - other@),
        ensures
            r@ == self@ - other@,
    {
        Decimal256(self.0.sub(env, &other.0))
    }

    /// The fixed-point product: raw values multiplied, then divided by
    /// `10^18` toward zero. The raw product must be representable.
    pub fn mul(&self, env: &Env, other: &Decimal256) -> (r: Decimal256)
        requires
            in_wide_range(self@ * other@),
        ensures
            r@ == mul_raw(self@, other@),
    {
        let product = self.numerator().mul(env, &other.numerator());
        proof {
            lemma_trunc_div_in_range(product@, scale());
        }
        Decimal256(product.div(env, &other.denominator(env)))
    }

    /// The fixed-point quotient, `from_ratio` of the raw values. The divisor
    /// must be nonzero.
    pub fn div(&self, env: &Env, rhs: Decimal256) -> (r: Decimal256)
        requires
            rhs@ != 0,
            in_wide_range(self@ * scale()),
        ensures
            r@ == ratio_raw(self@, rhs@),
    {
        Decimal256::from_ratio(env, self.numerator(), rhs.numerator())
    }

    /// The raw value divided by `rhs` toward zero, with no rescaling.
    pub fn div_by_i256(&self, env: &Env, rhs: WideInt256) -> (r: Decimal256)
        requires
            rhs@ != 0,
            !(self@ == wide_min() && rhs@ == -1),
        ensures
            r@ == trunc_div(self@, rhs@),
    {
        Decimal256(self.0.div(env, &rhs))
    }

    /// The reciprocal, raw value `10^36 / raw` toward zero; `None` for zero.
    pub fn inv(&self, env: &Env) -> (r: Option<Decimal256>)
        ensures
            r is None <==> self@ == 0,
            r is Some ==> r.unwrap()@ == trunc_div(scale() * scale(), self@),
    {
        if self.is_zero(env) {
            None
        } else {
            let fractional_squared = WideInt256::from_i128(
                1_000_000_000_000_000_000_000_000_000_000_000_000,
            );
            proof {
                lemma_trunc_div_in_range(fractional_squared@, self@);
            }
            Some(Decimal256(fractional_squared.div(env, &self.0)))
        }
    }

    /// The absolute value.
    pub fn abs(&self, env: &Env) -> (r: Decimal256)
        requires
            self@ != wide_min(),
        ensures
            r@ == abs_int(self@),
    {
        if self.0.is_negative() {
            Decimal256(WideInt256::zero().sub(env, &self.0))
        } else {
            *self
        }
    }

    /// The distance `|self - other|` between the raw values.
    pub fn abs_diff(self, env: &Env, other: Decimal256) -> (r: Decimal256)
        requires
            in_wide_range(abs_int(self@ - other@)),
        ensures
            r@ == abs_int(self@ - other@),
    {
        if self.0.lt(&other.0) {
            Decimal256(other.0.sub(env, &self.0))
        } else {
            Decimal256(self.0.sub(env, &other.0))
        }
    }

    /// The raw value cut to `precision` decimal places, toward zero, as a
    /// plain integer. The raw value must fit in `i128`.
    pub fn to_i128_with_precision(&self, precision: i32) -> (r: i128)
        requires
            i128::MIN <= self@ <= i128::MAX,
            -20 <= precision <= 18,
        ensures
            r as int == trunc_div(self@, pow10((18 - precision) as nat)),
    {
        let value = self.0.to_i128().unwrap();
        let divisor = pow10_i128((self.decimal_places() - precision) as u32);
        proof {
            lemma_pow10_monotone(0, (18 - precision) as nat);
        }
        value / divisor
    }

    /// `self` raised to `exp` by repeated squaring, each product a `mul`.
    pub fn pow(self, env: &Env, exp: u32) -> (r: Decimal256)
        requires
            exp > 0 ==> pow_steps_fit(self@, scale(), exp as nat),
        ensures
            r@ == pow_raw(self@, exp as nat),
    {
        if exp == 0 {
            return Decimal256::one(env);
        }
        let mut x = self;
        let mut n = exp;
        let mut y = Decimal256::one(env);
        while n > 1
            invariant
                n >= 1,
                pow_steps_fit(x@, y@, n as nat),
                pow_steps(x@, y@, n as nat) == pow_steps(self@, scale(), exp as nat),
            decreases n,
        {
            if n % 2 == 0 {
                x = x.mul(env, &x);
                n = n / 2;
            } else {
                y = x.mul(env, &y);
                x = x.mul(env, &x);
                n = (n - 1) / 2;
            }
        }
        x.mul(env, &y)
    }
}

impl PartialOrd for Decimal256 {
    fn partial_cmp(&self, other: &Decimal256) -> (r: Option<core::cmp::Ordering>) {
        self.0.partial_cmp(&other.0)
    }
}

impl vstd::std_specs::cmp::PartialOrdSpecImpl for Decimal256 {
    open spec fn obeys_partial_cmp_spec() -> bool {
        true
    }

    /// Decimals are ordered by their raw values.
    open spec fn partial_cmp_spec(&self, other: &Decimal256) -> Option<core::cmp::Ordering> {
        if self@ < other@ {
            Some(core::cmp::Ordering::Less)
        } else if self@ == other@ {
            Some(core::cmp::Ordering::Equal)
        } else {
            Some(core::cmp::Ordering::Greater)
        }
    }
}

} // verus!
