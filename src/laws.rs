use crate::decimal::{atomics_raw, mul_raw, scale, Decimal256};
use crate::wide::{abs_int, in_wide_range, trunc_div};
use vstd::prelude::*;

verus! {

/// Adding `b` and then subtracting it gives back `a`, whenever the sum is
/// representable: the subtraction is then representable too.
pub proof fn lemma_add_sub_round_trip(a: Decimal256, b: Decimal256)
    requires
        in_wide_range(a@ + b@),
    ensures
        in_wide_range((a@ + b@) - b@),
        (a@ + b@) - b@ == a@,
{
}

/// One is a two-sided identity of the fixed-point product, whenever the raw
/// product with one is representable.
pub proof fn lemma_mul_one(a: Decimal256)
    requires
        in_wide_range(a@ * scale()),
    ensures
        in_wide_range(scale() * a@),
        mul_raw(a@, scale()) == a@,
        mul_raw(scale(), a@) == a@,
{
    assert(a@ * scale() == scale() * a@) by (nonlinear_arith);
    let m = abs_int(a@ * scale());
    assert(m == abs_int(a@) * scale()) by (nonlinear_arith)
        requires
            m == abs_int(a@ * scale()),
    ;
    assert(m / scale() == abs_int(a@)) by (nonlinear_arith)
        requires
            m == abs_int(a@) * scale(),
    ;
}

/// Reading an integer at eighteen places keeps it unchanged.
pub proof fn lemma_from_atomics_identity(v: int)
    ensures
        atomics_raw(v, 18) == v,
{
    assert(crate::decimal::pow10(0) == 1);
}

/// Taking the reciprocal twice gives back a nonzero decimal of magnitude at
/// most one (raw value at most `10^18`): the first reciprocal is nonzero, and
/// the second one is the original value exactly, so in particular within one
/// raw unit of it.
pub proof fn lemma_inv_inv(a: Decimal256)
    requires
        a@ != 0,
        abs_int(a@) <= scale(),
    ensures
        trunc_div(scale() * scale(), a@) != 0,
        trunc_div(scale() * scale(), trunc_div(scale() * scale(), a@)) == a@,
        abs_int(trunc_div(scale() * scale(), trunc_div(scale() * scale(), a@)) - a@) <= 1,
{
    let n = scale() * scale();
    let x = abs_int(a@);
    let b = n / x;
    let c = n / b;
    assert(x * b <= n < x * (b + 1) && b >= 1) by (nonlinear_arith)
        requires
            0 < x <= scale(),
            n == scale() * scale(),
            b == n / x,
    ;
    assert(x <= b) by (nonlinear_arith)
        requires
            0 < x <= scale(),
            n == scale() * scale(),
            n < x * (b + 1),
    ;
    assert(c == x) by (nonlinear_arith)
        requires
            x * b <= n < x * (b + 1),
            b >= 1,
            x <= b,
            c == n / b,
    ;
}

} // verus!
