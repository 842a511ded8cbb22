use soroban_sdk::{Env, I256};
use vstd::prelude::*;

verus! {

/// The host environment that carries out 256-bit arithmetic.
#[verifier::external_type_specification]
#[verifier::external_body]
pub struct ExEnv(Env);

/// The largest value a `WideInt256` holds, `2^255 - 1`.
pub open spec fn wide_max() -> int {
    0x7fff_ffff_ffff_ffff_ffff_ffff_ffff_ffffint * 0xffff_ffff_ffff_ffff_ffff_ffff_ffff_ffffint
        + 0x7fff_ffff_ffff_ffff_ffff_ffff_ffff_ffffint + 0xffff_ffff_ffff_ffff_ffff_ffff_ffff_ffffint
}

/// The smallest value a `WideInt256` holds, `-2^255`.
pub open spec fn wide_min() -> int {
    -(0x8000_0000_0000_0000_0000_0000_0000_0000int * 0xffff_ffff_ffff_ffff_ffff_ffff_ffff_ffffint
        + 0x8000_0000_0000_0000_0000_0000_0000_0000int)
}

/// Whether `v` is representable as a `WideInt256`.
pub open spec fn in_wide_range(v: int) -> bool {
    wide_min() <= v <= wide_max()
}

/// The magnitude of `x`.
pub open spec fn abs_int(x: int) -> int {
    if x < 0 {
        -x
    } else {
        x
    }
}

/// Quotient of `a / b` rounded toward zero.
pub open spec fn trunc_div(a: int, b: int) -> int {
    if (a < 0) == (b < 0) {
        abs_int(a) / abs_int(b)
    } else {
        -(abs_int(a) / abs_int(b))
    }
}

/// A signed 256-bit integer, stored as a signed high half and an unsigned low
/// half: its value is `hi * 2^128 + lo`.
#[derive(Clone, Copy, Debug, PartialEq, Eq, Structural)]
pub struct WideInt256 {
    pub hi: i128,
    pub lo: u128,
}

impl View for WideInt256 {
    type V = int;

    open spec fn view(&self) -> int {
        // hi * 2^128 + lo, with the factor written as (2^128 - 1) + 1
        self.hi as int * 0xffff_ffff_ffff_ffff_ffff_ffff_ffff_ffffint + self.hi as int + self.lo as int
    }
}

/// Two `WideInt256` values with the same value have the same halves.
pub proof fn lemma_view_injective(a: WideInt256, b: WideInt256)
    requires
        a@ == b@,
    ensures
        a == b,
{
    if a.hi < b.hi {
        assert(a@ < b@);
    } else if a.hi > b.hi {
        assert(a@ > b@);
    }
}

// The host wrappers below hand each operand to the host through
// `I256::from_parts` (the four 64-bit pieces of `hi` and `lo`) and read the
// result back from the 32 big-endian bytes of `I256::to_be_bytes`.

/// Relies on `I256::add` of soroban-sdk: the exact sum; the host traps when it
/// leaves the 256-bit range.
#[verifier::external_body]
fn host_add(env: &Env, a: &WideInt256, b: &WideInt256) -> (r: WideInt256)
    requires
        in_wide_range(a@ + b@),
    ensures
        r@ == a@ + b@,
{
    let x = I256::from_parts(env, (a.hi >> 64) as i64, a.hi as u64, (a.lo >> 64) as u64, a.lo as u64);
    let y = I256::from_parts(env, (b.hi >> 64) as i64, b.hi as u64, (b.lo >> 64) as u64, b.lo as u64);
    let r: [u8; 32] = x.add(&y).to_be_bytes().try_into().unwrap();
    WideInt256 {
        hi: i128::from_be_bytes(r[..16].try_into().unwrap()),
        lo: u128::from_be_bytes(r[16..].try_into().unwrap()),
    }
}

/// Relies on `I256::sub` of soroban-sdk: the exact difference; the host traps
/// when it leaves the 256-bit range.
#[verifier::external_body]
fn host_sub(env: &Env, a: &WideInt256, b: &WideInt256) -> (r: WideInt256)
    requires
        in_wide_range(a@ - b@),
    ensures
        r@ == a@ - b@,
{
    let x = I256::from_parts(env, (a.hi >> 64) as i64, a.hi as u64, (a.lo >> 64) as u64, a.lo as u64);
    let y = I256::from_parts(env, (b.hi >> 64) as i64, b.hi as u64, (b.lo >> 64) as u64, b.lo as u64);
    let r: [u8; 32] = x.sub(&y).to_be_bytes().try_into().unwrap();
    WideInt256 {
        hi: i128::from_be_bytes(r[..16].try_into().unwrap()),
        lo: u128::from_be_bytes(r[16..].try_into().unwrap()),
    }
}

/// Relies on `I256::mul` of soroban-sdk: the exact product; the host traps
/// when it leaves the 256-bit range.
#[verifier::external_body]
fn host_mul(env: &Env, a: &WideInt256, b: &WideInt256) -> (r: WideInt256)
    requires
        in_wide_range(a@ * b@),
    ensures
        r@ == a@ * b@,
{
    let x = I256::from_parts(env, (a.hi >> 64) as i64, a.hi as u64, (a.lo >> 64) as u64, a.lo as u64);
    let y = I256::from_parts(env, (b.hi >> 64) as i64, b.hi as u64, (b.lo >> 64) as u64, b.lo as u64);
    let r: [u8; 32] = x.mul(&y).to_be_bytes().try_into().unwrap();
    WideInt256 {
        hi: i128::from_be_bytes(r[..16].try_into().unwrap()),
        lo: u128::from_be_bytes(r[16..].try_into().unwrap()),
    }
}

/// Relies on `I256::div` of soroban-sdk: the quotient rounded toward zero; the
/// host traps on a zero divisor and on `MIN / -1`.
#[verifier::external_body]
fn host_div(env: &Env, a: &WideInt256, b: &WideInt256) -> (r: WideInt256)
    requires
        b@ != 0,
        !(a@ == wide_min() && b@ == -1),
    ensures
        r@ == trunc_div(a@, b@),
{
    let x = I256::from_parts(env, (a.hi >> 64) as i64, a.hi as u64, (a.lo >> 64) as u64, a.lo as u64);
    let y = I256::from_parts(env, (b.hi >> 64) as i64, b.hi as u64, (b.lo >> 64) as u64, b.lo as u64);
    let r: [u8; 32] = x.div(&y).to_be_bytes().try_into().unwrap();
    WideInt256 {
        hi: i128::from_be_bytes(r[..16].try_into().unwrap()),
        lo: u128::from_be_bytes(r[16..].try_into().unwrap()),
    }
}

/// Relies on `I256::rem_euclid` of soroban-sdk: the remainder in `[0, |b|)`;
/// the host traps on a zero divisor and on `MIN` with divisor `-1`.
#[verifier::external_body]
fn host_rem_euclid(env: &Env, a: &WideInt256, b: &WideInt256) -> (r: WideInt256)
    requires
        b@ != 0,
        !(a@ == wide_min() && b@ == -1),
    ensures
        r@ == a@ % abs_int(b@),
{
    let x = I256::from_parts(env, (a.hi >> 64) as i64, a.hi as u64, (a.lo >> 64) as u64, a.lo as u64);
    let y = I256::from_parts(env, (b.hi >> 64) as i64, b.hi as u64, (b.lo >> 64) as u64, b.lo as u64);
    let r: [u8; 32] = x.rem_euclid(&y).to_be_bytes().try_into().unwrap();
    WideInt256 {
        hi: i128::from_be_bytes(r[..16].try_into().unwrap()),
        lo: u128::from_be_bytes(r[16..].try_into().unwrap()),
    }
}

impl WideInt256 {
    /// The value `v`.
    pub fn from_i128(v: i128) -> (r: WideInt256)
        ensures
            r@ == v as int,
    {
        if v < 0 {
            let mag = (-(v + 1)) as u128;
            WideInt256 { hi: -1, lo: u128::MAX - mag }
        } else {
            WideInt256 { hi: 0, lo: v as u128 }
        }
    }

    /// The value narrowed to 128 bits, or `None` when it does not fit.
    pub fn to_i128(&self) -> (r: Option<i128>)
        ensures
            r.is_some() <==> i128::MIN <= self@ <= i128::MAX,
            r.is_some() ==> r.unwrap() as int == self@,
    {
        if self.hi == 0 && self.lo <= i128::MAX as u128 {
            Some(self.lo as i128)
        } else if self.hi == -1 && self.lo > i128::MAX as u128 {
            let mag = (u128::MAX - self.lo) as i128;
            Some(-mag - 1)
        } else {
            None
        }
    }

    /// The exact sum; the sum must be representable.
    pub fn add(&self, env: &Env, other: &WideInt256) -> (r: WideInt256)
        requires
            in_wide_range(self@ + other@),
        ensures
            r@ == self@ + other@,
    {
        host_add(env, self, other)
    }

    /// The exact difference; the difference must be representable.
    pub fn sub(&self, env: &Env, other: &WideInt256) -> (r: WideInt256)
        requires
            in_wide_range(self@ - other@),
        ensures
            r@ == self@ - other@,
    {
        host_sub(env, self, other)
    }

    /// The exact product; the product must be representable.
    pub fn mul(&self, env: &Env, other: &WideInt256) -> (r: WideInt256)
        requires
            in_wide_range(self@ * other@),
        ensures
            r@ == self@ * other@,
    {
        host_mul(env, self, other)
    }

    /// The quotient rounded toward zero; the divisor must be nonzero, and
    /// `MIN / -1`, whose quotient is not representable, is left out.
    pub fn div(&self, env: &Env, other: &WideInt256) -> (r: WideInt256)
        requires
            other@ != 0,
            !(self@ == wide_min() && other@ == -1),
        ensures
            r@ == trunc_div(self@, other@),
    {
        host_div(env, self, other)
    }

    /// The Euclidean remainder, in `[0, |other|)`.
    pub fn rem_euclid(&self, env: &Env, other: &WideInt256) -> (r: WideInt256)
        requires
            other@ != 0,
            !(self@ == wide_min() && other@ == -1),
        ensures
            r@ == self@ % abs_int(other@),
            0 <= r@ < abs_int(other@),
    {
        host_rem_euclid(env, self, other)
    }

    /// Zero.
    pub fn zero() -> (r: WideInt256)
        ensures
            r@ == 0,
    {
        WideInt256 { hi: 0, lo: 0 }
    }

    /// The largest representable value, `2^255 - 1`.
    pub fn max_value() -> (r: WideInt256)
        ensures
            r@ == wide_max(),
    {
        WideInt256 { hi: i128::MAX, lo: u128::MAX }
    }

    /// Whether the value is zero.
    pub fn is_zero(&self) -> (r: bool)
        ensures
            r == (self@ == 0),
    {
        self.hi == 0 && self.lo == 0
    }

    /// Whether the value is below zero.
    pub fn is_negative(&self) -> (r: bool)
        ensures
            r == (self@ < 0),
    {
        self.hi < 0
    }

    /// Whether `self` is strictly below `other`.
    pub fn lt(&self, other: &WideInt256) -> (r: bool)
        ensures
            r == (self@ < other@),
    {
        self.hi < other.hi || (self.hi == other.hi && self.lo < other.lo)
    }

    /// Whether `self` is at most `other`.
    pub fn le(&self, other: &WideInt256) -> (r: bool)
        ensures
            r == (self@ <= other@),
    {
        self.hi < other.hi || (self.hi == other.hi && self.lo <= other.lo)
    }
}

impl PartialOrd for WideInt256 {
    fn partial_cmp(&self, other: &WideInt256) -> (r: Option<core::cmp::Ordering>) {
        proof {
            if self@ == other@ {
                lemma_view_injective(*self, *other);
            }
        }
        if self.lt(other) {
            Some(core::cmp::Ordering::Less)
        } else if self.hi == other.hi && self.lo == other.lo {
            Some(core::cmp::Ordering::Equal)
        } else {
            Some(core::cmp::Ordering::Greater)
        }
    }
}

impl vstd::std_specs::cmp::PartialOrdSpecImpl for WideInt256 {
    open spec fn obeys_partial_cmp_spec() -> bool {
        true
    }

    /// Values are ordered as the integers they stand for.
    open spec fn partial_cmp_spec(&self, other: &WideInt256) -> Option<core::cmp::Ordering> {
        if self@ < other@ {
            Some(core::cmp::Ordering::Less)
        } else if self@ == other@ {
            Some(core::cmp::Ordering::Equal)
        } else {
            Some(core::cmp::Ordering::Greater)
        }
    }
}

} // verus!
