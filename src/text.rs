use crate::decimal::{pow10, scale, Decimal256};
use crate::wide::{in_wide_range, trunc_div, WideInt256};
use soroban_sdk::Env;
use vstd::prelude::*;
use vstd::string::{StrSliceExecFns, StringExecFns};

verus! {

/// The character of the decimal digit `d`.
pub open spec fn digit_char(d: int) -> char {
    (d + 48) as char
}

/// The decimal digits of `n`, most significant first, without leading zeros
/// (a single `0` for zero).
pub open spec fn digits_text(n: nat) -> Seq<char>
    decreases n,
{
    if n < 10 {
        seq![digit_char(n as int)]
    } else {
        digits_text(n / 10) + seq![digit_char((n % 10) as int)]
    }
}

/// The usual decimal text of `v`, with a leading `-` when negative.
pub open spec fn int_text(v: int) -> Seq<char> {
    if v < 0 {
        seq!['-'] + digits_text((-v) as nat)
    } else {
        digits_text(v as nat)
    }
}

/// The last `width` decimal digits of `n`, padded on the left with zeros.
pub open spec fn padded_digits(n: nat, width: nat) -> Seq<char>
    decreases width,
{
    if width == 0 {
        seq![]
    } else {
        padded_digits(n / 10, (width - 1) as nat) + seq![digit_char((n % 10) as int)]
    }
}

/// `s` without its trailing `0` characters.
pub open spec fn trim_zeros(s: Seq<char>) -> Seq<char>
    decreases s.len(),
{
    if s.len() > 0 && s.last() == '0' {
        trim_zeros(s.drop_last())
    } else {
        s
    }
}

/// The display text of the decimal with raw value `raw`: the whole part
/// (rounded toward zero), then, when the Euclidean remainder modulo `10^18`
/// is not zero, a `.` and that remainder as eighteen digits without trailing
/// zeros.
pub open spec fn display_text(raw: int) -> Seq<char> {
    let whole = trunc_div(raw, scale());
    let frac = raw % scale();
    if frac == 0 {
        int_text(whole)
    } else {
        int_text(whole) + seq!['.'] + trim_zeros(padded_digits(frac as nat, 18))
    }
}

/// Whether `c` is one of `0`..`9`.
pub open spec fn is_digit(c: char) -> bool {
    '0' <= c && c <= '9'
}

/// Whether every character of `s` is a decimal digit.
pub open spec fn all_digits(s: Seq<char>) -> bool {
    forall|i: int| 0 <= i < s.len() ==> is_digit(#[trigger] s[i])
}

/// The number that the digit characters `s` spell, most significant first.
pub open spec fn digits_value(s: Seq<char>) -> int
    decreases s.len(),
{
    if s.len() == 0 {
        0
    } else {
        digits_value(s.drop_last()) * 10 + (s.last() as int - 48)
    }
}

/// Whether `s` holds no `.`.
pub open spec fn no_dot(s: Seq<char>) -> bool {
    forall|i: int| 0 <= i < s.len() ==> #[trigger] s[i] != '.'
}

/// Whether `w` has the shape `[-]digits`, with at least one digit.
pub open spec fn whole_text_ok(w: Seq<char>) -> bool {
    if w.len() > 0 && w[0] == '-' {
        w.len() > 1 && all_digits(w.drop_first())
    } else {
        w.len() > 0 && all_digits(w)
    }
}

/// The signed number that a text of the shape `[-]digits` spells.
pub open spec fn whole_text_value(w: Seq<char>) -> int {
    if w.len() > 0 && w[0] == '-' {
        -digits_value(w.drop_first())
    } else {
        digits_value(w)
    }
}

/// Whether `w` is a whole part that reads as an `i128`.
pub open spec fn whole_ok(w: Seq<char>) -> bool {
    whole_text_ok(w) && i128::MIN <= whole_text_value(w) <= i128::MAX
}

/// Whether `f` is a fractional part: one to eighteen digits.
pub open spec fn frac_ok(f: Seq<char>) -> bool {
    1 <= f.len() <= 18 && all_digits(f)
}

/// Whether `s` holds a `.` at `k` and none elsewhere.
pub open spec fn sole_dot_at(s: Seq<char>, k: int) -> bool {
    0 <= k < s.len() && s[k] == '.' && no_dot(s.subrange(0, k)) && no_dot(
        s.subrange(k + 1, s.len() as int),
    )
}

/// The raw value that the text `s` of the shape `[-]digits[.digits]` denotes:
/// the whole part times `10^18` plus the fractional digits scaled to eighteen
/// places (the fraction is added, also after a `-`). `None` when `s` has
/// another shape, more than one `.`, a whole part that is not an `i128`, or
/// more than eighteen fractional digits.
pub open spec fn parsed_raw(s: Seq<char>) -> Option<int> {
    if no_dot(s) {
        if whole_ok(s) {
            Some(whole_text_value(s) * scale())
        } else {
            None
        }
    } else if exists|k: int| sole_dot_at(s, k) {
        let k = choose|k: int| sole_dot_at(s, k);
        let w = s.subrange(0, k);
        let f = s.subrange(k + 1, s.len() as int);
        if whole_ok(w) && frac_ok(f) {
            Some(whole_text_value(w) * scale() + digits_value(f) * pow10((18 - f.len()) as nat))
        } else {
            None
        }
    } else {
        None
    }
}

/// The one-character text of digit `d`.
fn digit_str(d: u128) -> (r: &'static str)
    requires
        d < 10,
    ensures
        r@ == seq![digit_char(d as int)],
{
    proof {
        reveal_strlit("0");
        reveal_strlit("1");
        reveal_strlit("2");
        reveal_strlit("3");
        reveal_strlit("4");
        reveal_strlit("5");
        reveal_strlit("6");
        reveal_strlit("7");
        reveal_strlit("8");
        reveal_strlit("9");
    }
    if d == 0 {
        "0"
    } else if d == 1 {
        "1"
    } else if d == 2 {
        "2"
    } else if d == 3 {
        "3"
    } else if d == 4 {
        "4"
    } else if d == 5 {
        "5"
    } else if d == 6 {
        "6"
    } else if d == 7 {
        "7"
    } else if d == 8 {
        "8"
    } else {
        "9"
    }
}

/// Appends the decimal digits of `n`.
fn push_digits(out: &mut String, n: u128)
    ensures
        final(out)@ == old(out)@ + digits_text(n as nat),
    decreases n,
{
    if n >= 10 {
        push_digits(out, n / 10);
    }
    out.append(digit_str(n % 10));
    proof {
        assert(out@ =~= old(out)@ + digits_text(n as nat));
    }
}

/// Appends the last `width` digits of `n`, padded with zeros.
fn push_padded(out: &mut String, n: u128, width: u32)
    ensures
        final(out)@ == old(out)@ + padded_digits(n as nat, width as nat),
    decreases width,
{
    if width > 0 {
        push_padded(out, n / 10, width - 1);
        out.append(digit_str(n % 10));
        proof {
            assert(out@ =~= old(out)@ + padded_digits(n as nat, width as nat));
        }
    } else {
        proof {
            assert(out@ =~= old(out)@ + padded_digits(n as nat, width as nat));
        }
    }
}

/// Dropping a trailing zero digit from the padded digits drops a `0`.
proof fn lemma_trim_step(n: nat, width: nat)
    requires
        width > 0,
        n % 10 == 0,
    ensures
        trim_zeros(padded_digits(n, width)) == trim_zeros(padded_digits(n / 10, (width - 1) as nat)),
{
    let s = padded_digits(n, width);
    assert(s.drop_last() =~= padded_digits(n / 10, (width - 1) as nat));
}

/// Padded digits that end in a nonzero digit have no trailing zero.
proof fn lemma_trim_done(n: nat, width: nat)
    requires
        width > 0,
        n % 10 != 0,
    ensures
        trim_zeros(padded_digits(n, width)) == padded_digits(n, width),
{
}

/// The digits of `a * 10^k + b` for `a > 0` and `b < 10^k` are those of `a`
/// followed by the `k` digits of `b`.
proof fn lemma_digits_split(a: nat, b: nat, k: nat)
    requires
        a > 0,
        b < pow10(k),
    ensures
        digits_text((a * pow10(k) + b) as nat) == digits_text(a) + padded_digits(b, k),
    decreases k,
{
    if k == 0 {
        assert(padded_digits(b, 0) =~= Seq::<char>::empty());
        assert(digits_text(a) + padded_digits(b, k) =~= digits_text(a));
    } else {
        let p = pow10((k - 1) as nat);
        crate::decimal::lemma_pow10_monotone(0, (k - 1) as nat);
        assert(pow10(k) == 10 * p);
        let n = a * pow10(k) + b;
        let m = a * p + b / 10;
        assert(a * pow10(k) == 10 * (a * p)) by (nonlinear_arith)
            requires
                pow10(k) == 10 * p,
        ;
        assert(a * p >= 1) by (nonlinear_arith)
            requires
                a >= 1,
                p >= 1,
        ;
        assert(n == 10 * m + b % 10);
        assert(n / 10 == m);
        assert(n % 10 == b % 10);
        assert(b / 10 < p);
        lemma_digits_split(a, b / 10, (k - 1) as nat);
        assert(m == a * p + (b / 10) as nat);
        assert(digits_text(n as nat) == digits_text(m as nat) + seq![digit_char((b % 10) as int)]);
        assert(digits_text(a) + padded_digits(b, k) =~= digits_text(a) + padded_digits(b / 10, (k - 1) as nat) + seq![digit_char((b % 10) as int)]);
    }
}

impl Decimal256 {
    /// The display text: the whole part, then a `.` and the fractional digits
    /// without trailing zeros when there are any. The whole part is rounded
    /// toward zero while the fractional digits are the Euclidean remainder,
    /// never negative.
    pub fn to_string(&self, env: &Env) -> (r: String)
        ensures
            r@ == display_text(self@),
    {
        let fractional_unit = WideInt256::from_i128(1_000_000_000_000_000_000);
        proof {
            crate::decimal::lemma_trunc_div_in_range(self@, scale());
        }
        let whole = self.0.div(env, &fractional_unit);
        let ghost w = whole@;
        let negative = whole.is_negative();
        proof {
            let x = crate::wide::abs_int(self@);
            let q = x / scale();
            assert(q * scale() <= x) by (nonlinear_arith)
                requires
                    q == x / scale(),
                    x >= 0,
            ;
            assert(crate::wide::abs_int(w) == q);
        }
        let magnitude = if negative {
            WideInt256::zero().sub(env, &whole)
        } else {
            whole
        };
        let big_unit = WideInt256::from_i128(1_000_000_000_000_000_000_000_000_000_000_000_000);
        let upper_wide = magnitude.div(env, &big_unit);
        let lower_wide = magnitude.rem_euclid(env, &big_unit);
        proof {
            let mg = magnitude@;
            let bu = big_unit@;
            assert(mg * scale() <= crate::wide::wide_max() + 1);
            assert(upper_wide@ == mg / bu);
            assert(mg / bu <= 100_000_000_000_000_000_000_000) by (nonlinear_arith)
                requires
                    0 <= mg,
                    mg * 1_000_000_000_000_000_000 <= crate::wide::wide_max() + 1,
                    bu == 1_000_000_000_000_000_000_000_000_000_000_000_000,
            ;
            assert(mg == bu * (mg / bu) + mg % bu) by (nonlinear_arith)
                requires
                    bu > 0,
            ;
        }
        let upper = upper_wide.to_i128().unwrap() as u128;
        let lower = lower_wide.to_i128().unwrap() as u128;
        let fractional = self.0.rem_euclid(env, &fractional_unit).to_i128().unwrap() as u128;
        let mut out = String::new();
        if negative {
            out.append("-");
        }
        if upper > 0 {
            push_digits(&mut out, upper);
            push_padded(&mut out, lower, 36);
            proof {
                reveal_with_fuel(pow10, 37);
                lemma_digits_split(upper as nat, lower as nat, 36);
                assert(upper * pow10(36) + lower == magnitude@) by (nonlinear_arith)
                    requires
                        pow10(36) == 1_000_000_000_000_000_000_000_000_000_000_000_000,
                        magnitude@ == 1_000_000_000_000_000_000_000_000_000_000_000_000 * upper
                            + lower,
                ;
            }
        } else {
            push_digits(&mut out, lower);
        }
        proof {
            reveal_strlit("-");
            assert(out@ =~= int_text(w));
        }
        if fractional == 0 {
            return out;
        }
        out.append(".");
        let mut f: u128 = fractional;
        let mut width: u32 = 18;
        proof {
            reveal_strlit(".");
            reveal_with_fuel(pow10, 19);
        }
        while f % 10 == 0
            invariant
                0 < f < pow10(width as nat),
                width <= 18,
                trim_zeros(padded_digits(fractional as nat, 18)) == trim_zeros(
                    padded_digits(f as nat, width as nat),
                ),
            decreases width,
        {
            proof {
                if width == 0 {
                    assert(false);
                }
                lemma_trim_step(f as nat, width as nat);
                let p = pow10((width - 1) as nat);
                assert(f / 10 < p) by (nonlinear_arith)
                    requires
                        f < 10 * p,
                ;
            }
            f = f / 10;
            width = width - 1;
        }
        proof {
            if width == 0 {
                assert(false);
            }
            lemma_trim_done(f as nat, width as nat);
        }
        push_padded(&mut out, f, width);
        out
    }
}

/// The first `.` of `input` at or after `from`, or `end` when there is none.
fn find_dot(input: &str, from: usize, end: usize) -> (r: usize)
    requires
        from <= end == input@.len(),
    ensures
        from <= r <= end,
        no_dot(input@.subrange(from as int, r as int)),
        r < end ==> input@[r as int] == '.',
{
    let mut i = from;
    while i < end
        invariant
            from <= i <= end == input@.len(),
            no_dot(input@.subrange(from as int, i as int)),
        decreases end - i,
    {
        if input.get_char(i) == '.' {
            return i;
        }
        assert(input@.subrange(from as int, i + 1) =~= input@.subrange(from as int, i as int).push(
            input@[i as int],
        ));
        i = i + 1;
    }
    i
}

/// Reads the digits `input[start..end]` as a number no larger than `limit`;
/// `None` when a character is not a digit or the number exceeds `limit`.
fn read_digits(input: &str, start: usize, end: usize, limit: u128) -> (r: Option<u128>)
    requires
        start <= end <= input@.len(),
        limit <= 0x8000_0000_0000_0000_0000_0000_0000_0000,
    ensures
        r is Some <==> all_digits(input@.subrange(start as int, end as int)) && digits_value(
            input@.subrange(start as int, end as int),
        ) <= limit,
        r is Some ==> r.unwrap() as int == digits_value(input@.subrange(start as int, end as int)),
{
    let mut acc: u128 = 0;
    let mut big = false;
    let mut i = start;
    while i < end
        invariant
            start <= i <= end <= input@.len(),
            limit <= 0x8000_0000_0000_0000_0000_0000_0000_0000,
            all_digits(input@.subrange(start as int, i as int)),
            big ==> digits_value(input@.subrange(start as int, i as int)) > limit,
            !big ==> acc as int == digits_value(input@.subrange(start as int, i as int)) && acc
                <= limit,
            digits_value(input@.subrange(start as int, i as int)) >= 0,
        decreases end - i,
    {
        let c = input.get_char(i);
        let ghost prev = input@.subrange(start as int, i as int);
        let ghost next = input@.subrange(start as int, i + 1);
        assert(next.drop_last() =~= prev);
        assert(next.last() == c);
        if !('0' <= c && c <= '9') {
            assert(input@.subrange(start as int, end as int)[i - start] == c);
            return None;
        }
        let d = (c as u32 - 48) as u128;
        if !big {
            if acc > limit / 10 {
                assert(acc * 10 + d > limit) by (nonlinear_arith)
                    requires
                        acc > limit / 10,
                        d >= 0,
                        limit >= 0,
                ;
                big = true;
            } else {
                assert(acc * 10 <= limit) by (nonlinear_arith)
                    requires
                        acc <= limit / 10,
                        limit >= 0,
                ;
                acc = acc * 10 + d;
                if acc > limit {
                    big = true;
                }
            }
        }
        assert(all_digits(next)) by {
            assert forall|j: int| 0 <= j < next.len() implies is_digit(#[trigger] next[j]) by {
                if j < prev.len() {
                    assert(next[j] == prev[j]);
                }
            }
        }
        i = i + 1;
    }
    assert(input@.subrange(start as int, end as int) =~= input@.subrange(start as int, i as int));
    if big {
        None
    } else {
        Some(acc)
    }
}

/// Reads `input[0..end]` as a whole part `[-]digits` that fits in `i128`.
fn read_whole(input: &str, end: usize) -> (r: Option<i128>)
    requires
        end <= input@.len(),
    ensures
        r is Some <==> whole_ok(input@.subrange(0, end as int)),
        r is Some ==> r.unwrap() as int == whole_text_value(input@.subrange(0, end as int)),
{
    let ghost w = input@.subrange(0, end as int);
    if end == 0 {
        return None;
    }
    if input.get_char(0) == '-' {
        assert(w.drop_first() =~= input@.subrange(1, end as int));
        if end == 1 {
            return None;
        }
        match read_digits(input, 1, end, 0x8000_0000_0000_0000_0000_0000_0000_0000) {
            Some(m) => {
                if m == 0x8000_0000_0000_0000_0000_0000_0000_0000 {
                    Some(i128::MIN)
                } else {
                    Some(-(m as i128))
                }
            },
            None => None,
        }
    } else {
        match read_digits(input, 0, end, 0x7fff_ffff_ffff_ffff_ffff_ffff_ffff_ffff) {
            Some(m) => Some(m as i128),
            None => None,
        }
    }
}

/// A `.` at `k` with none before it and none after it is the only one.
proof fn lemma_sole_dot_unique(s: Seq<char>, k: int, j: int)
    requires
        sole_dot_at(s, k),
        0 <= j < s.len(),
        s[j] == '.',
    ensures
        j == k,
{
    if j < k {
        assert(s.subrange(0, k)[j] == s[j]);
    } else if j > k {
        assert(s.subrange(k + 1, s.len() as int)[j - k - 1] == s[j]);
    }
}

impl Decimal256 {
    /// Reads a decimal from text of the shape `[-]digits[.digits]`: the whole
    /// part is an `i128` scaled by `10^18`, and one to eighteen fractional
    /// digits are scaled to eighteen places and added. Any other text, more
    /// than one `.` and more than eighteen fractional digits are rejected.
    #[verifier::rlimit(50)]
    pub fn from_str_with_env(env: &Env, input: &str) -> (r: Result<Decimal256, ()>)
        ensures
            r is Ok <==> parsed_raw(input@) is Some,
            r is Ok ==> r.unwrap()@ == parsed_raw(input@).unwrap(),
    {
        let ghost s = input@;
        let n = input.unicode_len();
        let k = find_dot(input, 0, n);
        let whole = match read_whole(input, k) {
            Some(w) => w,
            None => {
                proof {
                    if k == n {
                        assert(s.subrange(0, k as int) =~= s);
                    }
                    if !no_dot(s) {
                        if exists|j: int| sole_dot_at(s, j) {
                            let j = choose|j: int| sole_dot_at(s, j);
                            lemma_sole_dot_unique(s, j, k as int);
                        }
                    } else {
                        assert(s.subrange(0, k as int) =~= s);
                    }
                }
                return Err(());
            },
        };
        let fractional_unit = WideInt256::from_i128(1_000_000_000_000_000_000);
        assert(-0x8000_0000_0000_0000_0000_0000_0000_0000int * scale() <= whole * scale()
            <= 0x8000_0000_0000_0000_0000_0000_0000_0000int * scale()) by (nonlinear_arith)
            requires
                -0x8000_0000_0000_0000_0000_0000_0000_0000int <= whole
                    <= 0x8000_0000_0000_0000_0000_0000_0000_0000int,
        ;
        let atomics = WideInt256::from_i128(whole).mul(env, &fractional_unit);
        if k == n {
            assert(s.subrange(0, k as int) =~= s);
            return Ok(Decimal256(atomics));
        }
        assert(!no_dot(s));
        let next = find_dot(input, k + 1, n);
        if next < n {
            proof {
                if exists|j: int| sole_dot_at(s, j) {
                    let j = choose|j: int| sole_dot_at(s, j);
                    lemma_sole_dot_unique(s, j, k as int);
                    lemma_sole_dot_unique(s, j, next as int);
                }
            }
            return Err(());
        }
        assert(sole_dot_at(s, k as int));
        proof {
            let j = choose|j: int| sole_dot_at(s, j);
            lemma_sole_dot_unique(s, j, k as int);
        }
        let len = n - k - 1;
        if len == 0 || len > 18 {
            return Err(());
        }
        let fractional = match read_digits(input, k + 1, n, 1_000_000_000_000_000_000) {
            Some(f) => f,
            None => {
                proof {
                    if all_digits(s.subrange(k + 1, n as int)) {
                        lemma_digits_below(s.subrange(k + 1, n as int));
                    }
                    crate::decimal::lemma_pow10_monotone(len as nat, 18);
                    reveal_with_fuel(pow10, 19);
                }
                return Err(());
            },
        };
        let factor = crate::decimal::pow10_i128((18 - len) as u32);
        proof {
            crate::decimal::lemma_pow10_monotone((18 - len) as nat, 17);
            reveal_with_fuel(pow10, 18);
        }
        assert(fractional * factor <= 1_000_000_000_000_000_000 * 100_000_000_000_000_000)
            by (nonlinear_arith)
            requires
                0 <= fractional <= 1_000_000_000_000_000_000,
                0 < factor <= 100_000_000_000_000_000,
        ;
        let scaled = WideInt256::from_i128(fractional as i128).mul(
            env,
            &WideInt256::from_i128(factor),
        );
        Ok(Decimal256(atomics.add(env, &scaled)))
    }
}

/// Digits spell a number below `10^len`.
proof fn lemma_digits_below(s: Seq<char>)
    requires
        all_digits(s),
    ensures
        0 <= digits_value(s) < pow10(s.len()),
    decreases s.len(),
{
    if s.len() > 0 {
        let p = s.drop_last();
        assert(all_digits(p)) by {
            assert forall|j: int| 0 <= j < p.len() implies is_digit(#[trigger] p[j]) by {
                assert(p[j] == s[j]);
            }
        }
        lemma_digits_below(p);
        assert(is_digit(s[s.len() - 1]));
    }
}

} // verus!
