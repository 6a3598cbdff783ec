//! Exact fixed-point decimals for prices and quantities.
//!
//! An [`Amount`] counts units of `10^-18`. Every amount lies between
//! `-MAX_UNITS` and `MAX_UNITS`, so sums and differences of two amounts never
//! leave the range of `i128`.

use vstd::prelude::*;
use vstd::arithmetic::power::*;
use std::str::FromStr;

verus! {

/// Number of fractional decimal digits that an [`Amount`] carries.
pub const SCALE: u32 = 18;

/// Largest magnitude of an [`Amount`], in units: `10^36`.
pub const MAX_UNITS: i128 = 1_000_000_000_000_000_000_000_000_000_000_000_000;

/// `10^n`.
pub open spec fn pow10(n: nat) -> int {
    pow(10, n)
}

/// Whether `units` counts of `10^-18` are exactly `mantissa / 10^scale`.
pub open spec fn represents(units: int, mantissa: int, scale: nat) -> bool {
    units * pow10(scale) == mantissa * pow10(SCALE as nat)
}

/// Whether `units` is within the range of an [`Amount`].
pub open spec fn in_range(units: int) -> bool {
    -MAX_UNITS <= units <= MAX_UNITS
}

/// The count of units that is exactly `mantissa / 10^scale`, where one is in
/// range.
pub open spec fn exact_units(mantissa: int, scale: nat) -> Option<int> {
    if exists|u: int| in_range(u) && represents(u, mantissa, scale) {
        Some(choose|u: int| in_range(u) && represents(u, mantissa, scale))
    } else {
        None
    }
}

/// Mantissa and scale that `rust_decimal` reads from a decimal string, or
/// `None` where it rejects the string.
pub uninterp spec fn decimal_from_str(s: Seq<char>) -> Option<(i128, u32)>;

/// The count of units that a decimal string stands for, where `rust_decimal`
/// accepts the string and its value is an exact, in-range count.
pub open spec fn parsed_units(s: Seq<char>) -> Option<int> {
    match decimal_from_str(s) {
        Some((mantissa, scale)) => exact_units(mantissa as int, scale as nat),
        None => None,
    }
}

/// Calls `rust_decimal::Decimal::from_str` and hands back the mantissa and the
/// scale of the decimal it produced. Nothing is proved of the parser: its
/// result is only given the name [`decimal_from_str`].
#[verifier::external_body]
pub(crate) fn parse_decimal(s: &str) -> (r: Option<(i128, u32)>)
    ensures
        r == decimal_from_str(s@),
{
    match rust_decimal::Decimal::from_str(s) {
        Ok(d) => Some((d.mantissa(), d.scale())),
        Err(_) => None,
    }
}

/// A price or a quantity: a signed count of `10^-18`.
#[derive(Clone, Copy, Debug, PartialEq, Eq, Hash)]
pub struct Amount {
    units: i128,
}

/// A power of ten is at least one.
pub proof fn lemma_pow10_positive(n: nat)
    ensures
        pow10(n) >= 1,
{
    lemma_pow_positive(10, n);
}

/// The next power of ten is ten times the last.
pub proof fn lemma_pow10_step(n: nat)
    ensures
        pow10(n + 1) == 10 * pow10(n),
{
    reveal(pow);
}

/// A power of ten with a sum as exponent is the product of the powers.
pub proof fn lemma_pow10_split(a: nat, b: nat)
    ensures
        pow10(a + b) == pow10(a) * pow10(b),
{
    lemma_pow_adds(10, a, b);
}

/// At most one count of units stands for a given decimal.
pub proof fn lemma_represents_unique(u: int, v: int, mantissa: int, scale: nat)
    requires
        represents(u, mantissa, scale),
        represents(v, mantissa, scale),
    ensures
        u == v,
{
    lemma_pow10_positive(scale);
    let p = pow10(scale);
    assert(u * p == v * p);
    assert(u == v) by (nonlinear_arith)
        requires
            u * p == v * p,
            p >= 1,
    ;
}

/// Scales the magnitude `mag / 10^scale` to a count of `10^-18`, where that
/// count is whole and at most `MAX_UNITS`.
fn scale_magnitude(mag: u128, scale: u32) -> (r: Option<u128>)
    ensures
        r matches Some(u) ==> u <= MAX_UNITS && represents(u as int, mag as int, scale as nat),
        r is None ==> forall|u: int| 0 <= u <= MAX_UNITS ==> !represents(u, mag as int, scale as nat),
{
    let limit: u128 = 1_000_000_000_000_000_000_000_000_000_000_000_000;
    if mag == 0 {
        proof {
            lemma_pow10_positive(scale as nat);
            assert(0 * pow10(scale as nat) == 0 * pow10(SCALE as nat)) by (nonlinear_arith);
        }
        return Some(0);
    }
    let mut cur: u128 = mag;
    proof {
        lemma_pow0(10);
    }
    if scale <= SCALE {
        let mut i: u32 = scale;
        while i < SCALE
            invariant
                scale <= i <= SCALE,
                limit == MAX_UNITS,
                cur as int == mag * pow10((i - scale) as nat),
            decreases SCALE - i,
        {
            if cur > limit / 10 {
                proof {
                    lemma_scaling_up_overflows(mag as int, scale as nat, i as nat, cur as int);
                }
                return None;
            }
            proof {
                lemma_pow10_step((i - scale) as nat);
                assert(cur * 10 == mag * (10 * pow10((i - scale) as nat))) by (nonlinear_arith)
                    requires
                        cur as int == mag * pow10((i - scale) as nat),
                ;
            }
            cur = cur * 10;
            i = i + 1;
        }
        proof {
            lemma_pow10_split(scale as nat, (SCALE - scale) as nat);
            let a = pow10(scale as nat);
            let b = pow10((SCALE - scale) as nat);
            assert((mag * b) * a == mag * (a * b)) by (nonlinear_arith);
        }
        if cur > limit {
            proof {
                assert forall|u: int| 0 <= u <= MAX_UNITS implies !represents(u, mag as int, scale as nat) by {
                    if represents(u, mag as int, scale as nat) {
                        lemma_represents_unique(u, cur as int, mag as int, scale as nat);
                    }
                }
            }
            return None;
        }
        Some(cur)
    } else {
        let mut i: u32 = SCALE;
        while i < scale
            invariant
                SCALE <= i <= scale,
                cur as int * pow10((i - SCALE) as nat) == mag,
                cur > 0,
            decreases scale - i,
        {
            if cur % 10 != 0 {
                proof {
                    lemma_scaling_down_inexact(mag as int, scale as nat, i as nat, cur as int);
                }
                return None;
            }
            proof {
                lemma_pow10_step((i - SCALE) as nat);
                let q = (cur / 10) as int;
                let p = pow10((i - SCALE) as nat);
                assert(cur as int == q * 10);
                assert(q * (10 * p) == (q * 10) * p) by (nonlinear_arith);
            }
            cur = cur / 10;
            i = i + 1;
        }
        proof {
            lemma_pow10_split(SCALE as nat, (scale - SCALE) as nat);
            let a = pow10(SCALE as nat);
            let b = pow10((scale - SCALE) as nat);
            assert(cur * (a * b) == (cur * b) * a) by (nonlinear_arith);
        }
        if cur > limit {
            proof {
                assert forall|u: int| 0 <= u <= MAX_UNITS implies !represents(u, mag as int, scale as nat) by {
                    if represents(u, mag as int, scale as nat) {
                        lemma_represents_unique(u, cur as int, mag as int, scale as nat);
                    }
                }
            }
            return None;
        }
        Some(cur)
    }
}

/// Multiplying on towards `10^-18` only grows a magnitude that is already too large.
proof fn lemma_scaling_up_overflows(mag: int, scale: nat, i: nat, cur: int)
    requires
        scale <= i < SCALE,
        cur == mag * pow10((i - scale) as nat),
        cur > MAX_UNITS / 10,
    ensures
        forall|u: int| 0 <= u <= MAX_UNITS ==> !represents(u, mag, scale),
{
    let rest = pow10((SCALE - i) as nat);
    let done = pow10((i - scale) as nat);
    let full = mag * pow10((SCALE - scale) as nat);
    lemma_pow10_split((i - scale) as nat, (SCALE - i) as nat);
    lemma_pow10_step((SCALE - i - 1) as nat);
    lemma_pow10_positive((SCALE - i - 1) as nat);
    assert(rest >= 10);
    assert(full == cur * rest) by (nonlinear_arith)
        requires
            full == mag * (done * rest),
            cur == mag * done,
    ;
    assert(cur * rest >= cur * 10) by (nonlinear_arith)
        requires
            rest >= 10,
            cur >= 0,
    ;
    assert(full > MAX_UNITS);
    lemma_pow10_split(scale, (SCALE - scale) as nat);
    let a = pow10(scale);
    let b = pow10((SCALE - scale) as nat);
    assert(full * a == mag * (a * b)) by (nonlinear_arith)
        requires
            full == mag * b,
    ;
    assert(represents(full, mag, scale));
    assert forall|u: int| 0 <= u <= MAX_UNITS implies !represents(u, mag, scale) by {
        if represents(u, mag, scale) {
            lemma_represents_unique(u, full, mag, scale);
        }
    }
}

/// A magnitude with digits below `10^-18` has no exact count of units.
proof fn lemma_scaling_down_inexact(mag: int, scale: nat, i: nat, cur: int)
    requires
        SCALE <= i < scale,
        cur * pow10((i - SCALE) as nat) == mag,
        cur % 10 != 0,
    ensures
        forall|u: int| !represents(u, mag, scale),
{
    assert forall|u: int| !represents(u, mag, scale) by {
        if represents(u, mag, scale) {
            let a = pow10(SCALE as nat);
            let d = pow10((i - SCALE) as nat);
            let r = pow10((scale - i - 1) as nat);
            lemma_pow10_positive(SCALE as nat);
            lemma_pow10_positive((i - SCALE) as nat);
            lemma_pow10_split(SCALE as nat, (scale - SCALE) as nat);
            lemma_pow10_split((i - SCALE) as nat, (scale - i) as nat);
            lemma_pow10_step((scale - i - 1) as nat);
            // u * (a * d * 10 * r) == cur * d * a
            assert(pow10(scale) == a * (d * (10 * r)));
            assert((u * r * 10) * (a * d) == cur * (a * d)) by (nonlinear_arith)
                requires
                    u * (a * (d * (10 * r))) == (cur * d) * a,
            ;
            assert(u * r * 10 == cur) by (nonlinear_arith)
                requires
                    (u * r * 10) * (a * d) == cur * (a * d),
                    a >= 1,
                    d >= 1,
            ;
            assert((u * r * 10) % 10 == 0) by (nonlinear_arith);
        }
    }
}

/// A negative number times a positive one is not a non-negative number times
/// a positive one.
proof fn lemma_sign_of_product(neg: int, p: int, nonneg: int, q: int)
    requires
        neg < 0,
        p >= 1,
        nonneg >= 0,
        q >= 1,
    ensures
        neg * p != nonneg * q,
{
    assert(neg * p < 0) by (nonlinear_arith)
        requires
            neg < 0,
            p >= 1,
    ;
    assert(nonneg * q >= 0) by (nonlinear_arith)
        requires
            nonneg >= 0,
            q >= 1,
    ;
}

impl Amount {
    /// Every amount is within range.
    #[verifier::type_invariant]
    pub closed spec fn inv(self) -> bool {
        in_range(self.units as int)
    }

    /// The amount as a count of `10^-18`.
    pub closed spec fn view(self) -> int {
        self.units as int
    }

    /// The amount of zero units.
    pub fn zero() -> (r: Amount)
        ensures
            r@ == 0,
    {
        Amount { units: 0 }
    }

    /// The amount of `units` counts of `10^-18`, where that is in range.
    pub fn from_units(units: i128) -> (r: Option<Amount>)
        ensures
            r is Some <==> in_range(units as int),
            r matches Some(a) ==> a@ == units,
    {
        if -MAX_UNITS <= units && units <= MAX_UNITS {
            Some(Amount { units })
        } else {
            None
        }
    }

    /// The count of `10^-18` that this amount stands for.
    pub fn units(&self) -> (r: i128)
        ensures
            r == self@,
            in_range(r as int),
    {
        proof {
            use_type_invariant(self);
        }
        self.units
    }

    /// The amount that is exactly `mantissa / 10^scale`, where one exists.
    pub fn from_parts(mantissa: i128, scale: u32) -> (r: Option<Amount>)
        ensures
            r matches Some(a) ==> exact_units(mantissa as int, scale as nat) == Some(a@),
            r is None ==> exact_units(mantissa as int, scale as nat) is None,
    {
        let r = Self::scale_parts(mantissa, scale);
        proof {
            if let Some(a) = r {
                use_type_invariant(a);
                let w = choose|u: int| in_range(u) && represents(u, mantissa as int, scale as nat);
                lemma_represents_unique(w, a@, mantissa as int, scale as nat);
            }
        }
        r
    }

    /// Reads a decimal string, as `rust_decimal` does, into the amount that is
    /// exactly its value.
    pub fn parse(s: &str) -> (r: Option<Amount>)
        ensures
            r matches Some(a) ==> parsed_units(s@) == Some(a@),
            r is None ==> parsed_units(s@) is None,
    {
        match parse_decimal(s) {
            Some((mantissa, scale)) => Self::from_parts(mantissa, scale),
            None => None,
        }
    }

    /// The amount that is exactly `mantissa / 10^scale`, where one exists.
    fn scale_parts(mantissa: i128, scale: u32) -> (r: Option<Amount>)
        ensures
            r matches Some(a) ==> represents(a@, mantissa as int, scale as nat),
            r is None ==> forall|u: int| in_range(u) ==> !represents(u, mantissa as int, scale as nat),
    {
        if mantissa >= 0 {
            match scale_magnitude(mantissa as u128, scale) {
                Some(u) => Some(Amount { units: u as i128 }),
                None => {
                    proof {
                        lemma_pow10_positive(scale as nat);
                        lemma_pow10_positive(SCALE as nat);
                        assert forall|u: int| in_range(u) implies !represents(u, mantissa as int, scale as nat) by {
                            if u < 0 {
                                lemma_sign_of_product(u, pow10(scale as nat), mantissa as int, pow10(SCALE as nat));
                            }
                        }
                    }
                    None
                },
            }
        } else {
            let mag: u128 = ((-(mantissa + 1)) as u128) + 1;
            match scale_magnitude(mag, scale) {
                Some(u) => {
                    proof {
                        let a = pow10(scale as nat);
                        let b = pow10(SCALE as nat);
                        assert((-(u as int)) * a == (-(mag as int)) * b) by (nonlinear_arith)
                            requires
                                u * a == mag * b,
                        ;
                    }
                    Some(Amount { units: -(u as i128) })
                },
                None => {
                    proof {
                        lemma_pow10_positive(scale as nat);
                        lemma_pow10_positive(SCALE as nat);
                        let a = pow10(scale as nat);
                        let b = pow10(SCALE as nat);
                        assert forall|u: int| in_range(u) implies !represents(u, mantissa as int, scale as nat) by {
                            if represents(u, mantissa as int, scale as nat) {
                                if u > 0 {
                                    lemma_sign_of_product(mantissa as int, b, u, a);
                                }
                                assert((-u) * a == (mag as int) * b) by (nonlinear_arith)
                                    requires
                                        u * a == (-(mag as int)) * b,
                                ;
                                assert(represents(-u, mag as int, scale as nat));
                            }
                        }
                    }
                    None
                },
            }
        }
    }

    /// Whether the amount is zero: as a quantity, the sign that a level is
    /// gone.
    pub fn is_zero(&self) -> (r: bool)
        ensures
            r == (self@ == 0),
    {
        self.units == 0
    }

    /// Whether the amount is above zero.
    pub fn is_positive(&self) -> (r: bool)
        ensures
            r == (self@ > 0),
    {
        self.units > 0
    }
}

} // verus!
