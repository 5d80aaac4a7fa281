//! Decimal numbers as a mantissa and a scale. Comparison, addition and
//! rounding are those of the `rust_decimal` crate.

use vstd::arithmetic::power::{lemma_pow_positive, pow};
use vstd::prelude::*;

verus! {

/// The largest mantissa: 96 bits, all set.
pub const MAX_MANTISSA: i128 = 0xFFFF_FFFF_FFFF_FFFF_FFFF_FFFF;

/// The largest scale.
pub const MAX_SCALE: u32 = 28;

/// The number `mantissa / 10^scale`.
///
/// Two decimals are `==` when mantissa and scale both agree, so `1.0` and
/// `1.00` differ, though neither is below the other.
#[derive(Clone, Copy, Debug, PartialEq, Eq, Structural)]
pub struct Decimal {
    mantissa: i128,
    scale: u32,
}

/// What `rust_decimal` gives for the sum of the decimal of mantissa `am` and
/// scale `asc` and the decimal of mantissa `bm` and scale `bsc`: the mantissa
/// and scale of the sum, or `None` where the sum cannot be held.
pub uninterp spec fn decimal_sum(am: int, asc: nat, bm: int, bsc: nat) -> Option<(int, nat)>;

/// What `rust_decimal` gives for the decimal of mantissa `m` and scale `s`
/// rounded to `dp` fractional digits, halves going to the even neighbour:
/// the mantissa and scale of the rounded number.
pub uninterp spec fn decimal_rounded(m: int, s: nat, dp: nat) -> (int, nat);

impl Decimal {
    /// The mantissa fits 96 bits and a sign, and the scale is at most 28.
    #[verifier::type_invariant]
    pub closed spec fn in_range(self) -> bool {
        &&& -MAX_MANTISSA <= self.mantissa <= MAX_MANTISSA
        &&& self.scale <= MAX_SCALE
    }

    /// The mantissa.
    pub closed spec fn spec_mantissa(&self) -> i128 {
        self.mantissa
    }

    /// The scale: the number of fractional digits.
    pub closed spec fn spec_scale(&self) -> u32 {
        self.scale
    }

    /// The decimal `mantissa / 10^scale`, where that can be held.
    pub fn new(mantissa: i128, scale: u32) -> (made: Option<Decimal>)
        ensures
            made is Some <==> -MAX_MANTISSA <= mantissa <= MAX_MANTISSA && scale <= MAX_SCALE,
            made matches Some(d) ==> d.mantissa() == mantissa && d.scale() == scale,
    {
        if -MAX_MANTISSA <= mantissa && mantissa <= MAX_MANTISSA && scale <= MAX_SCALE {
            Some(Decimal { mantissa, scale })
        } else {
            None
        }
    }

    /// The whole number `n`, with scale 0.
    pub fn from_i64(n: i64) -> (made: Decimal)
        ensures
            made.mantissa() == n,
            made.scale() == 0,
    {
        Decimal { mantissa: n as i128, scale: 0 }
    }

    /// Zero, with scale 0.
    pub fn zero() -> (made: Decimal)
        ensures
            made.mantissa() == 0,
            made.scale() == 0,
    {
        Decimal { mantissa: 0, scale: 0 }
    }

    /// The mantissa.
    #[verifier::when_used_as_spec(spec_mantissa)]
    pub fn mantissa(&self) -> (m: i128)
        ensures
            m == self.mantissa(),
            -MAX_MANTISSA <= m <= MAX_MANTISSA,
    {
        proof {
            use_type_invariant(self);
        }
        self.mantissa
    }

    /// The scale: the number of fractional digits.
    #[verifier::when_used_as_spec(spec_scale)]
    pub fn scale(&self) -> (s: u32)
        ensures
            s == self.scale(),
            s <= MAX_SCALE,
    {
        proof {
            use_type_invariant(self);
        }
        self.scale
    }

    /// Whether the number `self` is less than the number `other`.
    pub open spec fn below(self, other: Decimal) -> bool {
        self.mantissa() * pow(10, other.scale() as nat) < other.mantissa() * pow(
            10,
            self.scale() as nat,
        )
    }

    /// Whether the number `self` is less than or equal to the number `other`.
    pub open spec fn at_most(self, other: Decimal) -> bool {
        !other.below(self)
    }

    /// The sum of `self` and `other` as `rust_decimal` computes it.
    pub open spec fn plus(self, other: Decimal) -> Option<Decimal> {
        match decimal_sum(
            self.mantissa() as int,
            self.scale() as nat,
            other.mantissa() as int,
            other.scale() as nat,
        ) {
            Some((m, s)) => Some(Decimal::of(m, s)),
            None => None,
        }
    }

    /// `self` rounded to `dp` fractional digits as `rust_decimal` rounds it.
    pub open spec fn rounded(self, dp: u32) -> Decimal {
        let (m, s) = decimal_rounded(self.mantissa() as int, self.scale() as nat, dp as nat);
        Decimal::of(m, s)
    }

    /// The decimal of mantissa `m` and scale `s`.
    pub closed spec fn of(m: int, s: nat) -> Decimal {
        Decimal { mantissa: m as i128, scale: s as u32 }
    }

    /// A decimal is known by its mantissa and its scale.
    pub proof fn lemma_of(self)
        ensures
            Decimal::of(self.mantissa() as int, self.scale() as nat) == self,
    {
    }
}

/// The order of decimals by their numbers is transitive.
pub proof fn lemma_at_most_transitive(a: Decimal, b: Decimal, c: Decimal)
    requires
        a.at_most(b),
        b.at_most(c),
    ensures
        a.at_most(c),
{
    let pa = pow(10, a.scale() as nat);
    let pb = pow(10, b.scale() as nat);
    let pc = pow(10, c.scale() as nat);
    lemma_pow_positive(10, a.scale() as nat);
    lemma_pow_positive(10, b.scale() as nat);
    lemma_pow_positive(10, c.scale() as nat);
    let am = a.mantissa() as int;
    let bm = b.mantissa() as int;
    let cm = c.mantissa() as int;
    assert(am * pb <= bm * pa);
    assert(bm * pc <= cm * pb);
    assert(am * pc <= cm * pa) by (nonlinear_arith)
        requires
            am * pb <= bm * pa,
            bm * pc <= cm * pb,
            pa > 0,
            pb > 0,
            pc > 0,
    {
        assert((am * pb) * pc <= (bm * pa) * pc);
        assert((bm * pc) * pa <= (cm * pb) * pa);
        assert((am * pc) * pb <= (cm * pa) * pb);
    }
}

/// Whether `a` is less than `b`, by `rust_decimal`'s `<` on the two
/// decimals: it compares the numbers, whatever their scales.
#[verifier::external_body]
pub(crate) fn less_than(a: Decimal, b: Decimal) -> (lt: bool)
    requires
        a.in_range(),
        b.in_range(),
    ensures
        lt == a.below(b),
{
    let x = rust_decimal::Decimal::from_i128_with_scale(a.mantissa, a.scale);
    let y = rust_decimal::Decimal::from_i128_with_scale(b.mantissa, b.scale);
    x < y
}

/// The sum of `a` and `b` by `rust_decimal`'s `checked_add`, `None` where it
/// overflows. What the sum's mantissa and scale are is left to
/// [`decimal_sum`]; stated here is only that adding to zero gives back `b` as
/// it is.
#[verifier::external_body]
pub(crate) fn checked_sum(a: Decimal, b: Decimal) -> (sum: Option<Decimal>)
    requires
        a.in_range(),
        b.in_range(),
    ensures
        match sum {
            Some(d) => d.in_range() && decimal_sum(
                a.mantissa() as int,
                a.scale() as nat,
                b.mantissa() as int,
                b.scale() as nat,
            ) == Some((d.mantissa() as int, d.scale() as nat)),
            None => decimal_sum(
                a.mantissa() as int,
                a.scale() as nat,
                b.mantissa() as int,
                b.scale() as nat,
            ) is None,
        },
        a.mantissa() == 0 ==> sum == Some(b),
{
    let x = rust_decimal::Decimal::from_i128_with_scale(a.mantissa, a.scale);
    let y = rust_decimal::Decimal::from_i128_with_scale(b.mantissa, b.scale);
    x.checked_add(y).map(|d| Decimal { mantissa: d.mantissa(), scale: d.scale() })
}

/// `d` rounded to `dp` fractional digits by `rust_decimal`'s `round_dp`,
/// which rounds halves to the even neighbour. What the rounded mantissa is
/// is left to [`decimal_rounded`]; stated here is that a decimal of no more
/// than `dp` fractional digits comes back as it is, and that any other comes
/// back with scale `dp`.
#[verifier::external_body]
pub(crate) fn round_dp(d: Decimal, dp: u32) -> (r: Decimal)
    requires
        d.in_range(),
    ensures
        r.in_range(),
        decimal_rounded(d.mantissa() as int, d.scale() as nat, dp as nat) == (
            r.mantissa() as int,
            r.scale() as nat,
        ),
        d.scale() <= dp ==> r == d,
        d.scale() > dp ==> r.scale() == dp,
{
    let x = rust_decimal::Decimal::from_i128_with_scale(d.mantissa, d.scale).round_dp(dp);
    Decimal { mantissa: x.mantissa(), scale: x.scale() }
}

} // verus!
