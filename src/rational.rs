//! Exact rational numbers used as bounds along a bisector.
use vstd::prelude::*;
use num_rational::Ratio;

verus! {

/// Magnitude below which numerators and denominators are handed to the
/// rational-number library (well clear of `i128` overflow in its reduction).
pub const RATIO_LIMIT: i128 = 0x4000_0000_0000_0000_0000_0000_0000_0000;

/// Greatest common divisor of two naturals.
pub open spec fn gcd(a: nat, b: nat) -> nat
    decreases b,
{
    if b == 0 {
        a
    } else {
        gcd(b, a % b)
    }
}

pub open spec fn abs(a: int) -> nat {
    if a < 0 {
        (-a) as nat
    } else {
        a as nat
    }
}

/// Numerator of `n / d` in lowest terms with a positive denominator.
pub open spec fn reduced_numer(n: int, d: int) -> int {
    let g = gcd(abs(n), abs(d)) as int;
    if d > 0 {
        n / g
    } else {
        -(n / g)
    }
}

/// Denominator of `n / d` in lowest terms, always positive.
pub open spec fn reduced_denom(n: int, d: int) -> int {
    abs(d) as int / gcd(abs(n), abs(d)) as int
}

/// A fraction `numer / denom`.
#[derive(Clone, Copy, Debug, PartialEq, Eq, Structural)]
pub struct Rational {
    pub numer: i128,
    pub denom: i128,
}

impl Rational {
    /// A usable bound: positive denominator.
    pub open spec fn wf(self) -> bool {
        self.denom > 0
    }

    /// `self <= o` as rational values (denominators positive).
    pub open spec fn le(self, o: Rational) -> bool {
        self.numer * o.denom <= o.numer * self.denom
    }

    /// `self < o` as rational values (denominators positive).
    pub open spec fn lt(self, o: Rational) -> bool {
        self.numer * o.denom < o.numer * self.denom
    }

    /// The two fractions denote the same number.
    pub open spec fn same_value(self, o: Rational) -> bool {
        self.numer * o.denom == o.numer * self.denom
    }

    /// The fraction `n / d` in lowest terms, with a positive denominator.
    pub open spec fn reduced(n: int, d: int) -> Rational {
        Rational { numer: reduced_numer(n, d) as i128, denom: reduced_denom(n, d) as i128 }
    }

    /// Builds `numer / denom` in lowest terms with a positive denominator.
    pub fn new(numer: i128, denom: i128) -> (r: Rational)
        requires
            denom != 0,
            -RATIO_LIMIT < numer < RATIO_LIMIT,
            -RATIO_LIMIT < denom < RATIO_LIMIT,
        ensures
            r == Rational::reduced(numer as int, denom as int),
            r.wf(),
            r.same_value(Rational { numer, denom }),
    {
        reduce(numer, denom)
    }

    /// Orders two rationals by value.
    pub fn compare(&self, o: &Rational) -> (r: core::cmp::Ordering)
        requires
            self.wf(),
            o.wf(),
        ensures
            (r == core::cmp::Ordering::Less) == self.lt(*o),
            (r == core::cmp::Ordering::Equal) == self.same_value(*o),
            (r == core::cmp::Ordering::Greater) == o.lt(*self),
    {
        ratio_cmp(self, o)
    }
}

/// Relies on `num_rational::Ratio::new`, which divides numerator and
/// denominator by their gcd and then makes the denominator positive.
#[verifier::external_body]
fn reduce(numer: i128, denom: i128) -> (r: Rational)
    requires
        denom != 0,
        -RATIO_LIMIT < numer < RATIO_LIMIT,
        -RATIO_LIMIT < denom < RATIO_LIMIT,
    ensures
        r.numer == reduced_numer(numer as int, denom as int),
        r.denom == reduced_denom(numer as int, denom as int),
        r.denom > 0,
        r.numer * denom == numer * r.denom,
{
    let q = Ratio::new(numer, denom);
    Rational { numer: *q.numer(), denom: *q.denom() }
}

/// Relies on `Ord for num_rational::Ratio`, which compares two fractions by
/// value without overflowing (here both denominators are positive).
#[verifier::external_body]
fn ratio_cmp(a: &Rational, b: &Rational) -> (r: core::cmp::Ordering)
    requires
        a.denom > 0,
        b.denom > 0,
    ensures
        (r == core::cmp::Ordering::Less) == (a.numer * b.denom < b.numer * a.denom),
        (r == core::cmp::Ordering::Equal) == (a.numer * b.denom == b.numer * a.denom),
        (r == core::cmp::Ordering::Greater) == (b.numer * a.denom < a.numer * b.denom),
{
    Ratio::new_raw(a.numer, a.denom).cmp(&Ratio::new_raw(b.numer, b.denom))
}

} // verus!
