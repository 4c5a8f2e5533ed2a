//! Dimensional types for the expression language.
//!
//! A [`Dimension`] is an exponent vector over `{length, angle}`; a plain
//! number (ratio) is the zero vector. [`Dim`] adds two non-numeric cases:
//! [`Dim::Any`] marks a value whose dimension is not yet constrained, and
//! [`Dim::Bool`] is the result of a comparison.
use crate::text::{append_int, seq_of_int};
use vstd::prelude::*;

verus! {

#[derive(Debug, Clone, Copy, PartialEq, Eq, Structural)]
pub struct Dimension {
    pub length: i32,
    pub angle: i32,
}

/// Both exponents of `length` and `angle` fit an `i32`.
pub open spec fn fits_i32(value: int) -> bool {
    i32::MIN <= value <= i32::MAX
}

impl Dimension {
    /// A plain number: every exponent zero.
    #[verifier::allow_in_spec]
    pub fn ratio() -> Dimension
        returns
            (Dimension { length: 0, angle: 0 }),
    {
        Dimension { length: 0, angle: 0 }
    }

    #[verifier::allow_in_spec]
    pub fn length() -> Dimension
        returns
            (Dimension { length: 1, angle: 0 }),
    {
        Dimension { length: 1, angle: 0 }
    }

    #[verifier::allow_in_spec]
    pub fn angle() -> Dimension
        returns
            (Dimension { length: 0, angle: 1 }),
    {
        Dimension { length: 0, angle: 1 }
    }

    pub open spec fn spec_mul(self, other: Dimension) -> Dimension {
        Dimension {
            length: (self.length + other.length) as i32,
            angle: (self.angle + other.angle) as i32,
        }
    }

    pub open spec fn spec_div(self, other: Dimension) -> Dimension {
        Dimension {
            length: (self.length - other.length) as i32,
            angle: (self.angle - other.angle) as i32,
        }
    }

    pub open spec fn spec_invert(self) -> Dimension {
        Dimension { length: (-self.length) as i32, angle: (-self.angle) as i32 }
    }

    pub open spec fn spec_pow(self, exponent: int) -> Dimension {
        Dimension {
            length: (self.length * exponent) as i32,
            angle: (self.angle * exponent) as i32,
        }
    }

    /// The exact square root: `None` unless every exponent is even.
    pub open spec fn spec_sqrt(self) -> Option<Dimension> {
        if self.length % 2 != 0 || self.angle % 2 != 0 {
            None
        } else {
            Some(Dimension { length: (self.length / 2) as i32, angle: (self.angle / 2) as i32 })
        }
    }

    pub open spec fn mul_fits(self, other: Dimension) -> bool {
        fits_i32(self.length + other.length) && fits_i32(self.angle + other.angle)
    }

    pub open spec fn div_fits(self, other: Dimension) -> bool {
        fits_i32(self.length - other.length) && fits_i32(self.angle - other.angle)
    }

    pub open spec fn pow_fits(self, exponent: int) -> bool {
        fits_i32(self.length * exponent) && fits_i32(self.angle * exponent)
    }

    pub fn mul(self, other: Self) -> (r: Self)
        requires
            self.mul_fits(other),
        ensures
            r == self.spec_mul(other),
            r.length == self.length + other.length,
            r.angle == self.angle + other.angle,
    {
        Dimension { length: self.length + other.length, angle: self.angle + other.angle }
    }

    pub fn div(self, other: Self) -> (r: Self)
        requires
            self.div_fits(other),
        ensures
            r == self.spec_div(other),
            r.length == self.length - other.length,
            r.angle == self.angle - other.angle,
    {
        Dimension { length: self.length - other.length, angle: self.angle - other.angle }
    }

    pub fn invert(self) -> (r: Self)
        requires
            self.length != i32::MIN,
            self.angle != i32::MIN,
        ensures
            r == self.spec_invert(),
            r.length == -self.length,
            r.angle == -self.angle,
    {
        Dimension { length: -self.length, angle: -self.angle }
    }

    pub fn pow(self, exponent: i32) -> (r: Self)
        requires
            self.pow_fits(exponent as int),
        ensures
            r == self.spec_pow(exponent as int),
            r.length == self.length * exponent,
            r.angle == self.angle * exponent,
    {
        Dimension { length: self.length * exponent, angle: self.angle * exponent }
    }

    /// Square root; only exact when every exponent is even.
    pub fn sqrt(self) -> (r: Option<Self>)
        ensures
            r == self.spec_sqrt(),
    {
        if self.length % 2 != 0 || self.angle % 2 != 0 {
            return None;
        }
        Some(Dimension { length: self.length / 2, angle: self.angle / 2 })
    }

    /// Human-readable description for diagnostics.
    pub open spec fn describe_spec(self) -> Seq<char> {
        if self.length == 0 && self.angle == 0 {
            "a ratio (dimensionless)"@
        } else if self.length == 1 && self.angle == 0 {
            "a length"@
        } else if self.length == 0 && self.angle == 1 {
            "an angle"@
        } else if self.length != 0 && self.angle != 0 {
            power_name_spec("length"@, self.length as int) + " * "@ + power_name_spec(
                "angle"@,
                self.angle as int,
            )
        } else if self.length != 0 {
            power_name_spec("length"@, self.length as int)
        } else {
            power_name_spec("angle"@, self.angle as int)
        }
    }

    pub fn describe(self) -> (r: String)
        ensures
            r@ == self.describe_spec(),
    {
        if self.length == 0 && self.angle == 0 {
            String::from_str("a ratio (dimensionless)")
        } else if self.length == 1 && self.angle == 0 {
            String::from_str("a length")
        } else if self.length == 0 && self.angle == 1 {
            String::from_str("an angle")
        } else if self.length != 0 && self.angle != 0 {
            let mut out = power_name("length", self.length);
            out.append(" * ");
            let angle = power_name("angle", self.angle);
            out.append(angle.as_str());
            out
        } else if self.length != 0 {
            power_name("length", self.length)
        } else {
            power_name("angle", self.angle)
        }
    }
}

pub open spec fn power_name_spec(base: Seq<char>, power: int) -> Seq<char> {
    if power == 1 {
        base
    } else if power == -1 {
        "1/"@ + base
    } else {
        base + "^"@ + seq_of_int(power)
    }
}

fn power_name(base: &str, power: i32) -> (r: String)
    ensures
        r@ == power_name_spec(base@, power as int),
{
    if power == 1 {
        String::from_str(base)
    } else if power == -1 {
        let mut out = String::from_str("1/");
        out.append(base);
        out
    } else {
        let mut out = String::from_str(base);
        out.append("^");
        append_int(&mut out, power as i64);
        out
    }
}

#[derive(Debug, Clone, Copy, PartialEq, Eq, Structural)]
pub enum Dim {
    /// Dimension not yet constrained; binds to whatever it unifies with.
    Any,
    /// Result of a comparison; cannot feed a numeric field.
    Bool,
    Of(Dimension),
}

impl Dim {
    pub open spec fn unify_spec(a: Dim, b: Dim) -> Option<Dim> {
        match (a, b) {
            (Dim::Any, other) => Some(other),
            (other, Dim::Any) => Some(other),
            (Dim::Bool, Dim::Bool) => Some(Dim::Bool),
            (Dim::Of(x), Dim::Of(y)) => if x == y {
                Some(Dim::Of(x))
            } else {
                None
            },
            _ => None,
        }
    }

    pub fn unify(a: Self, b: Self) -> (r: Option<Self>)
        ensures
            r == Dim::unify_spec(a, b),
    {
        match (a, b) {
            (Dim::Any, other) => Some(other),
            (other, Dim::Any) => Some(other),
            (Dim::Bool, Dim::Bool) => Some(Dim::Bool),
            (Dim::Of(x), Dim::Of(y)) => if x == y {
                Some(Dim::Of(x))
            } else {
                None
            },
            _ => None,
        }
    }

    pub open spec fn describe_spec(self) -> Seq<char> {
        match self {
            Dim::Any => "an unconstrained number"@,
            Dim::Bool => "a boolean"@,
            Dim::Of(dimension) => dimension.describe_spec(),
        }
    }

    pub fn describe(self) -> (r: String)
        ensures
            r@ == self.describe_spec(),
    {
        match self {
            Dim::Any => String::from_str("an unconstrained number"),
            Dim::Bool => String::from_str("a boolean"),
            Dim::Of(dimension) => dimension.describe(),
        }
    }
}

/// Multiplication of dimensions is commutative and associative, has the
/// ratio as its identity, and every dimension has its inverse.
pub proof fn lemma_dimension_group(a: Dimension, b: Dimension, c: Dimension)
    requires
        a.mul_fits(b),
        b.mul_fits(c),
        a.spec_mul(b).mul_fits(c),
        a.length != i32::MIN,
        a.angle != i32::MIN,
    ensures
        a.spec_mul(b) == b.spec_mul(a),
        a.spec_mul(b).spec_mul(c) == a.spec_mul(b.spec_mul(c)),
        a.spec_mul(Dimension::ratio()) == a,
        a.spec_mul(a.spec_invert()) == Dimension::ratio(),
{
}

/// Dividing is multiplying by the inverse, and undoes a multiplication.
pub proof fn lemma_div_is_mul_invert(a: Dimension, b: Dimension)
    requires
        a.div_fits(b),
        a.mul_fits(b),
        b.length != i32::MIN,
        b.angle != i32::MIN,
    ensures
        a.spec_div(b) == a.spec_mul(b.spec_invert()),
        a.spec_mul(b).spec_div(b) == a,
{
}

/// The square root of a square is the original dimension, and squaring is
/// the second power.
pub proof fn lemma_sqrt_of_square(a: Dimension)
    requires
        a.mul_fits(a),
    ensures
        a.spec_mul(a).spec_sqrt() == Some(a),
        a.spec_pow(2) == a.spec_mul(a),
{
}

/// Unification is commutative and idempotent, `Any` is its identity, and
/// whatever it produces unifies with both inputs to itself.
pub proof fn lemma_unify_laws(a: Dim, b: Dim)
    ensures
        Dim::unify_spec(a, b) == Dim::unify_spec(b, a),
        Dim::unify_spec(a, a) == Some(a),
        Dim::unify_spec(Dim::Any, a) == Some(a),
        Dim::unify_spec(a, b) matches Some(c) ==> Dim::unify_spec(c, a) == Some(c)
            && Dim::unify_spec(c, b) == Some(c),
{
}

/// Unification is associative.
pub proof fn lemma_unify_associative(a: Dim, b: Dim, c: Dim)
    ensures
        (match Dim::unify_spec(a, b) {
            Some(ab) => Dim::unify_spec(ab, c),
            None => None,
        }) == (match Dim::unify_spec(b, c) {
            Some(bc) => Dim::unify_spec(a, bc),
            None => None,
        }),
{
}

} // verus!
