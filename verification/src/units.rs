//! The single global, immutable unit system of a document. Numbers in the
//! document are plain values read through the semantic type of their field;
//! the compute core works in meters and radians.
use vstd::prelude::*;

verus! {

#[derive(Debug, Clone, Copy, PartialEq, Eq, Structural)]
pub enum LengthUnit {
    Meters,
    Millimeters,
    Feet,
    Inches,
}

#[derive(Debug, Clone, Copy, PartialEq, Eq, Structural)]
pub enum AngleUnit {
    Degrees,
    Radians,
}

#[derive(Debug, Clone, Copy, PartialEq, Eq, Structural)]
pub enum MassUnit {
    Kilograms,
    PoundsMass,
}

#[derive(Debug, Clone, Copy, PartialEq, Eq, Structural)]
pub enum ForceUnit {
    Newtons,
    PoundsForce,
}

#[derive(Debug, Clone, Copy, PartialEq, Eq, Structural)]
pub enum PressureUnit {
    Pascals,
    Kilopascals,
    Psi,
}

#[derive(Debug, Clone, Copy, PartialEq, Eq, Structural)]
pub struct UnitSystem {
    pub length: LengthUnit,
    pub angle: AngleUnit,
    pub mass: MassUnit,
    pub force: ForceUnit,
    pub pressure: PressureUnit,
}

impl LengthUnit {
    /// The unit's symbol as written in documents.
    pub open spec fn name_spec(self) -> Seq<char> {
        match self {
            LengthUnit::Meters => "m"@,
            LengthUnit::Millimeters => "mm"@,
            LengthUnit::Feet => "ft"@,
            LengthUnit::Inches => "in"@,
        }
    }

    pub fn name(self) -> (r: &'static str)
        ensures
            r@ == self.name_spec(),
    {
        match self {
            LengthUnit::Meters => "m",
            LengthUnit::Millimeters => "mm",
            LengthUnit::Feet => "ft",
            LengthUnit::Inches => "in",
        }
    }
}

impl AngleUnit {
    /// The unit's symbol as written in documents.
    pub open spec fn name_spec(self) -> Seq<char> {
        match self {
            AngleUnit::Degrees => "deg"@,
            AngleUnit::Radians => "rad"@,
        }
    }

    pub fn name(self) -> (r: &'static str)
        ensures
            r@ == self.name_spec(),
    {
        match self {
            AngleUnit::Degrees => "deg",
            AngleUnit::Radians => "rad",
        }
    }
}

impl UnitSystem {
    pub fn length_unit_name(&self) -> (r: &'static str)
        ensures
            r@ == self.length.name_spec(),
    {
        self.length.name()
    }

    pub fn angle_unit_name(&self) -> (r: &'static str)
        ensures
            r@ == self.angle.name_spec(),
    {
        self.angle.name()
    }
}

/// Distinct units carry distinct symbols, so a symbol names its unit.
pub proof fn lemma_unit_names_distinct(a: LengthUnit, b: LengthUnit, c: AngleUnit, d: AngleUnit)
    ensures
        a.name_spec() == b.name_spec() ==> a == b,
        c.name_spec() == d.name_spec() ==> c == d,
{
    reveal_strlit("m");
    reveal_strlit("mm");
    reveal_strlit("ft");
    reveal_strlit("in");
    reveal_strlit("deg");
    reveal_strlit("rad");
    if a.name_spec() == b.name_spec() && a != b {
        let (x, y) = (a.name_spec(), b.name_spec());
        assert(x.len() == y.len());
        assert(x[0] == y[0]);
    }
    if c.name_spec() == d.name_spec() && c != d {
        assert(c.name_spec()[0] == d.name_spec()[0]);
    }
}

} // verus!
