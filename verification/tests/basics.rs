use aircraft_core::cli::{print_diagnostics, print_summary, CommandKind, FormatArg, EXIT_DIAGNOSTICS, EXIT_FAILURE, EXIT_VALID};
use aircraft_core::diagnostic::{Code, Diagnostic, Severity};
use aircraft_core::dim::{Dim, Dimension};
use aircraft_core::model::{
    AircraftDefinition, Axes, Axis, CoordinateOrigin, CoordinateSystem, OriginKind, SCHEMA_ID,
};
use aircraft_core::node::FieldKind;
use aircraft_core::units::{AngleUnit, ForceUnit, LengthUnit, MassUnit, PressureUnit, UnitSystem};

fn dim(length: i32, angle: i32) -> Dimension {
    Dimension { length, angle }
}

#[test]
fn dimensions_multiply_divide_and_root() {
    let area = Dimension::length().mul(Dimension::length());
    assert_eq!(area, dim(2, 0));
    assert_eq!(area.div(Dimension::length()), Dimension::length());
    assert_eq!(Dimension::angle().invert(), dim(0, -1));
    assert_eq!(Dimension::length().pow(3), dim(3, 0));
    assert_eq!(area.sqrt(), Some(Dimension::length()));
    assert_eq!(Dimension::length().sqrt(), None);
    assert_eq!(Dimension::ratio().sqrt(), Some(Dimension::ratio()));
}

#[test]
fn dimensions_describe_themselves() {
    assert_eq!(Dimension::ratio().describe(), "a ratio (dimensionless)");
    assert_eq!(Dimension::length().describe(), "a length");
    assert_eq!(Dimension::angle().describe(), "an angle");
    assert_eq!(dim(2, 0).describe(), "length^2");
    assert_eq!(dim(-1, 0).describe(), "1/length");
    assert_eq!(dim(1, -2).describe(), "length * angle^-2");
    assert_eq!(Dim::Any.describe(), "an unconstrained number");
    assert_eq!(Dim::Bool.describe(), "a boolean");
}

#[test]
fn unification_binds_free_dimensions() {
    let length = Dim::Of(Dimension::length());
    assert_eq!(Dim::unify(Dim::Any, length), Some(length));
    assert_eq!(Dim::unify(length, Dim::Any), Some(length));
    assert_eq!(Dim::unify(Dim::Bool, Dim::Bool), Some(Dim::Bool));
    assert_eq!(Dim::unify(length, Dim::Of(Dimension::angle())), None);
    assert_eq!(Dim::unify(Dim::Bool, length), None);
}

#[test]
fn fields_carry_their_dimension_and_name() {
    assert_eq!(FieldKind::Twist.dimension(), Dimension::angle());
    assert_eq!(FieldKind::TrailingEdgeFraction.dimension(), Dimension::ratio());
    assert_eq!(FieldKind::Chord.dimension(), Dimension::length());
    assert_eq!(FieldKind::PositionY.subject_name(), "position y");
}

#[test]
fn diagnostics_render_with_their_location() {
    let plain = Diagnostic::error(Code::NonPositiveChord, "chord must be positive".to_string());
    assert_eq!(plain.to_string(), "[non-positive-chord] chord must be positive");
    let located = plain.clone().with_path("components/0/stations/2/chord".to_string());
    assert_eq!(
        located.to_string(),
        "[non-positive-chord] chord must be positive (at components/0/stations/2/chord)"
    );
    let subject = located.with_subject("main-wing / station tip / chord".to_string());
    assert_eq!(
        subject.to_string(),
        "[non-positive-chord] chord must be positive (at main-wing / station tip / chord)"
    );
    let warning = Diagnostic::warning(Code::UnknownReference, "unused".to_string());
    assert!(!warning.is_error());
    assert_eq!(warning.severity, Severity::Warning);
    assert!(subject.is_error());
    assert_eq!(Code::CycleDetected.as_str(), "cycle-detected");
    assert_eq!(Code::StationOrderViolation.as_str(), "station-order-violation");
}

#[test]
fn units_print_their_symbols() {
    let units = UnitSystem {
        length: LengthUnit::Millimeters,
        angle: AngleUnit::Radians,
        mass: MassUnit::Kilograms,
        force: ForceUnit::Newtons,
        pressure: PressureUnit::Kilopascals,
    };
    assert_eq!(units.length_unit_name(), "mm");
    assert_eq!(units.angle_unit_name(), "rad");
    assert_eq!(LengthUnit::Feet.name(), "ft");
    assert_eq!(LengthUnit::Inches.name(), "in");
    assert_eq!(AngleUnit::Degrees.name(), "deg");
}

#[test]
fn export_formats_follow_the_extension() {
    assert_eq!(FormatArg::from_extension(Some("STEP")), Some(FormatArg::Step));
    assert_eq!(FormatArg::from_extension(Some("stp")), Some(FormatArg::Step));
    assert_eq!(FormatArg::from_extension(Some("Stl")), Some(FormatArg::Stl));
    assert_eq!(FormatArg::from_extension(Some("obj")), Some(FormatArg::Obj));
    assert_eq!(FormatArg::from_extension(Some("gltf")), Some(FormatArg::Glb));
    assert_eq!(FormatArg::from_extension(Some("GLB")), Some(FormatArg::Glb));
    assert_eq!(FormatArg::from_extension(Some("txt")), None);
    assert_eq!(FormatArg::from_extension(None), None);
}

#[test]
fn commands_describe_themselves_and_exit_codes_differ() {
    assert_eq!(CommandKind::Validate.description(), "validation");
    assert_eq!(CommandKind::Export.description(), "export");
    assert_ne!(EXIT_VALID, EXIT_DIAGNOSTICS);
    assert_ne!(EXIT_DIAGNOSTICS, EXIT_FAILURE);
    assert_eq!(EXIT_VALID, 0);
}

fn empty_document() -> AircraftDefinition {
    AircraftDefinition {
        schema: SCHEMA_ID.to_string(),
        id: "study".to_string(),
        name: "A \"quoted\" study".to_string(),
        units: UnitSystem {
            length: LengthUnit::Meters,
            angle: AngleUnit::Degrees,
            mass: MassUnit::Kilograms,
            force: ForceUnit::Newtons,
            pressure: PressureUnit::Pascals,
        },
        unit_system_locked: true,
        coordinate_system: CoordinateSystem {
            axes: Axes { x: Axis::Aft, y: Axis::Starboard, z: Axis::Up },
            origin: CoordinateOrigin { kind: OriginKind::UserSelected, name: "datum".to_string() },
        },
        parameters: vec![("a".to_string(), 1.0f64.to_bits()), ("b".to_string(), 2.0f64.to_bits())],
        airfoils: vec![],
        components: vec![],
        analysis_cases: vec![],
    }
}

#[test]
fn summary_counts_errors_and_warnings() {
    let diagnostics = vec![
        Diagnostic::error(Code::NonPositiveChord, "chord".to_string()),
        Diagnostic::warning(Code::UnknownReference, "unused".to_string()),
        Diagnostic::error(Code::CycleDetected, "cycle".to_string()),
    ];
    let mut out = String::from("> ");
    print_summary(&mut out, &empty_document(), &diagnostics);
    assert_eq!(
        out,
        "> study \"A \\\"quoted\\\" study\": 0 wing(s), 2 parameter(s), 2 error(s), 1 warning(s)\n"
    );
}

#[test]
fn diagnostics_block_lists_each_line() {
    let mut out = String::new();
    print_diagnostics(&mut out, &vec![]);
    assert_eq!(out, "diagnostics: none\n");

    let mut out = String::new();
    let diagnostics = vec![
        Diagnostic::error(Code::NonPositiveChord, "chord".to_string()).with_path("p".to_string()),
        Diagnostic::warning(Code::UnknownReference, "unused".to_string()),
    ];
    print_diagnostics(&mut out, &diagnostics);
    assert_eq!(
        out,
        "diagnostics:\n  [non-positive-chord] chord (at p)\n  [unknown-reference] unused\n"
    );
}

#[test]
fn naca_codes_are_four_digits_with_a_camber_position() {
    assert_eq!(aircraft_core::profile::naca4_digits("2412").unwrap(), vec![2, 4, 1, 2]);
    assert_eq!(aircraft_core::profile::naca4_digits("0012").unwrap(), vec![0, 0, 1, 2]);
    let e = aircraft_core::profile::naca4_digits("24a2").unwrap_err();
    assert_eq!(e.message, "NACA code \"24a2\" must be four decimal digits");
    let e = aircraft_core::profile::naca4_digits("241").unwrap_err();
    assert_eq!(e.message, "NACA code \"241\" must have exactly four digits");
    let e = aircraft_core::profile::naca4_digits("2012").unwrap_err();
    assert_eq!(e.message, "NACA code \"2012\" declares camber without a camber position");
    assert_eq!(e.code, aircraft_core::diagnostic::Code::InvalidProfile);
}
