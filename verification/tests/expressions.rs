use aircraft_core::ast::{print, BinOp, Coordinate, Expr, Function, Number, Ref, SpecRef, StationLeaf};
use aircraft_core::check::{check, Checked, RefLog, RefResolver};
use aircraft_core::diagnostic::{Code, Diagnostic, DiagnosticView};
use aircraft_core::dim::{Dim, Dimension};
use aircraft_core::parser::{parse_field_expression, parse_formula};

/// Resolver with a fixed catalog of reference dimensions.
struct FixedResolver(Vec<(Ref, Dim)>);

impl RefResolver for FixedResolver {
    /// Used by the verifier only; compiled code never calls it.
    fn resolves(&self, _reference: SpecRef) -> Result<Dim, DiagnosticView> {
        unreachable!("specification function")
    }

    /// Used by the verifier only; compiled code never calls it.
    fn asked(&self) -> RefLog {
        unreachable!("specification function")
    }

    fn dimension_of(&mut self, reference: &Ref) -> Result<Dim, Diagnostic> {
        self.0
            .iter()
            .find(|(known, _)| known == reference)
            .map(|(_, dim)| *dim)
            .ok_or_else(|| {
                Diagnostic::error(
                    Code::UnknownReference,
                    format!("unknown reference {}", reference.to_string()),
                )
            })
    }
}

fn fixed() -> FixedResolver {
    FixedResolver(vec![
        (
            Ref::Station { station: "root".into(), leaf: StationLeaf::PositionX },
            Dim::Of(Dimension::length()),
        ),
        (
            Ref::Station { station: "root".into(), leaf: StationLeaf::PositionZ },
            Dim::Of(Dimension::length()),
        ),
        (
            Ref::Station { station: "root".into(), leaf: StationLeaf::Twist },
            Dim::Of(Dimension::angle()),
        ),
        (Ref::Parameter("length".into()), Dim::Of(Dimension::length())),
        (Ref::Parameter("angle".into()), Dim::Of(Dimension::angle())),
        (Ref::Parameter("free".into()), Dim::Any),
    ])
}

fn formula(src: &str) -> Expr {
    parse_formula(src).unwrap()
}

fn checked(src: &str, expected: Dim) -> Checked {
    let expr = parse_formula(src).unwrap();
    check(&expr, expected, &mut fixed()).unwrap()
}

fn error_of(src: &str, expected: Dim) -> Diagnostic {
    let expr = parse_formula(src).unwrap();
    check(&expr, expected, &mut fixed()).expect_err("expression should not type-check")
}

fn lit(value: u8) -> Expr {
    Expr::Literal(Number { digits: vec![value], exponent: 0 })
}

#[test]
fn numbers_and_operators_parse() {
    assert_eq!(
        formula("1 + 2 * 3"),
        Expr::Binary(
            BinOp::Add,
            Box::new(lit(1)),
            Box::new(Expr::Binary(BinOp::Mul, Box::new(lit(2)), Box::new(lit(3)))),
        )
    );
}

#[test]
fn references_parse_with_longest_identifier() {
    assert_eq!(
        formula("@param.wing.rootToKink.dx"),
        Expr::Reference(Ref::Parameter("wing.rootToKink.dx".to_string()))
    );
    assert_eq!(
        formula("@station.root.position.x"),
        Expr::Reference(Ref::Station { station: "root".to_string(), leaf: StationLeaf::PositionX })
    );
    assert_eq!(
        formula("@component.main-wing.interface.root-attachment.origin.z"),
        Expr::Reference(Ref::InterfaceOrigin {
            component: "main-wing".to_string(),
            interface: "root-attachment".to_string(),
            coordinate: Coordinate::Z,
        })
    );
}

#[test]
fn unknown_prefixes_are_rejected() {
    assert!(parse_formula("@parametric.value").is_err());
    assert!(parse_formula("@bogus.thing").is_err());
}

#[test]
fn field_expression_requires_leading_equals() {
    assert!(parse_field_expression("1 + 2").is_err());
    assert!(parse_field_expression("= 1 + 2").is_ok());
}

#[test]
fn trailing_input_is_rejected() {
    assert!(parse_formula("1 2").is_err());
    assert!(parse_formula("(1))").is_err());
    assert!(parse_formula("").is_err());
}

#[test]
fn distances_type_check_as_length() {
    let checked = checked(
        "sqrt(@station.root.position.x * @station.root.position.x)",
        Dim::Of(Dimension::length()),
    );
    assert_eq!(checked.dim, Dim::Of(Dimension::length()));
}

#[test]
fn length_times_length_is_not_a_length() {
    let diagnostic = error_of(
        "@station.root.position.x * @station.root.position.x",
        Dim::Of(Dimension::length()),
    );
    assert_eq!(diagnostic.code, Code::DimensionMismatch);
}

#[test]
fn length_plus_angle_is_rejected() {
    let diagnostic = error_of(
        "@station.root.position.x + @station.root.twist",
        Dim::Of(Dimension::length()),
    );
    assert_eq!(diagnostic.code, Code::DimensionMismatch);
    assert!(diagnostic.message.contains("length"));
    assert!(diagnostic.message.contains("angle"));
}

#[test]
fn lerp_rejects_a_non_ratio_blend() {
    let diagnostic = error_of("lerp(0, 10, @station.root.twist)", Dim::Of(Dimension::length()));
    assert_eq!(diagnostic.code, Code::DimensionMismatch);
}

#[test]
fn pow_requires_an_integer_literal_exponent() {
    assert!(parse_formula("pow(2, 0.5)").is_ok());
    let diagnostic = error_of("pow(4, 0.5)", Dim::Any);
    assert_eq!(diagnostic.code, Code::DimensionMismatch);

    let expr: Expr = parse_formula("pow(2, @param.free)").unwrap();
    let diagnostic = check(&expr, Dim::Any, &mut fixed()).expect_err("non-literal exponent must be rejected");
    assert_eq!(diagnostic.code, Code::DimensionMismatch);
}

#[test]
fn comparisons_produce_booleans_that_cannot_bind_to_numbers() {
    let checked = checked("1 < 2", Dim::Any);
    assert_eq!(checked.dim, Dim::Bool);

    let expr = parse_formula("1 < 2").unwrap();
    let diagnostic = check(&expr, Dim::Of(Dimension::length()), &mut fixed())
        .expect_err("boolean must not bind to a length field");
    assert_eq!(diagnostic.code, Code::DimensionMismatch);
}

#[test]
fn unknown_reference_is_reported() {
    let expr = parse_formula("@param.does.not.exist + 1").unwrap();
    let diagnostic = check(&expr, Dim::Of(Dimension::length()), &mut fixed())
        .expect_err("unknown reference must be rejected");
    assert_eq!(diagnostic.code, Code::UnknownReference);
}

#[test]
fn unconstrained_parameters_bind_to_the_field_dimension() {
    let checked = checked("@param.free * 2", Dim::Of(Dimension::length()));
    assert_eq!(checked.dim, Dim::Of(Dimension::length()));
    assert_eq!(checked.references.len(), 1);
}

#[test]
fn printing_round_trips_through_the_parser() {
    for source in [
        "1 + 2 * 3",
        "-(1 + 2) * 3.5",
        "sqrt(@station.root.position.x * @station.root.position.x + 1)",
        "lerp(@param.length, 2, 0.5)",
        "@component.main-wing.interface.root-attachment.origin.z + 0.5",
        "min(1, 2, 3) == 3",
        "clamp(@param.free, 0, 10) / @station.root.position.x",
    ] {
        let parsed = parse_formula(source).unwrap();
        let printed = print(&parsed);
        let reparsed = parse_formula(&printed).unwrap();
        assert_eq!(parsed, reparsed, "round-trip failed for {source} -> {printed}");
    }
}

#[test]
fn functions_have_declared_arity() {
    assert_eq!(Function::Lerp.arity(), (3, 3));
    assert_eq!(Function::Min.arity().1, usize::MAX);
    assert!(parse_formula("lerp(1, 2)").is_err());
    assert!(parse_formula("min()").is_err());
    assert!(parse_formula("unknownfn(1)").is_err());
}

#[test]
fn function_names_round_trip() {
    for f in [
        Function::Min,
        Function::Max,
        Function::Abs,
        Function::Clamp,
        Function::Lerp,
        Function::Sqrt,
        Function::Pow,
        Function::Sin,
        Function::Cos,
        Function::Tan,
    ] {
        assert_eq!(Function::from_name(f.name()), Some(f));
    }
    assert_eq!(Function::from_name("atan2"), None);
}

#[test]
fn decimal_literals_are_exact() {
    assert_eq!(formula("2.50"), Expr::Literal(Number { digits: vec![2, 5], exponent: -1 }));
    assert_eq!(formula("1200"), Expr::Literal(Number { digits: vec![1, 2], exponent: 2 }));
    assert_eq!(formula("0.000"), Expr::Literal(Number { digits: vec![], exponent: 0 }));
    assert_eq!(formula("1.5e3"), Expr::Literal(Number { digits: vec![1, 5], exponent: 2 }));
}

#[test]
fn print_renders_canonical_text() {
    assert_eq!(print(&formula("-(1 + 2) * 3.5")), "(-(1.0 + 2.0) * 3.5)");
    assert_eq!(print(&formula("1 + 2 * 3")), "(1.0 + (2.0 * 3.0))");
    assert_eq!(print(&formula("(1 + 2) * 3")), "((1.0 + 2.0) * 3.0)");
    assert_eq!(print(&formula("@param.a.b")), "@param.a.b");
}

#[test]
fn syntax_errors_carry_the_syntax_code() {
    let error = parse_formula("1 +").unwrap_err();
    assert_eq!(error.code, Code::ExpressionSyntax);
    let error = parse_field_expression("1").unwrap_err();
    assert_eq!(error.message, "an expression value must start with '=' (at offset 0)");
}

#[test]
fn checked_references_keep_source_order_and_duplicates() {
    let checked = checked("@param.length + @param.length * @param.free", Dim::Of(Dimension::length()));
    assert_eq!(checked.references.len(), 3);
    assert_eq!(checked.references[0].0, Ref::Parameter("length".into()));
    assert_eq!(checked.references[2].0, Ref::Parameter("free".into()));
}

/// A resolver that answers every reference as a length and records what it
/// was asked, in order.
struct RecordingResolver(Vec<Ref>);

impl RefResolver for RecordingResolver {
    /// Used by the verifier only; compiled code never calls it.
    fn resolves(&self, _reference: SpecRef) -> Result<Dim, DiagnosticView> {
        unreachable!("specification function")
    }

    /// Used by the verifier only; compiled code never calls it.
    fn asked(&self) -> RefLog {
        unreachable!("specification function")
    }

    fn dimension_of(&mut self, reference: &Ref) -> Result<Dim, Diagnostic> {
        self.0.push(reference.clone());
        Ok(Dim::Of(Dimension::length()))
    }
}

#[test]
fn the_resolver_is_asked_once_per_reference_in_source_order() {
    let expr = formula("lerp(@param.b, @param.a, 0.5) + max(@param.a, @station.root.position.x) * 2");
    let mut resolver = RecordingResolver(Vec::new());
    let result = check(&expr, Dim::Of(Dimension::length()), &mut resolver).unwrap();
    let expected = vec![
        Ref::Parameter("b".into()),
        Ref::Parameter("a".into()),
        Ref::Parameter("a".into()),
        Ref::Station { station: "root".into(), leaf: StationLeaf::PositionX },
    ];
    assert_eq!(resolver.0, expected);
    let recorded: Vec<Ref> = result.references.iter().map(|(r, _)| r.clone()).collect();
    assert_eq!(recorded, expected);
}

#[test]
fn exponents_beyond_every_binary64_read_as_overflow_or_zero() {
    assert_eq!(
        formula("1e99999999999999999999"),
        Expr::Literal(Number { digits: vec![1], exponent: i64::MAX })
    );
    assert_eq!(formula("2.5e-99999999999999999999"), Expr::Literal(Number { digits: vec![], exponent: 0 }));
    assert_eq!(formula("0e99999999999999999999"), Expr::Literal(Number { digits: vec![], exponent: 0 }));
    assert_eq!(
        formula("1e9223372036854775807"),
        Expr::Literal(Number { digits: vec![1], exponent: i64::MAX })
    );
}

#[test]
fn tokens_carry_increasing_byte_offsets_and_longest_names() {
    let tokens = aircraft_core::lexer::lex("@param.wing-a.b+max_2 (x, 12)").unwrap();
    let offsets: Vec<usize> = tokens.iter().map(|t| t.offset).collect();
    assert_eq!(offsets, vec![0, 15, 16, 22, 23, 24, 26, 28]);
    assert!(matches!(&tokens[0].token, aircraft_core::lexer::Token::Reference(name) if name == "param.wing-a.b"));
    assert!(matches!(&tokens[2].token, aircraft_core::lexer::Token::Ident(name) if name == "max_2"));
}
