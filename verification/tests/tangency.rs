use aircraft_core::decimal::{read_decimal, Decimal, Magnitude};
use aircraft_core::tangency::{parse_le_tangency, Spec};

fn dec(text: &str) -> Decimal {
    read_decimal(&text.chars().collect()).expect("a decimal literal")
}

fn vector(x: &str, y: &str, z: &str) -> Option<[Decimal; 3]> {
    Some([dec(x), dec(y), dec(z)])
}

fn side(spec: &Option<Spec>) -> &Spec {
    spec.as_ref().expect("side present")
}

#[test]
fn parses_auto_and_vector_sides() {
    let parsed = parse_le_tangency("left:auto").unwrap();
    assert!(side(&parsed.left).auto);
    assert_eq!(parsed.right, None);

    let parsed = parse_le_tangency("right:0.8,0,0.1").unwrap();
    assert_eq!(side(&parsed.right).vector, vector("0.8", "0", "0.1"));

    let parsed = parse_le_tangency("left:auto;right:-0.5,0,0.25").unwrap();
    assert!(side(&parsed.left).auto);
    assert_eq!(side(&parsed.right).vector, vector("-0.5", "0", "0.25"));

    let parsed = parse_le_tangency("full:1,0,0").unwrap();
    assert_eq!(side(&parsed.left).vector, vector("1", "0", "0"));
    assert_eq!(side(&parsed.right).vector, vector("1", "0", "0"));
}

#[test]
fn rejects_malformed_specs() {
    for bad in [
        "left",
        "left:",
        "middle:auto",
        "left:auto;left:auto",
        "full:auto;left:auto",
        "left:1,2",
        "left:a,b,c",
        ";",
        "left:auto;;right:auto",
    ] {
        assert!(parse_le_tangency(bad).is_err(), "{bad:?} must be rejected");
    }
}

#[test]
fn parses_station_clauses_with_strength() {
    let parsed = parse_le_tangency("root:0.9,-0.3,0.05").unwrap();
    assert_eq!(side(&parsed.root).vector, vector("0.9", "-0.3", "0.05"));
    assert!(!side(&parsed.root).auto);

    let parsed = parse_le_tangency("tip:1,0,0:0.5;left:auto").unwrap();
    assert_eq!(side(&parsed.tip).strength, dec("0.5"));
    assert!(side(&parsed.left).auto);
    assert_eq!(side(&parsed.left).strength, Decimal::one());

    let parsed = parse_le_tangency("left:auto:0.6;right:auto:0.8").unwrap();
    assert_eq!(side(&parsed.left).strength, dec("0.6"));
    assert_eq!(side(&parsed.right).strength, dec("0.8"));
}

#[test]
fn rejects_station_clause_misuse() {
    // auto is only valid for the panel clauses.
    assert!(parse_le_tangency("root:auto").is_err());
    // duplicate root
    assert!(parse_le_tangency("root:1,0,0;root:0,1,0").is_err());
    // vector required
    assert!(parse_le_tangency("tip:1,2").is_err());
}

#[test]
fn empty_and_blank_specs_are_rejected() {
    assert!(parse_le_tangency("").is_err());
    assert!(parse_le_tangency("   ").is_err());
}

#[test]
fn clauses_tolerate_surrounding_whitespace() {
    let parsed = parse_le_tangency(" left : auto ; right : 1 , 0 , 0 ").unwrap();
    assert!(side(&parsed.left).auto);
    assert_eq!(side(&parsed.right).vector, vector("1", "0", "0"));
}

#[test]
fn non_finite_components_are_kept_as_read() {
    let parsed = parse_le_tangency("root:inf,0,NaN").unwrap();
    let v = side(&parsed.root).vector.as_ref().unwrap();
    assert_eq!(v[0], Decimal { negative: false, magnitude: Magnitude::Infinite });
    assert_eq!(v[2], Decimal { negative: false, magnitude: Magnitude::NotANumber });
}

#[test]
fn decimals_read_rust_float_syntax() {
    assert!(read_decimal(&"1e3".chars().collect()).is_some());
    assert!(read_decimal(&".5".chars().collect()).is_some());
    assert!(read_decimal(&"5.".chars().collect()).is_some());
    assert!(read_decimal(&"+2".chars().collect()).is_some());
    assert!(read_decimal(&"-Infinity".chars().collect()).is_some());
    assert!(read_decimal(&".".chars().collect()).is_none());
    assert!(read_decimal(&"1e".chars().collect()).is_none());
    assert!(read_decimal(&"abc".chars().collect()).is_none());
    assert!(read_decimal(&"".chars().collect()).is_none());
}
