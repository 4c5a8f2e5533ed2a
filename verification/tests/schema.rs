use aircraft_core::diagnostic::{Code, Severity};
use aircraft_core::schema::validate_schema;

/// The parts of the aircraft-definition schema these tests exercise: the
/// required `units` object, the locked unit system, and typed values that
/// are numbers or strings, never objects with an inline unit.
const SCHEMA: &str = r##"{
  "$schema": "https://json-schema.org/draft/2020-12/schema",
  "type": "object",
  "required": ["schema", "id", "units", "unitSystemLocked", "components"],
  "properties": {
    "schema": { "type": "string" },
    "id": { "type": "string" },
    "units": {
      "type": "object",
      "required": ["length", "angle"],
      "properties": {
        "length": { "enum": ["m", "mm", "ft", "in"] },
        "angle": { "enum": ["deg", "rad"] }
      },
      "additionalProperties": false
    },
    "unitSystemLocked": { "const": true },
    "components": {
      "type": "array",
      "items": {
        "type": "object",
        "properties": {
          "stations": {
            "type": "array",
            "items": {
              "type": "object",
              "properties": {
                "chord": { "$ref": "#/$defs/typedValue" }
              }
            }
          }
        }
      }
    }
  },
  "$defs": {
    "typedValue": { "type": ["number", "string"] }
  }
}"##;

const DOCUMENT: &str = r#"{
  "schema": "aircraft-definition/v0.1",
  "id": "cranked-wing-study-001",
  "units": { "length": "m", "angle": "deg" },
  "unitSystemLocked": true,
  "components": [ { "stations": [ { "chord": "@param.wing.rootChord" }, { "chord": 1.5 } ] } ]
}"#;

#[test]
fn a_conforming_document_has_no_schema_diagnostics() {
    assert!(validate_schema(SCHEMA, DOCUMENT).is_empty());
}

#[test]
fn inline_units_are_rejected() {
    let source = DOCUMENT.replace(r#"{ "chord": 1.5 }"#, r#"{ "chord": { "value": 2.1, "unit": "m" } }"#);
    let errors = validate_schema(SCHEMA, &source);
    assert!(
        errors.iter().any(|d| d.code == Code::SchemaViolation),
        "expected a schema violation, got: {errors:?}"
    );
    let violation = errors.iter().find(|d| d.code == Code::SchemaViolation).unwrap();
    assert_eq!(violation.path.as_deref(), Some("/components/0/stations/1/chord"));
    assert_eq!(violation.severity, Severity::Error);
}

#[test]
fn missing_required_field_is_rejected_with_a_path() {
    let source = DOCUMENT.replace(r#""units": { "length": "m", "angle": "deg" },"#, "");
    let errors = validate_schema(SCHEMA, &source);
    assert!(errors
        .iter()
        .any(|d| d.code == Code::SchemaViolation && d.path.as_deref() == Some("")));
    assert!(errors.iter().any(|d| d.message.contains("units")));
}

#[test]
fn unlocked_unit_system_is_rejected() {
    let source = DOCUMENT.replace(r#""unitSystemLocked": true"#, r#""unitSystemLocked": false"#);
    let errors = validate_schema(SCHEMA, &source);
    assert!(errors.iter().any(|d| d.code == Code::SchemaViolation));
    assert!(errors.iter().any(|d| d.path.as_deref() == Some("/unitSystemLocked")));
}

#[test]
fn every_violation_becomes_its_own_diagnostic() {
    let source = DOCUMENT
        .replace(r#""unitSystemLocked": true"#, r#""unitSystemLocked": false"#)
        .replace(r#""angle": "deg""#, r#""angle": "grad""#);
    let errors = validate_schema(SCHEMA, &source);
    assert_eq!(errors.len(), 2, "got: {errors:?}");
    assert!(errors.iter().all(|d| d.code == Code::SchemaViolation && d.severity == Severity::Error));
    assert!(errors.iter().any(|d| d.path.as_deref() == Some("/units/angle")));
}

#[test]
fn a_schema_that_cannot_be_read_is_an_internal_error() {
    let errors = validate_schema("this is not a schema", DOCUMENT);
    assert_eq!(errors.len(), 1);
    assert_eq!(errors[0].code, Code::Internal);
    assert_eq!(errors[0].message, "embedded JSON Schema failed to compile");
    assert_eq!(errors[0].path, None);
}
