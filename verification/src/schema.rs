//! JSON Schema validation of a raw document against the normative schema.
//!
//! Schema validation checks shape only; meaning-level constraints live in
//! [`crate::semantic`] and in the dependency graph. The schema text is an
//! argument: the program that reads documents supplies the normative schema.
use vstd::prelude::*;
use crate::builder::view_diagnostics;
use crate::diagnostic::{error_view, Code, Diagnostic, DiagnosticView};

verus! {

/// What `jsonschema` reports when `document` is checked against `schema`:
/// `Ok` with one (instance path, message) pair per violation, in the
/// validator's order, or `Err` when the schema does not compile or either
/// text is not JSON.
pub uninterp spec fn schema_report(schema: Seq<char>, document: Seq<char>) -> Result<
    Seq<(Seq<char>, Seq<char>)>,
    Seq<char>,
>;

pub open spec fn view_violations(v: Seq<(String, String)>) -> Seq<(Seq<char>, Seq<char>)> {
    v.map_values(|p: (String, String)| (p.0@, p.1@))
}

pub open spec fn view_report(r: Result<Vec<(String, String)>, String>) -> Result<
    Seq<(Seq<char>, Seq<char>)>,
    Seq<char>,
> {
    match r {
        Ok(v) => Ok(view_violations(v@)),
        Err(e) => Err(e@),
    }
}

/// The diagnostics for a schema report: one schema-violation error per
/// violation, carrying the violation's instance path; a schema that cannot be
/// used gives a single internal error.
pub open spec fn schema_diagnostics(
    report: Result<Seq<(Seq<char>, Seq<char>)>, Seq<char>>,
) -> Seq<DiagnosticView> {
    match report {
        Ok(violations) => violations.map_values(
            |p: (Seq<char>, Seq<char>)| error_view(Code::SchemaViolation, p.1).with_path(p.0),
        ),
        Err(_) => seq![error_view(Code::Internal, "embedded JSON Schema failed to compile"@)],
    }
}

/// Checks `document` against `schema` with `jsonschema`: both texts are read
/// as JSON (`serde_json::from_str`), the schema is compiled
/// (`jsonschema::options().build`), and every error of
/// `Validator::iter_errors` is returned as its instance path and its
/// `Display` text. Any failure to read or compile is returned as its text.
/// The report is claimed to depend on the two texts alone.
#[verifier::external_body]
fn schema_violations(schema: &str, document: &str) -> (r: Result<Vec<(String, String)>, String>)
    ensures
        view_report(r) == schema_report(schema@, document@),
{
    let schema: serde_json::Value = serde_json::from_str(schema).map_err(|e| e.to_string())?;
    let document: serde_json::Value = serde_json::from_str(document).map_err(|e| e.to_string())?;
    let validator = jsonschema::options().build(&schema).map_err(|e| e.to_string())?;
    Ok(validator.iter_errors(&document).map(|e| (e.instance_path().to_string(), e.to_string())).collect())
}

/// Validates a raw document against the schema, returning one diagnostic per
/// violation with the instance path attached.
pub fn validate_schema(schema: &str, document: &str) -> (r: Vec<Diagnostic>)
    ensures
        view_diagnostics(r@) == schema_diagnostics(schema_report(schema@, document@)),
{
    match schema_violations(schema, document) {
        Err(_) => {
            let mut out: Vec<Diagnostic> = Vec::new();
            out.push(Diagnostic::error(Code::Internal, "embedded JSON Schema failed to compile".to_string()));
            proof {
                reveal_strlit("embedded JSON Schema failed to compile");
            }
            assert(view_diagnostics(out@) =~= schema_diagnostics(schema_report(schema@, document@)));
            out
        },
        Ok(violations) => diagnostics_for(&violations),
    }
}

/// One schema-violation error per violation, with its path.
pub fn diagnostics_for(violations: &Vec<(String, String)>) -> (r: Vec<Diagnostic>)
    ensures
        view_diagnostics(r@) == schema_diagnostics(Ok(view_violations(violations@))),
{
    let mut out: Vec<Diagnostic> = Vec::new();
    let mut i: usize = 0;
    while i < violations.len()
        invariant
            i <= violations@.len(),
            view_diagnostics(out@) == schema_diagnostics(Ok(view_violations(violations@.take(i as int)))),
        decreases violations@.len() - i,
    {
        let path = violations[i].0.clone();
        let message = violations[i].1.clone();
        let d = Diagnostic::error(Code::SchemaViolation, message).with_path(path);
        let ghost before = out@;
        out.push(d);
        assert(view_diagnostics(out@) =~= view_diagnostics(before).push(d@));
        assert(view_violations(violations@.take(i as int + 1)) =~= view_violations(violations@.take(i as int)).push(
            (violations@[i as int].0@, violations@[i as int].1@),
        ));
        assert(violations@.take(i as int + 1) =~= violations@.take(i as int).push(violations@[i as int]));
        assert(view_diagnostics(out@) =~= schema_diagnostics(Ok(view_violations(violations@.take(i as int + 1)))));
        i = i + 1;
    }
    assert(violations@.take(i as int) =~= violations@);
    out
}

} // verus!
