//! Diagnostic model shared by every validation and evaluation stage.
//!
//! Diagnostics always point at the editable source: either a JSON path into the
//! aircraft document, or a human-readable subject such as
//! `main-wing / station tip / position x`.
use vstd::prelude::*;

verus! {

#[derive(Debug, Clone, Copy, PartialEq, Eq, Structural)]
pub enum Code {
    /// The document does not satisfy the JSON Schema.
    SchemaViolation,
    /// An expression failed to lex or parse.
    ExpressionSyntax,
    /// A parameter, station, component, or interface reference does not resolve.
    UnknownReference,
    /// A dependency cycle was found; the message carries the chain.
    CycleDetected,
    /// An expression or parameter produces the wrong dimension for its field.
    DimensionMismatch,
    /// A value is NaN or infinite.
    NonFiniteResult,
    /// A symmetric wing's root station is not on local `y = 0`.
    RootOffSymmetryPlane,
    /// Stations do not progress strictly outboard into negative local Y.
    StationOrderViolation,
    /// Chord is zero or negative.
    NonPositiveChord,
    /// A trailing-edge treatment is infeasible for its field.
    InvalidTrailingEdge,
    /// A leading-edge tangency specification is malformed or misplaced.
    InvalidTangency,
    /// A profile is invalid, self-intersecting, or impossible to loft.
    InvalidProfile,
    /// Mesh generation failed; the message names the geometry and tolerance.
    MeshFailure,
    /// A required identifier is duplicated.
    DuplicateIdentifier,
    /// The global unit system is missing or inconsistent.
    InvalidUnits,
    /// An internal invariant failed; never expected in normal operation.
    Internal,
}

impl Code {
    pub open spec fn as_str_spec(self) -> Seq<char> {
        match self {
            Code::SchemaViolation => "schema-violation"@,
            Code::ExpressionSyntax => "expression-syntax"@,
            Code::UnknownReference => "unknown-reference"@,
            Code::CycleDetected => "cycle-detected"@,
            Code::DimensionMismatch => "dimension-mismatch"@,
            Code::NonFiniteResult => "non-finite-result"@,
            Code::RootOffSymmetryPlane => "root-off-symmetry-plane"@,
            Code::StationOrderViolation => "station-order-violation"@,
            Code::NonPositiveChord => "non-positive-chord"@,
            Code::InvalidTrailingEdge => "invalid-trailing-edge"@,
            Code::InvalidTangency => "invalid-tangency"@,
            Code::InvalidProfile => "invalid-profile"@,
            Code::MeshFailure => "mesh-failure"@,
            Code::DuplicateIdentifier => "duplicate-identifier"@,
            Code::InvalidUnits => "invalid-units"@,
            Code::Internal => "internal"@,
        }
    }

    /// The kebab-case name used in serialized diagnostics.
    pub fn as_str(self) -> (r: &'static str)
        ensures
            r@ == self.as_str_spec(),
    {
        match self {
            Code::SchemaViolation => "schema-violation",
            Code::ExpressionSyntax => "expression-syntax",
            Code::UnknownReference => "unknown-reference",
            Code::CycleDetected => "cycle-detected",
            Code::DimensionMismatch => "dimension-mismatch",
            Code::NonFiniteResult => "non-finite-result",
            Code::RootOffSymmetryPlane => "root-off-symmetry-plane",
            Code::StationOrderViolation => "station-order-violation",
            Code::NonPositiveChord => "non-positive-chord",
            Code::InvalidTrailingEdge => "invalid-trailing-edge",
            Code::InvalidTangency => "invalid-tangency",
            Code::InvalidProfile => "invalid-profile",
            Code::MeshFailure => "mesh-failure",
            Code::DuplicateIdentifier => "duplicate-identifier",
            Code::InvalidUnits => "invalid-units",
            Code::Internal => "internal",
        }
    }
}

#[derive(Debug, Clone, Copy, PartialEq, Eq, Structural)]
pub enum Severity {
    Error,
    Warning,
}

#[derive(Debug, Clone)]
pub struct Diagnostic {
    pub code: Code,
    pub severity: Severity,
    pub message: String,
    pub path: Option<String>,
    pub subject: Option<String>,
}

/// A diagnostic as plain values: its strings as character sequences.
pub struct DiagnosticView {
    pub code: Code,
    pub severity: Severity,
    pub message: Seq<char>,
    pub path: Option<Seq<char>>,
    pub subject: Option<Seq<char>>,
}

pub open spec fn opt_str_view(s: Option<String>) -> Option<Seq<char>> {
    match s {
        Some(s) => Some(s@),
        None => None,
    }
}

impl View for Diagnostic {
    type V = DiagnosticView;

    open spec fn view(&self) -> DiagnosticView {
        DiagnosticView {
            code: self.code,
            severity: self.severity,
            message: self.message@,
            path: opt_str_view(self.path),
            subject: opt_str_view(self.subject),
        }
    }
}

/// The error-severity diagnostic with the given code and message, and no
/// path or subject.
pub open spec fn error_view(code: Code, message: Seq<char>) -> DiagnosticView {
    DiagnosticView { code, severity: Severity::Error, message, path: None, subject: None }
}

/// The warning-severity diagnostic with the given code and message.
pub open spec fn warning_view(code: Code, message: Seq<char>) -> DiagnosticView {
    DiagnosticView { code, severity: Severity::Warning, message, path: None, subject: None }
}

impl DiagnosticView {
    pub open spec fn with_path(self, path: Seq<char>) -> DiagnosticView {
        DiagnosticView { path: Some(path), ..self }
    }

    pub open spec fn with_subject(self, subject: Seq<char>) -> DiagnosticView {
        DiagnosticView { subject: Some(subject), ..self }
    }

    /// `[code] message`, then ` (at subject)` or else ` (at path)` when known.
    pub open spec fn display(self) -> Seq<char> {
        let head = "["@ + self.code.as_str_spec() + "] "@ + self.message;
        match (self.subject, self.path) {
            (Some(subject), _) => head + " (at "@ + subject + ")"@,
            (None, Some(path)) => head + " (at "@ + path + ")"@,
            (None, None) => head,
        }
    }
}

impl Diagnostic {
    pub fn error(code: Code, message: String) -> (r: Self)
        ensures
            r@ == error_view(code, message@),
    {
        Diagnostic { code, severity: Severity::Error, message, path: None, subject: None }
    }

    pub fn warning(code: Code, message: String) -> (r: Self)
        ensures
            r@ == warning_view(code, message@),
    {
        Diagnostic { severity: Severity::Warning, code, message, path: None, subject: None }
    }

    /// Attach the JSON path of the offending source.
    pub fn with_path(self, path: String) -> (r: Self)
        ensures
            r@ == self@.with_path(path@),
    {
        Diagnostic { path: Some(path), ..self }
    }

    /// Attach a human-readable subject such as `main-wing / station tip / position x`.
    pub fn with_subject(self, subject: String) -> (r: Self)
        ensures
            r@ == self@.with_subject(subject@),
    {
        Diagnostic { subject: Some(subject), ..self }
    }

    pub fn is_error(&self) -> (r: bool)
        ensures
            r == (self.severity == Severity::Error),
    {
        self.severity == Severity::Error
    }

    /// The one-line rendering: `[code] message (at subject)`.
    pub fn to_string(&self) -> (r: String)
        ensures
            r@ == self@.display(),
    {
        let mut out = String::from_str("[");
        out.append(self.code.as_str());
        out.append("] ");
        out.append(self.message.as_str());
        match &self.subject {
            Some(subject) => {
                out.append(" (at ");
                out.append(subject.as_str());
                out.append(")");
            },
            None => match &self.path {
                Some(path) => {
                    out.append(" (at ");
                    out.append(path.as_str());
                    out.append(")");
                },
                None => {},
            },
        }
        out
    }
}

/// Whether any diagnostic in the list is an error.
pub open spec fn has_error(diagnostics: Seq<DiagnosticView>) -> bool {
    exists|i: int| 0 <= i < diagnostics.len() && #[trigger] diagnostics[i].severity == Severity::Error
}

/// Whether any diagnostic in the list is an error.
pub fn contains_error(diagnostics: &Vec<Diagnostic>) -> (r: bool)
    ensures
        r == has_error(diagnostics@.map_values(|d: Diagnostic| d@)),
{
    let ghost views = diagnostics@.map_values(|d: Diagnostic| d@);
    let mut i: usize = 0;
    while i < diagnostics.len()
        invariant
            i <= diagnostics@.len(),
            views == diagnostics@.map_values(|d: Diagnostic| d@),
            forall|k: int| 0 <= k < i ==> views[k].severity != Severity::Error,
        decreases diagnostics@.len() - i,
    {
        if diagnostics[i].is_error() {
            assert(views[i as int].severity == Severity::Error);
            return true;
        }
        i = i + 1;
    }
    false
}

/// The position of the first error in the list, if any.
pub fn first_error(diagnostics: &Vec<Diagnostic>) -> (r: Option<usize>)
    ensures
        match r {
            Some(i) => i < diagnostics@.len() && diagnostics@[i as int].severity == Severity::Error && forall|k: int|
                0 <= k < i ==> diagnostics@[k].severity != Severity::Error,
            None => forall|k: int| 0 <= k < diagnostics@.len() ==> diagnostics@[k].severity != Severity::Error,
        },
{
    let mut i: usize = 0;
    while i < diagnostics.len()
        invariant
            i <= diagnostics@.len(),
            forall|k: int| 0 <= k < i ==> diagnostics@[k].severity != Severity::Error,
        decreases diagnostics@.len() - i,
    {
        if diagnostics[i].is_error() {
            return Some(i);
        }
        i = i + 1;
    }
    None
}

} // verus!
