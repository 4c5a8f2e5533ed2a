//! Decisions and text of the command-line driver that need no I/O: command
//! descriptions, the export format an extension names, and the summary and
//! diagnostics blocks it prints.
use vstd::prelude::*;
use crate::builder::view_diagnostics;
use crate::decimal::{lower_ascii, lower_char};
use crate::diagnostic::{Diagnostic, DiagnosticView, Severity};
use crate::model::AircraftDefinition;
use crate::text::{append_nat, seq_of_nat, str_debug, str_debug_text};

verus! {

broadcast use vstd::std_specs::vec::axiom_spec_len;

/// Exit codes: 0 valid, 1 error diagnostics, 2 usage or I/O failure.
pub const EXIT_VALID: i32 = 0;

pub const EXIT_DIAGNOSTICS: i32 = 1;

pub const EXIT_FAILURE: i32 = 2;

#[derive(Debug, Clone, Copy, PartialEq, Eq, Structural)]
pub enum CommandKind {
    Validate,
    Evaluate,
    Report,
    Export,
}

impl CommandKind {
    pub open spec fn description_spec(self) -> Seq<char> {
        match self {
            CommandKind::Validate => "validation"@,
            CommandKind::Evaluate => "evaluation"@,
            CommandKind::Report => "report"@,
            CommandKind::Export => "export"@,
        }
    }

    pub fn description(self) -> (r: &'static str)
        ensures
            r@ == self.description_spec(),
    {
        match self {
            CommandKind::Validate => "validation",
            CommandKind::Evaluate => "evaluation",
            CommandKind::Report => "report",
            CommandKind::Export => "export",
        }
    }
}

#[derive(Debug, Clone, Copy, PartialEq, Eq, Structural)]
pub enum FormatArg {
    Step,
    Stl,
    Obj,
    Glb,
}

/// The format a file extension names, letter case ignored.
pub open spec fn format_of_extension(ext: Seq<char>) -> Option<FormatArg> {
    let e = lower_ascii(ext);
    if e == "step"@ || e == "stp"@ {
        Some(FormatArg::Step)
    } else if e == "stl"@ {
        Some(FormatArg::Stl)
    } else if e == "obj"@ {
        Some(FormatArg::Obj)
    } else if e == "glb"@ || e == "gltf"@ {
        Some(FormatArg::Glb)
    } else {
        None
    }
}

fn lowered(s: &str) -> (r: Vec<char>)
    ensures
        r@ == lower_ascii(s@),
{
    let chars = crate::text::chars_of(s);
    let mut out: Vec<char> = Vec::new();
    let mut i: usize = 0;
    while i < chars.len()
        invariant
            i <= chars@.len(),
            chars@ == s@,
            out@ == lower_ascii(chars@.take(i as int)),
        decreases chars@.len() - i,
    {
        let c = chars[i];
        let lc = if 'A' <= c && c <= 'Z' {
            ((c as u32) + 32) as u8 as char
        } else {
            c
        };
        assert(lc == lower_char(c)) by {
            if 'A' <= c <= 'Z' {
                assert(((c as u32) + 32) < 128);
            }
        }
        out.push(lc);
        assert(chars@.take(i + 1) =~= chars@.take(i as int).push(c));
        assert(out@ =~= lower_ascii(chars@.take(i + 1)));
        i = i + 1;
    }
    assert(chars@.take(chars@.len() as int) =~= chars@);
    out
}

fn chars_are(s: &Vec<char>, word: &str) -> (r: bool)
    ensures
        r == (s@ == word@),
{
    let w = crate::text::chars_of(word);
    if s.len() != w.len() {
        return false;
    }
    let mut i: usize = 0;
    while i < s.len()
        invariant
            i <= s@.len() == w@.len(),
            w@ == word@,
            forall|k: int| 0 <= k < i ==> s@[k] == w@[k],
        decreases s@.len() - i,
    {
        if s[i] != w[i] {
            return false;
        }
        i = i + 1;
    }
    assert(s@ =~= w@);
    true
}

impl FormatArg {
    /// The format a file's extension names; `None` without one or for an
    /// unknown one.
    pub fn from_extension(extension: Option<&str>) -> (r: Option<FormatArg>)
        ensures
            r == match extension {
                Some(e) => format_of_extension(e@),
                None => None,
            },
    {
        let ext = match extension {
            Some(e) => e,
            None => {
                return None;
            },
        };
        let e = lowered(ext);
        if chars_are(&e, "step") || chars_are(&e, "stp") {
            Some(FormatArg::Step)
        } else if chars_are(&e, "stl") {
            Some(FormatArg::Stl)
        } else if chars_are(&e, "obj") {
            Some(FormatArg::Obj)
        } else if chars_are(&e, "glb") || chars_are(&e, "gltf") {
            Some(FormatArg::Glb)
        } else {
            None
        }
    }
}

pub open spec fn error_count(ds: Seq<DiagnosticView>) -> nat
    decreases ds.len(),
{
    if ds.len() == 0 {
        0
    } else {
        error_count(ds.drop_last()) + if ds.last().severity == Severity::Error { 1nat } else { 0nat }
    }
}

proof fn lemma_error_count_bound(ds: Seq<DiagnosticView>)
    ensures
        error_count(ds) <= ds.len(),
    decreases ds.len(),
{
    if ds.len() > 0 {
        lemma_error_count_bound(ds.drop_last());
    }
}

/// `<id> <name quoted>: <wings> wing(s), <parameters> parameter(s),
/// <errors> error(s), <warnings> warning(s)` and a line break.
pub open spec fn summary_spec(doc: AircraftDefinition, ds: Seq<DiagnosticView>) -> Seq<char> {
    doc.id@ + " "@ + str_debug_text(doc.name@) + ": "@ + seq_of_nat(doc.components@.len()) + " wing(s), "@
        + seq_of_nat(doc.parameters@.len()) + " parameter(s), "@ + seq_of_nat(error_count(ds))
        + " error(s), "@ + seq_of_nat((ds.len() - error_count(ds)) as nat) + " warning(s)\n"@
}

/// Appends the one-line summary of a document and its diagnostics.
pub fn print_summary(out: &mut String, doc: &AircraftDefinition, diagnostics: &Vec<Diagnostic>)
    ensures
        final(out)@ == old(out)@ + summary_spec(*doc, view_diagnostics(diagnostics@)),
{
    let ghost ds = view_diagnostics(diagnostics@);
    let mut errors: usize = 0;
    let mut i: usize = 0;
    while i < diagnostics.len()
        invariant
            i <= diagnostics@.len(),
            ds == view_diagnostics(diagnostics@),
            errors == error_count(ds.take(i as int)),
            errors <= i,
        decreases diagnostics@.len() - i,
    {
        assert(ds.take(i + 1).drop_last() =~= ds.take(i as int));
        if diagnostics[i].is_error() {
            errors = errors + 1;
        }
        i = i + 1;
    }
    assert(ds.take(ds.len() as int) =~= ds);
    let warnings = diagnostics.len() - errors;
    let ghost start = out@;
    out.append(doc.id.as_str());
    out.append(" ");
    out.append(str_debug(doc.name.as_str()).as_str());
    out.append(": ");
    append_nat(out, doc.components.len() as u64);
    out.append(" wing(s), ");
    append_nat(out, doc.parameters.len() as u64);
    out.append(" parameter(s), ");
    append_nat(out, errors as u64);
    out.append(" error(s), ");
    append_nat(out, warnings as u64);
    out.append(" warning(s)\n");
    proof {
        reveal_strlit(" ");
        reveal_strlit(": ");
        reveal_strlit(" wing(s), ");
        reveal_strlit(" parameter(s), ");
        reveal_strlit(" error(s), ");
        reveal_strlit(" warning(s)\n");
        assert(out@ =~= start + summary_spec(*doc, ds));
    }
}

pub open spec fn diagnostic_lines(ds: Seq<DiagnosticView>) -> Seq<char>
    decreases ds.len(),
{
    if ds.len() == 0 {
        Seq::empty()
    } else {
        diagnostic_lines(ds.drop_last()) + "  "@ + ds.last().display() + "\n"@
    }
}

/// `diagnostics: none`, or `diagnostics:` then one indented line each.
pub open spec fn diagnostics_block(ds: Seq<DiagnosticView>) -> Seq<char> {
    if ds.len() == 0 {
        "diagnostics: none\n"@
    } else {
        "diagnostics:\n"@ + diagnostic_lines(ds)
    }
}

/// Appends the diagnostics block.
pub fn print_diagnostics(out: &mut String, diagnostics: &Vec<Diagnostic>)
    ensures
        final(out)@ == old(out)@ + diagnostics_block(view_diagnostics(diagnostics@)),
{
    let ghost ds = view_diagnostics(diagnostics@);
    let ghost start = out@;
    if diagnostics.len() == 0 {
        out.append("diagnostics: none\n");
        return;
    }
    out.append("diagnostics:\n");
    let ghost head = out@;
    let mut i: usize = 0;
    assert(head =~= head + diagnostic_lines(ds.take(0)));
    while i < diagnostics.len()
        invariant
            i <= diagnostics@.len(),
            ds == view_diagnostics(diagnostics@),
            out@ == head + diagnostic_lines(ds.take(i as int)),
        decreases diagnostics@.len() - i,
    {
        out.append("  ");
        let line = diagnostics[i].to_string();
        out.append(line.as_str());
        out.append("\n");
        proof {
            reveal_strlit("  ");
            reveal_strlit("\n");
            assert(ds.take(i + 1).drop_last() =~= ds.take(i as int));
            assert(ds.take(i + 1).last() == diagnostics@[i as int]@);
            assert(out@ =~= head + diagnostic_lines(ds.take(i + 1)));
        }
        i = i + 1;
    }
    assert(ds.take(ds.len() as int) =~= ds);
}

} // verus!
