//! Diagnostics reported alongside a parsed document.
use vstd::prelude::*;

use crate::text::{i32_to_string, int_text, owned};
use crate::version::VersionPolicy;

verus! {

/// How serious a diagnostic is.
#[derive(Debug, Clone, Copy, PartialEq, Eq, Structural)]
pub enum Severity {
    Info,
    Warning,
    Error,
}

/// A character range of the source text.
#[derive(Debug, Clone, Copy, PartialEq, Eq, Structural)]
pub struct Span {
    pub start: usize,
    pub end: usize,
}

/// A note about a document that did not stop it from being read.
#[derive(Debug)]
pub struct Diagnostic {
    pub severity: Severity,
    pub code: String,
    pub message: String,
    pub span: Option<Span>,
    pub hint: Option<String>,
}

/// The diagnostic `d` is the warning `code` with `message` and `hint`, and no
/// span.
pub open spec fn is_warning(d: Diagnostic, code: Seq<char>, message: Seq<char>, hint: Seq<char>) -> bool {
    &&& d.severity == Severity::Warning
    &&& d.code@ == code
    &&& d.message@ == message
    &&& d.span is None
    &&& d.hint matches Some(h) && h@ == hint
}

pub open spec fn legacy_format_message(v: int) -> Seq<char> {
    "format version "@ + int_text(v) + " predates KiCad 9; parsing in compatibility mode"@
}

pub open spec fn legacy_format_hint() -> Seq<char> {
    "save the file from KiCad 9 or newer to update its format version"@
}

pub open spec fn future_format_message(v: int) -> Seq<char> {
    "format version "@ + int_text(v) + " is newer than the KiCad 10 series; unknown tokens are kept as they are"@
}

pub open spec fn future_format_hint() -> Seq<char> {
    "update kiutils to a release that knows this format version"@
}

/// The diagnostics that a document's format version calls for under the
/// default policy: none without a version, `legacy_format` for a version the
/// policy does not accept, `future_format` for one newer than its target.
pub open spec fn version_diagnostics(version: Option<i32>, ds: Seq<Diagnostic>) -> bool {
    match version {
        None => ds.len() == 0,
        Some(v) => if v < VersionPolicy::V9_MIN {
            ds.len() == 1 && is_warning(ds[0], "legacy_format"@, legacy_format_message(v as int), legacy_format_hint())
        } else if v > VersionPolicy::V10_BASE {
            ds.len() == 1 && is_warning(ds[0], "future_format"@, future_format_message(v as int), future_format_hint())
        } else {
            ds.len() == 0
        },
    }
}

fn concat3(a: &str, b: String, c: &str) -> (r: String)
    ensures
        r@ == a@ + b@ + c@,
{
    let mut r = owned(a);
    r.append(b.as_str());
    r.append(c);
    r
}

/// A warning without a span.
pub fn warning(code: &str, message: String, hint: &str) -> (d: Diagnostic)
    ensures
        is_warning(d, code@, message@, hint@),
{
    Diagnostic {
        severity: Severity::Warning,
        code: owned(code),
        message,
        span: None,
        hint: Some(owned(hint)),
    }
}

/// The diagnostics for a document's format version (see
/// `version_diagnostics`).
pub fn collect_version_diagnostics(version: Option<i32>) -> (r: Vec<Diagnostic>)
    ensures
        version_diagnostics(version, r@),
{
    let policy = VersionPolicy::default();
    let mut r: Vec<Diagnostic> = Vec::new();
    match version {
        Some(v) => {
            if !policy.accepts(v) {
                let msg = concat3("format version ", i32_to_string(v), " predates KiCad 9; parsing in compatibility mode");
                r.push(warning("legacy_format", msg, "save the file from KiCad 9 or newer to update its format version"));
            } else if policy.is_future_for_target(v) {
                let msg = concat3(
                    "format version ",
                    i32_to_string(v),
                    " is newer than the KiCad 10 series; unknown tokens are kept as they are",
                );
                r.push(warning("future_format", msg, "update kiutils to a release that knows this format version"));
            }
        },
        None => {},
    }
    r
}

} // verus!
