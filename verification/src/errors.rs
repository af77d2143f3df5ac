//! The error taxonomy of the templating engine.
//!
//! Every failing operation names what was implicated: the placeholder, the
//! document, or the path. Nothing in the core recovers silently.

use vstd::prelude::*;

verus! {

/// The failure conditions of the engine.
///
/// `Io` carries the message of a failed document load, `MissingPlaceholder`
/// the name of a placeholder that was either never declared by the document
/// (on a bind) or still unbound (on a render). `Parse` and `InvalidSyntax`
/// are reserved for malformed marker constructs; the scanning rule itself
/// never produces them, since text that does not match the exact delimiter
/// pair is simply not a marker. `ExecutionError` carries the diagnostics of
/// the external script runner at the system's edge.
#[derive(Debug, Clone)]
pub enum TemplateError {
    Io(String),
    Parse(String),
    MissingPlaceholder(String),
    InvalidSyntax(String),
    ExecutionError(String),
}

} // verus!
