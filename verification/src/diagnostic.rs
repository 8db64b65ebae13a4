//! What the library reports about input that it could not use. Reports are
//! plain values: the caller decides where they go.

use crate::decimal::ParseFailure;
use vstd::prelude::*;

verus! {

/// How serious a report is.
#[derive(Debug, Clone, Copy, PartialEq, Eq, Structural)]
pub enum Level {
    Error,
    Warn,
    Info,
    Debug,
    Trace,
}

/// One report.
#[derive(Debug, Clone, PartialEq, Eq)]
pub enum Diagnostic {
    /// The source failed to yield a line; `reason` is the source's message.
    UnreadableLine { reason: String },
    /// The field at the 1-based `position` was to be rewritten, but `text`
    /// stands for no magnitude. The field stays as it is.
    UnparsedField { position: usize, text: String, failure: ParseFailure },
    /// A unit was asked for a negative magnitude; the unit is `Byte`.
    NegativeMagnitude { magnitude: i128 },
    /// A unit was asked for a magnitude at or beyond `1024^7`; the unit is `Exa`.
    MagnitudeBeyondScale { magnitude: i128 },
}

/// A report with its texts as character sequences.
pub enum DiagnosticView {
    UnreadableLine { reason: Seq<char> },
    UnparsedField { position: nat, text: Seq<char>, failure: ParseFailure },
    NegativeMagnitude { magnitude: int },
    MagnitudeBeyondScale { magnitude: int },
}

impl View for Diagnostic {
    type V = DiagnosticView;

    open spec fn view(&self) -> DiagnosticView {
        match self {
            Diagnostic::UnreadableLine { reason } => DiagnosticView::UnreadableLine {
                reason: reason@,
            },
            Diagnostic::UnparsedField { position, text, failure } => DiagnosticView::UnparsedField {
                position: *position as nat,
                text: text@,
                failure: *failure,
            },
            Diagnostic::NegativeMagnitude { magnitude } => DiagnosticView::NegativeMagnitude {
                magnitude: *magnitude as int,
            },
            Diagnostic::MagnitudeBeyondScale { magnitude } => DiagnosticView::MagnitudeBeyondScale {
                magnitude: *magnitude as int,
            },
        }
    }
}

impl DiagnosticView {
    /// Failures of the source and negative magnitudes are errors; a field
    /// left as it was and a magnitude beyond the scale are warnings.
    pub open spec fn level(self) -> Level {
        match self {
            DiagnosticView::UnreadableLine { .. } => Level::Error,
            DiagnosticView::UnparsedField { .. } => Level::Warn,
            DiagnosticView::NegativeMagnitude { .. } => Level::Error,
            DiagnosticView::MagnitudeBeyondScale { .. } => Level::Warn,
        }
    }
}

impl Diagnostic {
    /// How serious this report is.
    pub fn level(&self) -> (level: Level)
        ensures
            level == self@.level(),
    {
        match self {
            Diagnostic::UnreadableLine { .. } => Level::Error,
            Diagnostic::UnparsedField { .. } => Level::Warn,
            Diagnostic::NegativeMagnitude { .. } => Level::Error,
            Diagnostic::MagnitudeBeyondScale { .. } => Level::Warn,
        }
    }
}

/// The views of a sequence of reports.
pub open spec fn reports(diagnostics: Seq<Diagnostic>) -> Seq<DiagnosticView> {
    diagnostics.map_values(|d: Diagnostic| d@)
}

} // verus!
