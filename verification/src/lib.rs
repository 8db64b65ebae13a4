//! Rewrites byte counts inside delimited text records into a scaled,
//! human-readable form such as `1.0M`, using base-1024 units.
//!
//! [`unit`] holds the seven scales and the choice among them, [`decimal`] the
//! reading and writing of decimal text, [`config`] the format and the run's
//! configuration, [`text`] splitting and joining on a literal delimiter,
//! [`record`] the rewriting of lines, and [`diagnostic`] what is reported
//! about input that could not be used.

pub mod config;
pub mod decimal;
pub mod diagnostic;
pub mod record;
pub mod text;
pub mod unit;

pub use config::{human_readable, Config, Format};
pub use decimal::ParseFailure;
pub use diagnostic::{Diagnostic, Level};
pub use record::{process, transform, transform_line, Input, Outcome, Rewritten};
pub use unit::{Scaled, Unit};
