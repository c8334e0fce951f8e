//! Weather alert severity.

use vstd::prelude::*;

use crate::text::{chars_of, chars_eq};

verus! {

/// Severity level of a weather alert.
#[derive(Debug, Clone, Copy, PartialEq, Eq, Structural)]
pub enum AlertSeverity {
    Extreme,
    Severe,
    Moderate,
    Minor,
    Unknown,
}

/// The severity an NWS `severity` property names; any other text is `Unknown`.
pub open spec fn severity_of(s: Seq<char>) -> AlertSeverity {
    if s == "Extreme"@ {
        AlertSeverity::Extreme
    } else if s == "Severe"@ {
        AlertSeverity::Severe
    } else if s == "Moderate"@ {
        AlertSeverity::Moderate
    } else if s == "Minor"@ {
        AlertSeverity::Minor
    } else {
        AlertSeverity::Unknown
    }
}

impl AlertSeverity {
    /// The severity an NWS `severity` property names.
    pub fn from_nws(s: &str) -> (r: AlertSeverity)
        ensures
            r == severity_of(s@),
    {
        let v = chars_of(s);
        if chars_eq(&v, "Extreme") {
            AlertSeverity::Extreme
        } else if chars_eq(&v, "Severe") {
            AlertSeverity::Severe
        } else if chars_eq(&v, "Moderate") {
            AlertSeverity::Moderate
        } else if chars_eq(&v, "Minor") {
            AlertSeverity::Minor
        } else {
            AlertSeverity::Unknown
        }
    }
}

} // verus!
