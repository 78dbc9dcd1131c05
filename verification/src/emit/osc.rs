//! The state report as it is written to the terminal.
use crate::osc::{Error, Report};
use vstd::prelude::*;

verus! {

/// The bytes that announce a report.
#[must_use]
pub fn state(report: &Report) -> (bytes: Vec<u8>)
    ensures
        bytes@ == crate::osc::formatted(report@),
{
    crate::osc::format(report)
}

/// Reads a report back from its bytes.
pub fn parse(payload: &[u8]) -> (report: Result<Report, Error>)
    ensures
        match report {
            Ok(value) => crate::osc::parsed(payload@) == Some(value@),
            Err(_) => crate::osc::parsed(payload@) is None,
        },
{
    crate::osc::parse(payload)
}

} // verus!
