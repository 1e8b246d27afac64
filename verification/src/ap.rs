//! The access-point status report consumed from the network-side
//! collaborator.
//!
//! The report arrives as JSON over HTTP; that transport and its
//! deserialization live outside the engine, which only reads the plain
//! fields collected here.

use vstd::prelude::*;

use crate::parser::{parse_dec_u32, spec_dec_u32};

verus! {

/// One access point's figures, as reported: both arrive as text.
#[derive(Debug)]
pub struct Ap {
    pub sta_count: String,
    pub ap_name: String,
}

/// The whole status report.
#[derive(Debug)]
pub struct Status {
    pub ap: Ap,
}

impl Ap {
    /// Reads the reported station count, a decimal text field, as a
    /// number.
    pub fn sta_count_value(&self) -> (r: Option<u32>)
        ensures
            r == spec_dec_u32(self.sta_count@),
    {
        parse_dec_u32(self.sta_count.as_str())
    }
}

} // verus!
