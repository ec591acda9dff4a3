use vstd::prelude::*;

verus! {

/// What can go wrong while setting up a scan.
#[derive(Debug, Clone, Copy, PartialEq, Eq, Structural)]
pub enum ScannerError {
    IpParse,
    RangePortParse,
    SinglePortParse,
}

impl ScannerError {
    /// The text shown for any of these errors.
    pub fn description(&self) -> (r: &'static str)
        ensures
            r@ == "scanner error"@,
    {
        "scanner error"
    }
}

} // verus!
