use vstd::prelude::*;
use super::{port_result_text, Output};
use crate::text::address_text;

verus! {

/// The command-line options that name a results file.
pub const OUTF_NAMES: [&'static str; 2] = ["outfile_normal", "outfile_grepable"];

/// The storing mode of each of `OUTF_NAMES`: `N` (normal) and `G` (grepable).
pub const OUTF_SHORT: [u8; 2] = [78u8, 71u8];

/// A file to store the results of a scan in, with its storing mode.
pub struct Outfile<'a> {
    mode: u8,
    output: &'a Output<'a>,
    path: &'a str,
}

impl<'a> Outfile<'a> {
    pub closed spec fn mode_of(&self) -> u8 {
        self.mode
    }

    pub closed spec fn output_of(&self) -> Output<'a> {
        *self.output
    }

    pub closed spec fn path_of(&self) -> Seq<char> {
        self.path@
    }

    pub fn new(output: &'a Output, mode: u8, path: &'a str) -> (r: Self)
        ensures
            r.mode_of() == mode,
            r.output_of() == *output,
            r.path_of() == path@,
    {
        Self { mode, output, path }
    }

    /// The path of the file.
    pub fn get_path(&self) -> (r: &'a str)
        ensures
            r@ == self.path_of(),
    {
        self.path
    }

    /// What `write_results` stores: the report of the scan in normal mode (`N`);
    /// nothing in any other mode.
    pub fn results_text(&self) -> (r: Option<String>)
        ensures
            self.mode_of() == 78 ==> (r matches Some(t) && t@ == port_result_text(
                self.output_of().scanned_of(),
            ) && ("\nPort result for '"@ + address_text(self.output_of().scanned_of().addr)
                + "'"@).is_prefix_of(t@)),
            self.mode_of() != 78 ==> r is None,
    {
        if self.mode == 78u8 {
            Some(self.output.string_port_result())
        } else {
            None
        }
    }
}

} // verus!
