use vstd::prelude::*;

use crate::text::{quotes_trimmed, trim_quotes};

verus! {

/// The command line of the compiler: the file to start from, as its `Debug` form
/// writes it out, and how many workers parse files at once.
#[derive(Debug)]
pub struct Args {
    pub input: Option<String>,
    pub threads: usize,
}

/// The file a compilation starts from when none is given.
pub const DEFAULT_PATH: &'static str = "main.cara";

impl Args {
    /// The file to start from: the one given, without the quotes around it, or
    /// `main.cara`.
    pub fn initial_file(&self) -> (r: String)
        ensures
            r@ == match self.input {
                Some(p) => quotes_trimmed(p@),
                None => DEFAULT_PATH@,
            },
    {
        match &self.input {
            Some(p) => trim_quotes(p.as_str()),
            None => DEFAULT_PATH.to_owned(),
        }
    }
}

} // verus!
