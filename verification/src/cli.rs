//! The engine's command line: the path of its catalog.
use vstd::prelude::*;

verus! {

/// The engine's options.
#[derive(Debug, Clone)]
pub struct CliOptions {
    config: String,
}

impl CliOptions {
    /// The options for a catalog at `config`.
    pub fn new(config: String) -> (r: CliOptions)
        ensures
            r.config_path() == config@,
    {
        CliOptions { config }
    }

    /// The path of the catalog file.
    pub closed spec fn config_path(&self) -> Seq<char> {
        self.config@
    }

    pub fn get_config_path(&self) -> (r: &String)
        ensures
            r@ == self.config_path(),
    {
        &self.config
    }
}

} // verus!
