//! The command line: where the configuration file is.
use vstd::prelude::*;

verus! {

/// The arguments of the program.
#[derive(Debug, Clone)]
pub struct DirmonArgs {
    config: String,
}

impl DirmonArgs {
    /// The location of the configuration file, as text.
    pub closed spec fn config_view(&self) -> Seq<char> {
        self.config@
    }

    /// Arguments naming `config` as the configuration file.
    pub fn new(config: String) -> (args: DirmonArgs)
        ensures
            args.config_view() == config@,
    {
        DirmonArgs { config }
    }

    /// The location of the configuration file.
    pub fn get_config(&self) -> (config: &String)
        ensures
            config@ == self.config_view(),
    {
        &self.config
    }
}

} // verus!
