//! Resolved file locations as plain data.

use vstd::prelude::*;

verus! {

/// The resolved file locations one run of the tool works with: the log file
/// and the settings file. Resolving the paths is the caller's business; the
/// value itself is plain data.
#[derive(Debug, PartialEq)]
pub struct Config {
    file_name: String,
    config_name: String,
}

impl Config {
    pub closed spec fn spec_file_name(&self) -> Seq<char> {
        self.file_name@
    }

    pub closed spec fn spec_config_name(&self) -> Seq<char> {
        self.config_name@
    }

    /// Bundles a resolved log-file path and settings-file path.
    pub fn new(file_name: String, config_name: String) -> (r: Config)
        ensures
            r.spec_file_name() == file_name@,
            r.spec_config_name() == config_name@,
    {
        Config { file_name, config_name }
    }

    /// The path of the persisted log file.
    pub fn get_file_name(&self) -> (r: String)
        ensures
            r@ == self.spec_file_name(),
    {
        self.file_name.clone()
    }

    /// The path of the settings file.
    pub fn get_config_name(&self) -> (r: String)
        ensures
            r@ == self.spec_config_name(),
    {
        self.config_name.clone()
    }
}

impl Clone for Config {
    fn clone(&self) -> (r: Self)
        ensures
            r.spec_file_name() == self.spec_file_name(),
            r.spec_config_name() == self.spec_config_name(),
    {
        Config { file_name: self.file_name.clone(), config_name: self.config_name.clone() }
    }
}

} // verus!
