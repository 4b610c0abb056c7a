//! The program's settings.

use vstd::prelude::*;

verus! {

/// Name of the configuration file.
pub const CONFIG_FILE: &'static str = "ircd_config.toml";

/// Settings given on the command line.
#[derive(Clone, Debug)]
pub struct Args {
    /// Path of the configuration file.
    pub config: Option<String>,
    /// How verbose to be.
    pub verbose: u8,
}

} // verus!
