//! What a command has loaded before it runs.

use vstd::prelude::*;

use crate::budget::Checker;
use crate::config::Config;
use crate::exceptions::Registries;

verus! {

/// A loaded configuration with the rules and registries it names.
#[derive(Debug)]
pub struct Loaded {
    pub config: Config,
    pub source: Option<String>,
    pub checker: Checker,
    pub registries: Registries,
    pub root: String,
    pub soft_registry: String,
    pub hard_registry: String,
}

} // verus!
