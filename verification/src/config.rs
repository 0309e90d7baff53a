//! The configuration a session works on: the filter list. Loading it from
//! and storing it to disk belongs to an outer layer; the core only defines
//! the value and its default.

use vstd::prelude::*;
use crate::filters::Filters;
use crate::filters::default_patterns;

verus! {

/// The in-memory configuration: just the pattern list.
pub struct Config {
    pub filters: Filters,
}

impl Default for Config {
    fn default() -> (config: Config)
        ensures
            config.filters@ == default_patterns(),
    {
        let mut filters = Filters::new(Vec::new());
        filters.reset();
        Config { filters }
    }
}

impl Config {
    /// A fresh configuration holding the default pattern list.
    pub fn new() -> (config: Config)
        ensures
            config.filters@ == default_patterns(),
    {
        Config::default()
    }
}

} // verus!
