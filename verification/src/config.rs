//! Run configuration: the API credential and the target language code.
//!
//! Reading the two values from the process environment is I/O and happens
//! outside the library; the library only holds them and derives the cache
//! file location from the target language.

use vstd::prelude::*;

verus! {

/// The two required configuration values of a run.
pub struct Config {
    pub api_key: String,
    pub target_lang: String,
}

impl Config {
    /// Builds a configuration from already-retrieved values.
    pub fn new(api_key: String, target_lang: String) -> (c: Config)
        ensures
            c.api_key@ == api_key@,
            c.target_lang@ == target_lang@,
    {
        Config { api_key, target_lang }
    }

    /// The location of the per-language cache file: one cache per target
    /// language, so translations into different languages never mix.
    pub fn cache_path(&self) -> (p: String)
        ensures
            p@ == "data/cache_"@ + self.target_lang@ + ".json"@,
    {
        let s = String::from_str("data/cache_");
        let s = s.concat(self.target_lang.as_str());
        s.concat(".json")
    }
}

} // verus!
