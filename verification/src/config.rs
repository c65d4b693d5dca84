//! The configuration of the store.

use vstd::prelude::*;

verus! {

/// What the configuration holds.
#[derive(Debug)]
pub struct ConfigInner {
    /// The directory of the store; a store without one is temporary.
    pub path: Option<String>,
}

/// The configuration of the store.
#[derive(Debug)]
pub struct Config(pub ConfigInner);

impl Config {
    /// The directory of the store.
    pub open spec fn path_of(&self) -> Option<String> {
        self.0.path
    }

    /// A configuration with the directory `path`.
    pub fn new(path: Option<String>) -> (r: Self)
        ensures
            r.path_of() == path,
    {
        Config(ConfigInner { path })
    }

    /// What the configuration holds.
    pub fn inner(&self) -> (r: &ConfigInner)
        ensures
            *r == self.0,
    {
        &self.0
    }

    /// A copy of the configuration.
    pub fn duplicate(&self) -> (r: Self)
        ensures
            r.path_of() is Some == self.path_of() is Some,
            r.path_of() is Some ==> r.path_of()->0@ == self.path_of()->0@,
    {
        match &self.0.path {
            Some(p) => Config(ConfigInner { path: Some(p.clone()) }),
            None => Config(ConfigInner { path: None }),
        }
    }
}

impl Default for ConfigInner {
    fn default() -> (r: Self)
        ensures
            r.path is None,
    {
        ConfigInner { path: None }
    }
}

impl Default for Config {
    fn default() -> (r: Self)
        ensures
            r.path_of() is None,
    {
        Config(ConfigInner { path: None })
    }
}

} // verus!
