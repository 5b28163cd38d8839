//! The plain values a profile is made of.
use vstd::prelude::*;

verus! {

/// A package of a profile.
#[derive(Debug, Clone, PartialEq)]
pub struct Package {
    pub name: String,
    pub version: Option<String>,
}

/// An environment variable of a profile.
#[derive(Debug, Clone, PartialEq)]
pub struct EnvVar {
    pub name: String,
    pub value: String,
}

impl EnvVar {
    pub fn new(name: String, value: String) -> (r: Self)
        ensures
            r.name == name,
            r.value == value,
    {
        Self { name, value }
    }
}

/// A profile: a named set of packages, environment variables and a shell
/// hook.
#[derive(Debug, Clone, PartialEq)]
pub struct Profile {
    pub name: String,
    pub packages: Vec<Package>,
    pub env_vars: Vec<EnvVar>,
    pub shell_hook: String,
}

impl Profile {
    /// An empty profile called `name`.
    pub fn new(name: String) -> (r: Self)
        ensures
            r.name == name,
            r.packages@.len() == 0,
            r.env_vars@.len() == 0,
            r.shell_hook@.len() == 0,
    {
        Self { name, packages: Vec::new(), env_vars: Vec::new(), shell_hook: String::new() }
    }
}

/// The inputs of a flake and its profiles.
#[derive(Debug)]
pub struct FlakeConfig {
    pub inputs: Vec<String>,
    pub profiles: Vec<Profile>,
}

impl Default for FlakeConfig {
    fn default() -> (r: Self)
        ensures
            r.inputs@.len() == 0,
            r.profiles@.len() == 0,
    {
        FlakeConfig { inputs: Vec::new(), profiles: Vec::new() }
    }
}

/// The version is `ver`.
pub open spec fn has_version(v: Option<String>, ver: Seq<char>) -> bool {
    match v {
        Some(v) => v@ == ver,
        None => false,
    }
}

/// The version is the word `latest`.
pub open spec fn is_latest(v: Option<String>) -> bool {
    match v {
        Some(v) => v@ == "latest"@,
        None => false,
    }
}

impl Package {
    /// A package at its latest version.
    pub fn new(name: String) -> (r: Self)
        ensures
            r.name == name,
            is_latest(r.version),
    {
        Self { name, version: Some(String::from_str("latest")) }
    }
}

} // verus!
