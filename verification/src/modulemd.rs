//! The modules sub-document: modulemd chunks and defaults chunks of a
//! multi-document stream.

use vstd::prelude::*;

verus! {

/// The licenses of a module.
#[derive(Clone, Debug, PartialEq)]
pub struct License {
    pub module: Vec<String>,
    pub content: Vec<String>,
}

/// What a module requires at run and build time.
#[derive(Clone, Debug, PartialEq)]
pub struct Depencency {
    pub requires: Vec<(String, Vec<String>)>,
    pub buildrequires: Vec<(String, Vec<String>)>,
}

/// A block that only wraps a list or map of RPM names.
#[derive(Clone, Debug, PartialEq)]
pub struct Rpms<T> {
    pub rpms: T,
}

/// An installation profile of a module.
#[derive(Clone, Debug, PartialEq)]
pub struct Profile {
    pub description: Option<String>,
    pub rpms: Vec<String>,
}

/// A component a module is built from.
#[derive(Clone, Debug, PartialEq)]
pub struct Component {
    pub rationale: String,
    pub reference: String,
    pub buildorder: Option<String>,
    pub arches: Vec<String>,
    pub multilib: Vec<String>,
}

/// The body of a modulemd chunk.
#[derive(Clone, Debug, PartialEq)]
pub struct ModuleMDData {
    pub name: String,
    pub stream: String,
    pub version: u64,
    pub context: String,
    pub arch: String,
    pub summary: Option<String>,
    pub description: Option<String>,
    pub license: License,
    pub dependencies: Vec<Depencency>,
    pub profiles: Option<Vec<(String, Profile)>>,
    pub api: Option<Rpms<Vec<String>>>,
    pub components: Option<Rpms<Vec<(String, Component)>>>,
    pub artifacts: Option<Rpms<Vec<String>>>,
}

/// The body of a modulemd-defaults chunk.
#[derive(Clone, Debug, PartialEq)]
pub struct DefaultsData {
    pub module: String,
    pub stream: Option<String>,
    pub profiles: Vec<(String, Vec<String>)>,
}

/// One document of the multi-document modules stream.
#[derive(Clone, Debug, PartialEq)]
pub enum Chunk {
    ModuleMd(ModuleMDData),
    Defaults(DefaultsData),
}

} // verus!
