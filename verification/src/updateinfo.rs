//! The updateinfo sub-document: security advisories and the packages they
//! speak of.

use vstd::prelude::*;

verus! {

/// A date as the document states it.
#[derive(Clone, Debug, PartialEq)]
pub struct Date {
    pub date: String,
}

/// An external reference of an advisory.
#[derive(Clone, Debug, PartialEq)]
pub struct Reference {
    pub href: Option<String>,
    pub id: Option<String>,
    pub typ: Option<String>,
    pub title: Option<String>,
}

/// The module a collection's packages belong to, if any.
#[derive(Clone, Debug, PartialEq)]
pub struct Module {
    pub name: String,
    pub stream: String,
    pub arch: String,
    pub version: String,
    pub context: String,
}

/// One package an advisory mentions.
#[derive(Clone, Debug, PartialEq)]
pub struct Package {
    pub name: String,
    pub epoch: String,
    pub version: String,
    pub release: String,
    pub arch: String,
}

/// A named collection of packages, optionally under a module.
#[derive(Clone, Debug, PartialEq)]
pub struct Collection {
    pub name: String,
    pub module: Option<Module>,
    pub package: Vec<Package>,
}

/// The package list of an advisory.
#[derive(Clone, Debug, PartialEq)]
pub struct PkgList {
    pub collection: Vec<Collection>,
}

/// One advisory.
#[derive(Clone, Debug, PartialEq)]
pub struct Update {
    pub typ: String,
    pub from: String,
    pub status: String,
    pub id: String,
    pub title: String,
    pub summary: Option<String>,
    pub rights: Option<String>,
    pub description: Option<String>,
    pub release: Option<String>,
    pub solution: Option<String>,
    pub severity: Option<String>,
    pub issued: Date,
    pub updated: Date,
    pub references: Vec<Reference>,
    pub pkglist: Vec<PkgList>,
}

/// The whole updateinfo document, materialized.
#[derive(Clone, Debug, PartialEq)]
pub struct UpdateInfo {
    pub updates: Vec<Update>,
}

} // verus!
