//! The primary sub-document: the packages a repository carries.

use vstd::prelude::*;
use crate::repomd::{Checksum, Location};

verus! {

/// A package version triple as the document states it.
#[derive(Clone, Debug, PartialEq, Eq)]
pub struct PackageVersion {
    pub epoch: String,
    pub ver: String,
    pub rel: String,
}

/// The file and build times of a package.
#[derive(Clone, Copy, Debug, PartialEq)]
pub struct PackageTime {
    pub file: usize,
    pub build: usize,
}

/// The package, archive and installed sizes of a package.
#[derive(Clone, Copy, Debug, PartialEq)]
pub struct PackageSize {
    pub package: usize,
    pub archive: usize,
    pub installed: usize,
}

/// The format block; only the source RPM is kept.
#[derive(Clone, Debug, PartialEq)]
pub struct Format {
    pub source: String,
}

/// One package entry of the primary document.
#[derive(Clone, Debug, PartialEq)]
pub struct Package {
    pub typ: String,
    pub name: String,
    pub arch: String,
    pub version: PackageVersion,
    pub checksum: Option<Checksum>,
    pub summary: String,
    pub description: String,
    pub packager: Option<String>,
    pub url: Option<String>,
    pub time: PackageTime,
    pub size: PackageSize,
    pub location: Location,
    pub format: Option<Format>,
}

/// The whole primary document, materialized.
#[derive(Clone, Debug, PartialEq)]
pub struct Primary {
    pub package_count: usize,
    pub packages: Vec<Package>,
}

} // verus!
