//! The repolist input: vendors, products and content sets, each content set
//! naming base URLs and the architectures and release versions to expand
//! them over.

use vstd::prelude::*;

verus! {

/// One content set: URLs parametric in architecture and release version.
#[derive(Clone, Debug, PartialEq)]
pub struct ContentSet {
    pub name: String,
    pub baseurl: Vec<String>,
    pub basearch: Vec<String>,
    pub releasever: Vec<String>,
}

/// A product: its content sets by label.
#[derive(Clone, Debug, PartialEq)]
pub struct Product {
    pub content_sets: Vec<(String, ContentSet)>,
}

/// One vendor entry: its products by name.
#[derive(Clone, Debug, PartialEq)]
pub struct RepoEntry {
    pub products: Vec<(String, Product)>,
}

/// The whole repolist.
pub type Repolist = Vec<RepoEntry>;

} // verus!
