//! The top-level manifest of a repository: which sub-documents exist, where
//! they live, and the repository's revision.

use vstd::prelude::*;

verus! {

/// The kind of a sub-document listed in the manifest.
#[derive(Clone, Copy, Debug, PartialEq, Eq, Structural)]
pub enum Type {
    Primary,
    PrimaryDb,
    Other,
    OtherDb,
    Filelists,
    FilelistsDb,
    Group,
    GroupGz,
    Modules,
    ProductId,
    UpdateInfo,
    Unknown,
}

/// A checksum as the manifest states it.
#[derive(Clone, Debug, PartialEq)]
pub struct Checksum {
    pub typ: String,
    pub value: String,
}

/// Where a sub-document lives, relative to the repository base.
#[derive(Clone, Debug, PartialEq)]
pub struct Location {
    pub href: String,
}

/// One sub-document entry of the manifest.
#[derive(Clone, Debug, PartialEq)]
pub struct RepoMDItem {
    pub typ: Type,
    pub checksum: Checksum,
    pub location: Location,
    pub open_checksum: Option<Checksum>,
    pub size: Option<usize>,
    pub open_size: Option<usize>,
}

/// The manifest: a revision and its sub-document entries.
#[derive(Clone, Debug, PartialEq)]
pub struct RepoMD {
    pub revision: usize,
    pub data: Vec<RepoMDItem>,
}

impl RepoMD {
    /// Find the first sub-document entry of the given kind.
    pub fn find_item(&self, typ: Type) -> (r: Option<&RepoMDItem>)
        ensures
            r is Some <==> exists|j: int| 0 <= j < self.data@.len() && self.data@[j].typ == typ,
            r is Some ==> exists|j: int|
                {
                    &&& 0 <= j < self.data@.len()
                    &&& self.data@[j].typ == typ
                    &&& *r.unwrap() == self.data@[j]
                    &&& forall|j2: int| 0 <= j2 < j ==> self.data@[j2].typ != typ
                },
    {
        let n: usize = self.data.len();
        let mut i: usize = 0;
        while i < n
            invariant
                0 <= i <= n,
                n == self.data@.len(),
                forall|j: int| 0 <= j < i ==> self.data@[j].typ != typ,
            decreases n - i,
        {
            if self.data[i].typ == typ {
                return Some(&self.data[i]);
            }
            i = i + 1;
        }
        None
    }
}

} // verus!
