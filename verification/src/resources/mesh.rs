use vstd::prelude::*;

verus! {

/// A loaded mesh resource, identified by the hash of its catalog name.
pub struct Mesh {
    pub hash: u64,
}

} // verus!
