use vstd::prelude::*;

verus! {

/// A loaded texture resource: the hash of its catalog name, its decoded
/// RGBA pixels, and its dimensions.
pub struct Texture {
    pub hash: u64,
    pub rgba: Vec<u8>,
    pub width: u32,
    pub height: u32,
}

} // verus!
