use vstd::prelude::*;

verus! {

/// One entry of the resource catalog: what kind of resource it is, the hash
/// that identifies it, and the path it is loaded from.
#[derive(Clone)]
pub enum ResourcesCatalogItem {
    Mesh { hash: u64, path: String },
    Texture { hash: u64, path: String },
}

/// The identifying hash of a catalog entry.
pub open spec fn item_hash(i: ResourcesCatalogItem) -> u64 {
    match i {
        ResourcesCatalogItem::Mesh { hash, .. } => hash,
        ResourcesCatalogItem::Texture { hash, .. } => hash,
    }
}

/// The path a catalog entry is loaded from.
pub open spec fn item_path(i: ResourcesCatalogItem) -> Seq<char> {
    match i {
        ResourcesCatalogItem::Mesh { path, .. } => path@,
        ResourcesCatalogItem::Texture { path, .. } => path@,
    }
}

/// Whether the catalog entry names a mesh.
pub open spec fn is_mesh(i: ResourcesCatalogItem) -> bool {
    i is Mesh
}

/// Whether the catalog entry names a texture.
pub open spec fn is_texture(i: ResourcesCatalogItem) -> bool {
    i is Texture
}

impl ResourcesCatalogItem {
    /// A mesh entry with the given identifying hash and source path.
    pub fn mesh(hash: u64, path: &str) -> (r: Self)
        ensures
            is_mesh(r),
            item_hash(r) == hash,
            item_path(r) == path@,
    {
        ResourcesCatalogItem::Mesh { hash, path: path.to_owned() }
    }

    /// A texture entry with the given identifying hash and source path.
    pub fn texture(hash: u64, path: &str) -> (r: Self)
        ensures
            is_texture(r),
            item_hash(r) == hash,
            item_path(r) == path@,
    {
        ResourcesCatalogItem::Texture { hash, path: path.to_owned() }
    }
}

/// The list of resources an application wants loaded.
#[derive(Clone)]
pub struct ResourcesCatalog {
    pub items: Vec<ResourcesCatalogItem>,
}

impl ResourcesCatalog {
    /// A catalog holding exactly the given entries, in order.
    pub fn new(items: Vec<ResourcesCatalogItem>) -> (r: Self)
        ensures
            r.items@ == items@,
    {
        ResourcesCatalog { items }
    }
}

} // verus!
