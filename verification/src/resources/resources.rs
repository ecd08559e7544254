use vstd::prelude::*;

use vstd::hash_map::HashMapWithView;

use crate::resources::mesh::Mesh;
use crate::resources::texture::Texture;

verus! {

/// The loaded resources, each kind keyed by the hash of its catalog name.
pub struct Resources {
    meshes: HashMapWithView<u64, Mesh>,
    textures: HashMapWithView<u64, Texture>,
}

impl Resources {
    /// The meshes held, as a table from hash to mesh.
    pub closed spec fn spec_meshes(&self) -> Map<u64, Mesh> {
        self.meshes@
    }

    /// The textures held, as a table from hash to texture.
    pub closed spec fn spec_textures(&self) -> Map<u64, Texture> {
        self.textures@
    }

    /// Bundles loaded meshes and textures into a resource set.
    pub fn new(meshes: HashMapWithView<u64, Mesh>, textures: HashMapWithView<u64, Texture>) -> (r:
        Self)
        ensures
            r.spec_meshes() == meshes@,
            r.spec_textures() == textures@,
    {
        Resources { meshes, textures }
    }

    /// Whether a mesh with the given hash is held.
    pub fn has_mesh(&self, hash: u64) -> (r: bool)
        ensures
            r == self.spec_meshes().contains_key(hash),
    {
        self.meshes.contains_key(&hash)
    }

    /// Whether a texture with the given hash is held.
    pub fn has_texture(&self, hash: u64) -> (r: bool)
        ensures
            r == self.spec_textures().contains_key(hash),
    {
        self.textures.contains_key(&hash)
    }

    /// The mesh with the given hash, which the caller must know is held.
    pub fn mesh(&self, hash: u64) -> (r: &Mesh)
        requires
            self.spec_meshes().contains_key(hash),
        ensures
            *r == self.spec_meshes()[hash],
    {
        match self.meshes.get(&hash) {
            Some(m) => m,
            None => vstd::pervasive::unreached(),
        }
    }

    /// The texture with the given hash, which the caller must know is held.
    pub fn texture(&self, hash: u64) -> (r: &Texture)
        requires
            self.spec_textures().contains_key(hash),
        ensures
            *r == self.spec_textures()[hash],
    {
        match self.textures.get(&hash) {
            Some(t) => t,
            None => vstd::pervasive::unreached(),
        }
    }
}

} // verus!
