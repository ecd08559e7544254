use vstd::prelude::*;

pub mod mesh;
pub mod resources;
pub mod resources_catalog;
pub mod resources_loader;
pub mod texture;

verus! {

pub use mesh::Mesh;
pub use resources::Resources;
pub use resources_catalog::ResourcesCatalog;
pub use resources_catalog::ResourcesCatalogItem;
pub use resources_loader::ResourceLoaderError;
pub use resources_loader::ResourcesLoader;
pub use texture::Texture;

/// What `hash` returns: the 64-bit FNV-1a digest of a string, a pure
/// function of its characters.
pub uninterp spec fn fnv1a_64_of(s: Seq<char>) -> u64;

/// Relies on `const_fnv1a_hash::fnv1a_hash_str_64`: the 64-bit FNV-1a hash
/// of the string's bytes, which depends on the string's contents alone.
#[verifier::external_body]
pub fn hash(name: &str) -> (r: u64)
    ensures
        r == fnv1a_64_of(name@),
{
    const_fnv1a_hash::fnv1a_hash_str_64(name)
}

/// The fixed catalog of resources the application loads: one mesh and four
/// textures, each keyed by the hash of its name.
pub fn get_catalog() -> (r: ResourcesCatalog)
    ensures
        r.items@.len() == 5,
        resources_catalog::is_mesh(r.items@[0]),
        resources_catalog::item_hash(r.items@[0]) == fnv1a_64_of("room"@),
        resources_catalog::item_path(r.items@[0]) == "assets/room.glb"@,
        resources_catalog::is_texture(r.items@[1]),
        resources_catalog::item_hash(r.items@[1]) == fnv1a_64_of("room_tex_base_color"@),
        resources_catalog::item_path(r.items@[1]) == "assets/room_Material_BaseColor.png"@,
        resources_catalog::is_texture(r.items@[2]),
        resources_catalog::item_hash(r.items@[2]) == fnv1a_64_of("room_tex_metallic"@),
        resources_catalog::item_path(r.items@[2]) == "assets/room_Material_Metallic.png"@,
        resources_catalog::is_texture(r.items@[3]),
        resources_catalog::item_hash(r.items@[3]) == fnv1a_64_of("room_tex_normal"@),
        resources_catalog::item_path(r.items@[3]) == "assets/room_Material_Normal.png"@,
        resources_catalog::is_texture(r.items@[4]),
        resources_catalog::item_hash(r.items@[4]) == fnv1a_64_of("room_tex_roughness"@),
        resources_catalog::item_path(r.items@[4]) == "assets/room_Material_Roughness.png"@,
{
    let mut items: Vec<ResourcesCatalogItem> = Vec::new();
    items.push(ResourcesCatalogItem::mesh(hash("room"), "assets/room.glb"));
    items.push(ResourcesCatalogItem::texture(
        hash("room_tex_base_color"),
        "assets/room_Material_BaseColor.png",
    ));
    items.push(ResourcesCatalogItem::texture(
        hash("room_tex_metallic"),
        "assets/room_Material_Metallic.png",
    ));
    items.push(ResourcesCatalogItem::texture(
        hash("room_tex_normal"),
        "assets/room_Material_Normal.png",
    ));
    items.push(ResourcesCatalogItem::texture(
        hash("room_tex_roughness"),
        "assets/room_Material_Roughness.png",
    ));
    ResourcesCatalog::new(items)
}

} // verus!
