use step_runtime::resources::resources_catalog::ResourcesCatalogItem;
use step_runtime::resources::{get_catalog, hash, Mesh, ResourceLoaderError, ResourcesLoader, Texture};

/// Reference FNV-1a (64-bit), written out independently of the library.
fn fnv1a_64_reference(s: &str) -> u64 {
    let mut h: u64 = 0xcbf29ce484222325;
    for b in s.bytes() {
        h ^= b as u64;
        h = h.wrapping_mul(0x00000100000001B3);
    }
    h
}

#[test]
fn hash_computes_fnv1a_64() {
    assert_eq!(hash("room"), fnv1a_64_reference("room"));
    assert_eq!(hash("room_tex_normal"), fnv1a_64_reference("room_tex_normal"));
    assert_eq!(hash(""), 0xcbf29ce484222325);
    assert_ne!(hash("room"), hash("room_tex_normal"));
    // and it agrees with the crate it wraps
    assert_eq!(hash("room"), const_fnv1a_hash::fnv1a_hash_str_64("room"));
}

#[test]
fn catalog_lists_the_room_assets() {
    let catalog = get_catalog();
    assert_eq!(catalog.items.len(), 5);
    match &catalog.items[0] {
        ResourcesCatalogItem::Mesh { hash: h, path } => {
            assert_eq!(*h, hash("room"));
            assert_eq!(path, "assets/room.glb");
        }
        _ => panic!("first catalog entry should be the room mesh"),
    }
    match &catalog.items[4] {
        ResourcesCatalogItem::Texture { hash: h, path } => {
            assert_eq!(*h, hash("room_tex_roughness"));
            assert_eq!(path, "assets/room_Material_Roughness.png");
        }
        _ => panic!("last catalog entry should be the roughness texture"),
    }
}

#[test]
fn loader_starts_empty() {
    let loader = ResourcesLoader::new();
    assert_eq!(loader.all_count(), 0);
    assert_eq!(loader.loaded_count(), 0);
    assert!(!loader.is_loaded());
    assert!(!loader.take_flag());
}

#[test]
fn take_before_load_completes_is_refused() {
    let mut loader = ResourcesLoader::new();
    loader.start_load(get_catalog());
    assert_eq!(loader.all_count(), 5);
    let err = match loader.take_resources() {
        Err(e) => e,
        Ok(_) => panic!("take_resources should be refused before the load completes"),
    };
    assert_eq!(err, ResourceLoaderError::LoadNotCompletedError);
    assert_eq!(err.message(), "Load resources not completed");
}

#[test]
fn resources_can_be_taken_exactly_once() {
    let mut catalog_items = Vec::new();
    catalog_items.push(ResourcesCatalogItem::mesh(hash("room"), "assets/room.glb"));
    catalog_items.push(ResourcesCatalogItem::texture(
        hash("room_tex_normal"),
        "assets/room_Material_Normal.png",
    ));
    let catalog = step_runtime::resources::ResourcesCatalog::new(catalog_items);

    let mut loader = ResourcesLoader::new();
    loader.start_load(catalog);
    assert_eq!(loader.all_count(), 2);

    loader.mesh_loaded(Mesh { hash: hash("room") });
    assert_eq!(loader.loaded_count(), 1);
    assert!(!loader.is_loaded());

    loader.texture_loaded(Texture {
        hash: hash("room_tex_normal"),
        rgba: vec![0, 0, 0, 255],
        width: 1,
        height: 1,
    });
    assert_eq!(loader.loaded_count(), 2);
    assert!(loader.is_loaded());

    let resources = match loader.take_resources() {
        Ok(r) => r,
        Err(_) => panic!("take_resources should succeed after the load completes"),
    };
    assert!(loader.take_flag());
    assert_eq!(resources.mesh(hash("room")).hash, hash("room"));
    let tex = resources.texture(hash("room_tex_normal"));
    assert_eq!(tex.width, 1);
    assert_eq!(tex.rgba, vec![0, 0, 0, 255]);

    let err = match loader.take_resources() {
        Err(e) => e,
        Ok(_) => panic!("take_resources should be refused the second time"),
    };
    assert_eq!(err, ResourceLoaderError::AlreadyTakeResourcesError);
    assert_eq!(err.message(), "Already take resources");
}

#[test]
fn empty_catalog_loads_immediately() {
    let mut loader = ResourcesLoader::new();
    loader.start_load(step_runtime::resources::ResourcesCatalog::new(Vec::new()));
    assert!(loader.is_loaded());
    assert!(loader.take_resources().is_ok());
}

#[test]
fn start_load_resets_previous_progress() {
    let mut one_item = Vec::new();
    one_item.push(ResourcesCatalogItem::mesh(hash("room"), "assets/room.glb"));
    let mut loader = ResourcesLoader::new();
    loader.start_load(step_runtime::resources::ResourcesCatalog::new(one_item));
    loader.mesh_loaded(Mesh { hash: hash("room") });
    assert!(loader.is_loaded());
    assert_eq!(loader.loaded_count(), 1);

    // a new load starts from scratch: no stale count, flag or resources
    loader.start_load(get_catalog());
    assert_eq!(loader.all_count(), 5);
    assert_eq!(loader.loaded_count(), 0);
    assert!(!loader.is_loaded());
    assert!(loader.loaded_count() <= loader.all_count());
    let err = match loader.take_resources() {
        Err(e) => e,
        Ok(_) => panic!("the new load has not completed"),
    };
    assert_eq!(err, ResourceLoaderError::LoadNotCompletedError);
}

#[test]
fn resources_report_what_they_hold() {
    let mut items = Vec::new();
    items.push(ResourcesCatalogItem::mesh(hash("room"), "assets/room.glb"));
    let mut loader = ResourcesLoader::new();
    loader.start_load(step_runtime::resources::ResourcesCatalog::new(items));
    loader.mesh_loaded(Mesh { hash: hash("room") });
    let resources = match loader.take_resources() {
        Ok(r) => r,
        Err(_) => panic!("load is complete"),
    };
    assert!(resources.has_mesh(hash("room")));
    assert!(!resources.has_mesh(hash("missing")));
    assert!(!resources.has_texture(hash("room")));
}
