use vstd::prelude::*;

use vstd::hash_map::HashMapWithView;

use crate::resources::mesh::Mesh;
use crate::resources::resources::Resources;
use crate::resources::resources_catalog::ResourcesCatalog;
use crate::resources::texture::Texture;

verus! {

/// Why `take_resources` refused.
#[derive(Debug, PartialEq, Eq, Structural)]
pub enum ResourceLoaderError {
    /// The load has not completed yet.
    LoadNotCompletedError,
    /// The resources were already taken once.
    AlreadyTakeResourcesError,
}

impl ResourceLoaderError {
    /// A short description of the error.
    pub fn message(&self) -> (m: &'static str)
        ensures
            *self is LoadNotCompletedError ==> m@ == "Load resources not completed"@,
            *self is AlreadyTakeResourcesError ==> m@ == "Already take resources"@,
    {
        match self {
            ResourceLoaderError::LoadNotCompletedError => "Load resources not completed",
            ResourceLoaderError::AlreadyTakeResourcesError => "Already take resources",
        }
    }
}

/// The state of a resource loader: how many resources the started load
/// covers, how many have arrived, whether the load has completed, whether
/// the result was already taken, and the resources that arrived so far.
#[verifier::ext_equal]
pub ghost struct LoaderModel {
    pub take_flag: bool,
    pub loaded_flag: bool,
    pub all_count: usize,
    pub loaded_count: usize,
    pub meshes: Map<u64, Mesh>,
    pub textures: Map<u64, Texture>,
}

/// The loader's progress is coherent: never more resources than the started
/// load covers, and a completed load means every one of them arrived.
pub open spec fn loader_wf(m: LoaderModel) -> bool {
    &&& m.loaded_count <= m.all_count
    &&& (m.loaded_flag ==> m.loaded_count == m.all_count)
}

/// Tracks a resource load: the host hands every decoded resource to
/// `mesh_loaded` or `texture_loaded`, and once all entries of the started
/// catalog have arrived, the bundle can be taken exactly once.
pub struct ResourcesLoader {
    take_flag: bool,
    loaded_flag: bool,
    all_count: usize,
    loaded_count: usize,
    meshes: HashMapWithView<u64, Mesh>,
    textures: HashMapWithView<u64, Texture>,
}

impl View for ResourcesLoader {
    type V = LoaderModel;

    closed spec fn view(&self) -> LoaderModel {
        LoaderModel {
            take_flag: self.take_flag,
            loaded_flag: self.loaded_flag,
            all_count: self.all_count,
            loaded_count: self.loaded_count,
            meshes: self.meshes@,
            textures: self.textures@,
        }
    }
}

impl ResourcesLoader {
    /// A fresh loader: nothing to load, nothing loaded, nothing taken.
    pub fn new() -> (r: Self)
        ensures
            !r@.take_flag,
            !r@.loaded_flag,
            r@.all_count == 0,
            r@.loaded_count == 0,
            r@.meshes == Map::<u64, Mesh>::empty(),
            r@.textures == Map::<u64, Texture>::empty(),
            loader_wf(r@),
    {
        ResourcesLoader {
            take_flag: false,
            loaded_flag: false,
            all_count: 0,
            loaded_count: 0,
            meshes: HashMapWithView::new(),
            textures: HashMapWithView::new(),
        }
    }

    /// Begins loading the catalog afresh: the load covers exactly the
    /// catalog's entries, and every trace of an earlier load — the arrival
    /// count, the arrived resources, the completion flag — is reset. A load
    /// of an empty catalog is complete the moment it starts: there is no
    /// background task here, the host reports each resource as it decodes it
    /// through `mesh_loaded` or `texture_loaded`, and an empty catalog
    /// leaves it nothing to report.
    pub fn start_load(&mut self, catalog: ResourcesCatalog)
        ensures
            final(self)@ == (LoaderModel {
                all_count: catalog.items@.len() as usize,
                loaded_count: 0,
                loaded_flag: catalog.items@.len() == 0,
                meshes: Map::<u64, Mesh>::empty(),
                textures: Map::<u64, Texture>::empty(),
                ..old(self)@
            }),
            loader_wf(final(self)@),
    {
        self.all_count = catalog.items.len();
        self.loaded_count = 0;
        self.loaded_flag = self.all_count == 0;
        self.meshes = HashMapWithView::new();
        self.textures = HashMapWithView::new();
        proof {
            assert(self@ =~= (LoaderModel {
                all_count: catalog.items@.len() as usize,
                loaded_count: 0,
                loaded_flag: catalog.items@.len() == 0,
                meshes: Map::<u64, Mesh>::empty(),
                textures: Map::<u64, Texture>::empty(),
                ..old(self)@
            }));
        }
    }

    /// Records one decoded mesh. When it is the last outstanding resource,
    /// the load is complete.
    pub fn mesh_loaded(&mut self, m: Mesh)
        requires
            old(self)@.loaded_count < old(self)@.all_count,
        ensures
            final(self)@ == (LoaderModel {
                meshes: old(self)@.meshes.insert(m.hash, m),
                loaded_count: (old(self)@.loaded_count + 1) as usize,
                loaded_flag: old(self)@.loaded_flag || old(self)@.loaded_count + 1
                    == old(self)@.all_count,
                ..old(self)@
            }),
            loader_wf(old(self)@) ==> loader_wf(final(self)@),
    {
        let ghost pre = self@;
        let hash = m.hash;
        self.meshes.insert(hash, m);
        self.loaded_count = self.loaded_count + 1;
        if self.loaded_count == self.all_count {
            self.loaded_flag = true;
        }
        proof {
            assert(self@ =~= (LoaderModel {
                meshes: pre.meshes.insert(hash, m),
                loaded_count: (pre.loaded_count + 1) as usize,
                loaded_flag: pre.loaded_flag || pre.loaded_count + 1 == pre.all_count,
                ..pre
            }));
        }
    }

    /// Records one decoded texture. When it is the last outstanding
    /// resource, the load is complete.
    pub fn texture_loaded(&mut self, t: Texture)
        requires
            old(self)@.loaded_count < old(self)@.all_count,
        ensures
            final(self)@ == (LoaderModel {
                textures: old(self)@.textures.insert(t.hash, t),
                loaded_count: (old(self)@.loaded_count + 1) as usize,
                loaded_flag: old(self)@.loaded_flag || old(self)@.loaded_count + 1
                    == old(self)@.all_count,
                ..old(self)@
            }),
            loader_wf(old(self)@) ==> loader_wf(final(self)@),
    {
        let ghost pre = self@;
        let ghost tg = t;
        let hash = t.hash;
        self.textures.insert(hash, t);
        self.loaded_count = self.loaded_count + 1;
        if self.loaded_count == self.all_count {
            self.loaded_flag = true;
        }
        proof {
            assert(self@ =~= (LoaderModel {
                textures: pre.textures.insert(hash, tg),
                loaded_count: (pre.loaded_count + 1) as usize,
                loaded_flag: pre.loaded_flag || pre.loaded_count + 1 == pre.all_count,
                ..pre
            }));
        }
    }

    /// How many resources the started load covers.
    pub fn all_count(&self) -> (r: usize)
        ensures
            r == self@.all_count,
    {
        self.all_count
    }

    /// How many resources have arrived so far.
    pub fn loaded_count(&self) -> (r: usize)
        ensures
            r == self@.loaded_count,
    {
        self.loaded_count
    }

    /// Whether every resource of the started load has arrived.
    pub fn is_loaded(&self) -> (r: bool)
        ensures
            r == self@.loaded_flag,
    {
        self.loaded_flag
    }

    /// Whether the loaded resources were already taken.
    pub fn take_flag(&self) -> (r: bool)
        ensures
            r == self@.take_flag,
    {
        self.take_flag
    }

    /// Hands out the loaded resources, exactly once: before the load has
    /// completed this is refused with `LoadNotCompletedError`, and after the
    /// resources have been taken once, with `AlreadyTakeResourcesError`.
    pub fn take_resources(&mut self) -> (r: Result<Resources, ResourceLoaderError>)
        ensures
            old(self)@.loaded_flag && !old(self)@.take_flag ==> r is Ok && (
            r->Ok_0).spec_meshes() == old(self)@.meshes && (r->Ok_0).spec_textures() == old(
                self,
            )@.textures && final(self)@ == (LoaderModel {
                take_flag: true,
                meshes: Map::<u64, Mesh>::empty(),
                textures: Map::<u64, Texture>::empty(),
                ..old(self)@
            }),
            old(self)@.loaded_flag && old(self)@.take_flag ==> r == Err::<
                Resources,
                ResourceLoaderError,
            >(ResourceLoaderError::AlreadyTakeResourcesError) && final(self)@ == old(self)@,
            !old(self)@.loaded_flag ==> r == Err::<Resources, ResourceLoaderError>(
                ResourceLoaderError::LoadNotCompletedError,
            ) && final(self)@ == old(self)@,
            loader_wf(old(self)@) ==> loader_wf(final(self)@),
    {
        if self.loaded_flag {
            if !self.take_flag {
                self.take_flag = true;
                let mut meshes = HashMapWithView::<u64, Mesh>::new();
                let mut textures = HashMapWithView::<u64, Texture>::new();
                core::mem::swap(&mut meshes, &mut self.meshes);
                core::mem::swap(&mut textures, &mut self.textures);
                proof {
                    assert(self@ =~= (LoaderModel {
                        take_flag: true,
                        meshes: Map::<u64, Mesh>::empty(),
                        textures: Map::<u64, Texture>::empty(),
                        ..old(self)@
                    }));
                }
                Ok(Resources::new(meshes, textures))
            } else {
                Err(ResourceLoaderError::AlreadyTakeResourcesError)
            }
        } else {
            Err(ResourceLoaderError::LoadNotCompletedError)
        }
    }
}

} // verus!
