//! A mod's manifest: its name, author, resources to add, patches and dependencies.

use vstd::prelude::*;

verus! {

/// A change to one resource of the game: the diff in `patch_file` applies to
/// the resource at `resource`.
#[derive(Debug)]
pub struct Patch {
    resource: String,
    patch_file: String,
}

/// Where a mod keeps resources to add, and the resource path they go under.
#[derive(Debug)]
pub struct PckInfo {
    directory: String,
    resource_prefix: String,
}

/// The manifest of a mod, and the directory it was found in.
#[derive(Debug)]
pub struct Manifest {
    name: String,
    author: String,
    pck_info: Option<PckInfo>,
    patches: Vec<Patch>,
    deps: Option<Vec<String>>,
    pub path: String,
}

/// What a `Patch` holds.
pub struct PatchView {
    pub resource: Seq<char>,
    pub patch_file: Seq<char>,
}

/// What a `PckInfo` holds.
pub struct PckInfoView {
    pub directory: Seq<char>,
    pub resource_prefix: Seq<char>,
}

/// What a `Manifest` holds.
pub struct ManifestView {
    pub name: Seq<char>,
    pub author: Seq<char>,
    pub pck_info: Option<PckInfoView>,
    pub patches: Seq<PatchView>,
    pub deps: Option<Seq<Seq<char>>>,
    pub path: Seq<char>,
}

impl View for Patch {
    type V = PatchView;

    closed spec fn view(&self) -> PatchView {
        PatchView { resource: self.resource@, patch_file: self.patch_file@ }
    }
}

impl View for PckInfo {
    type V = PckInfoView;

    closed spec fn view(&self) -> PckInfoView {
        PckInfoView { directory: self.directory@, resource_prefix: self.resource_prefix@ }
    }
}

/// The texts of a sequence of strings.
pub open spec fn strings_view(v: Seq<String>) -> Seq<Seq<char>> {
    v.map_values(|s: String| s@)
}

/// The views of a sequence of patches.
pub open spec fn patches_view(v: Seq<Patch>) -> Seq<PatchView> {
    v.map_values(|p: Patch| p@)
}

/// The view of an optional `PckInfo`.
pub open spec fn pck_info_view(o: Option<PckInfo>) -> Option<PckInfoView> {
    match o {
        Some(i) => Some(i@),
        None => None,
    }
}

impl View for Manifest {
    type V = ManifestView;

    closed spec fn view(&self) -> ManifestView {
        ManifestView {
            name: self.name@,
            author: self.author@,
            pck_info: pck_info_view(self.pck_info),
            patches: patches_view(self.patches@),
            deps: match self.deps {
                Some(d) => Some(strings_view(d@)),
                None => None,
            },
            path: self.path@,
        }
    }
}

/// The dependencies of a mod: none where the manifest lists none.
pub open spec fn dependencies(m: ManifestView) -> Seq<Seq<char>> {
    match m.deps {
        Some(d) => d,
        None => seq![],
    }
}

/// A copy of a list of strings.
fn clone_strings(v: &Vec<String>) -> (r: Vec<String>)
    ensures
        strings_view(r@) == strings_view(v@),
{
    let mut out: Vec<String> = Vec::new();
    let mut i: usize = 0;
    while i < v.len()
        invariant
            i <= v@.len(),
            out@.len() == i,
            forall|k: int| 0 <= k < i ==> #[trigger] out@[k]@ == v@[k]@,
        decreases v@.len() - i,
    {
        let c = v[i].clone();
        out.push(c);
        i = i + 1;
    }
    assert(strings_view(out@) =~= strings_view(v@));
    out
}

impl Clone for Patch {
    /// A copy of the patch.
    fn clone(&self) -> (r: Patch)
        ensures
            r@ == self@,
    {
        Patch { resource: self.resource.clone(), patch_file: self.patch_file.clone() }
    }
}

impl Clone for PckInfo {
    /// A copy of the resource location.
    fn clone(&self) -> (r: PckInfo)
        ensures
            r@ == self@,
    {
        PckInfo { directory: self.directory.clone(), resource_prefix: self.resource_prefix.clone() }
    }
}

impl Default for PckInfo {
    /// Empty directory and prefix.
    fn default() -> (r: PckInfo)
        ensures
            r@.directory == Seq::<char>::empty(),
            r@.resource_prefix == Seq::<char>::empty(),
    {
        PckInfo { directory: String::new(), resource_prefix: String::new() }
    }
}

/// A copy of a list of patches.
fn clone_patches(v: &Vec<Patch>) -> (r: Vec<Patch>)
    ensures
        patches_view(r@) == patches_view(v@),
{
    let mut out: Vec<Patch> = Vec::new();
    let mut i: usize = 0;
    while i < v.len()
        invariant
            i <= v@.len(),
            out@.len() == i,
            forall|k: int| 0 <= k < i ==> #[trigger] out@[k]@ == v@[k]@,
        decreases v@.len() - i,
    {
        let c = v[i].clone();
        out.push(c);
        i = i + 1;
    }
    assert(patches_view(out@) =~= patches_view(v@));
    out
}

impl Clone for Manifest {
    /// A copy of the manifest.
    fn clone(&self) -> (r: Manifest)
        ensures
            r@ == self@,
    {
        let pck_info = match &self.pck_info {
            Some(info) => Some(info.clone()),
            None => None,
        };
        let deps = match &self.deps {
            Some(d) => Some(clone_strings(d)),
            None => None,
        };
        Manifest {
            name: self.name.clone(),
            author: self.author.clone(),
            pck_info,
            patches: clone_patches(&self.patches),
            deps,
            path: self.path.clone(),
        }
    }
}

impl Default for Manifest {
    /// A manifest with empty texts, no resource location, no patches and no
    /// dependency list.
    fn default() -> (r: Manifest)
        ensures
            r@.name == Seq::<char>::empty(),
            r@.author == Seq::<char>::empty(),
            r@.pck_info is None,
            r@.patches == Seq::<PatchView>::empty(),
            r@.deps is None,
            r@.path == Seq::<char>::empty(),
    {
        let r = Manifest {
            name: String::new(),
            author: String::new(),
            pck_info: None,
            patches: Vec::new(),
            deps: None,
            path: String::new(),
        };
        assert(patches_view(r.patches@) =~= Seq::<PatchView>::empty());
        r
    }
}

impl Patch {
    /// A patch of `resource` by the diff in `patch_file`.
    pub fn new(resource: String, patch_file: String) -> (r: Patch)
        ensures
            r@.resource == resource@,
            r@.patch_file == patch_file@,
    {
        Patch { resource, patch_file }
    }

    /// The resource path the patch changes.
    pub fn get_resource(&self) -> (r: String)
        ensures
            r@ == self@.resource,
    {
        self.resource.clone()
    }

    /// The file, relative to the mod's directory, that holds the diff.
    pub fn get_patch_file(&self) -> (r: String)
        ensures
            r@ == self@.patch_file,
    {
        self.patch_file.clone()
    }
}

impl PckInfo {
    /// Resources kept in `directory`, added under `resource_prefix`.
    pub fn new(directory: String, resource_prefix: String) -> (r: PckInfo)
        ensures
            r@.directory == directory@,
            r@.resource_prefix == resource_prefix@,
    {
        PckInfo { directory, resource_prefix }
    }

    /// The directory, relative to the mod's directory, of the resources to add.
    pub fn get_directory(&self) -> (r: String)
        ensures
            r@ == self@.directory,
    {
        self.directory.clone()
    }

    /// The resource path prefix the added resources go under.
    pub fn get_resource_prefix(&self) -> (r: String)
        ensures
            r@ == self@.resource_prefix,
    {
        self.resource_prefix.clone()
    }
}

impl Manifest {
    /// A manifest with these fields.
    pub fn new(
        name: String,
        author: String,
        pck_info: Option<PckInfo>,
        patches: Vec<Patch>,
        deps: Option<Vec<String>>,
        path: String,
    ) -> (r: Manifest)
        ensures
            r@.name == name@,
            r@.author == author@,
            r@.pck_info == pck_info_view(pck_info),
            r@.patches == patches_view(patches@),
            r@.deps == (match deps {
                Some(d) => Some(strings_view(d@)),
                None => None,
            }),
            r@.path == path@,
    {
        Manifest { name, author, pck_info, patches, deps, path }
    }

    /// The names of the mods this one needs; empty where the manifest lists none.
    pub fn get_dependencies(&self) -> (r: Vec<String>)
        ensures
            strings_view(r@) == dependencies(self@),
    {
        match &self.deps {
            Some(deps) => clone_strings(deps),
            None => {
                let r: Vec<String> = Vec::new();
                assert(strings_view(r@) =~= Seq::<Seq<char>>::empty());
                r
            },
        }
    }

    /// The mod's author.
    pub fn get_author(&self) -> (r: String)
        ensures
            r@ == self@.author,
    {
        self.author.clone()
    }

    /// The mod's name.
    pub fn get_name(&self) -> (r: String)
        ensures
            r@ == self@.name,
    {
        self.name.clone()
    }

    /// The mod's patches, in order.
    pub fn get_patches(&self) -> (r: &Vec<Patch>)
        ensures
            patches_view(r@) == self@.patches,
    {
        &self.patches
    }

    /// Where the mod keeps resources to add, if it has any.
    pub fn get_pck_info(&self) -> (r: &Option<PckInfo>)
        ensures
            pck_info_view(*r) == self@.pck_info,
    {
        &self.pck_info
    }
}

} // verus!
