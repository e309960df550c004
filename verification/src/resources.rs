//! Where the installer puts a resource while it patches it, and the resource
//! path a mod's file is added under.

use vstd::prelude::*;
use crate::text::{chars_of, string_of, replace, last_split_piece, ends_with, replaced, split_last, has_suffix};
use crate::manifest::strings_view;

verus! {

/// The file name of a resource: what follows `res://`, then what follows the last `/`.
pub open spec fn resource_file_name(resource_path: Seq<char>) -> Seq<char> {
    split_last(split_last(resource_path, "res://"@), "/"@)
}

/// Whether the resource is a compiled script.
pub open spec fn is_compiled_script(resource_path: Seq<char>) -> bool {
    has_suffix(resource_path, ".gdc"@)
}

/// The directory a resource is exported to before it is decompiled.
pub open spec fn export_dir() -> Seq<char> {
    "build/webfishing-export/"@
}

/// The directory decompiled scripts and other resources to patch are written to.
pub open spec fn decomp_dir() -> Seq<char> {
    "build/webfishing-decomp/"@
}

/// The directory recompiled scripts are read back from.
pub open spec fn recomp_dir() -> Seq<char> {
    "build/webfishing-recomp/"@
}

/// The files the installer uses to patch one resource.
pub struct PatchTarget {
    /// The resource's file name.
    pub name: String,
    /// Whether the resource is a compiled script, to decompile before and
    /// recompile after patching.
    pub is_script: bool,
    /// Where the resource's bytes are written: the export directory for a
    /// script, the decompile directory otherwise.
    pub exported: String,
    /// The text the diff applies to, and where the patched text is written.
    pub source: String,
    /// Where the recompiled script is read back from.
    pub recompiled: String,
}

/// The characters of `a` followed by those of `b`.
fn concat(a: &str, b: &str) -> (r: String)
    ensures
        r@ == a@ + b@,
{
    let mut v = chars_of(a);
    let w = chars_of(b);
    let mut i: usize = 0;
    while i < w.len()
        invariant
            i <= w@.len(),
            v@ == a@ + w@.take(i as int),
        decreases w@.len() - i,
    {
        v.push(w[i]);
        i = i + 1;
        assert(v@ =~= a@ + w@.take(i as int));
    }
    assert(w@.take(w@.len() as int) =~= w@);
    string_of(&v)
}

impl PatchTarget {
    /// The files for patching the resource at `resource_path`.
    pub fn for_resource(resource_path: &str) -> (r: PatchTarget)
        ensures
            r.name@ == resource_file_name(resource_path@),
            r.is_script == is_compiled_script(resource_path@),
            r.exported@ == (if r.is_script { export_dir() } else { decomp_dir() }) + r.name@,
            r.source@ == decomp_dir() + replaced(r.name@, ".gdc"@, ".gd"@),
            r.recompiled@ == recomp_dir() + r.name@,
    {
        proof {
            reveal_strlit("res://");
            reveal_strlit("/");
            reveal_strlit(".gdc");
        }
        let after_scheme = last_split_piece(resource_path, "res://");
        let name = last_split_piece(after_scheme.as_str(), "/");
        let is_script = ends_with(resource_path, ".gdc");
        let exported = if is_script {
            concat("build/webfishing-export/", name.as_str())
        } else {
            concat("build/webfishing-decomp/", name.as_str())
        };
        let source_name = replace(name.as_str(), ".gdc", ".gd");
        let source = concat("build/webfishing-decomp/", source_name.as_str());
        let recompiled = concat("build/webfishing-recomp/", name.as_str());
        PatchTarget { name, is_script, exported, source, recompiled }
    }
}

/// The components that follow the first one equal to `dir`; none where no
/// component is `dir`.
pub open spec fn after_first(comps: Seq<Seq<char>>, dir: Seq<char>) -> Seq<Seq<char>>
    decreases comps.len(),
{
    if comps.len() == 0 {
        seq![]
    } else if comps[0] == dir {
        comps.skip(1)
    } else {
        after_first(comps.skip(1), dir)
    }
}

/// Path components joined by `/`.
pub open spec fn joined(comps: Seq<Seq<char>>) -> Seq<char>
    decreases comps.len(),
{
    if comps.len() == 0 {
        seq![]
    } else if comps.len() == 1 {
        comps[0]
    } else {
        joined(comps.drop_last()) + "/"@ + comps.last()
    }
}

/// Joining two non-empty runs of components joins each and puts one `/`
/// between them: every component is kept, in order, with a `/` between each
/// two neighbours.
pub proof fn law_joined_concat(a: Seq<Seq<char>>, b: Seq<Seq<char>>)
    requires
        a.len() >= 1,
        b.len() >= 1,
    ensures
        joined(a + b) == joined(a) + "/"@ + joined(b),
    decreases b.len(),
{
    let ab = a + b;
    assert(ab.last() == b.last());
    if b.len() == 1 {
        assert(ab.drop_last() =~= a);
        assert(joined(b) == b[0]);
    } else {
        assert(ab.drop_last() =~= a + b.drop_last());
        law_joined_concat(a, b.drop_last());
        assert(joined(ab) =~= joined(a) + "/"@ + (joined(b.drop_last()) + "/"@ + b.last()));
    }
}

/// A single component is joined to itself.
pub proof fn law_joined_single(c: Seq<char>)
    ensures
        joined(seq![c]) == c,
{
}

/// The components taken for the path are all those after the first one equal
/// to the directory, in order; there are none where no component equals it.
pub proof fn law_after_first(before: Seq<Seq<char>>, dir: Seq<char>, after: Seq<Seq<char>>)
    requires
        !before.contains(dir),
    ensures
        after_first(before + seq![dir] + after, dir) == after,
        after_first(before, dir) == Seq::<Seq<char>>::empty(),
    decreases before.len(),
{
    let all = before + seq![dir] + after;
    if before.len() == 0 {
        assert(all[0] == dir);
        assert(all.skip(1) =~= after);
    } else {
        assert(all[0] == before[0]);
        assert(before[0] != dir) by {
            assert(before.contains(before[0]));
        }
        assert(!before.skip(1).contains(dir)) by {
            if before.skip(1).contains(dir) {
                let j = choose|j: int| 0 <= j < before.skip(1).len() && before.skip(1)[j] == dir;
                assert(before[j + 1] == dir);
            }
        }
        law_after_first(before.skip(1), dir, after);
        assert(all.skip(1) =~= before.skip(1) + seq![dir] + after);
    }
}

/// The resource path a mod's file goes under: the prefix, `/`, and the file's
/// path inside the mod's resource directory, with `//` made `/` and then
/// `res:/` made `res://`.
pub open spec fn added_resource_path(prefix: Seq<char>, dir: Seq<char>, comps: Seq<Seq<char>>) -> Seq<char> {
    replaced(
        replaced(prefix + "/"@ + joined(after_first(comps, dir)), "//"@, "/"@),
        "res:/"@,
        "res://"@,
    )
}

/// The resource path for the mod file whose path has the components
/// `components`, where the mod keeps its resources in `directory` and adds
/// them under `prefix`.
pub fn resource_path_for(prefix: &str, directory: &str, components: &Vec<String>) -> (r: String)
    ensures
        r@ == added_resource_path(prefix@, directory@, strings_view(components@)),
{
    let ghost comps = strings_view(components@);
    let target = directory.to_owned();
    // Skip up to and including the first component equal to `directory`.
    let mut k: usize = 0;
    assert(comps.skip(0) =~= comps);
    while k < components.len() && !(components[k] == target)
        invariant
            k <= components@.len(),
            target@ == directory@,
            comps == strings_view(components@),
            after_first(comps.skip(k as int), directory@) == after_first(comps, directory@),
        decreases components@.len() - k,
    {
        assert(comps.skip(k as int)[0] == components@[k as int]@);
        assert(comps.skip(k as int).skip(1) =~= comps.skip(k + 1));
        k = k + 1;
    }
    let start = if k < components.len() { k + 1 } else { k };
    assert(comps.skip(start as int) =~= after_first(comps, directory@)) by {
        if k < components@.len() {
            assert(comps.skip(k as int)[0] == components@[k as int]@);
            assert(comps.skip(k as int).skip(1) =~= comps.skip(k + 1));
        } else {
            assert(comps.skip(k as int) =~= Seq::<Seq<char>>::empty());
        }
    }
    // Join the rest with `/`.
    let mut path: Vec<char> = Vec::new();
    let mut i: usize = start;
    assert(comps.skip(start as int).take(0) =~= Seq::<Seq<char>>::empty());
    while i < components.len()
        invariant
            start <= i <= components@.len(),
            comps == strings_view(components@),
            path@ == joined(comps.skip(start as int).take(i - start)),
        decreases components@.len() - i,
    {
        let part = chars_of(components[i].as_str());
        let ghost before = path@;
        let ghost rest = comps.skip(start as int);
        assert(rest.take(i - start + 1).drop_last() =~= rest.take(i - start));
        assert(rest.take(i - start + 1).last() == components@[i as int]@);
        if i > start {
            path.push('/');
        }
        let mut j: usize = 0;
        let ghost mid = path@;
        while j < part.len()
            invariant
                j <= part@.len(),
                path@ == mid + part@.take(j as int),
            decreases part@.len() - j,
        {
            path.push(part[j]);
            j = j + 1;
            assert(path@ =~= mid + part@.take(j as int));
        }
        proof {
            reveal_strlit("/");
            assert(part@.take(part@.len() as int) =~= part@);
            if i > start {
                assert(path@ =~= before + "/"@ + part@);
            } else {
                assert(rest.take(1) =~= seq![part@]);
                assert(path@ =~= part@);
            }
        }
        i = i + 1;
    }
    assert(comps.skip(start as int).take(components@.len() - start) =~= comps.skip(start as int));
    let joined_path = string_of(&path);
    let with_slash = concat(prefix, "/");
    let full = concat(with_slash.as_str(), joined_path.as_str());
    proof {
        reveal_strlit("//");
        reveal_strlit("res:/");
    }
    let single = replace(full.as_str(), "//", "/");
    replace(single.as_str(), "res:/", "res://")
}

} // verus!
