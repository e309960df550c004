//! Which mods can be loaded: a mod is dropped while one of its dependencies
//! is not among the mods still loaded.

use vstd::prelude::*;
use crate::manifest::{Manifest, ManifestView, dependencies, strings_view};
use crate::text::lemma_filter_len_le;

verus! {

/// The views of a sequence of manifests.
pub open spec fn manifests_view(ms: Seq<Manifest>) -> Seq<ManifestView> {
    ms.map_values(|m: Manifest| m@)
}

/// The names of the mods, in order.
pub open spec fn names_of(ms: Seq<ManifestView>) -> Seq<Seq<char>> {
    ms.map_values(|m: ManifestView| m.name)
}

/// Whether every dependency of `m` is in `names`.
pub open spec fn deps_met(m: ManifestView, names: Seq<Seq<char>>) -> bool {
    forall|i: int| 0 <= i < dependencies(m).len() ==> names.contains(#[trigger] dependencies(m)[i])
}

/// Holds of the mods whose dependencies are all among the names of `ms`.
pub open spec fn deps_available(ms: Seq<ManifestView>) -> spec_fn(ManifestView) -> bool {
    |m: ManifestView| deps_met(m, names_of(ms))
}

/// One round of checking: the mods of `ms` whose dependencies are all among `ms`.
pub open spec fn check_step(ms: Seq<ManifestView>) -> Seq<ManifestView> {
    ms.filter(deps_available(ms))
}

/// The mods left once rounds of checking drop no more.
pub open spec fn resolved(ms: Seq<ManifestView>) -> Seq<ManifestView>
    decreases ms.len(),
{
    let next = check_step(ms);
    if next.len() >= ms.len() {
        ms
    } else {
        resolved(next)
    }
}

/// The dependencies of `m` that are not in `names`, in order.
pub open spec fn missing_deps(m: ManifestView, names: Seq<Seq<char>>) -> Seq<Seq<char>> {
    dependencies(m).filter(|d: Seq<char>| !names.contains(d))
}

/// Whether `names` holds `name`.
fn contains_name(names: &Vec<String>, name: &String) -> (r: bool)
    ensures
        r == strings_view(names@).contains(name@),
{
    let mut i: usize = 0;
    while i < names.len()
        invariant
            i <= names@.len(),
            forall|k: int| 0 <= k < i ==> names@[k]@ != name@,
        decreases names@.len() - i,
    {
        if names[i] == *name {
            assert(strings_view(names@)[i as int] == name@);
            return true;
        }
        i = i + 1;
    }
    assert forall|k: int| 0 <= k < strings_view(names@).len() implies strings_view(names@)[k] != name@ by {
        assert(strings_view(names@)[k] == names@[k]@);
    }
    false
}

/// The dependencies of `manifest` that are not among `names`, in order.
pub fn missing_dependencies(manifest: &Manifest, names: &Vec<String>) -> (r: Vec<String>)
    ensures
        strings_view(r@) == missing_deps(manifest@, strings_view(names@)),
{
    let deps = manifest.get_dependencies();
    let ghost pred = |d: Seq<char>| !strings_view(names@).contains(d);
    let ghost ds = strings_view(deps@);
    let mut out: Vec<String> = Vec::new();
    let mut i: usize = 0;
    assert(ds.take(0).filter(pred) =~= Seq::<Seq<char>>::empty()) by {
        reveal(Seq::filter);
    }
    assert(strings_view(out@) =~= Seq::<Seq<char>>::empty());
    while i < deps.len()
        invariant
            i <= deps@.len(),
            ds == strings_view(deps@),
            pred == (|d: Seq<char>| !strings_view(names@).contains(d)),
            strings_view(out@) == ds.take(i as int).filter(pred),
        decreases deps@.len() - i,
    {
        let ghost before = strings_view(out@);
        assert(ds.take(i + 1) =~= ds.take(i as int).push(ds[i as int]));
        proof {
            ds.take(i as int).lemma_filter_push(ds[i as int], pred);
        }
        if !contains_name(names, &deps[i]) {
            let d = deps[i].clone();
            out.push(d);
            assert(strings_view(out@) =~= before.push(ds[i as int]));
        }
        i = i + 1;
    }
    assert(ds.take(deps@.len() as int) =~= ds);
    out
}

/// Whether every dependency of `manifest` is among `names`.
fn has_all_dependencies(manifest: &Manifest, names: &Vec<String>) -> (r: bool)
    ensures
        r == deps_met(manifest@, strings_view(names@)),
{
    let deps = manifest.get_dependencies();
    let mut i: usize = 0;
    while i < deps.len()
        invariant
            i <= deps@.len(),
            strings_view(deps@) == dependencies(manifest@),
            forall|k: int| 0 <= k < i ==> strings_view(names@).contains(#[trigger] dependencies(manifest@)[k]),
        decreases deps@.len() - i,
    {
        assert(strings_view(deps@)[i as int] == deps@[i as int]@);
        if !contains_name(names, &deps[i]) {
            return false;
        }
        i = i + 1;
    }
    true
}

/// The names of the mods, in order.
fn names_list(manifests: &Vec<Manifest>) -> (r: Vec<String>)
    ensures
        strings_view(r@) == names_of(manifests_view(manifests@)),
{
    let mut out: Vec<String> = Vec::new();
    let mut i: usize = 0;
    while i < manifests.len()
        invariant
            i <= manifests@.len(),
            out@.len() == i,
            forall|k: int| 0 <= k < i ==> #[trigger] out@[k]@ == manifests@[k]@.name,
        decreases manifests@.len() - i,
    {
        out.push(manifests[i].get_name());
        i = i + 1;
    }
    assert(strings_view(out@) =~= names_of(manifests_view(manifests@)));
    out
}

/// One round of checking: keeps, in order, the mods whose dependencies are
/// all among the names of `manifests`.
pub fn check_mods(manifests: Vec<Manifest>) -> (r: Vec<Manifest>)
    ensures
        manifests_view(r@) == check_step(manifests_view(manifests@)),
{
    let names = names_list(&manifests);
    let ghost all = manifests@;
    let ghost pred = deps_available(manifests_view(manifests@));
    let mut kept: Vec<Manifest> = Vec::new();
    assert(manifests_view(all.take(0)).filter(pred) =~= Seq::<ManifestView>::empty()) by {
        reveal(Seq::filter);
    }
    assert(manifests_view(kept@) =~= Seq::<ManifestView>::empty());
    for m in it: manifests.into_iter()
        invariant
            it.seq() == all,
            strings_view(names@) == names_of(manifests_view(all)),
            pred == deps_available(manifests_view(all)),
            manifests_view(kept@) == manifests_view(all.take(it.index() as int)).filter(pred),
    {
        let ghost i = it.index();
        let ghost before = manifests_view(kept@);
        assert(m == all[i]);
        assert(manifests_view(all.take(i + 1)) =~= manifests_view(all.take(i)).push(m@));
        proof {
            manifests_view(all.take(i)).lemma_filter_push(m@, pred);
        }
        if has_all_dependencies(&m, &names) {
            kept.push(m);
            assert(manifests_view(kept@) =~= before.push(all[i]@));
        }
    }
    assert(all.take(all.len() as int) =~= all);
    kept
}

/// Drops mods with a dependency missing, round after round, until a round
/// drops none; keeps the order of the rest.
pub fn resolve_mods(manifests: Vec<Manifest>) -> (r: Vec<Manifest>)
    ensures
        manifests_view(r@) == resolved(manifests_view(manifests@)),
{
    let mut current = manifests;
    loop
        invariant
            resolved(manifests_view(current@)) == resolved(manifests_view(manifests@)),
        decreases current@.len(),
    {
        let n = current.len();
        let next = check_mods(current);
        proof {
            lemma_filter_len_le(manifests_view(current@), deps_available(manifests_view(current@)));
        }
        if next.len() == n {
            proof {
                lemma_filter_all(manifests_view(current@), deps_available(manifests_view(current@)));
            }
            return next;
        }
        current = next;
    }
}

/// A filter that keeps every element keeps the sequence, and one that keeps
/// as many elements as there are keeps every element.
proof fn lemma_filter_all(s: Seq<ManifestView>, p: spec_fn(ManifestView) -> bool)
    ensures
        s.filter(p).len() >= s.len() ==> s.filter(p) == s && forall|i: int| 0 <= i < s.len() ==> #[trigger] p(s[i]),
        (forall|i: int| 0 <= i < s.len() ==> #[trigger] p(s[i])) ==> s.filter(p) == s,
    decreases s.len(),
{
    reveal(Seq::filter);
    if s.len() > 0 {
        let init = s.drop_last();
        lemma_filter_all(init, p);
        lemma_filter_len_le(init, p);
        if forall|i: int| 0 <= i < s.len() ==> #[trigger] p(s[i]) {
            assert forall|i: int| 0 <= i < init.len() implies #[trigger] p(init[i]) by {
                assert(init[i] == s[i]);
            }
            assert(s.filter(p) =~= s);
        }
        if s.filter(p).len() >= s.len() {
            assert(p(s.last()));
            assert(init.filter(p).len() >= init.len());
            assert forall|i: int| 0 <= i < s.len() implies #[trigger] p(s[i]) by {
                if i < init.len() {
                    assert(init[i] == s[i]);
                    assert(p(init[i]));
                }
            }
            assert(s.filter(p) =~= s);
        }
    } else {
        assert(s.filter(p) =~= s);
    }
}

/// Once resolution is done, a further round of checking drops nothing: every
/// dependency of every mod left is the name of a mod left.
pub proof fn law_resolved_closed(ms: Seq<ManifestView>)
    ensures
        check_step(resolved(ms)) == resolved(ms),
        forall|i: int, j: int|
            0 <= i < resolved(ms).len() && 0 <= j < dependencies(resolved(ms)[i]).len()
                ==> names_of(resolved(ms)).contains(#[trigger] dependencies(resolved(ms)[i])[j]),
    decreases ms.len(),
{
    let next = check_step(ms);
    lemma_filter_len_le(ms, deps_available(ms));
    if next.len() >= ms.len() {
        lemma_filter_all(ms, deps_available(ms));
        assert forall|i: int, j: int|
            0 <= i < ms.len() && 0 <= j < dependencies(ms[i]).len()
                implies names_of(ms).contains(#[trigger] dependencies(ms[i])[j]) by {
            assert(deps_available(ms)(ms[i]));
        }
    } else {
        law_resolved_closed(next);
    }
}

/// Resolution only drops mods: every mod left was among the mods given.
pub proof fn law_resolved_within(ms: Seq<ManifestView>, m: ManifestView)
    requires
        resolved(ms).contains(m),
    ensures
        ms.contains(m),
    decreases ms.len(),
{
    let next = check_step(ms);
    lemma_filter_len_le(ms, deps_available(ms));
    if next.len() < ms.len() {
        law_resolved_within(next, m);
        ms.lemma_filter_contains_rev(deps_available(ms), m);
    }
}

/// Whether every name in `names` belongs to a mod of `ms` whose dependencies
/// all have their names in `names`.
pub open spec fn self_supporting(ms: Seq<ManifestView>, names: Set<Seq<char>>) -> bool {
    forall|n: Seq<char>|
        names.contains(n) ==> exists|i: int|
            0 <= i < ms.len() && #[trigger] ms[i].name == n && deps_within(ms[i], names)
}

/// Whether every dependency of `m` is in `names`.
pub open spec fn deps_within(m: ManifestView, names: Set<Seq<char>>) -> bool {
    forall|j: int| 0 <= j < dependencies(m).len() ==> names.contains(#[trigger] dependencies(m)[j])
}

/// Resolution drops no more than it must: given a set of names of which each
/// belongs to a mod whose dependencies are all in the set, every mod with a
/// name in the set and its dependencies in the set is kept.
pub proof fn law_resolved_keeps_supported(ms: Seq<ManifestView>, names: Set<Seq<char>>, m: ManifestView)
    requires
        self_supporting(ms, names),
        ms.contains(m),
        names.contains(m.name),
        deps_within(m, names),
    ensures
        resolved(ms).contains(m),
{
    lemma_resolved_keeps(ms, ms, names, m);
}

/// The mods of `orig` with a name in `names` and their dependencies in `names`
/// survive resolution of any `cur` that still holds them all.
proof fn lemma_resolved_keeps(orig: Seq<ManifestView>, cur: Seq<ManifestView>, names: Set<Seq<char>>, m: ManifestView)
    requires
        self_supporting(orig, names),
        forall|k: int|
            0 <= k < orig.len() && names.contains(orig[k].name) && deps_within(orig[k], names)
                ==> cur.contains(#[trigger] orig[k]),
        orig.contains(m),
        names.contains(m.name),
        deps_within(m, names),
    ensures
        resolved(cur).contains(m),
    decreases cur.len(),
{
    let next = check_step(cur);
    lemma_filter_len_le(cur, deps_available(cur));
    if next.len() >= cur.len() {
        let k = choose|k: int| 0 <= k < orig.len() && orig[k] == m;
        assert(cur.contains(orig[k]));
    } else {
        // Every name in `names` is the name of a mod still in `cur`.
        assert forall|n: Seq<char>| names.contains(n) implies names_of(cur).contains(n) by {
            let i = choose|i: int| 0 <= i < orig.len() && #[trigger] orig[i].name == n && deps_within(orig[i], names);
            assert(cur.contains(orig[i]));
            let c = choose|c: int| 0 <= c < cur.len() && cur[c] == orig[i];
            assert(names_of(cur)[c] == n);
        }
        assert forall|k: int|
            0 <= k < orig.len() && names.contains(orig[k].name) && deps_within(orig[k], names)
                implies next.contains(#[trigger] orig[k]) by {
            assert(cur.contains(orig[k]));
            let c = choose|c: int| 0 <= c < cur.len() && cur[c] == orig[k];
            assert forall|j: int| 0 <= j < dependencies(cur[c]).len()
                implies names_of(cur).contains(#[trigger] dependencies(cur[c])[j]) by {
                assert(names.contains(dependencies(orig[k])[j]));
            }
            assert(deps_available(cur)(cur[c]));
            cur.lemma_filter_contains(deps_available(cur), c);
        }
        lemma_resolved_keeps(orig, next, names, m);
    }
}

} // verus!
