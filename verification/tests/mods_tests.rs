use webfishing_installer::manifest::{Manifest, Patch, PckInfo};
use webfishing_installer::mods::{check_mods, missing_dependencies, resolve_mods};

fn manifest(name: &str, deps: Option<&[&str]>) -> Manifest {
    Manifest::new(
        name.to_string(),
        "someone".to_string(),
        None,
        Vec::new(),
        deps.map(|d| d.iter().map(|s| s.to_string()).collect()),
        format!("mods/{}", name),
    )
}

fn names(ms: &[Manifest]) -> Vec<String> {
    ms.iter().map(|m| m.get_name()).collect()
}

#[test]
fn getters_give_fields() {
    let m = Manifest::new(
        "Ship Mod".to_string(),
        "Estym".to_string(),
        Some(PckInfo::new("pck".to_string(), "res://Mods/Ship/".to_string())),
        vec![Patch::new("res://Scenes/Entities/Player/player.gdc".to_string(), "patch/player.patch".to_string())],
        None,
        "mods/ship".to_string(),
    );
    assert_eq!(m.get_name(), "Ship Mod");
    assert_eq!(m.get_author(), "Estym");
    assert!(m.get_dependencies().is_empty());
    assert_eq!(m.get_patches().len(), 1);
    assert_eq!(m.get_patches()[0].get_resource(), "res://Scenes/Entities/Player/player.gdc");
    assert_eq!(m.get_patches()[0].get_patch_file(), "patch/player.patch");
    let info = m.get_pck_info().as_ref().unwrap();
    assert_eq!(info.get_directory(), "pck");
    assert_eq!(info.get_resource_prefix(), "res://Mods/Ship/");
    assert_eq!(m.path, "mods/ship");
}

#[test]
fn dependencies_listed() {
    let m = manifest("a", Some(&["b", "c"]));
    assert_eq!(m.get_dependencies(), vec!["b".to_string(), "c".to_string()]);
}

#[test]
fn one_round_drops_mods_with_missing_dependency() {
    let ms = vec![manifest("a", None), manifest("b", Some(&["a"])), manifest("c", Some(&["x"])), manifest("d", Some(&["c"]))];
    let r = check_mods(ms);
    assert_eq!(names(&r), vec!["a", "b", "d"]);
}

#[test]
fn resolution_drops_chains() {
    let ms = vec![manifest("a", None), manifest("b", Some(&["a"])), manifest("c", Some(&["x"])), manifest("d", Some(&["c"])), manifest("e", Some(&["d", "a"]))];
    let r = resolve_mods(ms);
    assert_eq!(names(&r), vec!["a", "b"]);
}

#[test]
fn resolution_keeps_cycles_and_empty_lists() {
    let ms = vec![manifest("p", Some(&["q"])), manifest("q", Some(&["p"])), manifest("r", Some(&[]))];
    assert_eq!(names(&resolve_mods(ms)), vec!["p", "q", "r"]);
    assert!(resolve_mods(Vec::new()).is_empty());
}

#[test]
fn missing_dependencies_in_order() {
    let m = manifest("a", Some(&["x", "b", "y"]));
    let known = vec!["a".to_string(), "b".to_string()];
    assert_eq!(missing_dependencies(&m, &known), vec!["x".to_string(), "y".to_string()]);
    assert!(missing_dependencies(&manifest("z", None), &known).is_empty());
}

#[test]
fn clone_and_default() {
    let m = manifest("a", Some(&["b"]));
    let c = m.clone();
    assert_eq!(c.get_name(), "a");
    assert_eq!(c.get_dependencies(), vec!["b".to_string()]);
    assert_eq!(c.path, "mods/a");
    let d = Manifest::default();
    assert_eq!(d.get_name(), "");
    assert!(d.get_pck_info().is_none());
    assert!(d.get_patches().is_empty());
    let i = PckInfo::default();
    assert_eq!(i.get_directory(), "");
    let p = Patch::new("r".to_string(), "f".to_string()).clone();
    assert_eq!(p.get_patch_file(), "f");
}
