use webfishing_installer::resources::{resource_path_for, PatchTarget};

#[test]
fn script_target() {
    let t = PatchTarget::for_resource("res://Scenes/Entities/Player/player.gdc");
    assert_eq!(t.name, "player.gdc");
    assert!(t.is_script);
    assert_eq!(t.exported, "build/webfishing-export/player.gdc");
    assert_eq!(t.source, "build/webfishing-decomp/player.gd");
    assert_eq!(t.recompiled, "build/webfishing-recomp/player.gdc");
}

#[test]
fn other_resource_target() {
    let t = PatchTarget::for_resource("res://Scenes/Menus/main.tscn");
    assert_eq!(t.name, "main.tscn");
    assert!(!t.is_script);
    assert_eq!(t.exported, "build/webfishing-decomp/main.tscn");
    assert_eq!(t.source, "build/webfishing-decomp/main.tscn");
}

fn comps(v: &[&str]) -> Vec<String> {
    v.iter().map(|s| s.to_string()).collect()
}

#[test]
fn added_resource_paths() {
    let c = comps(&["mods", "Ship", "pck", "Models", "ship.tscn"]);
    assert_eq!(resource_path_for("res://Mods/Ship/", "pck", &c), "res://Mods/Ship/Models/ship.tscn");
    assert_eq!(resource_path_for("res://Mods/Ship", "pck", &c), "res://Mods/Ship/Models/ship.tscn");
    let top = comps(&["mods", "Ship", "pck", "icon.png"]);
    assert_eq!(resource_path_for("res://Mods/Ship/", "pck", &top), "res://Mods/Ship/icon.png");
    // Without the directory among the components nothing follows the prefix.
    assert_eq!(resource_path_for("res://Mods/Ship", "other", &c), "res://Mods/Ship/");
}
