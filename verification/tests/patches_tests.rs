use webfishing_installer::borderless::patch_options_menu_script;
use webfishing_installer::patches::{patch_steam_network_script, replace_slice};

#[test]
fn steam_network_key_renamed() {
    let s = "var d = {\"steam_id_remote\": id}\nd[\"steam_id_remote\"] = 1\n";
    assert_eq!(
        patch_steam_network_script(s),
        "var d = {\"remote_steam_id\": id}\nd[\"remote_steam_id\"] = 1\n"
    );
    assert_eq!(patch_steam_network_script("nothing"), "nothing");
}

#[test]
fn options_menu_assignment_removed() {
    let s = "func save():\n\tOS.window_borderless = PlayerData.player_options.fullscreen == 1\n\tpass\n";
    assert_eq!(patch_options_menu_script(s), "func save():\n\t\n\tpass\n");
}

#[test]
fn slice_between_markers_replaced() {
    let mut v = b"xxSTARTabcENDyy".to_vec();
    replace_slice(&mut v, b"START", b"END", b"NEW");
    assert_eq!(v, b"xxNEWENDyy".to_vec());
    let mut w = b"xxSTARTabc".to_vec();
    replace_slice(&mut w, b"START", b"END", b"NEW");
    assert_eq!(w, b"xxSTARTabc".to_vec());
    let mut u = b"ENDxxSTARTabcENDyy".to_vec();
    replace_slice(&mut u, b"START", b"END", b"");
    assert_eq!(u, b"ENDxxENDyy".to_vec());
}

#[test]
fn compiled_script_swapped_in_archive_bytes() {
    let header = [0x47u8, 0x44, 0x53, 0x43, 0x0D, 0x00, 0x00, 0x00, 0x5B, 0x01, 0x00, 0x00, 0xE0, 0x00, 0x00, 0x00];
    let mut pck = b"prefix".to_vec();
    pck.extend(header);
    pck.extend(b"old body");
    pck.extend(b"GDSCnext");
    replace_slice(&mut pck, &header, b"GDSC", b"GDSCnew script");
    let mut expected = b"prefix".to_vec();
    expected.extend(b"GDSCnew script");
    expected.extend(b"GDSCnext");
    assert_eq!(pck, expected);
}

#[test]
fn every_borderless_assignment_removed() {
    assert_eq!(patch_options_menu_script("OS.windowed_borderless = 1"), "");
    assert_eq!(patch_options_menu_script("\tOS.window_borderless=true\nx = 1\n"), "\t\nx = 1\n");
    assert_eq!(
        patch_options_menu_script("a\n  OS.window_borderless \t= false # note\nb\nOS.windowed_borderless = y\n"),
        "a\n  \nb\n\n"
    );
}

#[test]
fn borderless_comparisons_and_reads_kept() {
    let s = "if OS.window_borderless == true:\n\tvar b = OS.windowed_borderless\n";
    assert_eq!(patch_options_menu_script(s), s);
    assert_eq!(patch_options_menu_script(""), "");
}
