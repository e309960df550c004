use webfishing_installer::text::{ends_with, last_split_piece, replace};

#[test]
fn replace_all_matches_left_to_right() {
    assert_eq!(replace("a//b//c", "//", "/"), "a/b/c");
    assert_eq!(replace("aaa", "aa", "b"), "ba");
    assert_eq!(replace("no match", "xyz", "q"), "no match");
    assert_eq!(replace("", "x", "y"), "");
    assert_eq!(replace("a\0b\0", "\0", ""), "ab");
    assert_eq!(replace("res:/x", "res:/", "res://"), "res://x");
}

#[test]
fn replace_agrees_with_str_replace() {
    let cases = [
        ("steam_id_remote_remote", "steam_id_remote", "remote_steam_id"),
        ("xxxx", "xx", "x"),
        ("abcabcab", "abc", ""),
        ("héllo wörld", "ö", "o"),
    ];
    for (s, from, to) in cases {
        assert_eq!(replace(s, from, to), s.replace(from, to));
    }
}

#[test]
fn last_piece_of_split() {
    assert_eq!(last_split_piece("res://Scenes/a.gdc", "res://"), "Scenes/a.gdc");
    assert_eq!(last_split_piece("Scenes/a.gdc", "/"), "a.gdc");
    assert_eq!(last_split_piece("plain", "/"), "plain");
    assert_eq!(last_split_piece("ends/", "/"), "");
    assert_eq!(last_split_piece("aaa", "aa"), "a");
    for (s, p) in [("a/b/c", "/"), ("xyxyx", "xy"), ("", "/"), ("aaaa", "aa")] {
        assert_eq!(last_split_piece(s, p), s.split(p).last().unwrap());
    }
}

#[test]
fn suffix_check() {
    assert!(ends_with("player.gdc", ".gdc"));
    assert!(!ends_with("player.gd", ".gdc"));
    assert!(ends_with("x", ""));
    assert!(!ends_with("dc", ".gdc"));
}

