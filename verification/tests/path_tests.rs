use dropbox_cp::path::{join_dropbox_path, normalize_dropbox_path};
use dropbox_cp::text::trim;

#[test]
fn normalize_prepends_slash() {
    assert_eq!(normalize_dropbox_path("backup/stuff"), "/backup/stuff");
    assert_eq!(normalize_dropbox_path("/a"), "/a");
    assert_eq!(normalize_dropbox_path("  x  "), "/x");
}

#[test]
fn join_paths() {
    assert_eq!(
        join_dropbox_path("/backup/stuff", "a/b.txt"),
        "/backup/stuff/a/b.txt"
    );
}

#[test]
fn normalize_empty_and_blank_is_root() {
    assert_eq!(normalize_dropbox_path(""), "/");
    assert_eq!(normalize_dropbox_path(" \t\n "), "/");
}

#[test]
fn normalize_trims_unicode_white_space() {
    assert_eq!(normalize_dropbox_path("\u{3000}docs\u{2003}"), "/docs");
    assert_eq!(normalize_dropbox_path("\u{a0}/x/y \r\n"), "/x/y");
}

#[test]
fn normalize_keeps_inner_spaces_and_slashes() {
    assert_eq!(normalize_dropbox_path(" my docs/"), "/my docs/");
    assert_eq!(normalize_dropbox_path("//a"), "//a");
}

#[test]
fn normalize_is_idempotent_on_examples() {
    for d in ["backup/stuff", "  x  ", "", "/a/", "\u{2028}q"] {
        let once = normalize_dropbox_path(d);
        assert_eq!(normalize_dropbox_path(&once), once);
    }
}

#[test]
fn join_strips_trailing_slashes_of_base() {
    assert_eq!(join_dropbox_path("/backup///", "f.txt"), "/backup/f.txt");
    assert_eq!(join_dropbox_path("/", "f.txt"), "/f.txt");
}

#[test]
fn join_with_empty_or_dot_is_the_base() {
    assert_eq!(join_dropbox_path("/backup/", ""), "/backup");
    assert_eq!(join_dropbox_path("/backup/", "."), "/backup");
    assert_eq!(join_dropbox_path("/", "."), "");
}

#[test]
fn join_turns_backslashes_into_slashes() {
    assert_eq!(join_dropbox_path("/b", "a\\c\\d.txt"), "/b/a/c/d.txt");
    assert_eq!(join_dropbox_path("/b", "\\"), "/b//");
}

#[test]
fn join_keeps_dot_prefixed_names() {
    assert_eq!(join_dropbox_path("/b", ".hidden"), "/b/.hidden");
    assert_eq!(join_dropbox_path("/b", "./x"), "/b/./x");
}

#[test]
fn trim_matches_std_trim() {
    for s in ["", "  ", " a b ", "\u{85}x\u{1680}", "\u{200b}y", "\t\u{feff}z"] {
        assert_eq!(trim(s), s.trim());
    }
}
