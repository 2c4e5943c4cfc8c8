use pf8::paths::{file_name, file_stem, join, parent, strip_prefix, without_extension};
use pf8::utils::{matches_any_pattern, pathbuf_to_pf8_path, pf8_path_to_pathbuf};

#[test]
fn test_pf8_path_conversion() {
    let pf8_path = "folder\\subfolder\\file.txt";
    let pathbuf = pf8_path_to_pathbuf(pf8_path);

    assert_eq!(pathbuf, "folder/subfolder/file.txt");

    let converted_back = pathbuf_to_pf8_path(&pathbuf);
    assert_eq!(converted_back, pf8_path);
}

#[test]
fn path_conversion_keeps_other_characters() {
    assert_eq!(pf8_path_to_pathbuf(""), "");
    assert_eq!(pf8_path_to_pathbuf("plain.txt"), "plain.txt");
    assert_eq!(pf8_path_to_pathbuf("音楽\\曲.ogg"), "音楽/曲.ogg");
    assert_eq!(pathbuf_to_pf8_path("a/b c/d-e_f.txt"), "a\\b c\\d-e_f.txt");
}

#[test]
fn dot_pattern_matches_by_suffix() {
    assert!(matches_any_pattern("dir\\readme.txt", &[".txt"]));
    assert!(!matches_any_pattern("dir\\readme.txt.bak", &[".txt"]));
    assert!(!matches_any_pattern("txt", &[".txt"]));
    assert!(matches_any_pattern(".txt", &[".txt"]));
}

#[test]
fn plain_pattern_matches_by_containment() {
    assert!(matches_any_pattern("movie.mp4", &["mp4", "flv"]));
    assert!(matches_any_pattern("mp4\\clip.bin", &["mp4"]));
    assert!(matches_any_pattern("a\\clip.flv.bak", &["mp4", "flv"]));
    assert!(matches_any_pattern("exact", &["exact"]));
    assert!(!matches_any_pattern("data.bin", &["mp4", "flv"]));
    assert!(!matches_any_pattern("mp", &["mp4"]));
}

#[test]
fn no_pattern_matches_nothing() {
    assert!(!matches_any_pattern("anything", &[]));
    assert!(matches_any_pattern("anything", &[""]));
}

#[test]
fn patterns_see_the_raw_name() {
    assert!(matches_any_pattern("dir\\file.bin", &["dir\\file"]));
    assert!(!matches_any_pattern("dir\\file.bin", &["dir/file"]));
}

#[test]
fn file_name_is_last_component() {
    assert_eq!(file_name("a/b/c.txt").as_deref(), Some("c.txt"));
    assert_eq!(file_name("c.txt").as_deref(), Some("c.txt"));
    assert_eq!(file_name("/c").as_deref(), Some("c"));
    assert_eq!(file_name(""), None);
    assert_eq!(file_name("/"), None);
    assert_eq!(file_name("a/"), None);
    assert_eq!(file_name("a/.."), None);
    assert_eq!(file_name("."), None);
}

#[test]
fn parent_drops_last_component() {
    assert_eq!(parent("/test/dir/game.pfs").as_deref(), Some("/test/dir"));
    assert_eq!(parent("game.pfs").as_deref(), Some(""));
    assert_eq!(parent("/game").as_deref(), Some("/"));
    assert_eq!(parent("/"), None);
    assert_eq!(parent(""), None);
}

#[test]
fn join_puts_one_separator() {
    assert_eq!(join("/output", "game"), "/output/game");
    assert_eq!(join("/output/", "game"), "/output/game");
    assert_eq!(join("", "game"), "game");
    assert_eq!(join("a", "/abs"), "/abs");
    assert_eq!(join(".", "test"), "./test");
    assert_eq!(join("a", ""), "a/");
}

#[test]
fn strip_prefix_needs_a_component_boundary() {
    assert_eq!(strip_prefix("/in/a/b.txt", "/in").as_deref(), Some("a/b.txt"));
    assert_eq!(strip_prefix("/in/a/b.txt", "/in/").as_deref(), Some("a/b.txt"));
    assert_eq!(strip_prefix("/in", "/in").as_deref(), Some(""));
    assert_eq!(strip_prefix("x/y", "").as_deref(), Some("x/y"));
    assert_eq!(strip_prefix("/input/a", "/in"), None);
    assert_eq!(strip_prefix("/other/a", "/in"), None);
    assert_eq!(strip_prefix("/i", "/in"), None);
}

#[test]
fn file_stem_drops_last_extension() {
    assert_eq!(file_stem("/p/game.pfs").as_deref(), Some("game"));
    assert_eq!(file_stem("archive.pfs.005").as_deref(), Some("archive.pfs"));
    assert_eq!(file_stem("noext").as_deref(), Some("noext"));
    assert_eq!(file_stem(".hidden").as_deref(), Some(".hidden"));
    assert_eq!(file_stem("dir/"), None);
}

#[test]
fn without_extension_keeps_directory() {
    assert_eq!(without_extension("/path/to/archive"), "/path/to/archive");
    assert_eq!(without_extension("/path/to/archive.bin"), "/path/to/archive");
    assert_eq!(without_extension("a.b/c.d.e"), "a.b/c.d");
    assert_eq!(without_extension("dir/"), "dir/");
}
