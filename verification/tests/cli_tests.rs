use pf8::builder::PathKind;
use pf8::error::Error;
use pf8::util::{
    determine_extract_output, determine_pack_output, get_final_output_path, get_pfs_basename,
    get_pfs_basepath, get_pfs_version_from_data, get_str_extension, is_file_pf8_from_filename,
    is_pfs_xxx, path_to_pf8_filename_string, pf8_filename_str_to_path, process_cli_inputs,
    search_str_in_vec, try_get_next_nonexist_pfs, InputType,
};

fn detail(e: Error) -> String {
    match e {
        Error::InvalidFormat(m) => m,
        other => panic!("expected InvalidFormat, got {:?}", other),
    }
}

/// Paths as a test directory would hold them: two archives, a regular file and a
/// directory, all below `test_data`.
fn test_env() -> (String, String, String, String) {
    (
        "/tmp/t/test_data/game.pfs".to_string(),
        "/tmp/t/test_data/game.pfs.000".to_string(),
        "/tmp/t/test_data/readme.txt".to_string(),
        "/tmp/t/test_data/assets".to_string(),
    )
}

#[test]
fn test_basic_extract_output() {
    let output = determine_extract_output("game.pfs", None, false);
    assert_eq!(output, "game");
}

#[test]
fn util_test_is_file_pf8_from_filename() {
    assert!(is_file_pf8_from_filename("game.pfs"));
    assert!(is_file_pf8_from_filename("test.pfs.000"));
    assert!(is_file_pf8_from_filename("/path/to/file.pfs"));
    assert!(!is_file_pf8_from_filename("readme.txt"));
    assert!(!is_file_pf8_from_filename("game.zip"));
}

#[test]
fn cli_tests_test_is_file_pf8_from_filename() {
    assert!(is_file_pf8_from_filename("game.pfs"));
    assert!(is_file_pf8_from_filename("test.pfs.000"));
    assert!(is_file_pf8_from_filename("/path/to/file.pfs"));
    assert!(!is_file_pf8_from_filename("readme.txt"));
    assert!(!is_file_pf8_from_filename("game.zip"));
}

#[test]
fn test_is_file_pf8_unicode() {
    assert!(is_file_pf8_from_filename("游戏.pfs"));
    assert!(is_file_pf8_from_filename("アーカイブ.pfs.001"));
}

#[test]
fn archive_name_in_directory_part_does_not_count() {
    assert!(!is_file_pf8_from_filename("/data.pfs/readme.txt"));
    assert!(!is_file_pf8_from_filename(""));
}

#[test]
fn test_is_pfs_xxx() {
    assert!(is_pfs_xxx("game.pfs.000"));
    assert!(is_pfs_xxx("NUKITASHI.pfs.001"));
    assert!(is_pfs_xxx("test.pfs.999"));
    assert!(!is_pfs_xxx("game.pfs"));
    assert!(!is_pfs_xxx("readme.txt"));
    assert!(!is_pfs_xxx("game.pfs."));
}

#[test]
fn util_test_get_pfs_basename() {
    assert_eq!(get_pfs_basename("game.pfs").unwrap(), "game");
    assert_eq!(get_pfs_basename("test.pfs.000").unwrap(), "test");
    assert_eq!(get_pfs_basename("/path/to/file.pfs").unwrap(), "file");
    assert_eq!(get_pfs_basename("normal.txt").unwrap(), "normal.txt");
}

#[test]
fn get_pfs_basename_without_file_name_fails() {
    assert!(matches!(get_pfs_basename(""), Err(Error::InvalidFormat(_))));
    assert!(matches!(get_pfs_basename("/"), Err(Error::InvalidFormat(_))));
    assert!(matches!(get_pfs_basename("dir/.."), Err(Error::InvalidFormat(_))));
}

#[test]
fn util_test_get_pfs_basepath() {
    let result = get_pfs_basepath("/test/dir/game.pfs").unwrap();
    assert_eq!(result, "/test/dir/game");

    let result2 = get_pfs_basepath("/test/dir/game.pfs.000").unwrap();
    assert_eq!(result2, "/test/dir/game");
}

#[test]
fn test_get_pfs_basepath_simple() {
    assert_eq!(get_pfs_basepath("/test/dir/game.pfs").unwrap(), "/test/dir/game");
}

#[test]
fn test_get_pfs_basepath_numbered() {
    assert_eq!(get_pfs_basepath("/test/dir/game.pfs.000").unwrap(), "/test/dir/game");
}

#[test]
fn test_get_pfs_basepath_multiple_dots() {
    assert_eq!(get_pfs_basepath("/test/game.v1.0.pfs").unwrap(), "/test/game.v1.0");
}

#[test]
fn test_get_pfs_basepath_current_dir() {
    assert_eq!(get_pfs_basepath("game.pfs").unwrap(), "game");
}

#[test]
fn get_pfs_basepath_needs_archive_name() {
    assert!(matches!(get_pfs_basepath("/dir/readme.txt"), Err(Error::InvalidFormat(_))));
    assert!(matches!(get_pfs_basepath(""), Err(Error::InvalidFormat(_))));
}

#[test]
fn util_test_get_final_output_path_overwrite() {
    let suggested = "/test/output.pfs";
    let result = get_final_output_path(suggested, true, &[]).unwrap();
    assert_eq!(result, suggested);
}

#[test]
fn util_test_get_final_output_path_no_overwrite() {
    let suggested = "/tmp/x/test.pfs".to_string();

    let result = get_final_output_path(&suggested, false, &[]).unwrap();
    assert_eq!(result, suggested);

    let result2 = get_final_output_path(&suggested, false, &[suggested.clone()]).unwrap();
    assert_ne!(result2, suggested);
    assert!(result2.contains("test.pfs.000"));
}

#[test]
fn test_try_get_next_nonexist_pfs_no_conflict() {
    let result = try_get_next_nonexist_pfs("/tmp/d", "test", &[]).unwrap();
    assert_eq!(result, "/tmp/d/test.pfs");
}

#[test]
fn test_try_get_next_nonexist_pfs_with_conflict() {
    let existing = vec!["/tmp/d/test.pfs".to_string()];
    let result = try_get_next_nonexist_pfs("/tmp/d", "test", &existing).unwrap();
    assert_eq!(result, "/tmp/d/test.pfs.000");
}

#[test]
fn test_try_get_next_nonexist_pfs_sequential() {
    let existing = vec![
        "/tmp/d/test.pfs".to_string(),
        "/tmp/d/test.pfs.000".to_string(),
        "/tmp/d/test.pfs.001".to_string(),
    ];
    let result = try_get_next_nonexist_pfs("/tmp/d", "test", &existing).unwrap();
    assert_eq!(result, "/tmp/d/test.pfs.002");
}

#[test]
fn numbered_names_have_three_digits_at_least() {
    let mut existing = vec!["d/a.pfs".to_string()];
    for i in 0..12 {
        existing.push(format!("d/a.pfs.{:03}", i));
    }
    assert_eq!(try_get_next_nonexist_pfs("d", "a", &existing).unwrap(), "d/a.pfs.012");
    for i in 12..1001 {
        existing.push(format!("d/a.pfs.{:03}", i));
    }
    assert_eq!(try_get_next_nonexist_pfs("d", "a", &existing).unwrap(), "d/a.pfs.1001");
}

#[test]
fn util_test_process_cli_inputs_pfs_only() {
    let (pfs_file1, pfs_file2, _, _) = test_env();
    let result = process_cli_inputs(&[
        (pfs_file1.clone(), PathKind::File),
        (pfs_file2.clone(), PathKind::File),
    ])
    .unwrap();

    match result.input_type {
        InputType::PfsFiles(files) => {
            assert_eq!(files.len(), 2);
            assert_eq!(files[0], pfs_file1);
            assert_eq!(files[1], pfs_file2);
        }
        _ => panic!("Expected PfsFiles variant"),
    }

    assert!(result.suggested_output.is_some());
    assert_eq!(result.suggested_output.unwrap(), "/tmp/t/test_data/game");
}

#[test]
fn util_test_process_cli_inputs_pack_files() {
    let (_, _, normal_file, sub_dir) = test_env();
    let result = process_cli_inputs(&[
        (normal_file.clone(), PathKind::File),
        (sub_dir.clone(), PathKind::Directory),
    ])
    .unwrap();

    match result.input_type {
        InputType::PackFiles { dirs, files } => {
            assert_eq!(dirs.len(), 1);
            assert_eq!(files.len(), 1);
            assert_eq!(dirs[0], sub_dir);
            assert_eq!(files[0], normal_file);
        }
        _ => panic!("Expected PackFiles variant"),
    }

    assert!(result.suggested_output.is_some());
    let suggested = result.suggested_output.unwrap();
    assert_eq!(suggested, "/tmp/t/test_data/root.pfs");
}

#[test]
fn util_test_process_cli_inputs_mixed_error() {
    let (pfs_file, _, normal_file, _) = test_env();
    let result = process_cli_inputs(&[(pfs_file, PathKind::File), (normal_file, PathKind::File)]);
    assert!(result.is_err());
    assert!(detail(result.unwrap_err()).contains("Cannot mix PFS files"));
}

#[test]
fn util_test_process_cli_inputs_empty_error() {
    let result = process_cli_inputs(&[]);
    assert!(result.is_err());
    assert!(detail(result.unwrap_err()).contains("No input provided"));
}

#[test]
fn util_test_process_cli_inputs_nonexistent_path() {
    let result = process_cli_inputs(&[("/nonexistent/path".to_string(), PathKind::Missing)]);
    assert!(result.is_err());
    assert!(detail(result.unwrap_err()).contains("does not exist"));
}

#[test]
fn process_cli_inputs_classifies_by_kind_then_name() {
    let result = process_cli_inputs(&[("/x/dir.pfs".to_string(), PathKind::Directory)]).unwrap();
    match result.input_type {
        InputType::PackFiles { dirs, files } => {
            assert_eq!(dirs, vec!["/x/dir.pfs".to_string()]);
            assert!(files.is_empty());
        }
        _ => panic!("a directory is packed whatever its name"),
    }
    let result = process_cli_inputs(&[("/x/pipe.pfs".to_string(), PathKind::Other)]).unwrap();
    assert!(matches!(result.input_type, InputType::PfsFiles(_)));
    let result = process_cli_inputs(&[("/x/pipe".to_string(), PathKind::Other)]);
    assert!(detail(result.unwrap_err()).contains("Invalid input type"));
}

#[test]
fn test_extract_default_strips_pfs_extension() {
    assert_eq!(determine_extract_output("/path/to/game.pfs", None, false), "/path/to/game");
}

#[test]
fn test_extract_default_strips_numbered_extension() {
    assert_eq!(determine_extract_output("/path/to/game.pfs.000", None, false), "/path/to/game");
}

#[test]
fn test_extract_default_multiple_numbered() {
    assert_eq!(determine_extract_output("/path/to/game.pfs.001", None, false), "/path/to/game");
}

#[test]
fn test_extract_to_specified_output_not_separate() {
    assert_eq!(determine_extract_output("/path/to/game.pfs", Some("/output"), false), "/output");
}

#[test]
fn test_extract_to_specified_output_with_separate() {
    assert_eq!(
        determine_extract_output("/path/to/game.pfs", Some("/output"), true),
        "/output/game"
    );
}

#[test]
fn test_extract_separate_mode_with_numbered() {
    let output = determine_extract_output("/path/to/archive.pfs.005", Some("/dest"), true);
    assert!(output.contains("archive"));
    assert_eq!(output, "/dest/archive.pfs");
}

#[test]
fn test_extract_relative_path() {
    assert_eq!(determine_extract_output("game.pfs", None, false), "game");
}

#[test]
fn test_extract_current_dir() {
    assert_eq!(determine_extract_output("./test.pfs", None, false), "./test");
}

#[test]
fn test_extract_complex_path() {
    assert_eq!(
        determine_extract_output("/var/data/archives/game_v2.pfs", None, false),
        "/var/data/archives/game_v2"
    );
}

#[test]
fn test_extract_with_dots_in_name() {
    assert_eq!(determine_extract_output("/path/game.v1.0.pfs", None, false), "/path/game.v1.0");
}

#[test]
fn test_extract_empty_filename_fallback() {
    assert_eq!(determine_extract_output("/path/to/archive", None, false), "/path/to/archive");
}

#[test]
fn test_extract_only_extension() {
    let output = determine_extract_output(".pfs", None, false);
    assert_eq!(output, "");
}

#[test]
fn test_extract_unicode_filename() {
    assert_eq!(determine_extract_output("/path/游戏.pfs", None, false), "/path/游戏");
}

#[test]
fn test_extract_special_chars_in_path() {
    assert_eq!(
        determine_extract_output("/path/my game (v2).pfs", None, false),
        "/path/my game (v2)"
    );
}

#[test]
fn test_extract_spaces_in_path() {
    assert_eq!(
        determine_extract_output("/my path/to game/archive.pfs", None, false),
        "/my path/to game/archive"
    );
}

#[test]
fn test_basic_pack_output() {
    let output = determine_pack_output(None, "/tmp/work", true, &[]).unwrap();
    assert_eq!(output, "/tmp/work/root.pfs");
}

#[test]
fn test_create_default_generates_root_pfs() {
    let output = determine_pack_output(None, "/tmp/work", true, &[]).unwrap();
    assert!(output.ends_with("/root.pfs"));
}

#[test]
fn test_create_with_specific_file_output() {
    let output =
        determine_pack_output(Some(("/output/custom.pfs", PathKind::Missing)), "/cwd", true, &[])
            .unwrap();
    assert_eq!(output, "/output/custom.pfs");
}

#[test]
fn test_create_output_to_directory_generates_root() {
    let output =
        determine_pack_output(Some(("/tmp/out", PathKind::Directory)), "/cwd", true, &[]).unwrap();
    assert_eq!(output, "/tmp/out/root.pfs");
}

#[test]
fn test_create_with_multiple_inputs() {
    let output = determine_pack_output(None, "/tmp/work", true, &[]).unwrap();
    assert_eq!(output, "/tmp/work/root.pfs");
}

#[test]
fn test_create_overwrite_flag_behavior() {
    let existing = vec!["/tmp/work/root.pfs".to_string()];
    let output1 = determine_pack_output(None, "/tmp/work", true, &existing).unwrap();
    assert_eq!(output1, "/tmp/work/root.pfs");
}

#[test]
fn test_create_no_overwrite_with_conflict() {
    let existing = vec!["/tmp/work/root.pfs".to_string()];
    let output = determine_pack_output(None, "/tmp/work", false, &existing).unwrap();
    assert_eq!(output, "/tmp/work/root.pfs.000");
}

#[test]
fn test_create_sequential_numbering() {
    let existing = vec![
        "/tmp/work/root.pfs".to_string(),
        "/tmp/work/root.pfs.000".to_string(),
        "/tmp/work/root.pfs.001".to_string(),
    ];
    let output = determine_pack_output(None, "/tmp/work", false, &existing).unwrap();
    assert_eq!(output, "/tmp/work/root.pfs.002");
}

#[test]
fn test_create_to_directory_with_conflict() {
    let existing = vec!["/tmp/out/root.pfs".to_string()];
    let output =
        determine_pack_output(Some(("/tmp/out", PathKind::Directory)), "/cwd", false, &existing)
            .unwrap();
    assert_eq!(output, "/tmp/out/root.pfs.000");
}

#[test]
fn test_create_relative_output_path() {
    let output =
        determine_pack_output(Some(("output/archive.pfs", PathKind::File)), "/cwd", true, &[])
            .unwrap();
    assert_eq!(output, "output/archive.pfs");
}

#[test]
fn test_create_empty_inputs() {
    let output = determine_pack_output(None, "/tmp/work", true, &[]).unwrap();
    assert_eq!(output, "/tmp/work/root.pfs");
}

#[test]
fn version_from_magic_bytes() {
    assert_eq!(get_pfs_version_from_data(b"pf8....").unwrap(), 8);
    assert_eq!(get_pfs_version_from_data(b"pf6").unwrap(), 6);
    assert!(matches!(get_pfs_version_from_data(b"pf7"), Err(Error::InvalidFormat(_))));
    assert!(matches!(get_pfs_version_from_data(b"\xff\xfe\xfd"), Err(Error::InvalidFormat(_))));
}

#[test]
fn filename_string_conversions() {
    assert_eq!(pf8_filename_str_to_path("a\\b\\c.png"), "a/b/c.png");
    assert_eq!(path_to_pf8_filename_string("a/b/c.png"), "a\\b\\c.png");
}

#[test]
fn search_str_in_vec_is_exact() {
    assert!(search_str_in_vec(&["mp4", "flv"], "flv"));
    assert!(!search_str_in_vec(&["mp4", "flv"], "fl"));
    assert!(!search_str_in_vec(&["mp4", "flv"], "a.flv"));
    assert!(!search_str_in_vec(&[], "flv"));
}

#[test]
fn extension_is_behind_last_dot() {
    assert_eq!(get_str_extension("dir/movie.mp4").as_deref(), Some("mp4"));
    assert_eq!(get_str_extension("a.tar.gz").as_deref(), Some("gz"));
    assert_eq!(get_str_extension("noext"), None);
    assert_eq!(get_str_extension(".hidden"), None);
    assert_eq!(get_str_extension("trailing.").as_deref(), Some(""));
    assert_eq!(get_str_extension("dir.d/file"), None);
}
