use xcheck_core::{FileLoader, IgnoreList, SupportedArchives};

fn ignore(exts: &[&str], dirs: &[&str]) -> IgnoreList {
    IgnoreList {
        accepted_extensions: exts.iter().map(|s| s.to_string()).collect(),
        ignored_directories: dirs.iter().map(|s| s.to_string()).collect(),
    }
}

#[test]
fn accepted_extension_is_admitted() {
    let list = ignore(&["py", "cpp"], &[".git"]);
    assert!(FileLoader::is_path_allowed("main.py", &list));
    assert!(FileLoader::is_path_allowed("src/main.cpp", &list));
}

#[test]
fn extension_comparison_is_case_insensitive() {
    let list = ignore(&["py"], &[]);
    assert!(FileLoader::is_path_allowed("Main.PY", &list));
    assert!(FileLoader::is_path_allowed("Main.Py", &list));
}

#[test]
fn unlisted_extension_is_rejected() {
    let list = ignore(&["py"], &[]);
    assert!(!FileLoader::is_path_allowed("main.rs", &list));
}

#[test]
fn extensionless_file_is_always_rejected() {
    let list = ignore(&["py"], &[]);
    assert!(!FileLoader::is_path_allowed("Makefile", &list));
    assert!(!FileLoader::is_path_allowed("src/Makefile", &list));
}

#[test]
fn leading_dot_name_has_no_extension() {
    let list = ignore(&["gitignore", "py"], &[]);
    assert!(!FileLoader::is_path_allowed(".gitignore", &list));
}

#[test]
fn ignored_directory_rejects_any_component() {
    let list = ignore(&["py"], &[".git", "target"]);
    assert!(!FileLoader::is_path_allowed(".git/config.py", &list));
    assert!(!FileLoader::is_path_allowed("a/target/b/main.py", &list));
    assert!(FileLoader::is_path_allowed("a/b/main.py", &list));
}

#[test]
fn directory_blacklist_is_case_sensitive() {
    let list = ignore(&["py"], &["Target"]);
    assert!(FileLoader::is_path_allowed("target/main.py", &list));
    assert!(!FileLoader::is_path_allowed("Target/main.py", &list));
}

#[test]
fn supported_archive_extensions() {
    assert!(SupportedArchives::is_supported("zip"));
    assert!(SupportedArchives::is_supported("ZIP"));
    assert!(SupportedArchives::is_supported("rar"));
    assert!(SupportedArchives::is_supported("7z"));
    assert!(SupportedArchives::is_supported("Tar"));
    assert!(!SupportedArchives::is_supported("txt"));
    assert!(!SupportedArchives::is_supported(""));
}

#[test]
fn archive_kind_extensions() {
    assert_eq!(SupportedArchives::Zip.extension(), "zip");
    assert_eq!(SupportedArchives::Rar.extension(), "rar");
    assert_eq!(SupportedArchives::SevenZ.extension(), "7z");
    assert_eq!(SupportedArchives::Tar.extension(), "tar");
}

#[test]
fn list_lines_are_trimmed_and_blanks_dropped() {
    let parsed = xcheck_core::ignore::parse_list_lines("py\n  cpp  \n\n\trs\r\n   \n");
    assert_eq!(parsed, vec!["py".to_string(), "cpp".to_string(), "rs".to_string()]);
}

#[test]
fn empty_list_text_parses_to_nothing() {
    let parsed = xcheck_core::ignore::parse_list_lines("");
    assert!(parsed.is_empty());
}

#[test]
fn default_ignore_list_is_empty() {
    let list = IgnoreList::default();
    assert!(list.accepted_extensions.is_empty());
    assert!(list.ignored_directories.is_empty());
}

#[test]
fn empty_loaded_lists_fall_back() {
    let fallback = ignore(&["py"], &[".git"]);
    let resolved = IgnoreList::resolve(Vec::new(), Vec::new(), fallback);
    assert_eq!(resolved.accepted_extensions, vec!["py".to_string()]);
    assert_eq!(resolved.ignored_directories, vec![".git".to_string()]);
}

#[test]
fn loaded_lists_override_the_fallback() {
    let fallback = ignore(&["py"], &[".git"]);
    let resolved = IgnoreList::resolve(vec!["rs".to_string()], Vec::new(), fallback);
    assert_eq!(resolved.accepted_extensions, vec!["rs".to_string()]);
    assert!(resolved.ignored_directories.is_empty());
}
