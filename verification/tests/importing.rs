use std::io::Write;
use xcheck_core::{FileError, FileLoader, FileNamePattern, FolderFile, IgnoreList, ImportPath,
    PathSource};

fn ignore(exts: &[&str], dirs: &[&str]) -> IgnoreList {
    IgnoreList {
        accepted_extensions: exts.iter().map(|s| s.to_string()).collect(),
        ignored_directories: dirs.iter().map(|s| s.to_string()).collect(),
    }
}

fn folder_file(path: &str, content: &[u8]) -> FolderFile {
    FolderFile { relative_path: path.to_string(), content: content.to_vec() }
}

fn zip_bytes(entries: &[(&str, &[u8])]) -> Vec<u8> {
    let mut writer = zip::ZipWriter::new(std::io::Cursor::new(Vec::new()));
    let options = zip::write::SimpleFileOptions::default()
        .compression_method(zip::CompressionMethod::Stored);
    for (name, data) in entries {
        writer.start_file(*name, options).unwrap();
        writer.write_all(data).unwrap();
    }
    writer.finish().unwrap().into_inner()
}

#[test]
fn directory_with_one_python_file_student_only() {
    // Directory `Ivanov` holding `main.py`, student-only naming.
    let paths = vec![ImportPath {
        path: "Ivanov".to_string(),
        source: PathSource::Folder {
            name: Some("Ivanov".to_string()),
            files: vec![folder_file("main.py", b"print(1)\n")],
        },
    }];
    let list = ignore(&["py"], &[]);
    let loader = FileLoader::import_submissions(paths, &list, &FileNamePattern::StudentOnly);
    assert!(loader.bad_files.is_empty());
    assert_eq!(loader.submissions.len(), 1);
    let sub = &loader.submissions[0];
    assert_eq!(sub.metadata.student_name, "Ivanov");
    assert!(sub.metadata.assignment_title.is_none());
    assert_eq!(sub.files.len(), 1);
    assert_eq!(sub.files[0].relative_path, "main.py");
    assert_eq!(sub.files[0].extension, "py");
    assert_eq!(sub.files[0].content, "print(1)\n");
}

#[test]
fn archive_with_nested_source_file() {
    // Archive `Petrov_Lab1.zip` holding `src/main.cpp`.
    let bytes = zip_bytes(&[("src/main.cpp", b"int main() {}\n")]);
    let paths = vec![ImportPath {
        path: "Petrov_Lab1.zip".to_string(),
        source: PathSource::Archive { stem: Some("Petrov_Lab1".to_string()), bytes },
    }];
    let list = ignore(&["cpp"], &[]);
    let pattern = FileNamePattern::StudentTask { separator: '_' };
    let loader = FileLoader::import_submissions(paths, &list, &pattern);
    assert!(loader.bad_files.is_empty());
    assert_eq!(loader.submissions.len(), 1);
    let sub = &loader.submissions[0];
    assert_eq!(sub.metadata.student_name, "Petrov");
    assert_eq!(sub.metadata.assignment_title.as_deref(), Some("Lab1"));
    assert_eq!(sub.files.len(), 1);
    assert_eq!(sub.files[0].relative_path, "src/main.cpp");
    assert_eq!(sub.files[0].extension, "cpp");
    assert_eq!(sub.files[0].content, "int main() {}\n");
}

#[test]
fn only_rejected_entries_mean_empty_submission() {
    // Only an ignored-directory entry and a non-accepted extension.
    let paths = vec![ImportPath {
        path: "Sidorov".to_string(),
        source: PathSource::Folder {
            name: Some("Sidorov".to_string()),
            files: vec![
                folder_file(".git/config", b"[core]\n"),
                folder_file("notes.txt", b"hello\n"),
            ],
        },
    }];
    let list = ignore(&["py"], &[".git"]);
    let loader = FileLoader::import_submissions(paths, &list, &FileNamePattern::StudentOnly);
    assert!(loader.submissions.is_empty());
    assert_eq!(loader.bad_files.len(), 1);
    assert!(matches!(loader.bad_files[0].reason, FileError::EmptySubmission));
}

#[test]
fn corrupt_archive_entry_is_skipped_not_fatal() {
    let marker = b"CORRUPTMARKER0123456789";
    let mut bytes = zip_bytes(&[
        ("good.py", b"print('ok')\n"),
        ("bad.py", marker),
    ]);
    // Damage the stored bytes of the second entry so its checksum fails.
    let pos = bytes
        .windows(marker.len())
        .position(|w| w == marker)
        .expect("stored entry data present");
    bytes[pos] ^= 0xFF;
    let paths = vec![ImportPath {
        path: "Petrov.zip".to_string(),
        source: PathSource::Archive { stem: Some("Petrov".to_string()), bytes },
    }];
    let list = ignore(&["py"], &[]);
    let loader = FileLoader::import_submissions(paths, &list, &FileNamePattern::StudentOnly);
    assert!(loader.bad_files.is_empty());
    assert_eq!(loader.submissions.len(), 1);
    let sub = &loader.submissions[0];
    assert_eq!(sub.files.len(), 1);
    assert_eq!(sub.files[0].relative_path, "good.py");
    assert_eq!(sub.files[0].content, "print('ok')\n");
}

#[test]
fn invalid_utf8_is_replaced_on_import() {
    let paths = vec![ImportPath {
        path: "Ivanov".to_string(),
        source: PathSource::Folder {
            name: Some("Ivanov".to_string()),
            files: vec![folder_file("main.py", &[b'o', b'k', 0xFF, b'!'])],
        },
    }];
    let list = ignore(&["py"], &[]);
    let loader = FileLoader::import_submissions(paths, &list, &FileNamePattern::StudentOnly);
    assert_eq!(loader.submissions.len(), 1);
    assert_eq!(loader.submissions[0].files[0].content, "ok\u{FFFD}!");
}

#[test]
fn backslashes_are_normalized() {
    let bytes = zip_bytes(&[("src\\main.cpp", b"x\n")]);
    let paths = vec![ImportPath {
        path: "Petrov.zip".to_string(),
        source: PathSource::Archive { stem: Some("Petrov".to_string()), bytes },
    }];
    let list = ignore(&["cpp"], &[]);
    let loader = FileLoader::import_submissions(paths, &list, &FileNamePattern::StudentOnly);
    assert_eq!(loader.submissions.len(), 1);
    assert_eq!(loader.submissions[0].files[0].relative_path, "src/main.cpp");
}

#[test]
fn batch_failures_do_not_abort_the_rest() {
    let good = ImportPath {
        path: "Ivanov".to_string(),
        source: PathSource::Folder {
            name: Some("Ivanov".to_string()),
            files: vec![folder_file("main.py", b"print(1)\n")],
        },
    };
    let missing = ImportPath { path: "nowhere".to_string(), source: PathSource::Missing };
    let odd = ImportPath { path: "file.xyz".to_string(), source: PathSource::Unsupported };
    let nameless = ImportPath {
        path: "..".to_string(),
        source: PathSource::Folder { name: None, files: vec![] },
    };
    let unparsed = ImportPath {
        path: "NoSeparator".to_string(),
        source: PathSource::Folder {
            name: Some("NoSeparator".to_string()),
            files: vec![folder_file("main.py", b"1\n")],
        },
    };
    let broken = ImportPath {
        path: "Bad_Lab.zip".to_string(),
        source: PathSource::Archive {
            stem: Some("Bad_Lab".to_string()),
            bytes: vec![1, 2, 3, 4],
        },
    };
    let list = ignore(&["py"], &[]);
    let pattern = FileNamePattern::StudentTask { separator: '_' };
    let loader = FileLoader::import_submissions(
        vec![good, missing, odd, nameless, unparsed, broken],
        &list,
        &pattern,
    );
    assert_eq!(loader.submissions.len(), 0);
    assert_eq!(loader.bad_files.len(), 6);
    assert!(matches!(loader.bad_files[1].reason, FileError::PathDoesNotExist));
    assert!(matches!(loader.bad_files[2].reason, FileError::UnknownFileType));
    assert!(matches!(loader.bad_files[3].reason, FileError::FailedToGetStem));
    assert!(matches!(loader.bad_files[4].reason, FileError::InvalidPattern));
    assert!(matches!(loader.bad_files[5].reason, FileError::ArchiveError(_)));
    // The first path fails only because the importer ran with a pattern
    // its directory name does not match.
    assert!(matches!(loader.bad_files[0].reason, FileError::InvalidPattern));
}

#[test]
fn archive_entries_filtered_before_extraction() {
    let bytes = zip_bytes(&[
        ("node_modules/x.py", b"no\n"),
        ("main.py", b"yes\n"),
        ("readme.md", b"no\n"),
    ]);
    let paths = vec![ImportPath {
        path: "Ivanov.zip".to_string(),
        source: PathSource::Archive { stem: Some("Ivanov".to_string()), bytes },
    }];
    let list = ignore(&["py"], &["node_modules"]);
    let loader = FileLoader::import_submissions(paths, &list, &FileNamePattern::StudentOnly);
    assert_eq!(loader.submissions.len(), 1);
    assert_eq!(loader.submissions[0].files.len(), 1);
    assert_eq!(loader.submissions[0].files[0].relative_path, "main.py");
}
