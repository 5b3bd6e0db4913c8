use std::io::{Read, Write};
use xcheck_core::{CodeFile, Database, DatabaseError, DatabaseMetadata, DatabaseSettings,
    FileNamePattern, LibError, Submission, SubmissionMetadata};

fn petrov_lab1() -> Submission {
    Submission {
        metadata: SubmissionMetadata {
            student_name: "Petrov".to_string(),
            assignment_title: Some("Lab1".to_string()),
        },
        files: vec![CodeFile {
            relative_path: "src/main.cpp".to_string(),
            content: "int main() {}\n".to_string(),
            extension: "cpp".to_string(),
        }],
    }
}

fn fresh_database(pattern: FileNamePattern) -> Database {
    Database::new(
        "course".to_string(),
        Some("collected work".to_string()),
        DatabaseSettings { file_name_pattern: pattern },
        "course.xai".to_string(),
    )
}

fn entry_names(bytes: &[u8]) -> Vec<String> {
    let archive = zip::ZipArchive::new(std::io::Cursor::new(bytes)).unwrap();
    (0..archive.len())
        .map(|i| archive.name_for_index(i).unwrap().to_string())
        .collect()
}

#[test]
fn new_database_is_dirty_and_empty() {
    let db = fresh_database(FileNamePattern::default());
    assert!(db.is_dirty);
    assert!(db.submissions.is_empty());
    assert_eq!(db.meta.name, "course");
    assert_eq!(db.meta.description.as_deref(), Some("collected work"));
    assert_eq!(db.meta.version, 1);
    assert_eq!(db.meta.id.len(), 36);
    for (i, c) in db.meta.id.chars().enumerate() {
        if i == 8 || i == 13 || i == 18 || i == 23 {
            assert_eq!(c, '-');
        } else {
            assert!(c.is_ascii_hexdigit() && !c.is_ascii_uppercase());
        }
    }
    assert_eq!(db.file_path, "course.xai");
}

#[test]
fn saved_container_holds_documents_and_path_encoded_entry() {
    let mut db = fresh_database(FileNamePattern::StudentTask { separator: '_' });
    db.attach_submission(petrov_lab1());
    let bytes = db.save_to_bytes().unwrap();
    let names = entry_names(&bytes);
    assert_eq!(
        names,
        vec![
            "meta.json".to_string(),
            "settings.json".to_string(),
            "submissions/Petrov/Lab1/src/main.cpp".to_string(),
        ]
    );
    db.mark_saved();
    assert!(!db.is_dirty);
}

#[test]
fn save_then_load_restores_the_submission() {
    let mut db = fresh_database(FileNamePattern::StudentTask { separator: '_' });
    db.attach_submission(petrov_lab1());
    let bytes = db.save_to_bytes().unwrap();
    let loaded = Database::load_from_bytes("copy.xai".to_string(), &bytes).unwrap();
    assert!(!loaded.is_dirty);
    assert_eq!(loaded.file_path, "copy.xai");
    assert_eq!(loaded.meta.id, db.meta.id);
    assert_eq!(loaded.meta.name, "course");
    assert_eq!(loaded.meta.description.as_deref(), Some("collected work"));
    assert_eq!(loaded.meta.version, 1);
    assert_eq!(
        loaded.settings.file_name_pattern,
        FileNamePattern::StudentTask { separator: '_' }
    );
    assert_eq!(loaded.submissions.len(), 1);
    let sub = &loaded.submissions[0];
    assert_eq!(sub.metadata.student_name, "Petrov");
    assert_eq!(sub.metadata.assignment_title.as_deref(), Some("Lab1"));
    assert_eq!(sub.files.len(), 1);
    assert_eq!(sub.files[0].relative_path, "src/main.cpp");
    assert_eq!(sub.files[0].content, "int main() {}\n");
    assert_eq!(sub.files[0].extension, "cpp");
}

#[test]
fn round_trip_groups_by_student_and_assignment() {
    let mut db = fresh_database(FileNamePattern::StudentTask { separator: '_' });
    let mut sub = petrov_lab1();
    sub.files.push(CodeFile {
        relative_path: "src/util.cpp".to_string(),
        content: "void util() {}\n".to_string(),
        extension: "cpp".to_string(),
    });
    db.attach_submission(sub);
    db.attach_submission(Submission {
        metadata: SubmissionMetadata {
            student_name: "Ivanova".to_string(),
            assignment_title: Some("Lab2".to_string()),
        },
        files: vec![CodeFile {
            relative_path: "main.py".to_string(),
            content: "print(2)\n".to_string(),
            extension: "py".to_string(),
        }],
    });
    let bytes = db.save_to_bytes().unwrap();
    let loaded = Database::load_from_bytes("x.xai".to_string(), &bytes).unwrap();
    assert_eq!(loaded.submissions.len(), 2);
    assert_eq!(loaded.submissions[0].metadata.student_name, "Petrov");
    assert_eq!(loaded.submissions[0].files.len(), 2);
    assert_eq!(loaded.submissions[1].metadata.student_name, "Ivanova");
    assert_eq!(loaded.submissions[1].files.len(), 1);
}

#[test]
fn student_only_layout_round_trips() {
    let mut db = fresh_database(FileNamePattern::StudentOnly);
    db.attach_submission(Submission {
        metadata: SubmissionMetadata {
            student_name: "Ivanov".to_string(),
            assignment_title: None,
        },
        files: vec![CodeFile {
            relative_path: "main.py".to_string(),
            content: "print(1)\n".to_string(),
            extension: "py".to_string(),
        }],
    });
    let bytes = db.save_to_bytes().unwrap();
    let names = entry_names(&bytes);
    assert!(names.contains(&"submissions/Ivanov/main.py".to_string()));
    let loaded = Database::load_from_bytes("y.xai".to_string(), &bytes).unwrap();
    assert_eq!(loaded.submissions.len(), 1);
    assert_eq!(loaded.submissions[0].metadata.student_name, "Ivanov");
    assert!(loaded.submissions[0].metadata.assignment_title.is_none());
}

#[test]
fn metadata_document_is_canonical_json() {
    let meta = DatabaseMetadata {
        id: "abc".to_string(),
        name: "My \"DB\"".to_string(),
        description: None,
        version: 1,
    };
    let text = xcheck_core::json::emit_metadata(&meta);
    assert_eq!(
        text,
        "{\n  \"id\": \"abc\",\n  \"name\": \"My \\\"DB\\\"\",\n  \"description\": null,\n  \"version\": 1\n}"
    );
    let back = xcheck_core::json::parse_metadata(&text).unwrap();
    assert_eq!(back.id, "abc");
    assert_eq!(back.name, "My \"DB\"");
    assert!(back.description.is_none());
    assert_eq!(back.version, 1);
}

#[test]
fn metadata_json_round_trips_awkward_values() {
    let meta = DatabaseMetadata {
        id: "x\\y".to_string(),
        name: "line\nbreak\tand \u{1} control".to_string(),
        description: Some("ünïcødé 🚀".to_string()),
        version: -32768,
    };
    let text = xcheck_core::json::emit_metadata(&meta);
    let back = xcheck_core::json::parse_metadata(&text).unwrap();
    assert_eq!(back.id, meta.id);
    assert_eq!(back.name, meta.name);
    assert_eq!(back.description, meta.description);
    assert_eq!(back.version, meta.version);
}

#[test]
fn settings_json_round_trips_every_pattern() {
    for pattern in [
        FileNamePattern::StudentTask { separator: '_' },
        FileNamePattern::TaskStudent { separator: '"' },
        FileNamePattern::StudentOnly,
    ] {
        let settings = DatabaseSettings { file_name_pattern: pattern };
        let text = xcheck_core::json::emit_settings(&settings);
        let back = xcheck_core::json::parse_settings(&text).unwrap();
        assert_eq!(back.file_name_pattern, pattern);
    }
}

#[test]
fn settings_document_shape_matches_the_schema() {
    let settings = DatabaseSettings { file_name_pattern: FileNamePattern::StudentTask {
        separator: '_',
    } };
    let text = xcheck_core::json::emit_settings(&settings);
    assert_eq!(
        text,
        "{\n  \"file_name_pattern\": {\n    \"StudentTask\": {\n      \"separator\": \"_\"\n    }\n  }\n}"
    );
    let only = DatabaseSettings { file_name_pattern: FileNamePattern::StudentOnly };
    assert_eq!(
        xcheck_core::json::emit_settings(&only),
        "{\n  \"file_name_pattern\": \"StudentOnly\"\n}"
    );
}

#[test]
fn bad_metadata_text_is_rejected() {
    assert!(xcheck_core::json::parse_metadata("").is_none());
    assert!(xcheck_core::json::parse_metadata("{}").is_none());
    assert!(xcheck_core::json::parse_metadata("{\n  \"id\": 3\n}").is_none());
}

#[test]
fn load_without_metadata_entry_fails() {
    let mut writer = zip::ZipWriter::new(std::io::Cursor::new(Vec::new()));
    let options = zip::write::SimpleFileOptions::default();
    writer.start_file("other.txt", options).unwrap();
    writer.write_all(b"hello").unwrap();
    let bytes = writer.finish().unwrap().into_inner();
    let err = Database::load_from_bytes("z.xai".to_string(), &bytes).unwrap_err();
    assert!(matches!(err, LibError::Database(DatabaseError::MissingMetadata)));
}

#[test]
fn load_of_non_archive_bytes_fails() {
    let err = Database::load_from_bytes("z.xai".to_string(), &vec![0, 1, 2, 3]).unwrap_err();
    assert!(matches!(err, LibError::Zip(_)));
}

#[test]
fn load_without_settings_falls_back_to_default() {
    let meta = DatabaseMetadata {
        id: "i".to_string(),
        name: "n".to_string(),
        description: None,
        version: 1,
    };
    let mut writer = zip::ZipWriter::new(std::io::Cursor::new(Vec::new()));
    let options = zip::write::SimpleFileOptions::default();
    writer.start_file("meta.json", options).unwrap();
    writer
        .write_all(xcheck_core::json::emit_metadata(&meta).as_bytes())
        .unwrap();
    let bytes = writer.finish().unwrap().into_inner();
    let loaded = Database::load_from_bytes("z.xai".to_string(), &bytes).unwrap();
    assert_eq!(
        loaded.settings.file_name_pattern,
        FileNamePattern::StudentTask { separator: '_' }
    );
    assert!(loaded.submissions.is_empty());
    assert!(!loaded.is_dirty);
}

#[test]
fn short_or_foreign_entries_are_ignored_on_load() {
    let meta = DatabaseMetadata {
        id: "i".to_string(),
        name: "n".to_string(),
        description: None,
        version: 1,
    };
    let mut writer = zip::ZipWriter::new(std::io::Cursor::new(Vec::new()));
    let options = zip::write::SimpleFileOptions::default();
    writer.start_file("meta.json", options).unwrap();
    writer
        .write_all(xcheck_core::json::emit_metadata(&meta).as_bytes())
        .unwrap();
    // Too few segments for the student-task layout, and a stranger.
    writer.start_file("submissions/Petrov/too_short.py", options).unwrap();
    writer.write_all(b"x").unwrap();
    writer.start_file("unrelated/readme.md", options).unwrap();
    writer.write_all(b"y").unwrap();
    let bytes = writer.finish().unwrap().into_inner();
    let loaded = Database::load_from_bytes("z.xai".to_string(), &bytes).unwrap();
    assert!(loaded.submissions.is_empty());
}

#[test]
fn invalid_utf8_file_is_dropped_on_load() {
    let meta = DatabaseMetadata {
        id: "i".to_string(),
        name: "n".to_string(),
        description: None,
        version: 1,
    };
    let mut writer = zip::ZipWriter::new(std::io::Cursor::new(Vec::new()));
    let options = zip::write::SimpleFileOptions::default();
    writer.start_file("meta.json", options).unwrap();
    writer
        .write_all(xcheck_core::json::emit_metadata(&meta).as_bytes())
        .unwrap();
    writer.start_file("settings.json", options).unwrap();
    writer
        .write_all(
            xcheck_core::json::emit_settings(&DatabaseSettings {
                file_name_pattern: FileNamePattern::StudentOnly,
            })
            .as_bytes(),
        )
        .unwrap();
    writer.start_file("submissions/Ivanov/raw.py", options).unwrap();
    writer.write_all(&[0xFF, 0xFE]).unwrap();
    writer.start_file("submissions/Ivanov/ok.py", options).unwrap();
    writer.write_all(b"fine\n").unwrap();
    let bytes = writer.finish().unwrap().into_inner();
    let loaded = Database::load_from_bytes("z.xai".to_string(), &bytes).unwrap();
    assert_eq!(loaded.submissions.len(), 1);
    assert_eq!(loaded.submissions[0].files.len(), 1);
    assert_eq!(loaded.submissions[0].files[0].relative_path, "ok.py");
}

#[test]
fn loaded_file_reads_its_content_back() {
    let mut db = fresh_database(FileNamePattern::StudentTask { separator: '_' });
    db.attach_submission(petrov_lab1());
    let bytes = db.save_to_bytes().unwrap();
    let mut archive = zip::ZipArchive::new(std::io::Cursor::new(bytes.as_slice())).unwrap();
    let mut entry = archive.by_name("submissions/Petrov/Lab1/src/main.cpp").unwrap();
    let mut text = String::new();
    entry.read_to_string(&mut text).unwrap();
    assert_eq!(text, "int main() {}\n");
}

#[test]
fn compact_metadata_document_is_read() {
    // The layout a generic serializer would write without pretty-printing.
    let text = "{\"id\":\"a\",\"name\":\"n\",\"description\":null,\"version\":1}";
    let meta = xcheck_core::json::parse_metadata(text).unwrap();
    assert_eq!(meta.id, "a");
    assert_eq!(meta.name, "n");
    assert!(meta.description.is_none());
    assert_eq!(meta.version, 1);
}

#[test]
fn reordered_and_spaced_metadata_document_is_read() {
    let text = "  {\n\t\"version\" : 7 ,\"description\": \"d\",\r\n \"id\":\"x\" , \"name\" :\"y\"  }  ";
    let meta = xcheck_core::json::parse_metadata(text).unwrap();
    assert_eq!(meta.id, "x");
    assert_eq!(meta.name, "y");
    assert_eq!(meta.description.as_deref(), Some("d"));
    assert_eq!(meta.version, 7);
}

#[test]
fn standard_escapes_are_read() {
    let text = "{\"id\":\"\\u0041\\u004a\\u004B\",\"name\":\"a\\/b\",\"description\":\"\\u0416\",\"version\":0}";
    let meta = xcheck_core::json::parse_metadata(text).unwrap();
    assert_eq!(meta.id, "AJK");
    assert_eq!(meta.name, "a/b");
    assert_eq!(meta.description.as_deref(), Some("\u{416}"));
}

#[test]
fn malformed_metadata_documents_are_rejected() {
    // a repeated member
    assert!(xcheck_core::json::parse_metadata(
        "{\"id\":\"a\",\"id\":\"b\",\"description\":null,\"version\":1}"
    )
    .is_none());
    // a member outside the schema
    assert!(xcheck_core::json::parse_metadata(
        "{\"id\":\"a\",\"name\":\"n\",\"description\":null,\"extra\":1}"
    )
    .is_none());
    // a missing member
    assert!(xcheck_core::json::parse_metadata("{\"id\":\"a\",\"name\":\"n\"}").is_none());
    // an escaped lone surrogate
    assert!(xcheck_core::json::parse_metadata(
        "{\"id\":\"\\uD800\",\"name\":\"n\",\"description\":null,\"version\":1}"
    )
    .is_none());
    // a version outside the schema range
    assert!(xcheck_core::json::parse_metadata(
        "{\"id\":\"a\",\"name\":\"n\",\"description\":null,\"version\":40000}"
    )
    .is_none());
}

#[test]
fn compact_settings_documents_are_read() {
    let back = xcheck_core::json::parse_settings(
        "{\"file_name_pattern\":{\"TaskStudent\":{\"separator\":\"-\"}}}",
    )
    .unwrap();
    assert_eq!(back.file_name_pattern, FileNamePattern::TaskStudent { separator: '-' });
    let back = xcheck_core::json::parse_settings("{ \"file_name_pattern\" : \"StudentOnly\" }")
        .unwrap();
    assert_eq!(back.file_name_pattern, FileNamePattern::StudentOnly);
}

#[test]
fn container_written_by_another_serializer_loads() {
    // Documents in compact layout with reordered members, as a lenient
    // deserializer accepted them.
    let mut writer = zip::ZipWriter::new(std::io::Cursor::new(Vec::new()));
    let options = zip::write::SimpleFileOptions::default();
    writer.start_file("meta.json", options).unwrap();
    writer
        .write_all(b"{\"version\":1,\"name\":\"course\",\"id\":\"abc\",\"description\":null}")
        .unwrap();
    writer.start_file("settings.json", options).unwrap();
    writer
        .write_all(b"{\"file_name_pattern\":{\"StudentTask\":{\"separator\":\"_\"}}}")
        .unwrap();
    writer.start_file("submissions/Petrov/Lab1/main.cpp", options).unwrap();
    writer.write_all(b"int main() {}\n").unwrap();
    let bytes = writer.finish().unwrap().into_inner();
    let loaded = Database::load_from_bytes("w.xai".to_string(), &bytes).unwrap();
    assert_eq!(loaded.meta.id, "abc");
    assert_eq!(loaded.meta.name, "course");
    assert!(loaded.meta.description.is_none());
    assert_eq!(loaded.meta.version, 1);
    assert_eq!(
        loaded.settings.file_name_pattern,
        FileNamePattern::StudentTask { separator: '_' }
    );
    assert_eq!(loaded.submissions.len(), 1);
    assert_eq!(loaded.submissions[0].metadata.student_name, "Petrov");
    assert_eq!(loaded.submissions[0].files[0].relative_path, "main.cpp");
}
