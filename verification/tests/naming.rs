use xcheck_core::{FileNameParseError, FileNamePattern, SubmissionMetadata};

#[test]
fn student_task_splits_at_first_separator() {
    let pattern = FileNamePattern::StudentTask { separator: '_' };
    let meta = SubmissionMetadata::parse("Petrov_Lab1", &pattern).unwrap();
    assert_eq!(meta.student_name, "Petrov");
    assert_eq!(meta.assignment_title.as_deref(), Some("Lab1"));
}

#[test]
fn task_student_splits_at_first_separator() {
    let pattern = FileNamePattern::TaskStudent { separator: '_' };
    let meta = SubmissionMetadata::parse("Lab1_Petrov", &pattern).unwrap();
    assert_eq!(meta.student_name, "Petrov");
    assert_eq!(meta.assignment_title.as_deref(), Some("Lab1"));
}

#[test]
fn first_separator_wins_when_repeated() {
    let pattern = FileNamePattern::StudentTask { separator: '-' };
    let meta = SubmissionMetadata::parse("a-b-c", &pattern).unwrap();
    assert_eq!(meta.student_name, "a");
    assert_eq!(meta.assignment_title.as_deref(), Some("b-c"));
}

#[test]
fn student_only_takes_whole_name() {
    let meta = SubmissionMetadata::parse("Petrov_Lab1", &FileNamePattern::StudentOnly).unwrap();
    assert_eq!(meta.student_name, "Petrov_Lab1");
    assert!(meta.assignment_title.is_none());
}

#[test]
fn student_only_never_fails_without_separator() {
    let meta = SubmissionMetadata::parse("Ivanov", &FileNamePattern::StudentOnly).unwrap();
    assert_eq!(meta.student_name, "Ivanov");
    assert!(meta.assignment_title.is_none());
}

#[test]
fn missing_separator_is_invalid_format() {
    let pattern = FileNamePattern::StudentTask { separator: '_' };
    let err = SubmissionMetadata::parse("Ivanov", &pattern).unwrap_err();
    let FileNameParseError::InvalidFormat(name) = err;
    assert_eq!(name, "Ivanov");

    let pattern = FileNamePattern::TaskStudent { separator: '_' };
    let err = SubmissionMetadata::parse("Ivanov", &pattern).unwrap_err();
    let FileNameParseError::InvalidFormat(name) = err;
    assert_eq!(name, "Ivanov");
}

#[test]
fn separator_may_be_any_character() {
    let pattern = FileNamePattern::StudentTask { separator: ' ' };
    let meta = SubmissionMetadata::parse("Anna Maria Hw2", &pattern).unwrap();
    assert_eq!(meta.student_name, "Anna");
    assert_eq!(meta.assignment_title.as_deref(), Some("Maria Hw2"));
}

#[test]
fn empty_sides_are_kept_verbatim() {
    let pattern = FileNamePattern::StudentTask { separator: '_' };
    let meta = SubmissionMetadata::parse("_Lab1", &pattern).unwrap();
    assert_eq!(meta.student_name, "");
    assert_eq!(meta.assignment_title.as_deref(), Some("Lab1"));
}

#[test]
fn default_pattern_is_student_task_underscore() {
    let pattern = FileNamePattern::default();
    assert_eq!(pattern, FileNamePattern::StudentTask { separator: '_' });
}
