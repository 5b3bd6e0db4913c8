//! Naming conventions for bare file and directory names, and the parser
//! that infers submission metadata from such a name.

use crate::chars::{first_index_of, lemma_first_index_of, str_chars, subrange_chars, chars_string,
    find_char};
use crate::submission::{SubmissionMetadata, SubmissionMetadataView};
use vstd::prelude::*;

verus! {

/// How a bare name decomposes into student and assignment.
#[derive(Debug, Clone, Copy, PartialEq, Eq, Structural)]
pub enum FileNamePattern {
    /// Example: `Petrov_Lab1.zip`.
    StudentTask { separator: char },
    /// Example: `Lab1_Petrov.zip`.
    TaskStudent { separator: char },
    /// The whole name is the student: `Petrov.zip`.
    StudentOnly,
}

impl Default for FileNamePattern {
    /// The default convention: student first, `_` between.
    fn default() -> (r: Self)
        ensures
            r == (FileNamePattern::StudentTask { separator: '_' }),
    {
        FileNamePattern::StudentTask { separator: '_' }
    }
}

/// A name did not contain the separator its pattern demands.
#[derive(Debug)]
pub enum FileNameParseError {
    InvalidFormat(String),
}

/// What parsing a name yields: the split happens at the first occurrence
/// of the separator, byte for byte, with no trimming or folding.
pub open spec fn parse_name_spec(name: Seq<char>, p: FileNamePattern) -> Result<
    SubmissionMetadataView,
    Seq<char>,
> {
    match p {
        FileNamePattern::StudentTask { separator } => {
            if name.contains(separator) {
                let i = first_index_of(name, separator);
                Ok(
                    SubmissionMetadataView {
                        student_name: name.take(i),
                        assignment_title: Some(name.skip(i + 1)),
                    },
                )
            } else {
                Err(name)
            }
        },
        FileNamePattern::TaskStudent { separator } => {
            if name.contains(separator) {
                let i = first_index_of(name, separator);
                Ok(
                    SubmissionMetadataView {
                        student_name: name.skip(i + 1),
                        assignment_title: Some(name.take(i)),
                    },
                )
            } else {
                Err(name)
            }
        },
        FileNamePattern::StudentOnly => Ok(
            SubmissionMetadataView { student_name: name, assignment_title: None },
        ),
    }
}

impl SubmissionMetadata {
    /// Splits `filename` according to `pattern`; fails exactly when a
    /// separator convention finds no separator in the name.
    pub fn parse(filename: &str, pattern: &FileNamePattern) -> (r: Result<
        SubmissionMetadata,
        FileNameParseError,
    >)
        ensures
            match r {
                Ok(m) => parse_name_spec(filename@, *pattern) == Ok::<_, Seq<char>>(m@),
                Err(e) => parse_name_spec(filename@, *pattern) == Err::<SubmissionMetadataView, _>(
                    filename@,
                ) && (e matches FileNameParseError::InvalidFormat(n) && n@ == filename@),
            },
    {
        let chars = str_chars(filename);
        match pattern {
            FileNamePattern::StudentTask { separator } => {
                match find_char(&chars, *separator) {
                    Some(i) => {
                        proof {
                            lemma_first_index_of(filename@, *separator, i as int);
                            assert(filename@.contains(*separator));
                        }
                        let n = chars.len();
                        let student = subrange_chars(&chars, 0, i);
                        let task = subrange_chars(&chars, i + 1, n);
                        proof {
                            assert(student@ =~= filename@.take(i as int));
                            assert(task@ =~= filename@.skip(i as int + 1));
                        }
                        Ok(
                            SubmissionMetadata {
                                student_name: chars_string(&student),
                                assignment_title: Some(chars_string(&task)),
                            },
                        )
                    },
                    None => Err(FileNameParseError::InvalidFormat(filename.to_owned())),
                }
            },
            FileNamePattern::TaskStudent { separator } => {
                match find_char(&chars, *separator) {
                    Some(i) => {
                        proof {
                            lemma_first_index_of(filename@, *separator, i as int);
                            assert(filename@.contains(*separator));
                        }
                        let n = chars.len();
                        let task = subrange_chars(&chars, 0, i);
                        let student = subrange_chars(&chars, i + 1, n);
                        proof {
                            assert(task@ =~= filename@.take(i as int));
                            assert(student@ =~= filename@.skip(i as int + 1));
                        }
                        Ok(
                            SubmissionMetadata {
                                student_name: chars_string(&student),
                                assignment_title: Some(chars_string(&task)),
                            },
                        )
                    },
                    None => Err(FileNameParseError::InvalidFormat(filename.to_owned())),
                }
            },
            FileNamePattern::StudentOnly => Ok(
                SubmissionMetadata {
                    student_name: filename.to_owned(),
                    assignment_title: None,
                },
            ),
        }
    }
}

/// A name without the separator: the student-only convention accepts it
/// whole with no assignment, while both separator conventions reject it.
pub proof fn lemma_parse_without_separator(name: Seq<char>, sep: char)
    requires
        !name.contains(sep),
    ensures
        parse_name_spec(name, FileNamePattern::StudentOnly) == Ok::<_, Seq<char>>(
            SubmissionMetadataView { student_name: name, assignment_title: None },
        ),
        parse_name_spec(name, FileNamePattern::StudentTask { separator: sep })
            == Err::<SubmissionMetadataView, _>(name),
        parse_name_spec(name, FileNamePattern::TaskStudent { separator: sep })
            == Err::<SubmissionMetadataView, _>(name),
{
}

/// A name `A<sep>B` with `A` free of the separator: student-task reads
/// the student on the left, task-student reads it on the right.
pub proof fn lemma_parse_with_separator(a: Seq<char>, b: Seq<char>, sep: char)
    requires
        !a.contains(sep),
    ensures
        parse_name_spec(a + seq![sep] + b, FileNamePattern::StudentTask { separator: sep })
            == Ok::<_, Seq<char>>(
            SubmissionMetadataView { student_name: a, assignment_title: Some(b) },
        ),
        parse_name_spec(a + seq![sep] + b, FileNamePattern::TaskStudent { separator: sep })
            == Ok::<_, Seq<char>>(
            SubmissionMetadataView { student_name: b, assignment_title: Some(a) },
        ),
{
    let name = a + seq![sep] + b;
    assert(name[a.len() as int] == sep);
    assert(forall|j: int| 0 <= j < a.len() ==> name[j] != sep);
    assert(name.contains(sep));
    lemma_first_index_of(name, sep, a.len() as int);
    assert(name.take(a.len() as int) =~= a);
    assert(name.skip(a.len() as int + 1) =~= b);
}

} // verus!
