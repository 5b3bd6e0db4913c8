//! The domain model: one student's code deliverable as a set of
//! relative-path / content pairs, together with the inferred naming
//! metadata.

use vstd::prelude::*;

verus! {

/// One source file of a submission. `relative_path` is forward-slash
/// normalized, relative to the submission root, and immutable after
/// creation.
#[derive(Debug)]
pub struct CodeFile {
    pub relative_path: String,
    pub content: String,
    pub extension: String,
}

pub ghost struct CodeFileView {
    pub relative_path: Seq<char>,
    pub content: Seq<char>,
    pub extension: Seq<char>,
}

impl View for CodeFile {
    type V = CodeFileView;

    open spec fn view(&self) -> CodeFileView {
        CodeFileView {
            relative_path: self.relative_path@,
            content: self.content@,
            extension: self.extension@,
        }
    }
}

/// The view of an optional string.
pub open spec fn opt_str_view(o: Option<String>) -> Option<Seq<char>> {
    match o {
        Some(s) => Some(s@),
        None => None,
    }
}

/// Who handed the work in, and for which assignment. The assignment is
/// absent only under the student-only naming convention.
#[derive(Debug)]
pub struct SubmissionMetadata {
    pub student_name: String,
    pub assignment_title: Option<String>,
}

pub ghost struct SubmissionMetadataView {
    pub student_name: Seq<char>,
    pub assignment_title: Option<Seq<char>>,
}

impl View for SubmissionMetadata {
    type V = SubmissionMetadataView;

    open spec fn view(&self) -> SubmissionMetadataView {
        SubmissionMetadataView {
            student_name: self.student_name@,
            assignment_title: opt_str_view(self.assignment_title),
        }
    }
}

/// One student's deliverable. A submission with no files is rejected by
/// the importer rather than stored, so `wf` asks for at least one file.
#[derive(Debug)]
pub struct Submission {
    pub metadata: SubmissionMetadata,
    pub files: Vec<CodeFile>,
}

pub ghost struct SubmissionView {
    pub metadata: SubmissionMetadataView,
    pub files: Seq<CodeFileView>,
}

impl View for Submission {
    type V = SubmissionView;

    open spec fn view(&self) -> SubmissionView {
        SubmissionView { metadata: self.metadata@, files: self.files@.map_values(|f: CodeFile| f@) }
    }
}

impl Submission {
    /// The importer never produces an empty submission.
    pub open spec fn wf(self) -> bool {
        self@.files.len() > 0
    }
}

} // verus!
