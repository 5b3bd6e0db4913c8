//! A verified core for collecting student code submissions: naming
//! conventions, admission filtering, archive-backed import, and a
//! portable container format for persisting submission collections.

pub mod archive;
pub mod chars;
pub mod database;
pub mod ignore;
pub mod io;
pub mod json;
pub mod pattern;
pub mod shell;
pub mod submission;

pub use database::{Database, DatabaseError, DatabaseMetadata, DatabaseSettings, LibError};
pub use ignore::IgnoreList;
pub use io::{BadFile, FileError, FileLoader, FolderFile, ImportPath, IoError, PathSource,
    SupportedArchives};
pub use pattern::{FileNameParseError, FileNamePattern};
pub use submission::{CodeFile, Submission, SubmissionMetadata};
