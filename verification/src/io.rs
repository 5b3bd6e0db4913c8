//! The submission importer: walks a batch of probed input paths,
//! applies the admission filter, and assembles submissions, collecting
//! per-path failures without aborting the batch.

use crate::archive::{archive_model, archive_data_at, archive_len, archive_name_at, lossy_utf8,
    utf8_to_string_lossy};
use crate::chars::{extension_split, lower_seq, lower_chars, lemma_split_on_len, split_chars,
    split_on, str_chars, chars_eq_str, chars_string, views_of};
use crate::ignore::{IgnoreList, list_views};
use crate::pattern::{parse_name_spec, FileNamePattern};
use crate::submission::{CodeFile, CodeFileView, Submission, SubmissionMetadata, SubmissionView};
use vstd::prelude::*;

verus! {

/// The archive kinds the importer recognizes by file extension.
#[derive(Debug, Clone, Copy, PartialEq, Eq, Structural)]
pub enum SupportedArchives {
    Zip,
    Rar,
    SevenZ,
    Tar,
}

impl SupportedArchives {
    /// The canonical lower-case extension of this archive kind.
    pub open spec fn extension_spec(self) -> Seq<char> {
        match self {
            SupportedArchives::Zip => "zip"@,
            SupportedArchives::Rar => "rar"@,
            SupportedArchives::SevenZ => "7z"@,
            SupportedArchives::Tar => "tar"@,
        }
    }

    pub fn extension(&self) -> (r: &'static str)
        ensures
            r@ == self.extension_spec(),
    {
        match self {
            SupportedArchives::Zip => "zip",
            SupportedArchives::Rar => "rar",
            SupportedArchives::SevenZ => "7z",
            SupportedArchives::Tar => "tar",
        }
    }

    /// True of extensions naming a recognized archive kind, compared
    /// without regard to ASCII case.
    pub open spec fn supported_spec(e: Seq<char>) -> bool {
        ||| lower_seq(e) == "zip"@
        ||| lower_seq(e) == "rar"@
        ||| lower_seq(e) == "7z"@
        ||| lower_seq(e) == "tar"@
    }

    /// Whether the file extension names one of the supported archive kinds.
    pub fn is_supported(extension: &str) -> (r: bool)
        ensures
            r == Self::supported_spec(extension@),
    {
        let chars = str_chars(extension);
        let le = lower_chars(&chars);
        chars_eq_str(&le, "zip") || chars_eq_str(&le, "rar") || chars_eq_str(&le, "7z")
            || chars_eq_str(&le, "tar")
    }
}

/// Why one input path failed to import.
#[derive(Debug)]
pub enum FileError {
    PathDoesNotExist,
    UnknownFileType,
    ArchiveError(String),
    Io(String),
    EmptySubmission,
    FailedToGetStem,
    InvalidPattern,
}

/// The failure kinds, without incidental message text.
pub ghost enum FileErrorKind {
    PathDoesNotExist,
    UnknownFileType,
    Archive,
    Io,
    EmptySubmission,
    FailedToGetStem,
    InvalidPattern,
}

pub open spec fn error_kind(e: FileError) -> FileErrorKind {
    match e {
        FileError::PathDoesNotExist => FileErrorKind::PathDoesNotExist,
        FileError::UnknownFileType => FileErrorKind::UnknownFileType,
        FileError::ArchiveError(_) => FileErrorKind::Archive,
        FileError::Io(_) => FileErrorKind::Io,
        FileError::EmptySubmission => FileErrorKind::EmptySubmission,
        FileError::FailedToGetStem => FileErrorKind::FailedToGetStem,
        FileError::InvalidPattern => FileErrorKind::InvalidPattern,
    }
}

/// Why a single filesystem operation failed, by its phase.
#[derive(Debug)]
pub enum IoError {
    Create(String),
    Open(String),
    Read(String),
    Write(String),
}

/// One input path that could not be imported, and why.
#[derive(Debug)]
pub struct BadFile {
    pub path: String,
    pub reason: FileError,
}

/// One file found under an input directory, as probed by the caller:
/// its root-relative path and its raw bytes.
#[derive(Debug)]
pub struct FolderFile {
    pub relative_path: String,
    pub content: Vec<u8>,
}

/// What probing one input path found. Probing itself is the caller's
/// filesystem work; everything after it is verified here.
#[derive(Debug)]
pub enum PathSource {
    /// The path does not exist.
    Missing,
    /// A directory: its base name and the files beneath it.
    Folder { name: Option<String>, files: Vec<FolderFile> },
    /// A file with a supported archive extension: its stem and bytes.
    Archive { stem: Option<String>, bytes: Vec<u8> },
    /// A file that exists but could not be read.
    Unreadable { detail: String },
    /// Any other file type.
    Unsupported,
}

/// One input path of an import batch.
#[derive(Debug)]
pub struct ImportPath {
    pub path: String,
    pub source: PathSource,
}

/// The outcome of an import batch.
#[derive(Debug, Default)]
pub struct FileLoader {
    pub submissions: Vec<Submission>,
    pub bad_files: Vec<BadFile>,
}

/// Backslashes rewritten to forward slashes.
pub open spec fn normalize_slashes(s: Seq<char>) -> Seq<char> {
    s.map_values(|c: char| if c == '\\' { '/' } else { c })
}

/// The extension of a path's last segment, or empty where there is none.
pub open spec fn ext_or_empty(path: Seq<char>) -> Seq<char> {
    match extension_split(split_on(path, '/').last()) {
        Some(e) => e,
        None => Seq::<char>::empty(),
    }
}

/// The admission rule: no path segment may be an ignored directory
/// name, and the last segment must carry an accepted extension,
/// compared lower-cased.
pub open spec fn path_allowed_spec(path: Seq<char>, exts: Seq<Seq<char>>, dirs: Seq<
    Seq<char>,
>) -> bool {
    let segs = split_on(path, '/');
    &&& forall|i: int| 0 <= i < segs.len() ==> !dirs.contains(#[trigger] segs[i])
    &&& match extension_split(segs.last()) {
        Some(e) => exts.contains(lower_seq(e)),
        None => false,
    }
}

/// Rewrites backslashes to forward slashes.
pub fn normalize_chars(v: &Vec<char>) -> (r: Vec<char>)
    ensures
        r@ =~= normalize_slashes(v@),
{
    let mut r: Vec<char> = Vec::new();
    let mut i: usize = 0;
    while i < v.len()
        invariant
            i <= v@.len(),
            r@ =~= normalize_slashes(v@).take(i as int),
        decreases v@.len() - i,
    {
        if v[i] == '\\' {
            r.push('/');
        } else {
            r.push(v[i]);
        }
        i = i + 1;
        proof {
            assert(r@ =~= normalize_slashes(v@).take(i as int));
        }
    }
    proof {
        assert(normalize_slashes(v@).take(v@.len() as int) =~= normalize_slashes(v@));
    }
    r
}

/// Whether some string of the list equals the given characters.
pub fn contains_string(list: &Vec<String>, v: &Vec<char>) -> (r: bool)
    ensures
        r == list_views(list@).contains(v@),
{
    let mut i: usize = 0;
    while i < list.len()
        invariant
            i <= list@.len(),
            forall|j: int| 0 <= j < i ==> list@[j]@ != v@,
        decreases list@.len() - i,
    {
        if chars_eq_str(v, list[i].as_str()) {
            proof {
                assert(list_views(list@)[i as int] == v@);
            }
            return true;
        }
        i = i + 1;
    }
    proof {
        if list_views(list@).contains(v@) {
            let k = choose|k: int| 0 <= k < list@.len() && list_views(list@)[k] == v@;
            assert(list@[k]@ == v@);
        }
    }
    false
}

/// The admission filter on an already '/'-normalized path.
fn path_allowed_chars(path: &Vec<char>, ignore: &IgnoreList) -> (r: bool)
    ensures
        r == path_allowed_spec(
            path@,
            list_views(ignore.accepted_extensions@),
            list_views(ignore.ignored_directories@),
        ),
{
    let segs = split_chars(path, '/');
    proof {
        lemma_split_on_len(path@, '/');
        assert(views_of(segs@).len() == split_on(path@, '/').len());
    }
    let mut i: usize = 0;
    while i < segs.len()
        invariant
            i <= segs@.len(),
            views_of(segs@) =~~= split_on(path@, '/'),
            forall|j: int|
                0 <= j < i ==> !list_views(ignore.ignored_directories@).contains(
                    #[trigger] views_of(segs@)[j],
                ),
        decreases segs@.len() - i,
    {
        if contains_string(&ignore.ignored_directories, &segs[i]) {
            proof {
                assert(views_of(segs@)[i as int] == segs@[i as int]@);
            }
            return false;
        }
        i = i + 1;
    }
    let last = &segs[segs.len() - 1];
    proof {
        assert(views_of(segs@).last() == last@);
    }
    match crate::chars::extension_of_segment(last) {
        Some(e) => {
            let le = lower_chars(&e);
            contains_string(&ignore.accepted_extensions, &le)
        },
        None => false,
    }
}

impl FileLoader {
    /// The admission filter: rejects a path whose segments touch an
    /// ignored directory or whose extension is not accepted.
    pub fn is_path_allowed(path: &str, ignore: &IgnoreList) -> (r: bool)
        ensures
            r == path_allowed_spec(
                path@,
                list_views(ignore.accepted_extensions@),
                list_views(ignore.ignored_directories@),
            ),
    {
        let chars = str_chars(path);
        path_allowed_chars(&chars, ignore)
    }
}


/// The view of one admitted file with the given normalized path and
/// raw content.
pub open spec fn admitted_file_view(norm: Seq<char>, data: Seq<u8>) -> CodeFileView {
    CodeFileView { relative_path: norm, content: lossy_utf8(data), extension: ext_or_empty(norm) }
}

/// The files kept from a sequence of (name, content) entries: names are
/// slash-normalized, the admission filter is applied to each, and an
/// admitted entry whose content cannot be had is skipped rather than
/// failing the batch.
pub open spec fn admitted_files(
    es: Seq<(Seq<char>, Option<Seq<u8>>)>,
    exts: Seq<Seq<char>>,
    dirs: Seq<Seq<char>>,
) -> Seq<CodeFileView>
    decreases es.len(),
{
    if es.len() == 0 {
        Seq::<CodeFileView>::empty()
    } else {
        let rest = admitted_files(es.drop_last(), exts, dirs);
        let norm = normalize_slashes(es.last().0);
        if path_allowed_spec(norm, exts, dirs) {
            match es.last().1 {
                Some(d) => rest.push(admitted_file_view(norm, d)),
                None => rest,
            }
        } else {
            rest
        }
    }
}

/// The entry sequence a probed folder stands for.
pub open spec fn folder_entries(files: Seq<FolderFile>) -> Seq<(Seq<char>, Option<Seq<u8>>)> {
    files.map_values(|f: FolderFile| (f.relative_path@, Some(f.content@)))
}

/// What importing one probed directory yields.
pub open spec fn folder_outcome(
    name: Option<String>,
    files: Seq<FolderFile>,
    exts: Seq<Seq<char>>,
    dirs: Seq<Seq<char>>,
    pat: FileNamePattern,
) -> Result<SubmissionView, FileErrorKind> {
    match name {
        None => Err(FileErrorKind::FailedToGetStem),
        Some(n) => match parse_name_spec(n@, pat) {
            Err(_) => Err(FileErrorKind::InvalidPattern),
            Ok(meta) => {
                let kept = admitted_files(folder_entries(files), exts, dirs);
                if kept.len() == 0 {
                    Err(FileErrorKind::EmptySubmission)
                } else {
                    Ok(SubmissionView { metadata: meta, files: kept })
                }
            },
        },
    }
}

/// What importing one archive file yields.
pub open spec fn archive_outcome(
    stem: Option<String>,
    bytes: Seq<u8>,
    exts: Seq<Seq<char>>,
    dirs: Seq<Seq<char>>,
    pat: FileNamePattern,
) -> Result<SubmissionView, FileErrorKind> {
    match stem {
        None => Err(FileErrorKind::FailedToGetStem),
        Some(n) => match parse_name_spec(n@, pat) {
            Err(_) => Err(FileErrorKind::InvalidPattern),
            Ok(meta) => match archive_model(bytes) {
                None => Err(FileErrorKind::Archive),
                Some(es) => {
                    let kept = admitted_files(es, exts, dirs);
                    if kept.len() == 0 {
                        Err(FileErrorKind::EmptySubmission)
                    } else {
                        Ok(SubmissionView { metadata: meta, files: kept })
                    }
                },
            },
        },
    }
}

/// What importing one probed path yields.
pub open spec fn outcome_of(
    p: ImportPath,
    exts: Seq<Seq<char>>,
    dirs: Seq<Seq<char>>,
    pat: FileNamePattern,
) -> Result<SubmissionView, FileErrorKind> {
    match p.source {
        PathSource::Missing => Err(FileErrorKind::PathDoesNotExist),
        PathSource::Unsupported => Err(FileErrorKind::UnknownFileType),
        PathSource::Unreadable { .. } => Err(FileErrorKind::Io),
        PathSource::Folder { name, files } => folder_outcome(name, files@, exts, dirs, pat),
        PathSource::Archive { stem, bytes } => archive_outcome(stem, bytes@, exts, dirs, pat),
    }
}

/// The submissions an import batch yields, in input order.
pub open spec fn expected_submissions(
    inputs: Seq<ImportPath>,
    exts: Seq<Seq<char>>,
    dirs: Seq<Seq<char>>,
    pat: FileNamePattern,
) -> Seq<SubmissionView>
    decreases inputs.len(),
{
    if inputs.len() == 0 {
        Seq::<SubmissionView>::empty()
    } else {
        let rest = expected_submissions(inputs.drop_last(), exts, dirs, pat);
        match outcome_of(inputs.last(), exts, dirs, pat) {
            Ok(s) => rest.push(s),
            Err(_) => rest,
        }
    }
}

/// The failures an import batch yields, in input order.
pub open spec fn expected_failures(
    inputs: Seq<ImportPath>,
    exts: Seq<Seq<char>>,
    dirs: Seq<Seq<char>>,
    pat: FileNamePattern,
) -> Seq<(Seq<char>, FileErrorKind)>
    decreases inputs.len(),
{
    if inputs.len() == 0 {
        Seq::<(Seq<char>, FileErrorKind)>::empty()
    } else {
        let rest = expected_failures(inputs.drop_last(), exts, dirs, pat);
        match outcome_of(inputs.last(), exts, dirs, pat) {
            Ok(_) => rest,
            Err(k) => rest.push((inputs.last().path@, k)),
        }
    }
}

/// The extension of the path's last segment as a string, or empty.
pub(crate) fn extension_string(norm: &Vec<char>) -> (r: String)
    ensures
        r@ == ext_or_empty(norm@),
{
    let segs = split_chars(norm, '/');
    proof {
        lemma_split_on_len(norm@, '/');
        assert(views_of(segs@).len() == split_on(norm@, '/').len());
    }
    let last = &segs[segs.len() - 1];
    proof {
        assert(views_of(segs@).last() == last@);
    }
    match crate::chars::extension_of_segment(last) {
        Some(e) => chars_string(&e),
        None => String::new(),
    }
}

impl FileLoader {
    /// Builds one admitted code file from a normalized path and raw bytes.
    fn build_code_file(norm: &Vec<char>, data: &Vec<u8>) -> (r: CodeFile)
        ensures
            r@ == admitted_file_view(norm@, data@),
    {
        let relative_path = chars_string(norm);
        let content = utf8_to_string_lossy(data);
        let extension = extension_string(norm);
        CodeFile { relative_path, content, extension }
    }

    /// Assembles a submission from a probed directory: parses the base
    /// name, admits matching files with their contents decoded
    /// permissively, and rejects an empty result.
    pub fn process_folder(
        name: &Option<String>,
        files: &Vec<FolderFile>,
        ignore: &IgnoreList,
        pattern: &FileNamePattern,
    ) -> (r: Result<Submission, FileError>)
        ensures
            ({
                let outcome = folder_outcome(
                    *name,
                    files@,
                    list_views(ignore.accepted_extensions@),
                    list_views(ignore.ignored_directories@),
                    *pattern,
                );
                match r {
                    Ok(s) => outcome == Ok::<_, FileErrorKind>(s@),
                    Err(e) => outcome == Err::<SubmissionView, _>(error_kind(e)),
                }
            }),
    {
        let ghost exts = list_views(ignore.accepted_extensions@);
        let ghost dirs = list_views(ignore.ignored_directories@);
        let n = match name {
            None => {
                return Err(FileError::FailedToGetStem);
            },
            Some(n) => n,
        };
        let metadata = match SubmissionMetadata::parse(n.as_str(), pattern) {
            Ok(m) => m,
            Err(_) => {
                return Err(FileError::InvalidPattern);
            },
        };
        let mut code_files: Vec<CodeFile> = Vec::new();
        let mut i: usize = 0;
        while i < files.len()
            invariant
                i <= files@.len(),
                exts == list_views(ignore.accepted_extensions@),
                dirs == list_views(ignore.ignored_directories@),
                code_files@.map_values(|f: CodeFile| f@) =~~= admitted_files(
                    folder_entries(files@.take(i as int)),
                    exts,
                    dirs,
                ),
            decreases files@.len() - i,
        {
            let f = &files[i];
            let chars = str_chars(f.relative_path.as_str());
            let norm = normalize_chars(&chars);
            if path_allowed_chars(&norm, ignore) {
                code_files.push(Self::build_code_file(&norm, &f.content));
            }
            i = i + 1;
            proof {
                let fe = folder_entries(files@.take(i as int));
                assert(fe.drop_last() =~~= folder_entries(files@.take(i as int - 1)));
                assert(fe.last() == (files@[i as int - 1].relative_path@, Some(
                    files@[i as int - 1].content@,
                )));
                assert(norm@ =~= normalize_slashes(fe.last().0));
                assert(code_files@.map_values(|f: CodeFile| f@) =~~= admitted_files(
                    fe,
                    exts,
                    dirs,
                ));
            }
        }
        proof {
            assert(files@.take(files@.len() as int) =~= files@);
        }
        if code_files.len() == 0 {
            return Err(FileError::EmptySubmission);
        }
        Ok(Submission { metadata, files: code_files })
    }

    /// Assembles a submission from the bytes of an archive file: lists
    /// the entries, admits by entry path before extracting, skips
    /// entries that fail to extract, and rejects an empty result.
    pub fn process_archive(
        stem: &Option<String>,
        bytes: &Vec<u8>,
        ignore: &IgnoreList,
        pattern: &FileNamePattern,
    ) -> (r: Result<Submission, FileError>)
        ensures
            ({
                let outcome = archive_outcome(
                    *stem,
                    bytes@,
                    list_views(ignore.accepted_extensions@),
                    list_views(ignore.ignored_directories@),
                    *pattern,
                );
                match r {
                    Ok(s) => outcome == Ok::<_, FileErrorKind>(s@),
                    Err(e) => outcome == Err::<SubmissionView, _>(error_kind(e)),
                }
            }),
    {
        let ghost exts = list_views(ignore.accepted_extensions@);
        let ghost dirs = list_views(ignore.ignored_directories@);
        let n = match stem {
            None => {
                return Err(FileError::FailedToGetStem);
            },
            Some(n) => n,
        };
        let metadata = match SubmissionMetadata::parse(n.as_str(), pattern) {
            Ok(m) => m,
            Err(_) => {
                return Err(FileError::InvalidPattern);
            },
        };
        let count = match archive_len(bytes) {
            Ok(c) => c,
            Err(detail) => {
                return Err(FileError::ArchiveError(detail));
            },
        };
        let ghost es = archive_model(bytes@).unwrap();
        let mut code_files: Vec<CodeFile> = Vec::new();
        let mut i: usize = 0;
        while i < count
            invariant
                i <= count,
                archive_model(bytes@) == Some(es),
                count == es.len(),
                exts == list_views(ignore.accepted_extensions@),
                dirs == list_views(ignore.ignored_directories@),
                code_files@.map_values(|f: CodeFile| f@) =~~= admitted_files(
                    es.take(i as int),
                    exts,
                    dirs,
                ),
            decreases count - i,
        {
            let entry_name = archive_name_at(bytes, i);
            let chars = str_chars(entry_name.as_str());
            let norm = normalize_chars(&chars);
            if path_allowed_chars(&norm, ignore) {
                match archive_data_at(bytes, i) {
                    Ok(data) => {
                        code_files.push(Self::build_code_file(&norm, &data));
                    },
                    Err(_) => {
                        // A corrupt entry is skipped; the archive goes on.
                    },
                }
            }
            i = i + 1;
            proof {
                let pre = es.take(i as int);
                assert(pre.drop_last() =~~= es.take(i as int - 1));
                assert(pre.last() == es[i as int - 1]);
                assert(norm@ =~= normalize_slashes(pre.last().0));
                assert(code_files@.map_values(|f: CodeFile| f@) =~~= admitted_files(
                    pre,
                    exts,
                    dirs,
                ));
            }
        }
        proof {
            assert(es.take(es.len() as int) =~= es);
        }
        if code_files.len() == 0 {
            return Err(FileError::EmptySubmission);
        }
        Ok(Submission { metadata, files: code_files })
    }

    /// The import entry point: processes every probed path, keeping the
    /// successes and recording one failure per bad path, never aborting
    /// the batch.
    pub fn import_submissions(
        paths: Vec<ImportPath>,
        ignore: &IgnoreList,
        pattern: &FileNamePattern,
    ) -> (loader: FileLoader)
        ensures
            loader.submissions@.map_values(|s: Submission| s@) =~~= expected_submissions(
                paths@,
                list_views(ignore.accepted_extensions@),
                list_views(ignore.ignored_directories@),
                *pattern,
            ),
            loader.bad_files@.map_values(|b: BadFile| (b.path@, error_kind(b.reason)))
                =~~= expected_failures(
                paths@,
                list_views(ignore.accepted_extensions@),
                list_views(ignore.ignored_directories@),
                *pattern,
            ),
    {
        let ghost exts = list_views(ignore.accepted_extensions@);
        let ghost dirs = list_views(ignore.ignored_directories@);
        let mut submissions: Vec<Submission> = Vec::new();
        let mut bad_files: Vec<BadFile> = Vec::new();
        let mut i: usize = 0;
        while i < paths.len()
            invariant
                i <= paths@.len(),
                exts == list_views(ignore.accepted_extensions@),
                dirs == list_views(ignore.ignored_directories@),
                submissions@.map_values(|s: Submission| s@) =~~= expected_submissions(
                    paths@.take(i as int),
                    exts,
                    dirs,
                    *pattern,
                ),
                bad_files@.map_values(|b: BadFile| (b.path@, error_kind(b.reason)))
                    =~~= expected_failures(paths@.take(i as int), exts, dirs, *pattern),
            decreases paths@.len() - i,
        {
            let p = &paths[i];
            let result = match &p.source {
                PathSource::Missing => Err(FileError::PathDoesNotExist),
                PathSource::Unsupported => Err(FileError::UnknownFileType),
                PathSource::Unreadable { detail } => Err(FileError::Io(detail.clone())),
                PathSource::Folder { name, files } => Self::process_folder(
                    name,
                    files,
                    ignore,
                    pattern,
                ),
                PathSource::Archive { stem, bytes } => Self::process_archive(
                    stem,
                    bytes,
                    ignore,
                    pattern,
                ),
            };
            match result {
                Ok(submission) => {
                    submissions.push(submission);
                },
                Err(reason) => {
                    bad_files.push(BadFile { path: p.path.clone(), reason });
                },
            }
            i = i + 1;
            proof {
                let pre = paths@.take(i as int);
                assert(pre.drop_last() =~~= paths@.take(i as int - 1));
                assert(pre.last() == paths@[i as int - 1]);
                assert(submissions@.map_values(|s: Submission| s@) =~~= expected_submissions(
                    pre,
                    exts,
                    dirs,
                    *pattern,
                ));
                assert(bad_files@.map_values(|b: BadFile| (b.path@, error_kind(b.reason)))
                    =~~= expected_failures(pre, exts, dirs, *pattern));
            }
        }
        proof {
            assert(paths@.take(paths@.len() as int) =~= paths@);
        }
        FileLoader { submissions, bad_files }
    }
}


/// When the filter admits nothing, nothing is kept.
proof fn lemma_admitted_files_none(
    es: Seq<(Seq<char>, Option<Seq<u8>>)>,
    exts: Seq<Seq<char>>,
    dirs: Seq<Seq<char>>,
)
    requires
        forall|i: int|
            0 <= i < es.len() ==> !path_allowed_spec(
                normalize_slashes((#[trigger] es[i]).0),
                exts,
                dirs,
            ),
    ensures
        admitted_files(es, exts, dirs).len() == 0,
    decreases es.len(),
{
    if es.len() > 0 {
        assert(forall|i: int|
            0 <= i < es.drop_last().len() ==> (#[trigger] es.drop_last()[i]) == es[i]);
        lemma_admitted_files_none(es.drop_last(), exts, dirs);
    }
}

/// A directory whose entries are all rejected by the admission filter —
/// every one inside an ignored directory, or none carrying an accepted
/// extension — imports as an empty submission and is reported so,
/// provided its name parses at all.
pub proof fn lemma_rejected_folder_is_empty(
    name: Option<String>,
    files: Seq<FolderFile>,
    exts: Seq<Seq<char>>,
    dirs: Seq<Seq<char>>,
    pat: FileNamePattern,
)
    requires
        name matches Some(n) && parse_name_spec(n@, pat) is Ok,
        forall|i: int|
            0 <= i < files.len() ==> !path_allowed_spec(
                normalize_slashes((#[trigger] files[i]).relative_path@),
                exts,
                dirs,
            ),
    ensures
        folder_outcome(name, files, exts, dirs, pat) == Err::<SubmissionView, _>(
            FileErrorKind::EmptySubmission,
        ),
{
    let es = folder_entries(files);
    assert(forall|i: int|
        0 <= i < es.len() ==> !path_allowed_spec(
            normalize_slashes((#[trigger] es[i]).0),
            exts,
            dirs,
        )) by {
        assert(forall|i: int|
            0 <= i < es.len() ==> (#[trigger] es[i]).0 == files[i].relative_path@);
    }
    lemma_admitted_files_none(es, exts, dirs);
}

/// An entry whose content cannot be extracted contributes nothing: the
/// archive yields exactly the files of the remaining entries.
pub proof fn lemma_corrupt_entry_skipped(
    es: Seq<(Seq<char>, Option<Seq<u8>>)>,
    i: int,
    exts: Seq<Seq<char>>,
    dirs: Seq<Seq<char>>,
)
    requires
        0 <= i < es.len(),
        es[i].1 is None,
    ensures
        admitted_files(es, exts, dirs) =~~= admitted_files(es.remove(i), exts, dirs),
    decreases es.len(),
{
    if i == es.len() - 1 {
        assert(es.remove(i) =~~= es.drop_last());
    } else {
        assert(es.drop_last().remove(i) =~~= es.remove(i).drop_last());
        assert(es.drop_last()[i] == es[i]);
        lemma_corrupt_entry_skipped(es.drop_last(), i, exts, dirs);
        assert(es.remove(i).last() == es.last());
    }
}

} // verus!
