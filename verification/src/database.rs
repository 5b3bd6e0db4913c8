//! The container: a collection of submissions plus metadata and
//! settings, persisted as one deflate-compressed archive.

use crate::pattern::FileNamePattern;
use crate::submission::{Submission, SubmissionView, opt_str_view, CodeFile, CodeFileView,
    SubmissionMetadata, SubmissionMetadataView};
use crate::archive::{archive_data_at, archive_len, archive_model, archive_name_at, entries_model,
    utf8_to_string, write_archive, ArchiveEntry};
use crate::chars::{extend_str_chars, extend_vec_chars, chars_string, chars_eq_str, join_with,
    lemma_join_append, lemma_join_split, lemma_split_join, lemma_split_on_len,
    lemma_split_on_parts_free, split_chars, split_on, str_chars, views_of};
use crate::json::{meta_json, settings_json, parse_meta_doc, parse_settings_doc, emit_metadata,
    emit_settings};
use vstd::prelude::*;
use vstd::multiset::Multiset;
use vstd::utf8::{encode_utf8, valid_utf8, decode_utf8};

verus! {

/// The settings persisted with a container.
#[derive(Debug, Clone, Copy, PartialEq, Eq, Structural)]
pub struct DatabaseSettings {
    pub file_name_pattern: FileNamePattern,
}

impl Default for DatabaseSettings {
    /// The default settings carry the default naming pattern.
    fn default() -> (r: Self)
        ensures
            r.file_name_pattern == (FileNamePattern::StudentTask { separator: '_' }),
    {
        DatabaseSettings { file_name_pattern: FileNamePattern::StudentTask { separator: '_' } }
    }
}

/// Identity of a container: a fresh opaque id, a display name, an
/// optional description, and a schema version tag.
#[derive(Debug)]
pub struct DatabaseMetadata {
    pub id: String,
    pub name: String,
    pub description: Option<String>,
    pub version: i16,
}

pub ghost struct DatabaseMetadataView {
    pub id: Seq<char>,
    pub name: Seq<char>,
    pub description: Option<Seq<char>>,
    pub version: int,
}

impl View for DatabaseMetadata {
    type V = DatabaseMetadataView;

    open spec fn view(&self) -> DatabaseMetadataView {
        DatabaseMetadataView {
            id: self.id@,
            name: self.name@,
            description: opt_str_view(self.description),
            version: self.version as int,
        }
    }
}

/// The shape of a freshly generated identifier: 36 characters, with a
/// hyphen at each of the four standard positions and a lower-case
/// hexadecimal digit everywhere else.
pub open spec fn hyphenated_id(s: Seq<char>) -> bool {
    &&& s.len() == 36
    &&& forall|i: int|
        0 <= i < 36 && (i == 8 || i == 13 || i == 18 || i == 23) ==> #[trigger] s[i] == '-'
    &&& forall|i: int|
        0 <= i < 36 && !(i == 8 || i == 13 || i == 18 || i == 23) ==> crate::json::hex_val(
            #[trigger] s[i],
        ) < 16
}

/// Relies on uuid::Uuid::new_v4 and its Display rendering: a fresh
/// random identifier in the hyphenated lower-case form.
#[verifier::external_body]
fn fresh_id() -> (r: String)
    ensures
        r@.len() == 36,
        hyphenated_id(r@),
{
    uuid::Uuid::new_v4().to_string()
}

impl DatabaseMetadata {
    /// Fresh metadata with a newly generated identifier and version 1.
    pub fn new(name: String, description: Option<String>) -> (r: Self)
        ensures
            r.name@ == name@,
            opt_str_view(r.description) == opt_str_view(description),
            r.version == 1,
            r.id@.len() == 36,
            hyphenated_id(r.id@),
    {
        DatabaseMetadata { id: fresh_id(), name, description, version: 1 }
    }
}

/// A container load failed on its structure.
#[derive(Debug)]
pub enum DatabaseError {
    InvalidPattern(String),
    MissingMetadata,
}

/// The container: identity, settings, and the submissions it owns.
/// `is_dirty` is true from construction and after mutation; it turns
/// false only on a successful save or load.
#[derive(Debug)]
pub struct Database {
    pub file_path: String,
    pub is_dirty: bool,
    pub meta: DatabaseMetadata,
    pub settings: DatabaseSettings,
    pub submissions: Vec<Submission>,
}

pub ghost struct DatabaseView {
    pub file_path: Seq<char>,
    pub is_dirty: bool,
    pub meta: DatabaseMetadataView,
    pub settings: DatabaseSettings,
    pub submissions: Seq<SubmissionView>,
}

impl View for Database {
    type V = DatabaseView;

    open spec fn view(&self) -> DatabaseView {
        DatabaseView {
            file_path: self.file_path@,
            is_dirty: self.is_dirty,
            meta: self.meta@,
            settings: self.settings,
            submissions: self.submissions@.map_values(|s: Submission| s@),
        }
    }
}

impl Database {
    /// A fresh container: dirty, versioned metadata with a new id, and
    /// no submissions yet.
    pub fn new(name: String, description: Option<String>, settings: DatabaseSettings, path: String)
        -> (r: Self)
        ensures
            r@.file_path == path@,
            r@.is_dirty == true,
            r@.meta.name == name@,
            r@.meta.description == opt_str_view(description),
            r@.meta.version == 1,
            r@.meta.id.len() == 36,
            hyphenated_id(r@.meta.id),
            r@.settings == settings,
            r@.submissions.len() == 0,
    {
        Database {
            file_path: path,
            is_dirty: true,
            meta: DatabaseMetadata::new(name, description),
            settings,
            submissions: Vec::new(),
        }
    }

    /// Appends an imported submission; the container turns dirty.
    pub fn attach_submission(&mut self, submission: Submission)
        ensures
            final(self)@.submissions =~~= old(self)@.submissions.push(submission@),
            final(self)@.is_dirty == true,
            final(self)@.meta == old(self)@.meta,
            final(self)@.settings == old(self)@.settings,
            final(self)@.file_path == old(self)@.file_path,
    {
        self.submissions.push(submission);
        self.is_dirty = true;
    }
}


/// A container operation failed as a whole.
#[derive(Debug)]
pub enum LibError {
    Io(crate::io::IoError),
    Zip(String),
    Json(String),
    Database(DatabaseError),
}

/// The parts whose join makes one stored entry name.
pub open spec fn entry_parts_of(m: SubmissionMetadataView, rel: Seq<char>) -> Seq<Seq<char>> {
    match m.assignment_title {
        Some(a) => seq!["submissions"@, m.student_name, a, rel],
        None => seq!["submissions"@, m.student_name, rel],
    }
}

/// Where one file of a submission is stored inside the container.
pub open spec fn entry_name_of(m: SubmissionMetadataView, rel: Seq<char>) -> Seq<char> {
    join_with(entry_parts_of(m, rel), '/')
}

/// The entries one submission contributes, in file order.
pub open spec fn sub_entries(s: SubmissionView) -> Seq<(Seq<char>, Option<Seq<u8>>)> {
    s.files.map_values(
        |f: CodeFileView| (entry_name_of(s.metadata, f.relative_path), Some(encode_utf8(f.content))),
    )
}

/// The entries of all submissions, in order.
pub open spec fn all_sub_entries(subs: Seq<SubmissionView>) -> Seq<(Seq<char>, Option<Seq<u8>>)>
    decreases subs.len(),
{
    if subs.len() == 0 {
        Seq::<(Seq<char>, Option<Seq<u8>>)>::empty()
    } else {
        all_sub_entries(subs.drop_last()) + sub_entries(subs.last())
    }
}

/// Exactly what a saved container holds: the two documents, then every
/// submission file under its path-encoded name.
pub open spec fn save_entries(db: DatabaseView) -> Seq<(Seq<char>, Option<Seq<u8>>)> {
    seq![
        ("meta.json"@, Some(encode_utf8(meta_json(db.meta)))),
        ("settings.json"@, Some(encode_utf8(settings_json(db.settings)))),
    ] + all_sub_entries(db.submissions)
}

/// Builds the stored name of one submission file.
fn build_entry_name(meta: &SubmissionMetadata, rel: &str) -> (r: String)
    ensures
        r@ == entry_name_of(meta@, rel@),
{
    let mut out: Vec<char> = Vec::new();
    extend_str_chars(&mut out, "submissions");
    out.push('/');
    extend_str_chars(&mut out, meta.student_name.as_str());
    match &meta.assignment_title {
        Some(a) => {
            out.push('/');
            extend_str_chars(&mut out, a.as_str());
            out.push('/');
            extend_str_chars(&mut out, rel);
            proof {
                let parts = entry_parts_of(meta@, rel@);
                assert(parts.drop_first() =~~= seq![meta.student_name@, a@, rel@]);
                assert(seq![meta.student_name@, a@, rel@].drop_first() =~~= seq![a@, rel@]);
                assert(seq![a@, rel@].drop_first() =~~= seq![rel@]);
                assert(join_with(seq![rel@], '/') == rel@);
                assert(join_with(seq![a@, rel@], '/') == a@ + seq!['/'] + rel@);
                assert(join_with(seq![meta.student_name@, a@, rel@], '/') == meta.student_name@
                    + seq!['/'] + (a@ + seq!['/'] + rel@));
                assert(out@ =~= entry_name_of(meta@, rel@));
            }
        },
        None => {
            out.push('/');
            extend_str_chars(&mut out, rel);
            proof {
                let parts = entry_parts_of(meta@, rel@);
                assert(parts.drop_first() =~~= seq![meta.student_name@, rel@]);
                assert(seq![meta.student_name@, rel@].drop_first() =~~= seq![rel@]);
                assert(join_with(seq![rel@], '/') == rel@);
                assert(join_with(seq![meta.student_name@, rel@], '/') == meta.student_name@
                    + seq!['/'] + rel@);
                assert(out@ =~= entry_name_of(meta@, rel@));
            }
        },
    }
    chars_string(&out)
}

impl Database {
    /// Renders the container as one compressed archive: `meta.json`,
    /// `settings.json`, and one entry per submission file at
    /// `submissions/<student>[/<assignment>]/<relative path>`.
    pub fn save_to_bytes(&self) -> (r: Result<Vec<u8>, LibError>)
        ensures
            r matches Ok(bytes) ==> archive_model(bytes@) == Some(save_entries(self@)),
            r is Err ==> r matches Err(LibError::Zip(_)),
            saveable(self@) && distinct_keys(self@.submissions) && distinct_file_paths(
                self@.submissions,
            ) && entries_fit(save_entries(self@)) ==> r is Ok,
    {
        let mut entries: Vec<ArchiveEntry> = Vec::new();
        let meta_text = emit_metadata(&self.meta);
        let settings_text = emit_settings(&self.settings);
        entries.push(
            ArchiveEntry {
                name: "meta.json".to_owned(),
                data: vstd::string::StrSliceExecFns::as_bytes_vec(meta_text.as_str()),
            },
        );
        entries.push(
            ArchiveEntry {
                name: "settings.json".to_owned(),
                data: vstd::string::StrSliceExecFns::as_bytes_vec(settings_text.as_str()),
            },
        );
        let ghost base = seq![
            ("meta.json"@, Some(encode_utf8(meta_json(self@.meta)))),
            ("settings.json"@, Some(encode_utf8(settings_json(self@.settings)))),
        ];
        proof {
            assert(entries_model(entries@) =~~= base);
        }
        let ghost subs = self@.submissions;
        let mut i: usize = 0;
        while i < self.submissions.len()
            invariant
                i <= self.submissions@.len(),
                subs == self@.submissions,
                base == seq![
                    ("meta.json"@, Some(encode_utf8(meta_json(self@.meta)))),
                    ("settings.json"@, Some(encode_utf8(settings_json(self@.settings)))),
                ],
                entries_model(entries@) =~~= base + all_sub_entries(subs.take(i as int)),
            decreases self.submissions@.len() - i,
        {
            let sub = &self.submissions[i];
            let mut j: usize = 0;
            while j < sub.files.len()
                invariant
                    j <= sub.files@.len(),
                    sub == self.submissions@[i as int],
                    i < self.submissions@.len(),
                    subs == self@.submissions,
                    entries_model(entries@) =~~= base + all_sub_entries(subs.take(i as int))
                        + sub_entries(subs[i as int]).take(j as int),
                decreases sub.files@.len() - j,
            {
                let f = &sub.files[j];
                let name = build_entry_name(&sub.metadata, f.relative_path.as_str());
                entries.push(
                    ArchiveEntry {
                        name,
                        data: vstd::string::StrSliceExecFns::as_bytes_vec(f.content.as_str()),
                    },
                );
                j = j + 1;
                proof {
                    assert(subs[i as int] == sub@);
                    assert(subs[i as int].files[j as int - 1] == f@);
                    assert(sub_entries(subs[i as int])[j as int - 1] == (
                        entry_name_of(subs[i as int].metadata, f@.relative_path),
                        Some(encode_utf8(f@.content)),
                    ));
                    let prev = base + all_sub_entries(subs.take(i as int)) + sub_entries(
                        subs[i as int],
                    ).take(j as int - 1);
                    assert(entries_model(entries@) =~~= prev.push(
                        (entry_name_of(sub@.metadata, f@.relative_path), Some(
                            encode_utf8(f@.content),
                        )),
                    ));
                    assert(sub_entries(subs[i as int]).take(j as int) =~~= sub_entries(
                        subs[i as int],
                    ).take(j as int - 1).push(sub_entries(subs[i as int])[j as int - 1]));
                    assert(entries_model(entries@) =~~= base + all_sub_entries(
                        subs.take(i as int),
                    ) + sub_entries(subs[i as int]).take(j as int));
                }
            }
            i = i + 1;
            proof {
                assert(sub_entries(subs[i as int - 1]).take(sub.files@.len() as int)
                    =~~= sub_entries(subs[i as int - 1]));
                assert(subs.take(i as int).drop_last() =~~= subs.take(i as int - 1));
                assert(subs.take(i as int).last() == subs[i as int - 1]);
                assert(all_sub_entries(subs.take(i as int)) =~~= all_sub_entries(
                    subs.take(i as int - 1),
                ) + sub_entries(subs[i as int - 1]));
                assert(entries_model(entries@) =~~= base + all_sub_entries(subs.take(i as int)));
            }
        }
        proof {
            assert(subs.take(subs.len() as int) =~= subs);
            assert(entries_model(entries@) =~~= save_entries(self@));
        }
        match write_archive(&entries) {
            Ok(bytes) => Ok(bytes),
            Err(detail) => {
                proof {
                    if saveable(self@) && distinct_keys(self@.submissions) && distinct_file_paths(
                        self@.submissions,
                    ) && entries_fit(save_entries(self@)) {
                        lemma_save_names_distinct(self@);
                        let es = save_entries(self@);
                        assert(forall|i: int|
                            0 <= i < entries@.len() ==> (#[trigger] entries@[i]).name@
                                == es[i].0 && Some(entries@[i].data@) == es[i].1) by {
                            assert(forall|i: int|
                                0 <= i < entries@.len() ==> entries_model(entries@)[i] == (
                                (#[trigger] entries@[i]).name@,
                                Some(entries@[i].data@),
                            ));
                        }
                        assert(forall|i: int, j: int|
                            0 <= i < j < entries@.len() ==> (#[trigger] entries@[i]).name@ != (
                            #[trigger] entries@[j]).name@);
                        assert(forall|i: int|
                            0 <= i < entries@.len() ==> encode_utf8(
                                (#[trigger] entries@[i]).name@,
                            ).len() <= 65535);
                        assert(forall|i: int|
                            0 <= i < entries@.len() ==> (#[trigger] entries@[i]).data@.len()
                                < 0xFFF00000) by {
                            assert forall|i: int|
                                0 <= i < entries@.len() implies (
                            #[trigger] entries@[i]).data@.len() < 0xFFF00000 by {
                                assert(es[i].1 matches Some(d) && d.len() < 0xFFF00000);
                                assert(Some(entries@[i].data@) == es[i].1);
                            }
                        }
                        assert(false);
                    }
                }
                Err(LibError::Zip(detail))
            },
        }
    }

    /// Records that the current state reached disk.
    pub fn mark_saved(&mut self)
        ensures
            final(self)@.is_dirty == false,
            final(self)@.meta == old(self)@.meta,
            final(self)@.settings == old(self)@.settings,
            final(self)@.submissions == old(self)@.submissions,
            final(self)@.file_path == old(self)@.file_path,
    {
        self.is_dirty = false;
    }
}


/// The structural failure kinds of a load.
pub ghost enum LoadErrorKind {
    Zip,
    MissingMetadata,
    Io,
    Json,
}

pub open spec fn load_error_kind(e: LibError) -> LoadErrorKind {
    match e {
        LibError::Zip(_) => LoadErrorKind::Zip,
        LibError::Io(_) => LoadErrorKind::Io,
        LibError::Json(_) => LoadErrorKind::Json,
        LibError::Database(_) => LoadErrorKind::MissingMetadata,
    }
}

/// The content of the first entry bearing this name, if any does.
pub open spec fn entry_named(es: Seq<(Seq<char>, Option<Seq<u8>>)>, name: Seq<char>) -> Option<
    Option<Seq<u8>>,
>
    decreases es.len(),
{
    if es.len() == 0 {
        None
    } else if es[0].0 == name {
        Some(es[0].1)
    } else {
        entry_named(es.drop_first(), name)
    }
}

pub proof fn lemma_entry_named_at(
    es: Seq<(Seq<char>, Option<Seq<u8>>)>,
    name: Seq<char>,
    i: int,
)
    requires
        0 <= i < es.len(),
        es[i].0 == name,
        forall|j: int| 0 <= j < i ==> es[j].0 != name,
    ensures
        entry_named(es, name) == Some(es[i].1),
    decreases i,
{
    if i == 0 {
    } else {
        assert(es[0].0 != name);
        assert(es.drop_first()[i - 1] == es[i]);
        lemma_entry_named_at(es.drop_first(), name, i - 1);
    }
}

pub proof fn lemma_entry_named_none(es: Seq<(Seq<char>, Option<Seq<u8>>)>, name: Seq<char>)
    requires
        forall|j: int| 0 <= j < es.len() ==> (#[trigger] es[j]).0 != name,
    ensures
        entry_named(es, name) is None,
    decreases es.len(),
{
    if es.len() > 0 {
        assert(es[0].0 != name);
        assert(forall|j: int|
            0 <= j < es.drop_first().len() ==> (#[trigger] es.drop_first()[j]) == es[j + 1]);
        lemma_entry_named_none(es.drop_first(), name);
    }
}

/// A stored name that marks a directory rather than a file.
pub open spec fn is_dir_name(name: Seq<char>) -> bool {
    name.len() > 0 && name.last() == '/'
}

/// How an entry name inside `submissions/` decomposes under the loaded
/// pattern: the student, the assignment where the pattern carries one,
/// and the remaining relative path. Entries of any other shape are not
/// submission files.
pub open spec fn relevant_spec(name: Seq<char>, pat: FileNamePattern) -> Option<
    (Seq<char>, Option<Seq<char>>, Seq<char>),
> {
    let parts = split_on(name, '/');
    if parts[0] != "submissions"@ {
        None
    } else {
        match pat {
            FileNamePattern::StudentOnly => if parts.len() >= 3 {
                Some((parts[1], None, join_with(parts.skip(2), '/')))
            } else {
                None
            },
            _ => if parts.len() >= 4 {
                Some((parts[1], Some(parts[2]), join_with(parts.skip(3), '/')))
            } else {
                None
            },
        }
    }
}

/// The position of the submission holding this metadata, or -1.
pub open spec fn group_idx(groups: Seq<SubmissionView>, key: SubmissionMetadataView) -> int
    decreases groups.len(),
{
    if groups.len() == 0 {
        -1
    } else if groups[0].metadata == key {
        0
    } else {
        let r = group_idx(groups.drop_first(), key);
        if r == -1 {
            -1
        } else {
            1 + r
        }
    }
}

pub proof fn lemma_group_idx_at(groups: Seq<SubmissionView>, key: SubmissionMetadataView, i: int)
    requires
        0 <= i < groups.len(),
        groups[i].metadata == key,
        forall|j: int| 0 <= j < i ==> (#[trigger] groups[j]).metadata != key,
    ensures
        group_idx(groups, key) == i,
    decreases i,
{
    if i == 0 {
    } else {
        assert(groups[0].metadata != key);
        assert(groups.drop_first()[i - 1] == groups[i]);
        assert(forall|j: int|
            0 <= j < i - 1 ==> (#[trigger] groups.drop_first()[j]) == groups[j + 1]);
        lemma_group_idx_at(groups.drop_first(), key, i - 1);
    }
}

pub proof fn lemma_group_idx_none(groups: Seq<SubmissionView>, key: SubmissionMetadataView)
    requires
        forall|j: int| 0 <= j < groups.len() ==> (#[trigger] groups[j]).metadata != key,
    ensures
        group_idx(groups, key) == -1,
    decreases groups.len(),
{
    if groups.len() > 0 {
        assert(forall|j: int|
            0 <= j < groups.drop_first().len() ==> (#[trigger] groups.drop_first()[j]) == groups[j
                + 1]);
        lemma_group_idx_none(groups.drop_first(), key);
    }
}

/// Files group by (student, assignment): a file joins its group, or
/// opens a new group at the end.
pub open spec fn insert_file(
    groups: Seq<SubmissionView>,
    key: SubmissionMetadataView,
    f: CodeFileView,
) -> Seq<SubmissionView> {
    let i = group_idx(groups, key);
    if i == -1 {
        groups.push(SubmissionView { metadata: key, files: seq![f] })
    } else {
        groups.update(i, SubmissionView { metadata: key, files: groups[i].files.push(f) })
    }
}

/// How one stored entry changes the grouped submissions: directories
/// and foreign shapes pass by; a submission file that cannot be
/// extracted fails the load; one that is not valid UTF-8 is dropped.
pub open spec fn gather_step(
    groups: Seq<SubmissionView>,
    entry: (Seq<char>, Option<Seq<u8>>),
    pat: FileNamePattern,
) -> Option<Seq<SubmissionView>> {
    if is_dir_name(entry.0) {
        Some(groups)
    } else {
        match relevant_spec(entry.0, pat) {
            None => Some(groups),
            Some((student, assignment, rel)) => match entry.1 {
                None => None,
                Some(d) => if !valid_utf8(d) {
                    Some(groups)
                } else {
                    Some(
                        insert_file(
                            groups,
                            SubmissionMetadataView {
                                student_name: student,
                                assignment_title: assignment,
                            },
                            CodeFileView {
                                relative_path: rel,
                                content: decode_utf8(d),
                                extension: crate::io::ext_or_empty(rel),
                            },
                        ),
                    )
                },
            },
        }
    }
}

/// The submissions a container's entries yield, in first-seen order.
pub open spec fn gather_files(
    es: Seq<(Seq<char>, Option<Seq<u8>>)>,
    pat: FileNamePattern,
) -> Option<Seq<SubmissionView>>
    decreases es.len(),
{
    if es.len() == 0 {
        Some(Seq::<SubmissionView>::empty())
    } else {
        match gather_files(es.drop_last(), pat) {
            None => None,
            Some(groups) => gather_step(groups, es.last(), pat),
        }
    }
}

/// What loading a container's entries yields: metadata is mandatory,
/// settings fall back to the default, and the remaining entries are
/// grouped into submissions.
pub open spec fn load_model(es: Seq<(Seq<char>, Option<Seq<u8>>)>, path: Seq<char>) -> Result<
    DatabaseView,
    LoadErrorKind,
> {
    match entry_named(es, "meta.json"@) {
        None => Err(LoadErrorKind::MissingMetadata),
        Some(None) => Err(LoadErrorKind::Io),
        Some(Some(mb)) => if !valid_utf8(mb) {
            Err(LoadErrorKind::Io)
        } else {
            match parse_meta_doc(decode_utf8(mb)) {
                None => Err(LoadErrorKind::Json),
                Some(meta) => match entry_named(es, "settings.json"@) {
                    Some(None) => Err(LoadErrorKind::Io),
                    Some(Some(sb)) => if !valid_utf8(sb) {
                        Err(LoadErrorKind::Io)
                    } else {
                        match parse_settings_doc(decode_utf8(sb)) {
                            None => Err(LoadErrorKind::Json),
                            Some(settings) => load_assemble(es, path, meta, settings),
                        }
                    },
                    None => load_assemble(
                        es,
                        path,
                        meta,
                        DatabaseSettings {
                            file_name_pattern: FileNamePattern::StudentTask { separator: '_' },
                        },
                    ),
                },
            }
        },
    }
}

pub open spec fn load_assemble(
    es: Seq<(Seq<char>, Option<Seq<u8>>)>,
    path: Seq<char>,
    meta: DatabaseMetadataView,
    settings: DatabaseSettings,
) -> Result<DatabaseView, LoadErrorKind> {
    match gather_files(es, settings.file_name_pattern) {
        None => Err(LoadErrorKind::Io),
        Some(groups) => Ok(
            DatabaseView {
                file_path: path,
                is_dirty: false,
                meta,
                settings,
                submissions: groups,
            },
        ),
    }
}


/// Looks up the first entry bearing the given name.
fn find_named(bytes: &Vec<u8>, count: usize, target: &str) -> (r: Option<usize>)
    requires
        archive_model(bytes@) is Some,
        count == archive_model(bytes@).unwrap().len(),
    ensures
        ({
            let es = archive_model(bytes@).unwrap();
            match r {
                Some(i) => i < count && entry_named(es, target@) == Some(es[i as int].1),
                None => entry_named(es, target@) is None,
            }
        }),
{
    let ghost es = archive_model(bytes@).unwrap();
    let mut i: usize = 0;
    while i < count
        invariant
            i <= count,
            archive_model(bytes@) == Some(es),
            count == es.len(),
            forall|j: int| 0 <= j < i ==> (#[trigger] es[j]).0 != target@,
        decreases count - i,
    {
        let name = archive_name_at(bytes, i);
        let nc = str_chars(name.as_str());
        if chars_eq_str(&nc, target) {
            proof {
                lemma_entry_named_at(es, target@, i as int);
            }
            return Some(i);
        }
        i = i + 1;
    }
    proof {
        lemma_entry_named_none(es, target@);
    }
    None
}

/// Splits a stored entry name into student, assignment and relative
/// path according to the pattern, where its shape allows.
fn relevant_exec(name_chars: &Vec<char>, pattern: &FileNamePattern) -> (r: Option<
    (String, Option<String>, Vec<char>),
>)
    ensures
        match r {
            Some(t) => relevant_spec(name_chars@, *pattern) == Some(
                (t.0@, opt_str_view(t.1), t.2@),
            ),
            None => relevant_spec(name_chars@, *pattern) is None,
        },
{
    let parts = split_chars(name_chars, '/');
    let ghost segs = split_on(name_chars@, '/');
    proof {
        lemma_split_on_len(name_chars@, '/');
        assert(views_of(parts@) =~~= segs);
        assert(views_of(parts@).len() == segs.len());
    }
    if !chars_eq_str(&parts[0], "submissions") {
        proof {
            assert(views_of(parts@)[0] == parts@[0]@);
        }
        return None;
    }
    proof {
        assert(views_of(parts@)[0] == parts@[0]@);
    }
    let arity: usize = match pattern {
        FileNamePattern::StudentOnly => 3,
        _ => 4,
    };
    if parts.len() < arity {
        return None;
    }
    proof {
        assert(views_of(parts@)[1] == parts@[1]@);
    }
    let student = chars_string(&parts[1]);
    let (assignment, k): (Option<String>, usize) = match pattern {
        FileNamePattern::StudentOnly => (None, 2),
        _ => {
            proof {
                assert(views_of(parts@)[2] == parts@[2]@);
            }
            (Some(chars_string(&parts[2])), 3)
        },
    };
    let mut rel: Vec<char> = Vec::new();
    extend_vec_chars(&mut rel, &parts[k]);
    proof {
        assert(segs.subrange(k as int, k as int + 1) =~~= seq![segs[k as int]]);
        assert(views_of(parts@)[k as int] == parts@[k as int]@);
        assert(rel@ =~= join_with(segs.subrange(k as int, k as int + 1), '/'));
    }
    let mut t = k + 1;
    while t < parts.len()
        invariant
            k < t <= parts@.len(),
            k + 2 <= segs.len() + 1,
            segs == split_on(name_chars@, '/'),
            views_of(parts@) =~~= segs,
            rel@ =~= join_with(segs.subrange(k as int, t as int), '/'),
        decreases parts@.len() - t,
    {
        rel.push('/');
        extend_vec_chars(&mut rel, &parts[t]);
        t = t + 1;
        proof {
            let a = segs.subrange(k as int, t as int - 1);
            let b = seq![segs[t as int - 1]];
            lemma_join_append(a, b, '/');
            assert(a + b =~~= segs.subrange(k as int, t as int));
            assert(join_with(b, '/') == segs[t as int - 1]);
            assert(views_of(parts@)[t as int - 1] == parts@[t as int - 1]@);
            assert(rel@ =~= join_with(segs.subrange(k as int, t as int), '/'));
        }
    }
    proof {
        assert(segs.subrange(k as int, segs.len() as int) =~~= segs.skip(k as int));
    }
    Some((student, assignment, rel))
}

impl Database {
    /// Reconstructs a container from the bytes of its archive:
    /// `meta.json` is mandatory, `settings.json` falls back to the
    /// default, and every well-shaped entry under `submissions/` is
    /// grouped by student and assignment. The result is clean.
    pub fn load_from_bytes(path: String, bytes: &Vec<u8>) -> (r: Result<Database, LibError>)
        ensures
            match r {
                Ok(db) => archive_model(bytes@) is Some && load_model(
                    archive_model(bytes@).unwrap(),
                    path@,
                ) == Ok::<_, LoadErrorKind>(db@),
                Err(e) => (archive_model(bytes@) is None && e matches LibError::Zip(_)) || (
                archive_model(bytes@) is Some && load_model(archive_model(bytes@).unwrap(), path@)
                    == Err::<DatabaseView, _>(load_error_kind(e))),
            },
    {
        let count = match archive_len(bytes) {
            Ok(c) => c,
            Err(detail) => {
                return Err(LibError::Zip(detail));
            },
        };
        let ghost es = archive_model(bytes@).unwrap();
        let meta_bytes = match find_named(bytes, count, "meta.json") {
            None => {
                return Err(LibError::Database(DatabaseError::MissingMetadata));
            },
            Some(i) => match archive_data_at(bytes, i) {
                Ok(d) => d,
                Err(detail) => {
                    return Err(LibError::Io(crate::io::IoError::Read(detail)));
                },
            },
        };
        let meta_text = match utf8_to_string(&meta_bytes) {
            Some(t) => t,
            None => {
                return Err(LibError::Io(crate::io::IoError::Read("metadata entry is not valid UTF-8".to_owned())));
            },
        };
        let meta = match crate::json::parse_metadata(meta_text.as_str()) {
            Some(m) => m,
            None => {
                return Err(LibError::Json("metadata entry has an unexpected shape".to_owned()));
            },
        };
        let settings = match find_named(bytes, count, "settings.json") {
            None => DatabaseSettings::default(),
            Some(i) => {
                let sb = match archive_data_at(bytes, i) {
                    Ok(d) => d,
                    Err(detail) => {
                        return Err(LibError::Io(crate::io::IoError::Read(detail)));
                    },
                };
                let st = match utf8_to_string(&sb) {
                    Some(t) => t,
                    None => {
                        return Err(LibError::Io(crate::io::IoError::Read("settings entry is not valid UTF-8".to_owned())));
                    },
                };
                match crate::json::parse_settings(st.as_str()) {
                    Some(s) => s,
                    None => {
                        return Err(
                            LibError::Json("settings entry has an unexpected shape".to_owned()),
                        );
                    },
                }
            },
        };
        proof {
            assert(load_model(es, path@) == load_assemble(es, path@, meta@, settings));
        }
        let ghost expected_settings = settings;
        let mut groups: Vec<Submission> = Vec::new();
        let mut i: usize = 0;
        while i < count
            invariant
                i <= count,
                archive_model(bytes@) == Some(es),
                count == es.len(),
                settings == expected_settings,
                load_model(es, path@) == load_assemble(es, path@, meta@, settings),
                gather_files(es.take(i as int), settings.file_name_pattern) == Some(
                    groups@.map_values(|s: Submission| s@),
                ),
            decreases count - i,
        {
            let ghost groups_pre = groups@.map_values(|s: Submission| s@);
            let name = archive_name_at(bytes, i);
            let nc = str_chars(name.as_str());
            let n = nc.len();
            let mut handled = false;
            if n > 0 && nc[n - 1] == '/' {
                handled = true;
            }
            if !handled {
                proof {
                    assert(!is_dir_name(es[i as int].0));
                }
                match relevant_exec(&nc, &settings.file_name_pattern) {
                    None => {},
                    Some((student, assignment, rel_chars)) => {
                        let d = match archive_data_at(bytes, i) {
                            Ok(d) => d,
                            Err(detail) => {
                                proof {
                                    assert(gather_step(
                                        groups_pre,
                                        es[i as int],
                                        settings.file_name_pattern,
                                    ) is None);
                                    assert(es.take(i as int + 1).drop_last() =~~= es.take(
                                        i as int,
                                    ));
                                    assert(es.take(i as int + 1).last() == es[i as int]);
                                    assert(gather_files(
                                        es.take(i as int + 1),
                                        settings.file_name_pattern,
                                    ) is None);
                                    lemma_gather_none_extends(
                                        es,
                                        i as int + 1,
                                        settings.file_name_pattern,
                                    );
                                }
                                return Err(LibError::Io(crate::io::IoError::Read(detail)));
                            },
                        };
                        match utf8_to_string(&d) {
                            None => {},
                            Some(content) => {
                                let file = CodeFile {
                                    relative_path: chars_string(&rel_chars),
                                    content,
                                    extension: crate::io::extension_string(&rel_chars),
                                };
                                push_grouped(&mut groups, student, assignment, file);
                            },
                        }
                    },
                }
            }
            i = i + 1;
            proof {
                assert(es.take(i as int).drop_last() =~~= es.take(i as int - 1));
                assert(es.take(i as int).last() == es[i as int - 1]);
                assert(gather_files(es.take(i as int), settings.file_name_pattern) == Some(
                    groups@.map_values(|s: Submission| s@),
                ));
            }
        }
        proof {
            assert(es.take(es.len() as int) =~= es);
        }
        Ok(Database { file_path: path, is_dirty: false, meta, settings, submissions: groups })
    }
}

/// Once gathering fails, it fails for every longer prefix.
proof fn lemma_gather_none_extends(
    es: Seq<(Seq<char>, Option<Seq<u8>>)>,
    i: int,
    pat: FileNamePattern,
)
    requires
        0 <= i <= es.len(),
        gather_files(es.take(i), pat) is None,
    ensures
        gather_files(es, pat) is None,
    decreases es.len() - i,
{
    if i == es.len() {
        assert(es.take(i) =~= es);
    } else {
        assert(es.take(i + 1).drop_last() =~~= es.take(i));
        lemma_gather_none_extends(es, i + 1, pat);
    }
}

/// Appends a loaded file to its group, or opens a new group.
fn push_grouped(
    groups: &mut Vec<Submission>,
    student: String,
    assignment: Option<String>,
    file: CodeFile,
)
    ensures
        final(groups)@.map_values(|s: Submission| s@) =~~= insert_file(
            old(groups)@.map_values(|s: Submission| s@),
            SubmissionMetadataView {
                student_name: student@,
                assignment_title: opt_str_view(assignment),
            },
            file@,
        ),
{
    let ghost key = SubmissionMetadataView {
        student_name: student@,
        assignment_title: opt_str_view(assignment),
    };
    let ghost gv = old(groups)@.map_values(|s: Submission| s@);
    let mut i: usize = 0;
    while i < groups.len()
        invariant
            i <= groups@.len(),
            groups@ == old(groups)@,
            gv == old(groups)@.map_values(|s: Submission| s@),
            key == (SubmissionMetadataView {
                student_name: student@,
                assignment_title: opt_str_view(assignment),
            }),
            forall|j: int| 0 <= j < i ==> (#[trigger] gv[j]).metadata != key,
        decreases groups@.len() - i,
    {
        let same_student = crate::chars::str_eq(
            groups[i].metadata.student_name.as_str(),
            student.as_str(),
        );
        let same_assignment = match (&groups[i].metadata.assignment_title, &assignment) {
            (Some(a), Some(b)) => crate::chars::str_eq(a.as_str(), b.as_str()),
            (None, None) => true,
            _ => false,
        };
        if same_student && same_assignment {
            proof {
                assert(gv[i as int] == groups@[i as int]@);
                assert(gv[i as int].metadata == key);
                lemma_group_idx_at(gv, key, i as int);
            }
            let mut g = groups.remove(i);
            proof {
                assert(g@ == gv[i as int]);
            }
            g.files.push(file);
            groups.insert(i, g);
            proof {
                assert(g@.metadata == key);
                assert(g@.files =~~= gv[i as int].files.push(file@));
                let expected = gv.update(
                    i as int,
                    SubmissionView { metadata: key, files: gv[i as int].files.push(file@) },
                );
                assert forall|t: int| 0 <= t < groups@.len() implies groups@.map_values(
                    |s: Submission| s@,
                )[t] == expected[t] by {
                    if t < i as int {
                    } else if t == i as int {
                        assert(groups@[t] == g);
                    } else {
                    }
                }
                assert(groups@.map_values(|s: Submission| s@) =~~= expected);
            }
            return;
        }
        proof {
            assert(gv[i as int] == groups@[i as int]@);
            assert(gv[i as int].metadata != key);
        }
        i = i + 1;
    }
    proof {
        lemma_group_idx_none(gv, key);
    }
    let mut files: Vec<CodeFile> = Vec::new();
    files.push(file);
    let fresh = Submission {
        metadata: SubmissionMetadata { student_name: student, assignment_title: assignment },
        files,
    };
    proof {
        assert(fresh@.metadata == key);
        assert(fresh@.files =~~= seq![file@]);
    }
    groups.push(fresh);
    proof {
        assert(groups@.map_values(|s: Submission| s@) =~~= gv.push(
            SubmissionView { metadata: key, files: seq![file@] },
        ));
    }
}


/// A file the container layout can carry faithfully.
pub open spec fn file_saveable(f: CodeFileView) -> bool {
    f.relative_path.len() > 0 && f.relative_path.last() != '/'
}

/// A submission the container layout can carry faithfully under the
/// given pattern: the name fields hold no path separator, the
/// assignment is present exactly where the pattern expects one, and
/// every file path is non-empty and does not end in a slash.
pub open spec fn sub_saveable(s: SubmissionView, pat: FileNamePattern) -> bool {
    &&& s.files.len() > 0
    &&& !s.metadata.student_name.contains('/')
    &&& match s.metadata.assignment_title {
        Some(a) => !a.contains('/') && !(pat is StudentOnly),
        None => pat is StudentOnly,
    }
    &&& forall|j: int| 0 <= j < s.files.len() ==> file_saveable(#[trigger] s.files[j])
}

/// A container the flat layout carries faithfully: a version within the
/// schema range and every submission saveable under the active pattern.
pub open spec fn saveable(db: DatabaseView) -> bool {
    &&& -32768 <= db.meta.version <= 32767
    &&& forall|i: int|
        0 <= i < db.submissions.len() ==> sub_saveable(
            #[trigger] db.submissions[i],
            db.settings.file_name_pattern,
        )
}

/// No two submissions share a (student, assignment) key, so the flat
/// layout keeps them apart.
pub open spec fn distinct_keys(subs: Seq<SubmissionView>) -> bool {
    forall|i: int, j: int|
        0 <= i < j < subs.len() ==> (#[trigger] subs[i]).metadata != (#[trigger] subs[j]).metadata
}

/// One file as the loader reconstructs it: path and content kept, the
/// extension re-derived from the path.
pub open spec fn loaded_file_of(f: CodeFileView) -> CodeFileView {
    CodeFileView {
        relative_path: f.relative_path,
        content: f.content,
        extension: crate::io::ext_or_empty(f.relative_path),
    }
}

/// One submission as the loader reconstructs it.
pub open spec fn loaded_view_of(s: SubmissionView) -> SubmissionView {
    SubmissionView {
        metadata: s.metadata,
        files: s.files.map_values(|f: CodeFileView| loaded_file_of(f)),
    }
}

/// The submissions directory name holds no separator and is not one of
/// the two document names.
proof fn proof_layout_literals()
    ensures
        "submissions"@.len() == 11,
        !"submissions"@.contains('/'),
        "meta.json"@.len() == 9,
        !"meta.json"@.contains('/'),
        "meta.json"@.last() != '/',
        "meta.json"@ != "submissions"@,
        "settings.json"@.len() == 13,
        !"settings.json"@.contains('/'),
        "settings.json"@.last() != '/',
        "settings.json"@ != "submissions"@,
        "settings.json"@ != "meta.json"@,
{
    reveal_strlit("submissions");
    reveal_strlit("meta.json");
    reveal_strlit("settings.json");
    assert(!"submissions"@.contains('/')) by {
        if "submissions"@.contains('/') {
            let k = choose|k: int| 0 <= k < "submissions"@.len() && "submissions"@[k] == '/';
        }
    }
    assert(!"meta.json"@.contains('/')) by {
        if "meta.json"@.contains('/') {
            let k = choose|k: int| 0 <= k < "meta.json"@.len() && "meta.json"@[k] == '/';
        }
    }
    assert(!"settings.json"@.contains('/')) by {
        if "settings.json"@.contains('/') {
            let k = choose|k: int| 0 <= k < "settings.json"@.len() && "settings.json"@[k] == '/';
        }
    }
}

/// A stored submission-file name is no directory, and splits back into
/// exactly the student, the assignment, and the relative path.
proof fn lemma_entry_parse(m: SubmissionMetadataView, rel: Seq<char>, pat: FileNamePattern)
    requires
        !m.student_name.contains('/'),
        match m.assignment_title {
            Some(a) => !a.contains('/') && !(pat is StudentOnly),
            None => pat is StudentOnly,
        },
        rel.len() > 0,
        rel.last() != '/',
    ensures
        !is_dir_name(entry_name_of(m, rel)),
        relevant_spec(entry_name_of(m, rel), pat) == Some(
            (m.student_name, m.assignment_title, rel),
        ),
{
    proof_layout_literals();
    let name = entry_name_of(m, rel);
    let parts = entry_parts_of(m, rel);
    let head: Seq<Seq<char>> = match m.assignment_title {
        Some(a) => seq!["submissions"@, m.student_name, a],
        None => seq!["submissions"@, m.student_name],
    };
    assert(parts =~~= head + seq![rel]);
    lemma_join_append(head, seq![rel], '/');
    assert(join_with(seq![rel], '/') == rel);
    assert(name =~= join_with(head, '/') + seq!['/'] + rel);
    // the name ends as the relative path does, so it is no directory
    assert(name.last() == rel.last());
    // rewrite the name as a join of separator-free parts
    lemma_join_split(rel, '/');
    lemma_split_on_len(rel, '/');
    lemma_join_append(head, split_on(rel, '/'), '/');
    assert(name =~= join_with(head + split_on(rel, '/'), '/'));
    let full = head + split_on(rel, '/');
    lemma_split_on_parts_free(rel, '/');
    assert(forall|i: int| 0 <= i < full.len() ==> !(#[trigger] full[i]).contains('/')) by {
        assert forall|i: int| 0 <= i < full.len() implies !(#[trigger] full[i]).contains('/') by {
            if i >= head.len() {
                assert(full[i] == split_on(rel, '/')[i - head.len()]);
            }
        }
    }
    lemma_split_join(full, '/');
    assert(split_on(name, '/') =~~= full);
    assert(full[0] == "submissions"@);
    match m.assignment_title {
        Some(a) => {
            assert(full.len() >= 4);
            assert(full[1] == m.student_name);
            assert(full[2] == a);
            assert(full.skip(3) =~~= split_on(rel, '/'));
            lemma_join_split(rel, '/');
        },
        None => {
            assert(full.len() >= 3);
            assert(full[1] == m.student_name);
            assert(full.skip(2) =~~= split_on(rel, '/'));
            lemma_join_split(rel, '/');
        },
    }
}

/// The two document entries pass through the grouping untouched.
proof fn lemma_gather_headers(db: DatabaseView)
    ensures
        gather_files(
            seq![
                ("meta.json"@, Some(encode_utf8(meta_json(db.meta)))),
                ("settings.json"@, Some(encode_utf8(settings_json(db.settings)))),
            ],
            db.settings.file_name_pattern,
        ) == Some(Seq::<SubmissionView>::empty()),
{
    proof_layout_literals();
    let pat = db.settings.file_name_pattern;
    let base = seq![
        ("meta.json"@, Some(encode_utf8(meta_json(db.meta)))),
        ("settings.json"@, Some(encode_utf8(settings_json(db.settings)))),
    ];
    let first = seq![("meta.json"@, Some(encode_utf8(meta_json(db.meta))))];
    assert(base.drop_last() =~~= first);
    assert(first.drop_last() =~~= Seq::<(Seq<char>, Option<Seq<u8>>)>::empty());
    crate::chars::lemma_split_free("meta.json"@, '/');
    crate::chars::lemma_split_free("settings.json"@, '/');
    assert(split_on("meta.json"@, '/')[0] == "meta.json"@);
    assert(split_on("settings.json"@, '/')[0] == "settings.json"@);
    assert(relevant_spec("meta.json"@, pat) is None);
    assert(relevant_spec("settings.json"@, pat) is None);
    assert(gather_files(Seq::<(Seq<char>, Option<Seq<u8>>)>::empty(), pat) == Some(
        Seq::<SubmissionView>::empty(),
    ));
    assert(first.last() == ("meta.json"@, Some(encode_utf8(meta_json(db.meta)))));
    assert(!is_dir_name(first.last().0));
    assert(gather_step(Seq::<SubmissionView>::empty(), first.last(), pat) == Some(
        Seq::<SubmissionView>::empty(),
    ));
    assert(gather_files(first, pat) == Some(Seq::<SubmissionView>::empty()));
    assert(base.last() == ("settings.json"@, Some(encode_utf8(settings_json(db.settings)))));
    assert(!is_dir_name(base.last().0));
    assert(gather_step(Seq::<SubmissionView>::empty(), base.last(), pat) == Some(
        Seq::<SubmissionView>::empty(),
    ));
    assert(gather_files(base, pat) == Some(Seq::<SubmissionView>::empty()));
}


/// The partially rebuilt submission after its first `k` files.
pub open spec fn partial_loaded(s: SubmissionView, k: int) -> SubmissionView {
    SubmissionView {
        metadata: s.metadata,
        files: s.files.take(k).map_values(|f: CodeFileView| loaded_file_of(f)),
    }
}

/// Feeding one submission's entries into the grouping appends exactly
/// that submission, rebuilt, at the end.
#[verifier::rlimit(100)]
proof fn lemma_gather_sub_files(
    groups0: Seq<SubmissionView>,
    es0: Seq<(Seq<char>, Option<Seq<u8>>)>,
    sub: SubmissionView,
    pat: FileNamePattern,
    k: int,
)
    requires
        gather_files(es0, pat) == Some(groups0),
        forall|j: int| 0 <= j < groups0.len() ==> (#[trigger] groups0[j]).metadata != sub.metadata,
        sub_saveable(sub, pat),
        0 <= k <= sub.files.len(),
    ensures
        gather_files(es0 + sub_entries(sub).take(k), pat) == Some(
            if k == 0 {
                groups0
            } else {
                groups0.push(partial_loaded(sub, k))
            },
        ),
    decreases k,
{
    if k == 0 {
        assert(es0 + sub_entries(sub).take(0) =~~= es0);
    } else {
        lemma_gather_sub_files(groups0, es0, sub, pat, k - 1);
        let cur: Seq<SubmissionView> = if k == 1 {
            groups0
        } else {
            groups0.push(partial_loaded(sub, k - 1))
        };
        let esk = es0 + sub_entries(sub).take(k);
        assert(esk.drop_last() =~~= es0 + sub_entries(sub).take(k - 1));
        let f = sub.files[k - 1];
        assert(esk.last() == sub_entries(sub)[k - 1]);
        assert(sub_entries(sub)[k - 1] == (
            entry_name_of(sub.metadata, f.relative_path),
            Some(encode_utf8(f.content)),
        ));
        assert(file_saveable(f));
        lemma_entry_parse(sub.metadata, f.relative_path, pat);
        vstd::utf8::encode_utf8_valid_utf8(f.content);
        vstd::utf8::encode_utf8_decode_utf8(f.content);
        let loaded = CodeFileView {
            relative_path: f.relative_path,
            content: decode_utf8(encode_utf8(f.content)),
            extension: crate::io::ext_or_empty(f.relative_path),
        };
        assert(loaded == loaded_file_of(f));
        assert(gather_step(cur, esk.last(), pat) == Some(
            insert_file(cur, sub.metadata, loaded_file_of(f)),
        ));
        if k == 1 {
            lemma_group_idx_none(groups0, sub.metadata);
            assert(insert_file(cur, sub.metadata, loaded_file_of(f)) == groups0.push(
                SubmissionView { metadata: sub.metadata, files: seq![loaded_file_of(f)] },
            ));
            assert(sub.files.take(1).map_values(|g: CodeFileView| loaded_file_of(g))
                =~~= seq![loaded_file_of(f)]);
            assert(groups0.push(SubmissionView { metadata: sub.metadata, files: seq![
                loaded_file_of(f),
            ] }) =~~= groups0.push(partial_loaded(sub, 1)));
        } else {
            let n0 = groups0.len() as int;
            assert(cur[n0].metadata == sub.metadata);
            assert(forall|j: int| 0 <= j < n0 ==> (#[trigger] cur[j]).metadata != sub.metadata);
            lemma_group_idx_at(cur, sub.metadata, n0);
            let updated = cur.update(
                n0,
                SubmissionView {
                    metadata: sub.metadata,
                    files: cur[n0].files.push(loaded_file_of(f)),
                },
            );
            assert(insert_file(cur, sub.metadata, loaded_file_of(f)) == updated);
            assert(cur[n0].files.push(loaded_file_of(f)) =~~= sub.files.take(k).map_values(
                |g: CodeFileView| loaded_file_of(g),
            )) by {
                assert(sub.files.take(k - 1).map_values(|g: CodeFileView| loaded_file_of(g)).push(
                    loaded_file_of(f),
                ) =~~= sub.files.take(k).map_values(|g: CodeFileView| loaded_file_of(g)));
            }
            assert(updated =~~= groups0.push(partial_loaded(sub, k)));
        }
    }
}

/// Feeding a run of saveable submissions into the grouping appends each
/// of them, rebuilt, in order.
proof fn lemma_gather_subs(
    groups0: Seq<SubmissionView>,
    es0: Seq<(Seq<char>, Option<Seq<u8>>)>,
    subs: Seq<SubmissionView>,
    pat: FileNamePattern,
)
    requires
        gather_files(es0, pat) == Some(groups0),
        forall|i: int| 0 <= i < subs.len() ==> sub_saveable(#[trigger] subs[i], pat),
        forall|i: int, j: int|
            0 <= i < j < subs.len() ==> (#[trigger] subs[i]).metadata != (
            #[trigger] subs[j]).metadata,
        forall|g: int, i: int|
            0 <= g < groups0.len() && 0 <= i < subs.len() ==> (#[trigger] groups0[g]).metadata != (
            #[trigger] subs[i]).metadata,
    ensures
        gather_files(es0 + all_sub_entries(subs), pat) == Some(
            groups0 + subs.map_values(|s: SubmissionView| loaded_view_of(s)),
        ),
    decreases subs.len(),
{
    if subs.len() == 0 {
        assert(es0 + all_sub_entries(subs) =~~= es0);
        assert(groups0 + subs.map_values(|s: SubmissionView| loaded_view_of(s)) =~~= groups0);
    } else {
        let front = subs.drop_last();
        let last = subs.last();
        lemma_gather_subs(groups0, es0, front, pat);
        let mid_groups = groups0 + front.map_values(|s: SubmissionView| loaded_view_of(s));
        let mid_es = es0 + all_sub_entries(front);
        assert(forall|j: int|
            0 <= j < mid_groups.len() ==> (#[trigger] mid_groups[j]).metadata != last.metadata)
            by {
            assert forall|j: int|
                0 <= j < mid_groups.len() implies (#[trigger] mid_groups[j]).metadata
                != last.metadata by {
                if j >= groups0.len() {
                    let i = j - groups0.len();
                    assert(mid_groups[j] == loaded_view_of(front[i]));
                    assert(front[i] == subs[i]);
                    assert(subs[i].metadata != last.metadata);
                }
            }
        }
        assert(sub_saveable(last, pat));
        lemma_gather_sub_files(mid_groups, mid_es, last, pat, last.files.len() as int);
        assert(sub_entries(last).take(last.files.len() as int) =~~= sub_entries(last));
        assert(mid_es + sub_entries(last) =~~= es0 + all_sub_entries(subs)) by {
            assert(all_sub_entries(subs) == all_sub_entries(front) + sub_entries(last));
        }
        assert(last.files.len() > 0);
        assert(partial_loaded(last, last.files.len() as int) =~~= loaded_view_of(last)) by {
            assert(last.files.take(last.files.len() as int) =~= last.files);
        }
        assert(mid_groups.push(loaded_view_of(last)) =~~= groups0 + subs.map_values(
            |s: SubmissionView| loaded_view_of(s),
        ));
    }
}

/// Saving a container and reading the result back restores the
/// metadata, the settings, and every submission's (student, assignment,
/// relative path, content) data, in order; only each file's recorded
/// extension is re-derived from its path. The reconstructed container
/// is clean.
pub proof fn lemma_save_load_round_trip(db: DatabaseView, path: Seq<char>)
    requires
        saveable(db),
        distinct_keys(db.submissions),
    ensures
        ({
            let r = load_model(save_entries(db), path);
            &&& r is Ok
            &&& r->Ok_0.meta == db.meta
            &&& r->Ok_0.settings == db.settings
            &&& r->Ok_0.is_dirty == false
            &&& r->Ok_0.file_path == path
            &&& r->Ok_0.submissions =~~= db.submissions.map_values(
                |s: SubmissionView| loaded_view_of(s),
            )
        }),
{
    lemma_load_reads_documents(db, path);
    let es = save_entries(db);
    let base = seq![
        ("meta.json"@, Some(encode_utf8(meta_json(db.meta)))),
        ("settings.json"@, Some(encode_utf8(settings_json(db.settings)))),
    ];
    assert(es =~~= base + all_sub_entries(db.submissions));
    lemma_gather_headers(db);
    lemma_gather_subs(Seq::<SubmissionView>::empty(), base, db.submissions,
        db.settings.file_name_pattern);
    assert(gather_files(es, db.settings.file_name_pattern) == Some(
        Seq::<SubmissionView>::empty() + db.submissions.map_values(
            |s: SubmissionView| loaded_view_of(s),
        ),
    ));
    assert(Seq::<SubmissionView>::empty() + db.submissions.map_values(
        |s: SubmissionView| loaded_view_of(s),
    ) =~~= db.submissions.map_values(|s: SubmissionView| loaded_view_of(s)));
}

/// A saved container's documents are found and read back, so loading
/// it comes down to grouping its submission entries.
proof fn lemma_load_reads_documents(db: DatabaseView, path: Seq<char>)
    requires
        -32768 <= db.meta.version <= 32767,
    ensures
        load_model(save_entries(db), path) == load_assemble(
            save_entries(db),
            path,
            db.meta,
            db.settings,
        ),
{
    proof_layout_literals();
    let es = save_entries(db);
    assert(es[0] == ("meta.json"@, Some(encode_utf8(meta_json(db.meta)))));
    assert(entry_named(es, "meta.json"@) == Some(Some(encode_utf8(meta_json(db.meta)))));
    vstd::utf8::encode_utf8_valid_utf8(meta_json(db.meta));
    vstd::utf8::encode_utf8_decode_utf8(meta_json(db.meta));
    crate::json::lemma_parse_meta_doc(db.meta);
    assert(es[1] == ("settings.json"@, Some(encode_utf8(settings_json(db.settings)))));
    lemma_entry_named_at(es, "settings.json"@, 1);
    vstd::utf8::encode_utf8_valid_utf8(settings_json(db.settings));
    vstd::utf8::encode_utf8_decode_utf8(settings_json(db.settings));
    crate::json::lemma_parse_settings_doc(db.settings);
}


/// The (student, assignment, relative path, content) datum one stored
/// file stands for.
pub open spec fn file_tuple(key: SubmissionMetadataView, f: CodeFileView) -> (
    SubmissionMetadataView,
    Seq<char>,
    Seq<char>,
) {
    (key, f.relative_path, f.content)
}

/// The data of one submission's files, as an unordered collection.
pub open spec fn files_tuples(key: SubmissionMetadataView, files: Seq<CodeFileView>) -> Multiset<
    (SubmissionMetadataView, Seq<char>, Seq<char>),
>
    decreases files.len(),
{
    if files.len() == 0 {
        Multiset::<(SubmissionMetadataView, Seq<char>, Seq<char>)>::empty()
    } else {
        files_tuples(key, files.drop_last()).insert(file_tuple(key, files.last()))
    }
}

/// The data of a submission collection, as an unordered collection.
pub open spec fn submissions_tuples(subs: Seq<SubmissionView>) -> Multiset<
    (SubmissionMetadataView, Seq<char>, Seq<char>),
>
    decreases subs.len(),
{
    if subs.len() == 0 {
        Multiset::<(SubmissionMetadataView, Seq<char>, Seq<char>)>::empty()
    } else {
        submissions_tuples(subs.drop_last()).add(
            files_tuples(subs.last().metadata, subs.last().files),
        )
    }
}

/// The group index is either absent or a position.
proof fn lemma_group_idx_ge(groups: Seq<SubmissionView>, key: SubmissionMetadataView)
    ensures
        group_idx(groups, key) >= -1,
    decreases groups.len(),
{
    if groups.len() > 0 && groups[0].metadata != key {
        lemma_group_idx_ge(groups.drop_first(), key);
    }
}

/// A non-negative group index points at a group with that key.
proof fn lemma_group_idx_found(groups: Seq<SubmissionView>, key: SubmissionMetadataView)
    requires
        group_idx(groups, key) >= 0,
    ensures
        0 <= group_idx(groups, key) < groups.len(),
        groups[group_idx(groups, key)].metadata == key,
    decreases groups.len(),
{
    if groups.len() == 0 {
    } else if groups[0].metadata == key {
    } else {
        lemma_group_idx_found(groups.drop_first(), key);
        assert(groups[group_idx(groups, key)] == groups.drop_first()[group_idx(
            groups.drop_first(),
            key,
        )]);
    }
}

/// Appending a file to one group adds exactly its datum.
proof fn lemma_group_tuples_update(groups: Seq<SubmissionView>, i: int, f: CodeFileView)
    requires
        0 <= i < groups.len(),
    ensures
        submissions_tuples(
            groups.update(
                i,
                SubmissionView {
                    metadata: groups[i].metadata,
                    files: groups[i].files.push(f),
                },
            ),
        ) =~= submissions_tuples(groups).insert(file_tuple(groups[i].metadata, f)),
    decreases groups.len(),
{
    broadcast use vstd::multiset::group_multiset_axioms;

    let key = groups[i].metadata;
    let g2 = SubmissionView { metadata: key, files: groups[i].files.push(f) };
    let upd = groups.update(i, g2);
    if i == groups.len() - 1 {
        assert(upd.drop_last() =~~= groups.drop_last());
        assert(upd.last() == g2);
        assert(g2.files.drop_last() =~= groups[i].files);
        assert(files_tuples(key, g2.files) =~= files_tuples(key, groups[i].files).insert(
            file_tuple(key, f),
        ));
        assert(submissions_tuples(upd) =~= submissions_tuples(groups.drop_last()).add(
            files_tuples(key, groups[i].files).insert(file_tuple(key, f)),
        ));
        assert(submissions_tuples(groups.drop_last()).add(
            files_tuples(key, groups[i].files).insert(file_tuple(key, f)),
        ) =~= submissions_tuples(groups).insert(file_tuple(key, f)));
    } else {
        assert(upd.drop_last() =~~= groups.drop_last().update(i, g2));
        assert(upd.last() == groups.last());
        assert(groups.drop_last()[i] == groups[i]);
        lemma_group_tuples_update(groups.drop_last(), i, f);
        assert(submissions_tuples(upd) =~= submissions_tuples(groups.drop_last()).insert(
            file_tuple(key, f),
        ).add(files_tuples(groups.last().metadata, groups.last().files)));
        assert(submissions_tuples(groups.drop_last()).insert(file_tuple(key, f)).add(
            files_tuples(groups.last().metadata, groups.last().files),
        ) =~= submissions_tuples(groups).insert(file_tuple(key, f)));
    }
}

/// However a file is grouped, its datum is added exactly once.
proof fn lemma_insert_file_tuples(
    groups: Seq<SubmissionView>,
    key: SubmissionMetadataView,
    f: CodeFileView,
)
    ensures
        submissions_tuples(insert_file(groups, key, f)) =~= submissions_tuples(groups).insert(
            file_tuple(key, f),
        ),
{
    broadcast use vstd::multiset::group_multiset_axioms;

    let i = group_idx(groups, key);
    lemma_group_idx_ge(groups, key);
    if i == -1 {
        let g = SubmissionView { metadata: key, files: seq![f] };
        assert(groups.push(g).drop_last() =~~= groups);
        assert(groups.push(g).last() == g);
        assert(seq![f].drop_last() =~= Seq::<CodeFileView>::empty());
        assert(seq![f].last() == f);
        assert(files_tuples(key, Seq::<CodeFileView>::empty()) =~= Multiset::<(
            SubmissionMetadataView,
            Seq<char>,
            Seq<char>,
        )>::empty());
        assert(files_tuples(key, seq![f]) =~= Multiset::<(
            SubmissionMetadataView,
            Seq<char>,
            Seq<char>,
        )>::empty().insert(file_tuple(key, f)));
        assert(submissions_tuples(groups.push(g)) =~= submissions_tuples(groups).insert(
            file_tuple(key, f),
        ));
    } else {
        lemma_group_idx_found(groups, key);
        lemma_group_tuples_update(groups, i, f);
    }
}

/// Feeding one submission's entries into the grouping adds exactly its
/// data, wherever the files end up.
proof fn lemma_gather_sub_tuples(
    groups0: Seq<SubmissionView>,
    es0: Seq<(Seq<char>, Option<Seq<u8>>)>,
    sub: SubmissionView,
    pat: FileNamePattern,
    k: int,
)
    requires
        gather_files(es0, pat) == Some(groups0),
        sub_saveable(sub, pat),
        0 <= k <= sub.files.len(),
    ensures
        gather_files(es0 + sub_entries(sub).take(k), pat) matches Some(g2)
            && submissions_tuples(g2) =~= submissions_tuples(groups0).add(
            files_tuples(sub.metadata, sub.files.take(k)),
        ),
    decreases k,
{
    broadcast use vstd::multiset::group_multiset_axioms;

    if k == 0 {
        assert(es0 + sub_entries(sub).take(0) =~~= es0);
        assert(files_tuples(sub.metadata, sub.files.take(0)) =~= Multiset::<(
            SubmissionMetadataView,
            Seq<char>,
            Seq<char>,
        )>::empty());
        assert(submissions_tuples(groups0).add(files_tuples(sub.metadata, sub.files.take(0)))
            =~= submissions_tuples(groups0));
    } else {
        lemma_gather_sub_tuples(groups0, es0, sub, pat, k - 1);
        let cur = gather_files(es0 + sub_entries(sub).take(k - 1), pat)->Some_0;
        let esk = es0 + sub_entries(sub).take(k);
        assert(esk.drop_last() =~~= es0 + sub_entries(sub).take(k - 1));
        let f = sub.files[k - 1];
        assert(esk.last() == sub_entries(sub)[k - 1]);
        assert(sub_entries(sub)[k - 1] == (
            entry_name_of(sub.metadata, f.relative_path),
            Some(encode_utf8(f.content)),
        ));
        assert(file_saveable(f));
        lemma_entry_parse(sub.metadata, f.relative_path, pat);
        vstd::utf8::encode_utf8_valid_utf8(f.content);
        vstd::utf8::encode_utf8_decode_utf8(f.content);
        let loaded = CodeFileView {
            relative_path: f.relative_path,
            content: decode_utf8(encode_utf8(f.content)),
            extension: crate::io::ext_or_empty(f.relative_path),
        };
        assert(gather_step(cur, esk.last(), pat) == Some(
            insert_file(cur, sub.metadata, loaded),
        ));
        lemma_insert_file_tuples(cur, sub.metadata, loaded);
        assert(file_tuple(sub.metadata, loaded) == file_tuple(sub.metadata, f));
        assert(sub.files.take(k).drop_last() =~= sub.files.take(k - 1));
        assert(sub.files.take(k).last() == f);
        assert(files_tuples(sub.metadata, sub.files.take(k)) =~= files_tuples(
            sub.metadata,
            sub.files.take(k - 1),
        ).insert(file_tuple(sub.metadata, f)));
        assert(submissions_tuples(insert_file(cur, sub.metadata, loaded))
            =~= submissions_tuples(groups0).add(
            files_tuples(sub.metadata, sub.files.take(k)),
        ));
    }
}

/// Feeding a run of saveable submissions into the grouping adds exactly
/// their data.
proof fn lemma_gather_subs_tuples(
    groups0: Seq<SubmissionView>,
    es0: Seq<(Seq<char>, Option<Seq<u8>>)>,
    subs: Seq<SubmissionView>,
    pat: FileNamePattern,
)
    requires
        gather_files(es0, pat) == Some(groups0),
        forall|i: int| 0 <= i < subs.len() ==> sub_saveable(#[trigger] subs[i], pat),
    ensures
        gather_files(es0 + all_sub_entries(subs), pat) matches Some(g2)
            && submissions_tuples(g2) =~= submissions_tuples(groups0).add(
            submissions_tuples(subs),
        ),
    decreases subs.len(),
{
    broadcast use vstd::multiset::group_multiset_axioms;

    if subs.len() == 0 {
        assert(es0 + all_sub_entries(subs) =~~= es0);
        assert(submissions_tuples(groups0).add(submissions_tuples(subs))
            =~= submissions_tuples(groups0));
    } else {
        let front = subs.drop_last();
        let last = subs.last();
        lemma_gather_subs_tuples(groups0, es0, front, pat);
        let mid_es = es0 + all_sub_entries(front);
        let mid_groups = gather_files(mid_es, pat)->Some_0;
        assert(sub_saveable(last, pat));
        lemma_gather_sub_tuples(mid_groups, mid_es, last, pat, last.files.len() as int);
        assert(sub_entries(last).take(last.files.len() as int) =~~= sub_entries(last));
        assert(last.files.take(last.files.len() as int) =~= last.files);
        assert(mid_es + sub_entries(last) =~~= es0 + all_sub_entries(subs)) by {
            assert(all_sub_entries(subs) == all_sub_entries(front) + sub_entries(last));
        }
        let g2 = gather_files(es0 + all_sub_entries(subs), pat)->Some_0;
        assert(submissions_tuples(g2) =~= submissions_tuples(groups0).add(
            submissions_tuples(front),
        ).add(files_tuples(last.metadata, last.files)));
        assert(submissions_tuples(groups0).add(submissions_tuples(front)).add(
            files_tuples(last.metadata, last.files),
        ) =~= submissions_tuples(groups0).add(submissions_tuples(subs)));
    }
}

/// Saving any saveable container and reading the result back restores
/// the metadata, the settings, and the same collection of (student,
/// assignment, relative path, content) data, without regard to order
/// or to how files are grouped into submissions.
pub proof fn lemma_save_load_preserves_data(db: DatabaseView, path: Seq<char>)
    requires
        saveable(db),
    ensures
        ({
            let r = load_model(save_entries(db), path);
            &&& r is Ok
            &&& r->Ok_0.meta == db.meta
            &&& r->Ok_0.settings == db.settings
            &&& r->Ok_0.is_dirty == false
            &&& submissions_tuples(r->Ok_0.submissions) =~= submissions_tuples(db.submissions)
        }),
{
    broadcast use vstd::multiset::group_multiset_axioms;

    lemma_load_reads_documents(db, path);
    let es = save_entries(db);
    let base = seq![
        ("meta.json"@, Some(encode_utf8(meta_json(db.meta)))),
        ("settings.json"@, Some(encode_utf8(settings_json(db.settings)))),
    ];
    assert(es =~~= base + all_sub_entries(db.submissions));
    lemma_gather_headers(db);
    lemma_gather_subs_tuples(Seq::<SubmissionView>::empty(), base, db.submissions,
        db.settings.file_name_pattern);
    assert(submissions_tuples(Seq::<SubmissionView>::empty()).add(
        submissions_tuples(db.submissions),
    ) =~= submissions_tuples(db.submissions));
}


/// The (student, assignment) key a stored name addresses under the
/// pattern, where it addresses one at all.
pub open spec fn name_key(name: Seq<char>, pat: FileNamePattern) -> Option<SubmissionMetadataView> {
    match relevant_spec(name, pat) {
        Some(t) => Some(SubmissionMetadataView { student_name: t.0, assignment_title: t.1 }),
        None => None,
    }
}

/// No two entries share a stored name.
pub open spec fn entry_names_distinct(es: Seq<(Seq<char>, Option<Seq<u8>>)>) -> bool {
    forall|i: int, j: int| 0 <= i < j < es.len() ==> (#[trigger] es[i]).0 != (#[trigger] es[j]).0
}

/// Within each submission, no two files share a relative path.
pub open spec fn distinct_file_paths(subs: Seq<SubmissionView>) -> bool {
    forall|k: int, i: int, j: int|
        0 <= k < subs.len() && 0 <= i < j < (#[trigger] subs[k]).files.len() ==> (
        #[trigger] subs[k].files[i]).relative_path != (#[trigger] subs[k].files[j]).relative_path
}

/// Every entry fits the archive format's per-entry machine limits: the
/// name within 65535 UTF-8 bytes, the data clear of the four-gigabyte
/// boundary.
pub open spec fn entries_fit(es: Seq<(Seq<char>, Option<Seq<u8>>)>) -> bool {
    forall|i: int|
        0 <= i < es.len() ==> encode_utf8((#[trigger] es[i]).0).len() <= 65535 && (es[i].1 matches
        Some(d) && d.len() < 0xFFF00000)
}

/// The two document names address no submission key.
proof fn lemma_doc_names_no_key(pat: FileNamePattern)
    ensures
        name_key("meta.json"@, pat) is None,
        name_key("settings.json"@, pat) is None,
{
    proof_layout_literals();
    crate::chars::lemma_split_free("meta.json"@, '/');
    crate::chars::lemma_split_free("settings.json"@, '/');
    assert(split_on("meta.json"@, '/')[0] == "meta.json"@);
    assert(split_on("settings.json"@, '/')[0] == "settings.json"@);
}

/// Every name a run of submissions stores addresses the key of one of
/// those submissions.
proof fn lemma_all_entries_keys(subs: Seq<SubmissionView>, pat: FileNamePattern)
    requires
        forall|i: int| 0 <= i < subs.len() ==> sub_saveable(#[trigger] subs[i], pat),
    ensures
        forall|i: int|
            0 <= i < all_sub_entries(subs).len() ==> exists|k: int|
                0 <= k < subs.len() && name_key((#[trigger] all_sub_entries(subs)[i]).0, pat)
                    == Some(subs[k].metadata),
    decreases subs.len(),
{
    if subs.len() > 0 {
        let front = subs.drop_last();
        let last = subs.last();
        lemma_all_entries_keys(front, pat);
        assert forall|i: int| 0 <= i < all_sub_entries(subs).len() implies exists|k: int|
            0 <= k < subs.len() && name_key((#[trigger] all_sub_entries(subs)[i]).0, pat) == Some(
                subs[k].metadata,
            ) by {
            let n = all_sub_entries(front).len() as int;
            if i < n {
                assert(all_sub_entries(subs)[i] == all_sub_entries(front)[i]);
                let k = choose|k: int|
                    0 <= k < front.len() && name_key(all_sub_entries(front)[i].0, pat) == Some(
                        front[k].metadata,
                    );
                assert(subs[k] == front[k]);
                assert(0 <= k < subs.len() && name_key(all_sub_entries(subs)[i].0, pat) == Some(
                    subs[k].metadata,
                ));
            } else {
                let l = i - n;
                assert(all_sub_entries(subs)[i] == sub_entries(last)[l]);
                let f = last.files[l];
                assert(sub_entries(last)[l].0 == entry_name_of(last.metadata, f.relative_path));
                assert(file_saveable(f));
                lemma_entry_parse(last.metadata, f.relative_path, pat);
                let k = subs.len() - 1;
                assert(0 <= k < subs.len() && name_key(all_sub_entries(subs)[i].0, pat) == Some(
                    subs[k].metadata,
                ));
            }
        }
    }
}

/// One submission's entries carry pairwise-distinct names.
proof fn lemma_block_names_distinct(sub: SubmissionView, pat: FileNamePattern)
    requires
        sub_saveable(sub, pat),
        forall|i: int, j: int|
            0 <= i < j < sub.files.len() ==> (#[trigger] sub.files[i]).relative_path != (
            #[trigger] sub.files[j]).relative_path,
    ensures
        entry_names_distinct(sub_entries(sub)),
{
    assert forall|i: int, j: int| 0 <= i < j < sub_entries(sub).len() implies (
    #[trigger] sub_entries(sub)[i]).0 != (#[trigger] sub_entries(sub)[j]).0 by {
        let fi = sub.files[i];
        let fj = sub.files[j];
        assert(file_saveable(fi));
        assert(file_saveable(fj));
        lemma_entry_parse(sub.metadata, fi.relative_path, pat);
        lemma_entry_parse(sub.metadata, fj.relative_path, pat);
        assert(fi.relative_path != fj.relative_path);
    }
}

/// Appending the entries of key-distinct submissions to name-distinct
/// entries that address none of their keys keeps all names distinct.
proof fn lemma_names_distinct_append(
    es0: Seq<(Seq<char>, Option<Seq<u8>>)>,
    subs: Seq<SubmissionView>,
    pat: FileNamePattern,
)
    requires
        entry_names_distinct(es0),
        forall|i: int| 0 <= i < subs.len() ==> sub_saveable(#[trigger] subs[i], pat),
        distinct_keys(subs),
        distinct_file_paths(subs),
        forall|i: int, k: int|
            0 <= i < es0.len() && 0 <= k < subs.len() ==> name_key((#[trigger] es0[i]).0, pat)
                != Some((#[trigger] subs[k]).metadata),
    ensures
        entry_names_distinct(es0 + all_sub_entries(subs)),
    decreases subs.len(),
{
    if subs.len() == 0 {
        assert(es0 + all_sub_entries(subs) =~~= es0);
    } else {
        let front = subs.drop_last();
        let last = subs.last();
        assert(forall|i: int| 0 <= i < front.len() ==> front[i] == subs[i]);
        lemma_names_distinct_append(es0, front, pat);
        let es1 = es0 + all_sub_entries(front);
        let block = sub_entries(last);
        lemma_all_entries_keys(front, pat);
        // no name of the prefix addresses the last submission's key
        assert(forall|i: int|
            0 <= i < es1.len() ==> name_key((#[trigger] es1[i]).0, pat) != Some(last.metadata))
            by {
            assert forall|i: int|
                0 <= i < es1.len() implies name_key((#[trigger] es1[i]).0, pat) != Some(
                last.metadata,
            ) by {
                if i < es0.len() {
                    assert(es1[i] == es0[i]);
                    assert(name_key(es0[i].0, pat) != Some(subs[subs.len() - 1].metadata));
                } else {
                    let t = i - es0.len();
                    assert(es1[i] == all_sub_entries(front)[t]);
                    let k = choose|k: int|
                        0 <= k < front.len() && name_key(all_sub_entries(front)[t].0, pat)
                            == Some(front[k].metadata);
                    assert(front[k].metadata == subs[k].metadata);
                    assert(subs[k].metadata != last.metadata);
                }
            }
        }
        // the block's names all address that key, and are distinct
        assert(forall|l: int|
            0 <= l < block.len() ==> name_key((#[trigger] block[l]).0, pat) == Some(last.metadata))
            by {
            assert forall|l: int|
                0 <= l < block.len() implies name_key((#[trigger] block[l]).0, pat) == Some(
                last.metadata,
            ) by {
                let f = last.files[l];
                assert(file_saveable(f));
                lemma_entry_parse(last.metadata, f.relative_path, pat);
            }
        }
        assert(forall|i: int, j: int|
            0 <= i < j < last.files.len() ==> (#[trigger] last.files[i]).relative_path != (
            #[trigger] last.files[j]).relative_path) by {
            assert(subs[subs.len() - 1] == last);
        }
        lemma_block_names_distinct(last, pat);
        let combined = es1 + block;
        assert(combined =~~= es0 + all_sub_entries(subs)) by {
            assert(all_sub_entries(subs) == all_sub_entries(front) + sub_entries(last));
        }
        assert forall|i: int, j: int| 0 <= i < j < combined.len() implies (
        #[trigger] combined[i]).0 != (#[trigger] combined[j]).0 by {
            let n1 = es1.len() as int;
            if j < n1 {
                assert(combined[i] == es1[i]);
                assert(combined[j] == es1[j]);
            } else if i >= n1 {
                assert(combined[i] == block[i - n1]);
                assert(combined[j] == block[j - n1]);
            } else {
                assert(combined[i] == es1[i]);
                assert(combined[j] == block[j - n1]);
                assert(name_key(es1[i].0, pat) != Some(last.metadata));
                assert(name_key(block[j - n1].0, pat) == Some(last.metadata));
            }
        }
    }
}

/// A saveable container with distinct keys and per-submission distinct
/// file paths stores every entry under its own name.
pub proof fn lemma_save_names_distinct(db: DatabaseView)
    requires
        saveable(db),
        distinct_keys(db.submissions),
        distinct_file_paths(db.submissions),
    ensures
        entry_names_distinct(save_entries(db)),
{
    proof_layout_literals();
    let pat = db.settings.file_name_pattern;
    let base = seq![
        ("meta.json"@, Some(encode_utf8(meta_json(db.meta)))),
        ("settings.json"@, Some(encode_utf8(settings_json(db.settings)))),
    ];
    lemma_doc_names_no_key(pat);
    assert(entry_names_distinct(base)) by {
        assert(base[0].0 == "meta.json"@);
        assert(base[1].0 == "settings.json"@);
    }
    lemma_names_distinct_append(base, db.submissions, pat);
    assert(save_entries(db) =~~= base + all_sub_entries(db.submissions));
}

} // verus!
