//! The trusted boundary to the `zip` crate and to std's UTF-8
//! conversions. An archive held in memory is modelled by
//! [`archive_model`]: the sequence of its entries, each a stored name
//! together with its content — or `None` where the content cannot be
//! extracted (a corrupt entry). Both the container writer and the two
//! readers speak about that one model, which is a function of the bytes
//! alone, so writing and re-reading connect.

use vstd::prelude::*;
use vstd::utf8::{encode_utf8, valid_utf8, decode_utf8};

verus! {

/// One entry to be written into an archive.
#[derive(Debug)]
pub struct ArchiveEntry {
    pub name: String,
    pub data: Vec<u8>,
}

/// What a byte string holds when opened as an archive: `None` when it
/// does not open, otherwise its entries in stored order, each content
/// being `None` exactly when extraction fails on it.
pub uninterp spec fn archive_model(bytes: Seq<u8>) -> Option<Seq<(Seq<char>, Option<Seq<u8>>)>>;

/// The model of entries handed to the writer.
pub open spec fn entries_model(es: Seq<ArchiveEntry>) -> Seq<(Seq<char>, Option<Seq<u8>>)> {
    es.map_values(|e: ArchiveEntry| (e.name@, Some(e.data@)))
}

/// Relies on zip::ZipWriter (new, start_file, write_all, finish): one
/// deflate-compressed entry per element, in order, and on success the
/// produced bytes read back as exactly those entries. Writing to an
/// in-memory buffer with these options, the writer fails only on a
/// duplicate entry name, a name over 65535 UTF-8 bytes, or entry data
/// at the format's four-gigabyte boundary (the margin below that
/// boundary leaves room for the worst-case deflated size), so within
/// those limits it succeeds.
#[verifier::external_body]
pub(crate) fn write_archive(entries: &Vec<ArchiveEntry>) -> (r: Result<Vec<u8>, String>)
    ensures
        r matches Ok(bytes) ==> archive_model(bytes@) == Some(entries_model(entries@)),
        ({
            &&& forall|i: int, j: int|
                0 <= i < j < entries@.len() ==> (#[trigger] entries@[i]).name@ != (
                #[trigger] entries@[j]).name@
            &&& forall|i: int|
                0 <= i < entries@.len() ==> encode_utf8((#[trigger] entries@[i]).name@).len()
                    <= 65535
            &&& forall|i: int|
                0 <= i < entries@.len() ==> (#[trigger] entries@[i]).data@.len() < 0xFFF00000
        }) ==> r is Ok,
{
    let mut zip = zip::ZipWriter::new(std::io::Cursor::new(Vec::new()));
    let options = zip::write::SimpleFileOptions::default()
        .compression_method(zip::CompressionMethod::Deflated)
        .unix_permissions(0o755);
    for entry in entries.iter() {
        zip.start_file(entry.name.as_str(), options).map_err(|e| e.to_string())?;
        std::io::Write::write_all(&mut zip, entry.data.as_slice()).map_err(|e| e.to_string())?;
    }
    zip.finish().map(|c| c.into_inner()).map_err(|e| e.to_string())
}

/// Relies on zip::ZipArchive::new and len: bytes open as an archive
/// exactly when they model one, and then hold this many entries.
#[verifier::external_body]
pub(crate) fn archive_len(bytes: &Vec<u8>) -> (r: Result<usize, String>)
    ensures
        r matches Ok(n) ==> archive_model(bytes@) matches Some(es) && n == es.len(),
        r is Err ==> archive_model(bytes@) is None,
{
    zip::ZipArchive::new(std::io::Cursor::new(bytes.as_slice()))
        .map(|a| a.len())
        .map_err(|e| e.to_string())
}

/// Relies on zip::ZipArchive::name_for_index: the stored name of the
/// entry at this position.
#[verifier::external_body]
pub(crate) fn archive_name_at(bytes: &Vec<u8>, i: usize) -> (r: String)
    requires
        archive_model(bytes@) matches Some(es) && i < es.len(),
    ensures
        r@ == archive_model(bytes@).unwrap()[i as int].0,
{
    let archive = zip::ZipArchive::new(std::io::Cursor::new(bytes.as_slice())).unwrap();
    archive.name_for_index(i).unwrap().to_string()
}

/// Relies on zip::ZipArchive::by_index and Read::read_to_end: the entry
/// at this position extracts exactly when the model holds content for
/// it, and then to that content.
#[verifier::external_body]
pub(crate) fn archive_data_at(bytes: &Vec<u8>, i: usize) -> (r: Result<Vec<u8>, String>)
    requires
        archive_model(bytes@) matches Some(es) && i < es.len(),
    ensures
        (match r {
            Ok(d) => archive_model(bytes@).unwrap()[i as int].1 == Some(d@),
            Err(_) => archive_model(bytes@).unwrap()[i as int].1 is None,
        }),
{
    let mut archive = zip::ZipArchive::new(std::io::Cursor::new(bytes.as_slice())).unwrap();
    let mut file = archive.by_index(i).map_err(|e| e.to_string())?;
    let mut data = Vec::new();
    std::io::Read::read_to_end(&mut file, &mut data).map_err(|e| e.to_string())?;
    Ok(data)
}

/// What std's lossy UTF-8 decoding yields; on valid UTF-8 it agrees
/// with the exact decoding.
pub uninterp spec fn lossy_utf8(bytes: Seq<u8>) -> Seq<char>;

/// Relies on String::from_utf8: succeeds exactly on valid UTF-8 input
/// and yields its decoding.
#[verifier::external_body]
pub(crate) fn utf8_to_string(bytes: &Vec<u8>) -> (r: Option<String>)
    ensures
        r matches Some(s) ==> valid_utf8(bytes@) && s@ == decode_utf8(bytes@),
        r is None ==> !valid_utf8(bytes@),
{
    String::from_utf8(bytes.clone()).ok()
}

/// Relies on String::from_utf8_lossy: the result depends on the bytes
/// alone, never fails, and decodes valid UTF-8 unchanged.
#[verifier::external_body]
pub(crate) fn utf8_to_string_lossy(bytes: &Vec<u8>) -> (r: String)
    ensures
        r@ == lossy_utf8(bytes@),
        valid_utf8(bytes@) ==> r@ == decode_utf8(bytes@),
{
    String::from_utf8_lossy(bytes.as_slice()).into_owned()
}

} // verus!
