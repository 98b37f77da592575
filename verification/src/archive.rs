//! Whole archives at once: packing a list of files, and extracting all files.
use crate::builder::{
    all_encodable, ascii_names_encoded, encoded_names, lemma_stored_name_ascii, stored_names,
    FvpBuilder,
};
use crate::error::FvpError;
use crate::format::{archive_image, entry_content};
use crate::reader::{
    ascii_names_read, entry_count, parse_archive, raw_name, reports, resolved_name, EntryModel,
    FvpReader,
};
use crate::laws::{files_come_back, lemma_pack_then_extract, nul_free, packable};
use crate::sjis::{is_ascii_bytes, is_ascii_text, nul_free_bytes, nul_free_text};
use vstd::prelude::*;

verus! {

/// The byte contents of a list of buffers.
pub open spec fn buffers(v: Seq<Vec<u8>>) -> Seq<Seq<u8>> {
    v.map_values(|b: Vec<u8>| b@)
}

/// The files of an archive as extracted: for each entry its stored name,
/// the name it is extracted under, and its data.
pub open spec fn extracted(b: Seq<u8>, entries: Seq<EntryModel>) -> Seq<
    (Seq<char>, Seq<char>, Seq<u8>),
> {
    entries.map_values(
        |e: EntryModel|
            (e.name, resolved_name(b, false, e.name, e.offset), entry_content(b, e.offset, e.size)),
    )
}

/// The contents of extracted files.
pub open spec fn file_views(files: Seq<(String, String, Vec<u8>)>) -> Seq<
    (Seq<char>, Seq<char>, Seq<u8>),
> {
    files.map_values(|f: (String, String, Vec<u8>)| (f.0@, f.1@, f.2@))
}

/// Packs files, in the given order, with `.ogg` removed from names ending in
/// it: the archive bytes that `pack` writes to its output file.
pub fn pack_files(file_names: &[&str], contents: &[Vec<u8>]) -> (r: Result<Vec<u8>, FvpError>)
    requires
        file_names@.len() == contents@.len(),
        8 + 12 * file_names@.len() <= usize::MAX,
    ensures
        r is Ok <==> all_encodable(stored_names(file_names@, false)),
        match r {
            Ok(bytes) => {
                &&& packable(file_names@, buffers(contents@)) ==> files_come_back(
                    file_names@,
                    buffers(contents@),
                    bytes@,
                )
                &&& bytes@ == archive_image(
                    encoded_names(stored_names(file_names@, false)),
                    buffers(contents@),
                )
                &&& ascii_names_encoded(
                    stored_names(file_names@, false),
                    encoded_names(stored_names(file_names@, false)),
                )
            },
            Err(e) => {
                &&& e is EncodingError
                &&& exists|i: int|
                    0 <= i < file_names@.len() && !is_ascii_text(#[trigger] file_names@[i]@)
            },
        },
{
    let mut builder = match FvpBuilder::new(file_names, false) {
        Ok(b) => b,
        Err(e) => {
            proof {
                let stored = stored_names(file_names@, false);
                let i = choose|i: int|
                    0 <= i < file_names@.len() && !is_ascii_text(#[trigger] stored[i]);
                lemma_stored_name_ascii(file_names@[i]@, false);
            }
            return Err(e);
        },
    };
    let n = contents.len();
    let mut i: usize = 0;
    while i < n
        invariant
            n == contents@.len(),
            n == builder.names().len(),
            i <= n,
            builder.wf(),
            builder.written() == buffers(contents@).take(i as int),
            builder.encoded() == encoded_names(stored_names(file_names@, false)),
        decreases n - i,
    {
        let _ = builder.write_file(contents[i].as_slice());
        assert(buffers(contents@).take(i as int).push(contents@[i as int]@) =~= buffers(
            contents@,
        ).take(i + 1));
        i = i + 1;
    }
    assert(buffers(contents@).take(n as int) =~= buffers(contents@));
    proof {
        let stored = stored_names(file_names@, false);
        if packable(file_names@, buffers(contents@)) {
            assert(nul_free(encoded_names(stored))) by {
                assert forall|i: int, j: int|
                    0 <= i < encoded_names(stored).len() && 0 <= j < encoded_names(
                        stored,
                    )[i].len() implies #[trigger] encoded_names(stored)[i][j] != 0 by {
                    assert(nul_free_text(stored[i]));
                    assert(nul_free_bytes(encoded_names(stored)[i]));
                }
            }
            lemma_pack_then_extract(file_names@, buffers(contents@));
        }
    }
    let _ = builder.finish();
    Ok(builder.into_inner())
}

/// Extracts every file of an archive: its stored name, the name it is
/// extracted under (with an extension added where the data suggests one),
/// and its data. This is what `extract` writes
/// into its output directory.
pub fn extract_files(archive: Vec<u8>) -> (r: Result<Vec<(String, String, Vec<u8>)>, FvpError>)
    ensures
        match r {
            Ok(files) => parse_archive(archive@) matches Ok(es) && file_views(files@) == extracted(
                archive@,
                es,
            ) && ascii_names_read(archive@, es),
            Err(e) => {
                &&& parse_archive(archive@) matches Err(f) && reports(e, f)
                &&& e is DecodingError ==> exists|i: int|
                    0 <= i < entry_count(archive@) && (#[trigger] raw_name(archive@, i)
                        matches Some(raw) && !is_ascii_bytes(raw))
            },
        },
{
    let ghost bytes = archive@;
    let reader = match FvpReader::new(archive) {
        Ok(rd) => rd,
        Err(e) => {
            return Err(e);
        },
    };
    let entries = reader.entries();
    let ghost es = reader.entry_list();
    let mut files: Vec<(String, String, Vec<u8>)> = Vec::new();
    let mut i: usize = 0;
    assert(es.len() == entries@.len());
    assert(file_views(files@) =~= extracted(bytes, es).take(0));
    while i < entries.len()
        invariant
            reader.archive() == bytes,
            !reader.is_raw(),
            entries@ == reader.entry_values(),
            es == reader.entry_list(),
            i <= entries@.len(),
            es.len() == entries@.len(),
            files@.len() == i,
            file_views(files@) == extracted(bytes, es).take(
                i as int,
            ),
        decreases entries@.len() - i,
    {
        let entry = &entries[i];
        let name = match reader.resolve_name(entry) {
            Ok(name) => name,
            Err(e) => {
                return Err(e);
            },
        };
        let mut data: Vec<u8> = Vec::new();
        let _ = reader.extract_entry(entry, &mut data);
        let ghost before = files@;
        files.push((entry.name.clone(), name, data));
        proof {
            assert(data@ =~= entry_content(bytes, entry.offset, entry.size));
            assert(es[i as int] == entry@);
            let mapped = file_views(files@);
            let old_mapped = file_views(before);
            assert forall|k: int| 0 <= k < i + 1 implies #[trigger] mapped[k] == extracted(
                bytes,
                es,
            )[k] by {
                if k < i {
                    assert(files@[k] == before[k]);
                    assert(old_mapped[k] == extracted(bytes, es).take(i as int)[k]);
                }
            }
            assert(file_views(files@) =~= extracted(
                bytes,
                es,
            ).take(i + 1));
        }
        i = i + 1;
    }
    assert(extracted(bytes, es).take(entries@.len() as int) =~= extracted(bytes, es));
    Ok(files)
}

} // verus!
