//! What holds of the library as a whole: an archive reads back as it was written.
use crate::format::{
    archive_image, concat, cstr_at, data_offset_of, data_start, entry_content, le_bytes,
    le_u32_at, lemma_concat_subrange, lemma_concat_uniform, lemma_cstr_at, lemma_layout_len,
    lemma_le_bytes_roundtrip, name_offset_of, names_blob, part_start, table_rows, terminated,
};
use crate::reader::{
    entry_count, names_start, parse_archive, parse_entries, row_field, EntryModel, ParseFault,
};
use crate::sjis::{nul_free_text, sjis_decoded, sjis_encoded};
use crate::archive::extracted;
use crate::builder::{all_encodable, encoded_names, stored_names};
use crate::names::{
    file_stem, last_component, last_index_of, ogg_ext, stripped_name,
};
use crate::reader::{resolved_name, with_suggested_extension};
use crate::builder::stored_name;
use crate::names::{strips_extension, suggested_extension};
use crate::order::bytes_le;
use crate::text::str_lowercase;
use vstd::prelude::*;

verus! {

/// Every field of the table fits in 32 bits: no data offset or size wraps.
pub open spec fn fields_fit(names: Seq<Seq<u8>>, contents: Seq<Seq<u8>>) -> bool {
    &&& names.len() == contents.len()
    &&& forall|i: int|
        0 <= i < names.len() ==> #[trigger] data_offset_of(names, contents, i) <= u32::MAX
            && contents[i].len() <= u32::MAX
}

/// No name holds a NUL byte.
pub open spec fn nul_free(names: Seq<Seq<u8>>) -> bool {
    forall|i: int, j: int|
        0 <= i < names.len() && 0 <= j < names[i].len() ==> #[trigger] names[i][j] != 0
}

/// Every name is valid Shift-JIS.
pub open spec fn decodable(names: Seq<Seq<u8>>) -> bool {
    forall|i: int| 0 <= i < names.len() ==> !(#[trigger] sjis_decoded(names[i])).1
}

/// The entries that an archive of these names and contents holds.
pub open spec fn expected_entries(names: Seq<Seq<u8>>, contents: Seq<Seq<u8>>) -> Seq<EntryModel> {
    Seq::new(
        names.len(),
        |i: int|
            EntryModel {
                name: sjis_decoded(names[i]).0,
                offset: data_offset_of(names, contents, i) as u32,
                size: contents[i].len() as u32,
                name_offset: name_offset_of(names, i) as u32,
            },
    )
}

/// A little-endian field read inside a window is the one read at the same place
/// of the whole.
proof fn lemma_le_u32_window(b: Seq<u8>, p: int, c: Seq<u8>, q: int)
    requires
        0 <= p,
        p + c.len() <= b.len(),
        c == b.subrange(p, p + c.len()),
        0 <= q,
        q + 4 <= c.len(),
    ensures
        le_u32_at(b, p + q) == le_u32_at(c, q),
{
    assert(b[p + q] == c[q]);
    assert(b[p + q + 1] == c[q + 1]);
    assert(b[p + q + 2] == c[q + 2]);
    assert(b[p + q + 3] == c[q + 3]);
}

/// The regions of an archive image.
proof fn lemma_image_regions(names: Seq<Seq<u8>>, contents: Seq<Seq<u8>>)
    requires
        names.len() == contents.len(),
    ensures
        ({
            let img = archive_image(names, contents);
            let n = names.len() as int;
            let t = concat(table_rows(names, contents));
            let blob = names_blob(names);
            let c = concat(contents);
            &&& t.len() == 12 * n
            &&& img.len() == data_start(names) + c.len()
            &&& img.subrange(0, 4) == le_bytes(n as u32)
            &&& img.subrange(8, 8 + 12 * n) == t
            &&& img.subrange(8 + 12 * n, data_start(names)) == blob
            &&& img.subrange(data_start(names), img.len() as int) == c
        }),
{
    let img = archive_image(names, contents);
    let n = names.len() as int;
    let rows = table_rows(names, contents);
    let t = concat(rows);
    let blob = names_blob(names);
    let c = concat(contents);
    assert forall|i: int| 0 <= i < rows.len() implies #[trigger] rows[i].len() == 12 by {}
    lemma_concat_uniform(rows, 12, n as int);
    assert(rows.take(n as int) =~= rows);
    let h = le_bytes(n as u32) + le_bytes(blob.len() as u32);
    assert(img == h + t + blob + c);
    assert(img.subrange(0, 4) =~= le_bytes(n as u32));
    assert(img.subrange(8, 8 + 12 * n) =~= t);
    assert(img.subrange(8 + 12 * n, data_start(names)) =~= blob);
    assert(img.subrange(data_start(names), img.len() as int) =~= c);
}

/// A window of a window is a window of the whole.
proof fn lemma_subrange_subrange(b: Seq<u8>, a: int, e: int, c: int, d: int)
    requires
        0 <= a <= e <= b.len(),
        0 <= c <= d <= e - a,
    ensures
        b.subrange(a, e).subrange(c, d) == b.subrange(a + c, a + d),
{
    assert(b.subrange(a, e).subrange(c, d) =~= b.subrange(a + c, a + d));
}

/// The table row of entry `i` of an archive image.
proof fn lemma_image_row(names: Seq<Seq<u8>>, contents: Seq<Seq<u8>>, i: int)
    requires
        fields_fit(names, contents),
        0 <= i < names.len(),
    ensures
        ({
            let img = archive_image(names, contents);
            let e = expected_entries(names, contents)[i];
            &&& row_field(img, i, 0) == e.name_offset
            &&& row_field(img, i, 1) == e.offset
            &&& row_field(img, i, 2) == e.size
            &&& name_offset_of(names, i) <= u32::MAX
        }),
{
    let img = archive_image(names, contents);
    let n = names.len() as int;
    let rows = table_rows(names, contents);
    let blob = names_blob(names);
    lemma_image_regions(names, contents);
    assert forall|k: int| 0 <= k < rows.len() implies #[trigger] rows[k].len() == 12 by {}
    lemma_concat_uniform(rows, 12, i);
    lemma_concat_subrange(rows, i);
    lemma_subrange_subrange(img, 8, 8 + 12 * n, 12 * i, 12 * i + 12);
    let row = rows[i];
    assert(row == img.subrange(8 + 12 * i, 8 + 12 * i + 12));
    let no = name_offset_of(names, i);
    let off = data_offset_of(names, contents, i);
    let tn = terminated(names);
    lemma_concat_subrange(tn, i);
    assert(no + names[i].len() + 1 <= blob.len()) by {
        assert(tn[i] == names[i].push(0u8));
    }
    assert(no <= u32::MAX) by {
        lemma_concat_subrange(contents, i);
    }
    lemma_le_bytes_roundtrip(no as u32);
    lemma_le_bytes_roundtrip(off as u32);
    lemma_le_bytes_roundtrip(contents[i].len() as u32);
    assert(row.subrange(0, 4) =~= le_bytes(no as u32));
    assert(row.subrange(4, 8) =~= le_bytes(off as u32));
    assert(row.subrange(8, 12) =~= le_bytes(contents[i].len() as u32));
    lemma_le_u32_window(img, 8 + 12 * i, row, 0);
    lemma_le_u32_window(img, 8 + 12 * i, row, 4);
    lemma_le_u32_window(img, 8 + 12 * i, row, 8);
    lemma_le_u32_window(row, 0, le_bytes(no as u32), 0);
    lemma_le_u32_window(row, 4, le_bytes(off as u32), 0);
    lemma_le_u32_window(row, 8, le_bytes(contents[i].len() as u32), 0);
}

/// The name of entry `i` of an archive image.
proof fn lemma_image_name(names: Seq<Seq<u8>>, contents: Seq<Seq<u8>>, i: int)
    requires
        names.len() == contents.len(),
        nul_free(names),
        0 <= i < names.len(),
    ensures
        cstr_at(archive_image(names, contents), 8 + 12 * names.len() + name_offset_of(names, i))
            == Some(names[i]),
{
    let img = archive_image(names, contents);
    let n = names.len() as int;
    let blob = names_blob(names);
    lemma_image_regions(names, contents);
    let no = name_offset_of(names, i);
    let ds = data_start(names);
    let tn = terminated(names);
    lemma_concat_subrange(tn, i);
    assert(tn[i] == names[i].push(0u8));
    let start = 8 + 12 * n + no;
    let m = names[i].len() as int;
    lemma_subrange_subrange(img, 8 + 12 * n, ds, no, no + m + 1);
    assert forall|k: int| start <= k < start + m implies img[k] != 0 by {
        assert(img[k] == blob.subrange(no, no + m + 1)[k - start]);
        assert(tn[i][k - start] == names[i][k - start]);
    }
    assert(img[start + m] == 0) by {
        assert(img[start + m] == blob.subrange(no, no + m + 1)[m]);
    }
    lemma_cstr_at(img, start, m);
    assert forall|k: int| 0 <= k < m implies img.subrange(start, start + m)[k] == names[i][k] by {
        assert(img[start + k] == blob.subrange(no, no + m + 1)[k]);
        assert(tn[i][k] == names[i][k]);
    }
    assert(img.subrange(start, start + m) =~= names[i]);
}

/// The data of entry `i` of an archive image.
proof fn lemma_image_data(names: Seq<Seq<u8>>, contents: Seq<Seq<u8>>, i: int)
    requires
        fields_fit(names, contents),
        0 <= i < names.len(),
    ensures
        ({
            let e = expected_entries(names, contents)[i];
            entry_content(archive_image(names, contents), e.offset, e.size) == contents[i]
        }),
{
    let img = archive_image(names, contents);
    let e = expected_entries(names, contents)[i];
    let ds = data_start(names);
    lemma_image_regions(names, contents);
    lemma_concat_subrange(contents, i);
    lemma_subrange_subrange(
        img,
        ds,
        img.len() as int,
        part_start(contents, i),
        part_start(contents, i) + contents[i].len(),
    );
    assert(entry_content(img, e.offset, e.size) =~= contents[i]);
}

/// Entry `i` of an archive image: its table row, its name and its data.
proof fn lemma_image_entry(names: Seq<Seq<u8>>, contents: Seq<Seq<u8>>, i: int)
    requires
        fields_fit(names, contents),
        nul_free(names),
        0 <= i < names.len(),
    ensures
        ({
            let img = archive_image(names, contents);
            let e = expected_entries(names, contents)[i];
            &&& row_field(img, i, 0) == e.name_offset
            &&& row_field(img, i, 1) == e.offset
            &&& row_field(img, i, 2) == e.size
            &&& e.name_offset == name_offset_of(names, i)
            &&& cstr_at(img, 8 + 12 * names.len() + name_offset_of(names, i)) == Some(names[i])
            &&& entry_content(img, e.offset, e.size) == contents[i]
        }),
{
    lemma_image_row(names, contents, i);
    lemma_image_name(names, contents, i);
    lemma_image_data(names, contents, i);
}

/// The first `m` entries of an archive image read back as expected.
proof fn lemma_entries_prefix(names: Seq<Seq<u8>>, contents: Seq<Seq<u8>>, m: nat)
    requires
        m <= names.len(),
        fields_fit(names, contents),
        nul_free(names),
        decodable(names),
        entry_count(archive_image(names, contents)) == names.len(),
    ensures
        parse_entries(archive_image(names, contents), m) == Ok::<Seq<EntryModel>, ParseFault>(
            expected_entries(names, contents).take(m as int),
        ),
    decreases m,
{
    let exp = expected_entries(names, contents);
    if m == 0 {
        assert(exp.take(0) =~= Seq::<EntryModel>::empty());
    } else {
        let i = m - 1;
        lemma_entries_prefix(names, contents, (m - 1) as nat);
        lemma_image_entry(names, contents, i);
        assert(!sjis_decoded(names[i]).1);
        assert(exp.take(i).push(exp[i]) =~= exp.take(m as int));
    }
}

/// An archive built from names and contents reads back as them: its table
/// gives each file's name offset, data offset and size, its names decode to
/// the Shift-JIS reading of the stored bytes, and each file's data is
/// exactly the contents written. Holds when no table field wraps at 32 bits,
/// no name holds a NUL byte and every name is valid Shift-JIS.
pub proof fn lemma_archive_reads_back(names: Seq<Seq<u8>>, contents: Seq<Seq<u8>>)
    requires
        fields_fit(names, contents),
        nul_free(names),
        decodable(names),
    ensures
        parse_archive(archive_image(names, contents)) == Ok::<Seq<EntryModel>, ParseFault>(
            expected_entries(names, contents),
        ),
        forall|i: int|
            0 <= i < names.len() ==> entry_content(
                archive_image(names, contents),
                #[trigger] expected_entries(names, contents)[i].offset,
                expected_entries(names, contents)[i].size,
            ) == contents[i],
{
    let img = archive_image(names, contents);
    let n = names.len() as int;
    lemma_image_regions(names, contents);
    lemma_layout_len(names, concat(table_rows(names, contents)), contents);
    if n > 0 {
        lemma_image_entry(names, contents, 0);
        assert(data_start(names) <= u32::MAX) by {
            assert(data_offset_of(names, contents, 0) <= u32::MAX);
            assert(contents.take(0) =~= Seq::<Seq<u8>>::empty());
        }
    }
    lemma_le_bytes_roundtrip(n as u32);
    lemma_le_u32_window(img, 0, le_bytes(n as u32), 0);
    assert(entry_count(img) == n);
    assert(names_start(img) == 8 + 12 * n);
    let exp = expected_entries(names, contents);
    lemma_entries_prefix(names, contents, names.len());
    assert(exp.take(n as int) =~= exp);
    assert forall|i: int| 0 <= i < names.len() implies entry_content(
        img,
        #[trigger] exp[i].offset,
        exp[i].size,
    ) == contents[i] by {
        lemma_image_entry(names, contents, i);
    }
}


/// Each name decodes back from its Shift-JIS bytes.
pub open spec fn decodes_back(names: Seq<Seq<char>>) -> bool {
    forall|i: int| 0 <= i < names.len() ==> #[trigger] sjis_decoded(sjis_encoded(names[i]).0) == (
        names[i],
        false,
    )
}

/// Extracting the archive `img` gives back the packed files, in order: each
/// with its stored name, its data exactly, and the stored name with the
/// extension that the bytes at its offset suggest (for data of four bytes or
/// more, the file's own first bytes).
pub open spec fn files_come_back(
    file_names: Seq<&str>,
    contents: Seq<Seq<u8>>,
    img: Seq<u8>,
) -> bool {
    let stored = stored_names(file_names, false);
    parse_archive(img) matches Ok(es) && {
        let files = extracted(img, es);
        &&& files.len() == contents.len()
        &&& forall|i: int| 0 <= i < contents.len() ==> (#[trigger] files[i]).0 == stored[i]
        &&& forall|i: int| 0 <= i < contents.len() ==> (#[trigger] files[i]).2 == contents[i]
        &&& forall|i: int|
            0 <= i < contents.len() ==> (#[trigger] files[i]).1 == resolved_name(
                img,
                false,
                stored[i],
                es[i].offset,
            )
        &&& forall|i: int|
            0 <= i < contents.len() && contents[i].len() >= 4 ==> (#[trigger] files[i]).1
                == with_suggested_extension(stored[i], contents[i])
    }
}

/// What packing needs for the files to come back: stored names without NUL
/// that decode back from their Shift-JIS bytes, and no table field wrapping
/// at 32 bits.
pub open spec fn packable(file_names: Seq<&str>, contents: Seq<Seq<u8>>) -> bool {
    let stored = stored_names(file_names, false);
    &&& file_names.len() == contents.len()
    &&& forall|i: int| 0 <= i < stored.len() ==> nul_free_text(#[trigger] stored[i])
    &&& decodes_back(stored)
    &&& fields_fit(encoded_names(stored), contents)
}

/// Packing files and extracting the archive gives every file back, in
/// order: its data exactly, and its stored name (`.ogg` removed where the
/// name ends with it) with the extension that the first bytes of the data
/// suggest; for data of four bytes or more, those bytes are the file's own.
/// Holds when the stored names encode to Shift-JIS without a NUL byte and
/// decode back, and no table field wraps at 32 bits.
pub proof fn lemma_pack_then_extract(file_names: Seq<&str>, contents: Seq<Seq<u8>>)
    requires
        file_names.len() == contents.len(),
        all_encodable(stored_names(file_names, false)),
        decodes_back(stored_names(file_names, false)),
        nul_free(encoded_names(stored_names(file_names, false))),
        fields_fit(encoded_names(stored_names(file_names, false)), contents),
    ensures
        files_come_back(
            file_names,
            contents,
            archive_image(encoded_names(stored_names(file_names, false)), contents),
        ),
{
    let stored = stored_names(file_names, false);
    let enc = encoded_names(stored);
    let img = archive_image(enc, contents);
    assert(decodable(enc)) by {
        assert forall|i: int| 0 <= i < enc.len() implies !(#[trigger] sjis_decoded(enc[i])).1 by {
            assert(sjis_decoded(sjis_encoded(stored[i]).0) == (stored[i], false));
        }
    }
    lemma_archive_reads_back(enc, contents);
    let es = expected_entries(enc, contents);
    let files = extracted(img, es);
    assert forall|i: int| 0 <= i < contents.len() && contents[i].len() >= 4 implies (
    #[trigger] files[i]).1 == with_suggested_extension(stored[i], contents[i]) by {
        assert(sjis_decoded(sjis_encoded(stored[i]).0) == (stored[i], false));
        let off = es[i].offset;
        let c = entry_content(img, off, es[i].size);
        assert(c == contents[i]);
        assert(entry_content(img, off, 4) =~= c.take(4));
        assert(contents[i].take(4).take(4) =~= contents[i].take(4));
    }
    assert forall|i: int| 0 <= i < contents.len() implies (#[trigger] files[i]).0 == stored[i] by {
        assert(sjis_decoded(sjis_encoded(stored[i]).0) == (stored[i], false));
    }
    assert forall|i: int| 0 <= i < contents.len() implies (#[trigger] files[i]).1 == resolved_name(
        img,
        false,
        stored[i],
        es[i].offset,
    ) by {
        assert(sjis_decoded(sjis_encoded(stored[i]).0) == (stored[i], false));
    }
}

/// An archive read in raw mode and written again in raw mode, with the
/// names and data read, is byte for byte the same archive. Holds when the
/// names are valid Shift-JIS without NUL bytes that encode back to the same
/// bytes, and no table field wraps at 32 bits.
pub proof fn lemma_raw_repack(names: Seq<Seq<u8>>, contents: Seq<Seq<u8>>)
    requires
        fields_fit(names, contents),
        nul_free(names),
        decodable(names),
        forall|i: int|
            0 <= i < names.len() ==> sjis_encoded(#[trigger] sjis_decoded(names[i]).0) == (
                names[i],
                false,
            ),
    ensures
        ({
            let img = archive_image(names, contents);
            parse_archive(img) matches Ok(es) && {
                let read_names = es.map_values(|e: EntryModel| e.name);
                let read_data = es.map_values(
                    |e: EntryModel| entry_content(img, e.offset, e.size),
                );
                &&& all_encodable(read_names)
                &&& archive_image(encoded_names(read_names), read_data) == img
            }
        }),
{
    lemma_archive_reads_back(names, contents);
    let img = archive_image(names, contents);
    let es = expected_entries(names, contents);
    let read_names = es.map_values(|e: EntryModel| e.name);
    let read_data = es.map_values(|e: EntryModel| entry_content(img, e.offset, e.size));
    assert(encoded_names(read_names) =~= names);
    assert(read_data =~= contents);
    assert forall|i: int| 0 <= i < read_names.len() implies !(#[trigger] sjis_encoded(
        read_names[i],
    )).1 by {
        assert(sjis_encoded(sjis_decoded(names[i]).0) == (names[i], false));
    }
}

/// A text without `/` has no `/` before any position.
proof fn lemma_no_slash(s: Seq<char>, end: int)
    requires
        0 <= end <= s.len(),
        forall|k: int| 0 <= k < s.len() ==> s[k] != '/',
    ensures
        last_index_of(s, '/', end) == -1,
    decreases end,
{
    if end > 0 {
        lemma_no_slash(s, end - 1);
    }
}

/// Removing the extension undoes adding `.ogg`: for a non-empty name
/// without `/`, the name with `.ogg` appended strips back to the name.
pub proof fn lemma_strip_undoes_ogg(name: Seq<char>)
    requires
        name.len() > 0,
        forall|k: int| 0 <= k < name.len() ==> name[k] != '/',
    ensures
        stripped_name(name + ogg_ext()) == name,
{
    let t = name + ogg_ext();
    let m = name.len() as int;
    assert forall|k: int| 0 <= k < t.len() implies t[k] != '/' by {
        if k >= m {
            assert(t[k] == ogg_ext()[k - m]);
        }
    }
    lemma_no_slash(t, t.len() as int);
    assert(t.subrange(0, t.len() as int) =~= t);
    assert(t.len() >= 5);
    assert(t != seq!['.']);
    assert(t != seq!['.', '.']);
    assert(last_component(t, t.len() as int) == Some(t));
    assert(t[m + 3] == 'g' && t[m + 2] == 'g' && t[m + 1] == 'o' && t[m] == '.');
    assert(last_index_of(t, '.', m + 1) == m);
    assert(last_index_of(t, '.', m + 2) == m);
    assert(last_index_of(t, '.', m + 3) == m);
    assert(last_index_of(t, '.', m + 4) == m);
    assert(t.subrange(0, m) =~= name);
    assert(file_stem(t) == name);
}

/// The text `.ogg`.
pub open spec fn dot_ogg() -> Seq<char> {
    seq!['.', 'o', 'g', 'g']
}

/// `s` ends with the four characters `.ogg`.
pub open spec fn ends_in_dot_ogg(s: Seq<char>) -> bool {
    s.len() >= 4 && s[s.len() - 4] == '.' && s[s.len() - 3] == 'o' && s[s.len() - 2] == 'g'
        && s[s.len() - 1] == 'g'
}

/// Files are packed in unsigned byte order of their names: where two names
/// first differ, the one with the smaller byte (0 to 255) comes first, and a
/// name comes before every longer name that starts with it.
pub proof fn lemma_name_order_is_unsigned_bytes(a: Seq<u8>, b: Seq<u8>, k: int)
    requires
        0 <= k <= a.len(),
        k <= b.len(),
        forall|j: int| 0 <= j < k ==> a[j] == b[j],
    ensures
        k < a.len() && k < b.len() && a[k] != b[k] ==> (bytes_le(a, b) <==> (a[k] as int) < (
        b[k] as int)),
        k == a.len() ==> bytes_le(a, b),
    decreases k,
{
    if k > 0 {
        assert(a[0] == b[0]);
        lemma_name_order_is_unsigned_bytes(a.drop_first(), b.drop_first(), k - 1);
    }
}

/// An extracted name is the stored name, kept as it is, possibly followed by
/// `.ogg`: exactly when the first four bytes are `OggS` and the stored name,
/// lower-cased, does not already end in `.ogg`.
pub proof fn lemma_extracted_name_keeps_stored_name(name: Seq<char>, header: Seq<u8>)
    ensures
        with_suggested_extension(name, header).take(name.len() as int) == name,
        ({
            let ogg = header.len() >= 4 && header[0] == 0x4f && header[1] == 0x67 && header[2]
                == 0x67 && header[3] == 0x53;
            if ogg && !ends_in_dot_ogg(str_lowercase(name)) {
                with_suggested_extension(name, header) == name + dot_ogg()
            } else {
                with_suggested_extension(name, header) == name
            }
        }),
{
    let l = str_lowercase(name);
    if l.len() >= 4 {
        let t = l.subrange(l.len() - 4, l.len() as int);
        if ends_in_dot_ogg(l) {
            assert(t =~= ogg_ext());
        }
        if t == ogg_ext() {
            assert(t[0] == l[l.len() - 4]);
            assert(t[1] == l[l.len() - 3]);
            assert(t[2] == l[l.len() - 2]);
            assert(t[3] == l[l.len() - 1]);
        }
    }
    if header.len() >= 4 {
        let h = header.take(4);
        if header[0] == 0x4f && header[1] == 0x67 && header[2] == 0x67 && header[3] == 0x53 {
            assert(h =~= seq![0x4fu8, 0x67u8, 0x67u8, 0x53u8]);
        } else {
            assert(h[0] == header[0] && h[1] == header[1] && h[2] == header[2] && h[3]
                == header[3]);
        }
    }
    assert((name + dot_ogg()).take(name.len() as int) =~= name);
    assert(name.take(name.len() as int) =~= name);
    assert(ogg_ext() =~= dot_ogg());
}

/// In raw mode the extracted name is the stored name.
pub proof fn lemma_raw_mode_keeps_name(b: Seq<u8>, name: Seq<char>, offset: u32)
    ensures
        resolved_name(b, true, name, offset) == name,
{
}

/// An extension is suggested only for data starting with `OggS`, and then it
/// is `.ogg`.
pub proof fn lemma_only_ogg_is_recognised(header: Seq<u8>)
    ensures
        suggested_extension(header) is Some <==> (header.len() >= 4 && header[0] == 0x4f
            && header[1] == 0x67 && header[2] == 0x67 && header[3] == 0x53),
        suggested_extension(header) matches Some(ext) ==> ext == dot_ogg(),
{
    if header.len() >= 4 {
        let h = header.take(4);
        if header[0] == 0x4f && header[1] == 0x67 && header[2] == 0x67 && header[3] == 0x53 {
            assert(h =~= seq![0x4fu8, 0x67u8, 0x67u8, 0x53u8]);
        } else {
            assert(h[0] == header[0] && h[1] == header[1] && h[2] == header[2] && h[3]
                == header[3]);
        }
    }
    assert(ogg_ext() =~= dot_ogg());
}

/// Only names ending, in lower case, in `.ogg` lose their extension when
/// packed outside raw mode; every other name, and every name in raw mode,
/// is stored as given.
pub proof fn lemma_only_ogg_names_are_stripped(name: Seq<char>)
    ensures
        strips_extension(name) <==> ends_in_dot_ogg(str_lowercase(name)),
        !ends_in_dot_ogg(str_lowercase(name)) ==> stored_name(name, false) == name,
        stored_name(name, true) == name,
{
    let l = str_lowercase(name);
    if l.len() >= 4 {
        let t = l.subrange(l.len() - 4, l.len() as int);
        if ends_in_dot_ogg(l) {
            assert(t =~= ogg_ext());
        }
        if t == ogg_ext() {
            assert(t[0] == l[l.len() - 4]);
            assert(t[1] == l[l.len() - 3]);
            assert(t[2] == l[l.len() - 2]);
            assert(t[3] == l[l.len() - 1]);
        }
    }
}
} // verus!
