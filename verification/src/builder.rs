//! Writing an archive.
use crate::error::FvpError;
use crate::format::{
    archive_image, blank_table, concat, data_offset_of, layout, lemma_concat_split,
    lemma_concat_uniform, lemma_layout_len, lemma_names_push, lemma_part_start_push,
    name_offset_of, names_blob, push_u32_le, table_row, table_rows, zeros,
};
use crate::names::{lemma_stripped_within, stripped_name, strips_extension, MagicDetector};
use crate::reader::Entry;
use crate::sjis::{
    ascii_bytes, is_ascii_text, nul_free_bytes, nul_free_text, sjis_encode, sjis_encoded,
};
use vstd::prelude::*;

verus! {

/// The name under which a file is stored: outside raw mode a name ending,
/// in lower case, with `.ogg` loses its extension.
pub open spec fn stored_name(name: Seq<char>, raw_mode: bool) -> Seq<char> {
    if !raw_mode && strips_extension(name) {
        stripped_name(name)
    } else {
        name
    }
}

/// The stored name of an ASCII name is ASCII.
pub proof fn lemma_stored_name_ascii(name: Seq<char>, raw_mode: bool)
    ensures
        is_ascii_text(name) ==> is_ascii_text(stored_name(name, raw_mode)),
{
    lemma_stripped_within(name);
    if is_ascii_text(name) && stored_name(name, raw_mode) != name {
        let stored = stripped_name(name);
        assert forall|k: int| 0 <= k < stored.len() implies (#[trigger] stored[k] as u32)
            < 0x80 by {
            let j = choose|j: int| 0 <= j < name.len() && name[j] == stored[k];
            assert((name[j] as u32) < 0x80);
        }
    }
}

/// The stored names of a list of file names.
pub open spec fn stored_names(file_names: Seq<&str>, raw_mode: bool) -> Seq<Seq<char>> {
    Seq::new(file_names.len(), |i: int| stored_name(file_names[i]@, raw_mode))
}

/// The Shift-JIS bytes of a list of names.
pub open spec fn encoded_names(names: Seq<Seq<char>>) -> Seq<Seq<u8>> {
    names.map_values(|s: Seq<char>| sjis_encoded(s).0)
}

/// All names of the list have a Shift-JIS form.
pub open spec fn all_encodable(names: Seq<Seq<char>>) -> bool {
    forall|i: int| 0 <= i < names.len() ==> !(#[trigger] sjis_encoded(names[i])).1
}

/// Names made only of ASCII characters are stored as their own bytes.
pub open spec fn ascii_names_encoded(names: Seq<Seq<char>>, encoded: Seq<Seq<u8>>) -> bool {
    forall|i: int|
        0 <= i < names.len() && is_ascii_text(names[i]) ==> #[trigger] encoded[i] == ascii_bytes(
            names[i],
        )
}

/// Names without NUL are stored without zero bytes.
pub open spec fn nul_free_names_encoded(names: Seq<Seq<char>>, encoded: Seq<Seq<u8>>) -> bool {
    forall|i: int|
        0 <= i < names.len() && nul_free_text(names[i]) ==> nul_free_bytes(#[trigger] encoded[i])
}

/// A writer of an archive, built in memory: the header, a blank table and the
/// names first, then the files one by one, then the table.
pub struct FvpBuilder {
    inner: Vec<u8>,
    entries: Vec<Entry>,
    current_file_index: usize,
    /// When true, names are stored as given; when false, `.ogg` is removed.
    raw_mode: bool,
    encoded: Ghost<Seq<Seq<u8>>>,
    written: Ghost<Seq<Seq<u8>>>,
}

impl FvpBuilder {
    /// The bytes written so far.
    pub closed spec fn bytes(&self) -> Seq<u8> {
        self.inner@
    }

    /// The names as they are stored.
    pub closed spec fn names(&self) -> Seq<Seq<char>> {
        self.entries@.map_values(|e: Entry| e.name@)
    }

    /// The stored names in Shift-JIS.
    pub closed spec fn encoded(&self) -> Seq<Seq<u8>> {
        self.encoded@
    }

    /// The contents of the files written so far.
    pub closed spec fn written(&self) -> Seq<Seq<u8>> {
        self.written@
    }

    /// Whether names are stored as given.
    pub closed spec fn is_raw(&self) -> bool {
        self.raw_mode
    }

    /// The internal consistency of a builder.
    pub closed spec fn wf(&self) -> bool {
        let n = self.entries@.len();
        let enc = self.encoded@;
        let w = self.written@;
        &&& enc.len() == n
        &&& 8 + 12 * n <= usize::MAX
        &&& w.len() == self.current_file_index
        &&& self.current_file_index <= n
        &&& self.inner@.len() == 8 + 12 * n + names_blob(enc).len() + concat(w).len()
        &&& self.inner@ == layout(enc, self.inner@.subrange(8, (8 + 12 * n) as int), w)
        &&& forall|i: int|
            0 <= i < n ==> sjis_encoded(#[trigger] self.entries@[i].name@) == (enc[i], false)
        &&& forall|i: int|
            0 <= i < n ==> (#[trigger] self.entries@[i]).name_offset == name_offset_of(enc, i)
                as u32
        &&& forall|i: int|
            0 <= i < w.len() ==> (#[trigger] self.entries@[i]).offset == data_offset_of(enc, w, i)
                as u32 && self.entries@[i].size == w[i].len() as u32
    }

    /// Starts an archive of the given files, in this order: writes the
    /// header, a blank table and the names. Outside raw mode, names ending
    /// in `.ogg` (in any case) are stored without their extension.
    /// Fails with `EncodingError` when a stored name has no Shift-JIS form.
    pub fn new(file_names: &[&str], raw_mode: bool) -> (r: Result<Self, FvpError>)
        requires
            8 + 12 * file_names@.len() <= usize::MAX,
        ensures
            r is Ok <==> all_encodable(stored_names(file_names@, raw_mode)),
            match r {
                Ok(b) => {
                    &&& b.wf()
                    &&& b.names() == stored_names(file_names@, raw_mode)
                    &&& b.encoded() == encoded_names(stored_names(file_names@, raw_mode))
                    &&& b.written() == Seq::<Seq<u8>>::empty()
                    &&& b.bytes() == layout(
                        b.encoded(),
                        blank_table(file_names@.len()),
                        Seq::<Seq<u8>>::empty(),
                    )
                    &&& b.is_raw() == raw_mode
                    &&& ascii_names_encoded(b.names(), b.encoded())
                    &&& nul_free_names_encoded(b.names(), b.encoded())
                },
                Err(e) => {
                    &&& e is EncodingError
                    &&& exists|i: int|
                        0 <= i < file_names@.len() && !is_ascii_text(
                            #[trigger] stored_names(file_names@, raw_mode)[i],
                        )
                },
            },
    {
        let n = file_names.len();
        let ghost stored = stored_names(file_names@, raw_mode);
        let mut entries: Vec<Entry> = Vec::new();
        let mut blob: Vec<u8> = Vec::new();
        let ghost mut enc: Seq<Seq<u8>> = Seq::empty();
        let mut i: usize = 0;
        while i < n
            invariant
                n == file_names@.len(),
                stored == stored_names(file_names@, raw_mode),
                i <= n,
                entries@.len() == i,
                enc.len() == i,
                enc == encoded_names(stored.take(i as int)),
                all_encodable(stored.take(i as int)),
                ascii_names_encoded(stored.take(i as int), enc),
                nul_free_names_encoded(stored.take(i as int), enc),
                blob@ == names_blob(enc),
                forall|k: int| 0 <= k < i ==> #[trigger] entries@[k].name@ == stored[k],
                forall|k: int|
                    0 <= k < i ==> sjis_encoded(#[trigger] entries@[k].name@) == (enc[k], false),
                forall|k: int|
                    0 <= k < i ==> (#[trigger] entries@[k]).name_offset == name_offset_of(enc, k)
                        as u32,
            decreases n - i,
        {
            let name: &str = file_names[i];
            let stored_str = if !raw_mode && MagicDetector::should_strip_extension(name) {
                MagicDetector::strip_extension(name)
            } else {
                name.to_owned()
            };
            assert(stored_str@ == stored[i as int]);
            let (mut bytes, had_errors) = sjis_encode(stored_str.as_str());
            if had_errors {
                proof {
                    assert(!all_encodable(stored)) by {
                        assert(sjis_encoded(stored[i as int]).1);
                    }
                }
                return Err(FvpError::EncodingError);
            }
            let ghost name_bytes = bytes@;
            bytes.push(0);
            let name_offset = blob.len() as u32;
            proof {
                lemma_names_push(enc, name_bytes);
            }
            entries.push(Entry { name: stored_str, offset: 0, size: 0, name_offset });
            blob.append(&mut bytes);
            proof {
                assert(encoded_names(stored.take(i + 1)) =~= enc.push(name_bytes));
                enc = enc.push(name_bytes);
                assert forall|k: int| 0 <= k < i + 1 implies !(#[trigger] sjis_encoded(
                    stored.take(i + 1)[k],
                )).1 by {
                    if k < i {
                        assert(stored.take(i + 1)[k] == stored.take(i as int)[k]);
                    }
                }
            }
            i = i + 1;
        }
        proof {
            assert(stored.take(n as int) =~= stored);
        }
        let mut inner: Vec<u8> = Vec::new();
        push_u32_le(&mut inner, n as u32);
        push_u32_le(&mut inner, blob.len() as u32);
        let ghost header = inner@;
        let mut k: usize = 0;
        while k < 12 * n
            invariant
                8 + 12 * n <= usize::MAX,
                header.len() == 8,
                k <= 12 * n,
                inner@ == header + zeros(k as nat),
            decreases 12 * n - k,
        {
            inner.push(0u8);
            k = k + 1;
            assert(inner@ =~= header + zeros(k as nat));
        }
        inner.append(&mut blob);
        let b = FvpBuilder {
            inner,
            entries,
            current_file_index: 0,
            raw_mode,
            encoded: Ghost(enc),
            written: Ghost(Seq::empty()),
        };
        proof {
            let lay = layout(enc, blank_table(n as nat), Seq::<Seq<u8>>::empty());
            assert(b.inner@ =~= lay);
            assert(lay.subrange(8, (8 + 12 * n) as int) =~= blank_table(n as nat));
            assert(b.names() =~= stored);
        }
        Ok(b)
    }

    /// Appends the contents of the next file and records where they start
    /// and how long they are. Fails with `CountMismatch` when all announced
    /// files have been written already.
    pub fn write_file(&mut self, data: &[u8]) -> (r: Result<(), FvpError>)
        requires
            old(self).wf(),
        ensures
            final(self).wf(),
            old(self).written().len() >= old(self).names().len() ==> {
                &&& r matches Err(FvpError::CountMismatch { expected, actual })
                &&& expected == old(self).names().len()
                &&& actual == old(self).written().len() + 1
                &&& *final(self) == *old(self)
            },
            old(self).written().len() < old(self).names().len() ==> {
                &&& r is Ok
                &&& final(self).written() == old(self).written().push(data@)
                &&& final(self).bytes() == old(self).bytes() + data@
                &&& final(self).names() == old(self).names()
                &&& final(self).encoded() == old(self).encoded()
                &&& final(self).is_raw() == old(self).is_raw()
            },
    {
        if self.current_file_index >= self.entries.len() {
            return Err(
                FvpError::CountMismatch {
                    expected: self.entries.len(),
                    actual: self.current_file_index + 1,
                },
            );
        }
        let ghost old_self = *self;
        let ghost enc = self.encoded@;
        let ghost w = self.written@;
        let start = self.inner.len();
        let mut copy = vstd::slice::slice_to_vec(data);
        self.inner.append(&mut copy);
        let idx = self.current_file_index;
        let size = data.len() as u32;
        let mut e = self.entries.remove(idx);
        e.offset = start as u32;
        e.size = size;
        self.entries.insert(idx, e);
        self.current_file_index = idx + 1;
        self.written = Ghost(w.push(data@));
        proof {
            let n = old_self.entries@.len();
            lemma_part_start_push(w, data@, w.len() as int);
            assert forall|i: int| 0 <= i < w.len() implies #[trigger] data_offset_of(
                enc,
                w.push(data@),
                i,
            ) == data_offset_of(enc, w, i) by {
                lemma_part_start_push(w, data@, i);
            }
            assert(self.entries@ =~= old_self.entries@.update(idx as int, e));
            let table = old_self.inner@.subrange(8, (8 + 12 * n) as int);
            lemma_layout_len(enc, table, w);
            assert(self.inner@ =~= layout(enc, table, w.push(data@)));
            assert(self.inner@.subrange(8, (8 + 12 * n) as int) =~= table);
            assert(self.names() =~= old_self.names());
        }
        Ok(())
    }
}


/// Writes `src` over `v[at..at + src.len()]`.
fn overwrite(v: &mut Vec<u8>, at: usize, src: &[u8])
    requires
        at + src@.len() <= old(v)@.len(),
    ensures
        final(v)@ == old(v)@.subrange(0, at as int) + src@ + old(v)@.subrange(
            at + src@.len(),
            old(v)@.len() as int,
        ),
{
    let ghost orig = v@;
    let total = v.len();
    let mut j: usize = 0;
    while j < src.len()
        invariant
            total == orig.len(),
            at + src@.len() <= orig.len(),
            j <= src@.len(),
            v@.len() == orig.len(),
            forall|p: int| 0 <= p < j ==> #[trigger] v@[at + p] == src@[p],
            forall|p: int|
                0 <= p < orig.len() && !(at <= p < at + j) ==> #[trigger] v@[p] == orig[p],
        decreases src@.len() - j,
    {
        v.set(at + j, src[j]);
        j = j + 1;
    }
    assert forall|p: int| 0 <= p < v@.len() implies #[trigger] v@[p] == (orig.subrange(
        0,
        at as int,
    ) + src@ + orig.subrange(at + src@.len(), orig.len() as int))[p] by {
        if at <= p < at + src@.len() {
            assert(v@[at + (p - at)] == src@[p - at]);
        }
    }
    assert(v@ =~= orig.subrange(0, at as int) + src@ + orig.subrange(
        at + src@.len(),
        orig.len() as int,
    ));
}

impl FvpBuilder {
    /// The table rows of all files, once all of them are written.
    fn table_bytes(&self) -> (t: Vec<u8>)
        requires
            self.wf(),
            self.current_file_index == self.entries@.len(),
        ensures
            t@ == concat(table_rows(self.encoded@, self.written@)),
            t@.len() == 12 * self.entries@.len(),
    {
        let n = self.entries.len();
        let ghost rows = table_rows(self.encoded@, self.written@);
        let mut table: Vec<u8> = Vec::new();
        let mut k: usize = 0;
        while k < n
            invariant
                self.wf(),
                n == self.entries@.len(),
                self.current_file_index == n,
                rows == table_rows(self.encoded@, self.written@),
                k <= n,
                table@ == concat(rows.take(k as int)),
            decreases n - k,
        {
            let e = &self.entries[k];
            push_u32_le(&mut table, e.name_offset);
            push_u32_le(&mut table, e.offset);
            push_u32_le(&mut table, e.size);
            proof {
                assert(rows[k as int] == table_row(e.name_offset, e.offset, e.size));
                lemma_concat_split(rows, k as int);
                assert(table@ =~= concat(rows.take(k as int)) + rows[k as int]);
            }
            k = k + 1;
        }
        proof {
            assert(rows.take(n as int) =~= rows);
            assert forall|i: int| 0 <= i < rows.len() implies #[trigger] rows[i].len() == 12 by {}
            lemma_concat_uniform(rows, 12, n as int);
        }
        table
    }

    /// Completes the archive by filling in the table: for each file its name
    /// offset, data offset and size. Fails with `CountMismatch` when fewer
    /// files were written than announced.
    pub fn finish(&mut self) -> (r: Result<(), FvpError>)
        requires
            old(self).wf(),
        ensures
            final(self).wf(),
            final(self).names() == old(self).names(),
            final(self).encoded() == old(self).encoded(),
            final(self).written() == old(self).written(),
            final(self).is_raw() == old(self).is_raw(),
            old(self).written().len() != old(self).names().len() ==> {
                &&& r matches Err(FvpError::CountMismatch { expected, actual })
                &&& expected == old(self).names().len()
                &&& actual == old(self).written().len()
                &&& *final(self) == *old(self)
            },
            old(self).written().len() == old(self).names().len() ==> {
                &&& r is Ok
                &&& final(self).bytes() == archive_image(old(self).encoded(), old(self).written())
            },
    {
        let n = self.entries.len();
        if self.current_file_index != n {
            return Err(FvpError::CountMismatch { expected: n, actual: self.current_file_index });
        }
        let ghost enc = self.encoded@;
        let ghost w = self.written@;
        let ghost old_inner = self.inner@;
        let table = self.table_bytes();
        overwrite(&mut self.inner, 8, table.as_slice());
        proof {
            let t = concat(table_rows(enc, w));
            let old_table = old_inner.subrange(8, (8 + 12 * n) as int);
            lemma_layout_len(enc, old_table, w);
            let tail = old_inner.subrange(8 + 12 * n, old_inner.len() as int);
            assert(old_inner.subrange(0, 8) + t + tail =~= layout(enc, t, w));
            assert(self.inner@.subrange(8, (8 + 12 * n) as int) =~= t);
        }
        Ok(())
    }

    /// The bytes of the archive.
    pub fn into_inner(self) -> (r: Vec<u8>)
        ensures
            r@ == self.bytes(),
    {
        self.inner
    }
}

} // verus!
