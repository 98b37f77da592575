//! Reading an archive: its file table, names and data.
use crate::error::{unexpected_eof, FvpError};
use crate::format::{cstr_at, entry_content, le_u32_at, read_u32_le};
use crate::names::{suggested_extension, MagicDetector};
use crate::sjis::{ascii_text, is_ascii_bytes, sjis_decode, sjis_decoded};
use crate::text::{ends_with, str_ends_with, str_lowercase, to_lowercase};
use vstd::prelude::*;
use vstd::slice::slice_subrange;

verus! {

/// One file of an archive (its metadata).
#[derive(Debug, Clone)]
pub struct Entry {
    /// The name stored in the archive (possibly without its extension).
    pub name: String,
    /// Where the data starts, from the start of the archive.
    pub offset: u32,
    /// The length of the data.
    pub size: u32,
    /// Where the name starts, from the start of the names area.
    pub name_offset: u32,
}

/// The mathematical content of an [`Entry`].
pub struct EntryModel {
    pub name: Seq<char>,
    pub offset: u32,
    pub size: u32,
    pub name_offset: u32,
}

impl View for Entry {
    type V = EntryModel;

    open spec fn view(&self) -> EntryModel {
        EntryModel {
            name: self.name@,
            offset: self.offset,
            size: self.size,
            name_offset: self.name_offset,
        }
    }
}

/// The models of a list of entries.
pub open spec fn entry_models(entries: Seq<Entry>) -> Seq<EntryModel> {
    entries.map_values(|e: Entry| e@)
}

/// Why an archive cannot be read.
pub enum ParseFault {
    /// It ends before a header field, a table row or the end of a name.
    Truncated,
    /// A name is not valid Shift-JIS.
    BadName,
}

/// The number of files that the header announces.
pub open spec fn entry_count(b: Seq<u8>) -> nat {
    le_u32_at(b, 0) as nat
}

/// Where the names area starts: after the header and the table.
pub open spec fn names_start(b: Seq<u8>) -> int {
    (8 + 12 * entry_count(b)) as int
}

/// Field `k` (name offset, data offset, size) of table row `i`.
pub open spec fn row_field(b: Seq<u8>, i: int, k: int) -> u32 {
    le_u32_at(b, 8 + 12 * i + 4 * k) as u32
}

/// The stored bytes of the name of entry `i`, up to its terminator.
pub open spec fn raw_name(b: Seq<u8>, i: int) -> Option<Seq<u8>> {
    cstr_at(b, names_start(b) + row_field(b, i, 0))
}

/// The first `n` entries of the table, each with its name read and decoded.
pub open spec fn parse_entries(b: Seq<u8>, n: nat) -> Result<Seq<EntryModel>, ParseFault>
    decreases n,
{
    if n == 0 {
        Ok(Seq::empty())
    } else {
        match parse_entries(b, (n - 1) as nat) {
            Err(f) => Err(f),
            Ok(es) => {
                let i = n - 1;
                match raw_name(b, i) {
                    None => Err(ParseFault::Truncated),
                    Some(raw) => if sjis_decoded(raw).1 {
                        Err(ParseFault::BadName)
                    } else {
                        Ok(
                            es.push(
                                EntryModel {
                                    name: sjis_decoded(raw).0,
                                    offset: row_field(b, i, 1),
                                    size: row_field(b, i, 2),
                                    name_offset: row_field(b, i, 0),
                                },
                            ),
                        )
                    },
                }
            },
        }
    }
}

/// Once reading the table fails, reading more of it fails the same way.
pub proof fn lemma_parse_entries_fault_stays(b: Seq<u8>, m: nat, n: nat)
    requires
        m <= n,
        parse_entries(b, m) is Err,
    ensures
        parse_entries(b, n) == parse_entries(b, m),
    decreases n,
{
    if n > m {
        lemma_parse_entries_fault_stays(b, m, (n - 1) as nat);
    }
}

/// Reading a name looks only at the bytes from its start on.
proof fn lemma_cstr_at_agree(b1: Seq<u8>, b2: Seq<u8>, start: int)
    requires
        b1.len() == b2.len(),
        forall|k: int| start <= k < b1.len() ==> b1[k] == b2[k],
    ensures
        cstr_at(b1, start) == cstr_at(b2, start),
    decreases b1.len() - start,
{
    if 0 <= start < b1.len() && b1[start] != 0 {
        lemma_cstr_at_agree(b1, b2, start + 1);
    }
}

/// The table and names of two archives that agree outside bytes 4..8 read alike.
proof fn lemma_entries_ignore_names_size(b1: Seq<u8>, b2: Seq<u8>, n: nat)
    requires
        b1.len() == b2.len(),
        forall|k: int| 0 <= k < b1.len() && !(4 <= k < 8) ==> b1[k] == b2[k],
        b1.len() >= 8 + 12 * n,
    ensures
        parse_entries(b1, n) == parse_entries(b2, n),
    decreases n,
{
    if n > 0 {
        let i = n - 1;
        lemma_entries_ignore_names_size(b1, b2, (n - 1) as nat);
        let r = 8 + 12 * i;
        assert(le_u32_at(b1, 0) == le_u32_at(b2, 0));
        assert(b1[r] == b2[r] && b1[r + 1] == b2[r + 1] && b1[r + 2] == b2[r + 2] && b1[r + 3]
            == b2[r + 3]);
        assert(b1[r + 4] == b2[r + 4] && b1[r + 5] == b2[r + 5] && b1[r + 6] == b2[r + 6] && b1[r
            + 7] == b2[r + 7]);
        assert(b1[r + 8] == b2[r + 8] && b1[r + 9] == b2[r + 9] && b1[r + 10] == b2[r + 10]
            && b1[r + 11] == b2[r + 11]);
        assert(row_field(b1, i, 0) == row_field(b2, i, 0));
        assert(row_field(b1, i, 1) == row_field(b2, i, 1));
        assert(row_field(b1, i, 2) == row_field(b2, i, 2));
        lemma_cstr_at_agree(b1, b2, names_start(b1) + row_field(b1, i, 0));
    }
}

/// The entries of an archive, or why it cannot be read.
pub open spec fn parse_archive(b: Seq<u8>) -> Result<Seq<EntryModel>, ParseFault> {
    if b.len() < 8 || b.len() < names_start(b) {
        Err(ParseFault::Truncated)
    } else {
        parse_entries(b, entry_count(b))
    }
}

/// The names-size field of the header (bytes 4..8) plays no part in reading:
/// two archives that differ only there read to the same entries, or fail
/// the same way.
pub proof fn lemma_names_size_ignored(b1: Seq<u8>, b2: Seq<u8>)
    requires
        b1.len() == b2.len(),
        forall|k: int| 0 <= k < b1.len() && !(4 <= k < 8) ==> b1[k] == b2[k],
    ensures
        parse_archive(b1) == parse_archive(b2),
{
    if b1.len() >= 8 {
        assert(le_u32_at(b1, 0) == le_u32_at(b2, 0));
        if b1.len() >= names_start(b1) {
            lemma_entries_ignore_names_size(b1, b2, entry_count(b1));
        }
    }
}

/// A name with the extension that the data's first bytes suggest, unless the
/// name already ends with it (in lower case).
pub open spec fn with_suggested_extension(name: Seq<char>, header: Seq<u8>) -> Seq<char> {
    match suggested_extension(header) {
        Some(ext) => if !ends_with(str_lowercase(name), ext) {
            name + ext
        } else {
            name
        },
        None => name,
    }
}

/// The name under which an entry is extracted: in raw mode the stored name;
/// otherwise the stored name with the extension that the four bytes at the
/// entry's offset suggest.
pub open spec fn resolved_name(b: Seq<u8>, raw_mode: bool, name: Seq<char>, offset: u32) -> Seq<
    char,
> {
    if raw_mode {
        name
    } else {
        with_suggested_extension(name, entry_content(b, offset, 4))
    }
}

/// Entries whose stored name bytes are all ASCII carry those characters as
/// their names.
pub open spec fn ascii_names_read(b: Seq<u8>, entries: Seq<EntryModel>) -> bool {
    forall|i: int|
        0 <= i < entries.len() ==> (raw_name(b, i) matches Some(raw) ==> (is_ascii_bytes(raw)
            ==> #[trigger] entries[i].name == ascii_text(raw)))
}

/// The error that a parse fault is reported as.
pub open spec fn reports(e: FvpError, f: ParseFault) -> bool {
    match f {
        ParseFault::Truncated => e is Io,
        ParseFault::BadName => e is DecodingError,
    }
}

/// Reads the NUL-terminated Shift-JIS name that starts at `start`.
fn read_sjis_string(data: &[u8], start: usize) -> (r: Result<String, FvpError>)
    ensures
        match cstr_at(data@, start as int) {
            None => r matches Err(e) && e is Io,
            Some(raw) => if sjis_decoded(raw).1 {
                r matches Err(e) && e is DecodingError
            } else {
                r matches Ok(s) && s@ == sjis_decoded(raw).0
            },
        },
        cstr_at(data@, start as int) matches Some(raw) ==> (is_ascii_bytes(raw) ==> sjis_decoded(
            raw,
        ) == (ascii_text(raw), false)),
{
    let mut bytes: Vec<u8> = Vec::new();
    let mut i = start;
    while i < data.len() && data[i] != 0
        invariant
            start <= i,
            cstr_at(data@, start as int) == match cstr_at(data@, i as int) {
                Some(rest) => Some(bytes@ + rest),
                None => None,
            },
        decreases data@.len() - i,
    {
        let ghost old_bytes = bytes@;
        bytes.push(data[i]);
        proof {
            assert(cstr_at(data@, i as int) == match cstr_at(data@, i + 1) {
                Some(rest) => Some(seq![data@[i as int]] + rest),
                None => None,
            });
            match cstr_at(data@, i + 1) {
                Some(rest) => {
                    assert(old_bytes + (seq![data@[i as int]] + rest) =~= bytes@ + rest);
                },
                None => {},
            }
        }
        i = i + 1;
    }
    if i >= data.len() {
        return Err(FvpError::Io(unexpected_eof()));
    }
    assert(bytes@ + Seq::<u8>::empty() =~= bytes@);
    let (text, had_errors) = sjis_decode(bytes.as_slice());
    if had_errors {
        Err(FvpError::DecodingError)
    } else {
        Ok(text)
    }
}

} // verus!

verus! {

/// The bytes that a read of `size` bytes at `offset` gets from `data`.
fn content_slice(data: &[u8], offset: u32, size: u32) -> (r: &[u8])
    ensures
        r@ == entry_content(data@, offset, size),
{
    let len = data.len();
    let off = offset as usize;
    if off >= len {
        slice_subrange(data, len, len)
    } else if size as usize <= len - off {
        slice_subrange(data, off, off + size as usize)
    } else {
        slice_subrange(data, off, len)
    }
}

/// A reader of an archive held in memory.
pub struct FvpReader {
    data: Vec<u8>,
    entries: Vec<Entry>,
    /// When true, names are returned as stored, with no extension added.
    raw_mode: bool,
}

impl FvpReader {
    /// The bytes of the archive.
    pub closed spec fn archive(&self) -> Seq<u8> {
        self.data@
    }

    /// The entries read from the file table.
    pub closed spec fn entry_values(&self) -> Seq<Entry> {
        self.entries@
    }

    /// The models of the entries.
    pub open spec fn entry_list(&self) -> Seq<EntryModel> {
        entry_models(self.entry_values())
    }

    /// Whether names are returned as stored.
    pub closed spec fn is_raw(&self) -> bool {
        self.raw_mode
    }

    /// Reads the file table and the names of an archive. Raw mode is off.
    pub fn new(data: Vec<u8>) -> (r: Result<Self, FvpError>)
        ensures
            match r {
                Ok(rd) => {
                    &&& rd.archive() == data@
                    &&& !rd.is_raw()
                    &&& parse_archive(data@) == Ok::<Seq<EntryModel>, ParseFault>(rd.entry_list())
                    &&& ascii_names_read(data@, rd.entry_list())
                },
                Err(e) => {
                    &&& parse_archive(data@) matches Err(f) && reports(e, f)
                    &&& e is DecodingError ==> exists|i: int|
                        0 <= i < entry_count(data@) && (#[trigger] raw_name(data@, i) matches Some(
                            raw,
                        ) && !is_ascii_bytes(raw))
                },
            },
    {
        let s = data.as_slice();
        let len = s.len();
        if len < 8 {
            return Err(FvpError::Io(unexpected_eof()));
        }
        let count = read_u32_le(slice_subrange(s, 0, 4));
        let _names_size = read_u32_le(slice_subrange(s, 4, 8));
        assert(count == entry_count(s@));
        if count as usize > (len - 8) / 12 {
            return Err(FvpError::Io(unexpected_eof()));
        }
        let n = count as usize;
        let names_at = 8 + 12 * n;
        assert(names_at == names_start(s@));
        let mut entries: Vec<Entry> = Vec::new();
        let mut i: usize = 0;
        assert(entry_models(entries@) =~= Seq::<EntryModel>::empty());
        while i < n
            invariant
                s@ == data@,
                len == s@.len(),
                n == entry_count(s@),
                names_at == names_start(s@),
                names_at <= len,
                i <= n,
                entries@.len() == i,
                parse_entries(s@, i as nat) == Ok::<Seq<EntryModel>, ParseFault>(
                    entry_models(entries@),
                ),
                ascii_names_read(s@, entry_models(entries@)),
            decreases n - i,
        {
            let row = 8 + 12 * i;
            let name_offset = read_u32_le(slice_subrange(s, row, row + 4));
            let offset = read_u32_le(slice_subrange(s, row + 4, row + 8));
            let size = read_u32_le(slice_subrange(s, row + 8, row + 12));
            assert(name_offset == row_field(s@, i as int, 0));
            assert(offset == row_field(s@, i as int, 1));
            assert(size == row_field(s@, i as int, 2));
            let start = if name_offset as usize <= len - names_at {
                names_at + name_offset as usize
            } else {
                len
            };
            assert(cstr_at(s@, start as int) == cstr_at(s@, names_at + name_offset));
            let name = match read_sjis_string(s, start) {
                Ok(name) => name,
                Err(e) => {
                    proof {
                        lemma_parse_entries_fault_stays(s@, (i + 1) as nat, n as nat);
                        assert(raw_name(s@, i as int) == cstr_at(s@, start as int));
                    }
                    return Err(e);
                },
            };
            let ghost old_entries = entries@;
            entries.push(Entry { name, offset, size, name_offset });
            assert(entry_models(entries@) =~= entry_models(old_entries).push(entries@[i as int]@));
            i = i + 1;
        }
        Ok(FvpReader { data, entries, raw_mode: false })
    }

    /// The same reader with raw mode set: when on, names are returned as
    /// stored; when off, an extension suggested by the data is added.
    pub fn with_raw_mode(self, raw_mode: bool) -> (r: Self)
        ensures
            r.archive() == self.archive(),
            r.entry_values() == self.entry_values(),
            r.is_raw() == raw_mode,
    {
        FvpReader { raw_mode, ..self }
    }

    /// The entries of the file table, in table order.
    pub fn entries(&self) -> (r: &[Entry])
        ensures
            r@ == self.entry_values(),
    {
        self.entries.as_slice()
    }

    /// The name under which `entry` is extracted (see [`resolved_name`]);
    /// outside raw mode this looks at the first four bytes of its data.
    pub fn resolve_name(&self, entry: &Entry) -> (r: Result<String, FvpError>)
        ensures
            r matches Ok(name) && name@ == resolved_name(
                self.archive(),
                self.is_raw(),
                entry.name@,
                entry.offset,
            ),
    {
        if self.raw_mode {
            return Ok(entry.name.clone());
        }
        let header = content_slice(self.data.as_slice(), entry.offset, 4);
        match MagicDetector::suggest_extension(header) {
            Some(ext) => {
                let lower = to_lowercase(entry.name.as_str());
                if !str_ends_with(lower.as_str(), ext) {
                    return Ok(entry.name.clone().concat(ext));
                }
            },
            None => {},
        }
        Ok(entry.name.clone())
    }

    /// Appends the data of `entry` to `writer`: `size` bytes from `offset`,
    /// fewer where the archive ends first. Returns how many were copied.
    pub fn extract_entry(&self, entry: &Entry, writer: &mut Vec<u8>) -> (r: Result<u64, FvpError>)
        ensures
            final(writer)@ == old(writer)@ + entry_content(
                self.archive(),
                entry.offset,
                entry.size,
            ),
            r matches Ok(n) && n == entry_content(self.archive(), entry.offset, entry.size).len(),
    {
        let chunk = content_slice(self.data.as_slice(), entry.offset, entry.size);
        let mut copy = vstd::slice::slice_to_vec(chunk);
        let copied = copy.len() as u64;
        writer.append(&mut copy);
        Ok(copied)
    }
}

} // verus!
