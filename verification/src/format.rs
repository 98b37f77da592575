//! The byte layout of an archive, as spec functions, and its integer fields.
use byteorder::{ByteOrder, LittleEndian, WriteBytesExt};
use vstd::prelude::*;

verus! {

/// The value of the four bytes `b[pos..pos + 4]` read as a little-endian integer.
pub open spec fn le_u32_at(b: Seq<u8>, pos: int) -> int {
    b[pos] as int + b[pos + 1] as int * 0x100 + b[pos + 2] as int * 0x1_0000 + b[pos + 3] as int
        * 0x100_0000
}

/// The four little-endian bytes of `n`.
pub open spec fn le_bytes(n: u32) -> Seq<u8> {
    seq![
        (n % 0x100) as u8,
        ((n / 0x100) % 0x100) as u8,
        ((n / 0x1_0000) % 0x100) as u8,
        (n / 0x100_0000) as u8,
    ]
}

/// Reading back the bytes of `n` gives `n`.
pub proof fn lemma_le_bytes_roundtrip(n: u32)
    ensures
        le_bytes(n).len() == 4,
        le_u32_at(le_bytes(n), 0) == n as int,
{
    let b = le_bytes(n);
    assert(b[0] as int == n % 0x100);
    assert(b[1] as int == (n / 0x100) % 0x100);
    assert(b[2] as int == (n / 0x1_0000) % 0x100);
    assert(b[3] as int == n / 0x100_0000);
    assert(n as int == n % 0x100 + ((n / 0x100) % 0x100) * 0x100 + ((n / 0x1_0000) % 0x100)
        * 0x1_0000 + (n / 0x100_0000) * 0x100_0000) by (nonlinear_arith);
}

/// `byteorder`'s `LittleEndian::read_u32`, on the first four bytes of `buf`:
/// claimed to return their little-endian value (it panics on fewer than four,
/// which `requires` rules out).
#[verifier::external_body]
pub(crate) fn read_u32_le(buf: &[u8]) -> (n: u32)
    requires
        buf@.len() >= 4,
    ensures
        n as int == le_u32_at(buf@, 0),
{
    LittleEndian::read_u32(buf)
}

/// `byteorder`'s `WriteBytesExt::write_u32::<LittleEndian>` on a `Vec<u8>`:
/// claimed to append the four little-endian bytes of `n`. Writing to a
/// `Vec<u8>` appends and does not fail, so the `io::Result` is dropped.
#[verifier::external_body]
pub(crate) fn push_u32_le(out: &mut Vec<u8>, n: u32)
    ensures
        final(out)@ == old(out)@ + le_bytes(n),
{
    let _ = out.write_u32::<LittleEndian>(n);
}

} // verus!

verus! {

// ---------------------------------------------------------------------------
// Concatenation of byte strings

/// The byte strings of `parts`, one after the other.
pub open spec fn concat(parts: Seq<Seq<u8>>) -> Seq<u8>
    decreases parts.len(),
{
    if parts.len() == 0 {
        Seq::empty()
    } else {
        concat(parts.drop_last()) + parts.last()
    }
}

/// Where `parts[i]` starts in `concat(parts)`.
pub open spec fn part_start(parts: Seq<Seq<u8>>, i: int) -> int {
    concat(parts.take(i)).len() as int
}

pub proof fn lemma_concat_append(a: Seq<Seq<u8>>, b: Seq<Seq<u8>>)
    ensures
        concat(a + b) == concat(a) + concat(b),
    decreases b.len(),
{
    if b.len() == 0 {
        assert(a + b =~= a);
        assert(concat(a) + concat(b) =~= concat(a));
    } else {
        lemma_concat_append(a, b.drop_last());
        assert((a + b).drop_last() =~= a + b.drop_last());
        assert(concat(a + b) =~= concat(a) + concat(b));
    }
}

/// `concat(parts)` is made of its prefix before `parts[i]`, `parts[i]` and the rest.
pub proof fn lemma_concat_split(parts: Seq<Seq<u8>>, i: int)
    requires
        0 <= i < parts.len(),
    ensures
        concat(parts) == concat(parts.take(i)) + parts[i] + concat(parts.skip(i + 1)),
        concat(parts.take(i + 1)) == concat(parts.take(i)) + parts[i],
        part_start(parts, i + 1) == part_start(parts, i) + parts[i].len(),
        part_start(parts, i) + parts[i].len() <= concat(parts).len(),
{
    assert(parts.take(i + 1).drop_last() =~= parts.take(i));
    assert(parts =~= parts.take(i + 1) + parts.skip(i + 1));
    lemma_concat_append(parts.take(i + 1), parts.skip(i + 1));
}

/// `parts[i]` as a range of the concatenation.
pub proof fn lemma_concat_subrange(parts: Seq<Seq<u8>>, i: int)
    requires
        0 <= i < parts.len(),
    ensures
        part_start(parts, i) + parts[i].len() <= concat(parts).len(),
        concat(parts).subrange(part_start(parts, i), part_start(parts, i) + parts[i].len())
            == parts[i],
{
    lemma_concat_split(parts, i);
    let pre = concat(parts.take(i));
    assert((pre + parts[i] + concat(parts.skip(i + 1))).subrange(
        pre.len() as int,
        (pre.len() + parts[i].len()) as int,
    ) =~= parts[i]);
}

/// With parts of one length `w`, part `i` starts at `w * i`.
pub proof fn lemma_concat_uniform(parts: Seq<Seq<u8>>, w: int, i: int)
    requires
        0 <= i <= parts.len(),
        forall|k: int| 0 <= k < parts.len() ==> #[trigger] parts[k].len() == w,
    ensures
        part_start(parts, i) == w * i,
    decreases i,
{
    if i == 0 {
        assert(parts.take(0) =~= Seq::<Seq<u8>>::empty());
    } else {
        lemma_concat_uniform(parts, w, i - 1);
        lemma_concat_split(parts, i - 1);
        assert(w * (i - 1) + w == w * i) by (nonlinear_arith);
    }
}

// ---------------------------------------------------------------------------
// The image of an archive

/// Each name followed by its NUL terminator.
pub open spec fn terminated(names: Seq<Seq<u8>>) -> Seq<Seq<u8>> {
    names.map_values(|n: Seq<u8>| n.push(0u8))
}

/// The names area: all names, each NUL terminated.
pub open spec fn names_blob(names: Seq<Seq<u8>>) -> Seq<u8> {
    concat(terminated(names))
}

/// Where name `i` starts, relative to the names area.
pub open spec fn name_offset_of(names: Seq<Seq<u8>>, i: int) -> int {
    part_start(terminated(names), i)
}

/// Where the data area starts: after the header, the table and the names.
pub open spec fn data_start(names: Seq<Seq<u8>>) -> int {
    (8 + 12 * names.len() + names_blob(names).len()) as int
}

/// Where the contents of file `i` start in the archive.
pub open spec fn data_offset_of(names: Seq<Seq<u8>>, contents: Seq<Seq<u8>>, i: int) -> int {
    data_start(names) + part_start(contents, i)
}

/// One row of the file table.
pub open spec fn table_row(name_offset: u32, offset: u32, size: u32) -> Seq<u8> {
    le_bytes(name_offset) + le_bytes(offset) + le_bytes(size)
}

/// The rows of the file table, integers truncated to 32 bits as they are written.
pub open spec fn table_rows(names: Seq<Seq<u8>>, contents: Seq<Seq<u8>>) -> Seq<Seq<u8>> {
    Seq::new(
        names.len(),
        |i: int|
            table_row(
                name_offset_of(names, i) as u32,
                data_offset_of(names, contents, i) as u32,
                contents[i].len() as u32,
            ),
    )
}

/// `m` zero bytes.
pub open spec fn zeros(m: nat) -> Seq<u8> {
    Seq::new(m, |i: int| 0u8)
}

/// The file table before it is filled in: twelve zero bytes per file.
pub open spec fn blank_table(n: nat) -> Seq<u8> {
    zeros(12 * n)
}

/// An archive with the given names area, table area and data.
pub open spec fn layout(names: Seq<Seq<u8>>, table: Seq<u8>, contents: Seq<Seq<u8>>) -> Seq<u8> {
    le_bytes(names.len() as u32) + le_bytes(names_blob(names).len() as u32) + table + names_blob(
        names,
    ) + concat(contents)
}

/// The complete archive of encoded names `names` and file contents `contents`.
pub open spec fn archive_image(names: Seq<Seq<u8>>, contents: Seq<Seq<u8>>) -> Seq<u8> {
    layout(names, concat(table_rows(names, contents)), contents)
}

// ---------------------------------------------------------------------------
// Reading

/// The bytes from `start` up to the next NUL, or `None` where the data ends first.
pub open spec fn cstr_at(b: Seq<u8>, start: int) -> Option<Seq<u8>>
    decreases b.len() - start,
{
    if start < 0 || start >= b.len() {
        None
    } else if b[start] == 0 {
        Some(Seq::empty())
    } else {
        match cstr_at(b, start + 1) {
            Some(rest) => Some(seq![b[start]] + rest),
            None => None,
        }
    }
}

/// What a read of `size` bytes at `offset` gets: the bytes up to the end of the data.
pub open spec fn entry_content(b: Seq<u8>, offset: u32, size: u32) -> Seq<u8> {
    if offset >= b.len() {
        Seq::empty()
    } else if offset + size <= b.len() {
        b.subrange(offset as int, offset + size)
    } else {
        b.subrange(offset as int, b.len() as int)
    }
}

/// A NUL at `start + m`, with none before it, ends the string read at `start`.
pub proof fn lemma_cstr_at(b: Seq<u8>, start: int, m: int)
    requires
        0 <= start,
        0 <= m,
        start + m < b.len(),
        b[start + m] == 0,
        forall|k: int| start <= k < start + m ==> b[k] != 0,
    ensures
        cstr_at(b, start) == Some(b.subrange(start, start + m)),
    decreases m,
{
    if m == 0 {
        assert(b.subrange(start, start) =~= Seq::<u8>::empty());
    } else {
        lemma_cstr_at(b, start + 1, m - 1);
        assert(seq![b[start]] + b.subrange(start + 1, start + m) =~= b.subrange(start, start + m));
    }
}

} // verus!

verus! {

/// Appending a part leaves where the earlier parts start unchanged.
pub proof fn lemma_part_start_push(parts: Seq<Seq<u8>>, x: Seq<u8>, j: int)
    requires
        0 <= j <= parts.len(),
    ensures
        part_start(parts.push(x), j) == part_start(parts, j),
        part_start(parts, parts.len() as int) == concat(parts).len(),
        concat(parts.push(x)) == concat(parts) + x,
{
    assert(parts.push(x).take(j) =~= parts.take(j));
    assert(parts.take(parts.len() as int) =~= parts);
    assert(parts.push(x).drop_last() =~= parts);
}

/// Appending a name appends it, NUL terminated, to the names area, and leaves
/// where the earlier names start unchanged.
pub proof fn lemma_names_push(names: Seq<Seq<u8>>, x: Seq<u8>)
    ensures
        names_blob(names.push(x)) == names_blob(names) + x.push(0u8),
        name_offset_of(names.push(x), names.len() as int) == names_blob(names).len(),
        forall|j: int|
            0 <= j <= names.len() ==> #[trigger] name_offset_of(names.push(x), j)
                == name_offset_of(names, j),
{
    assert(terminated(names.push(x)) =~= terminated(names).push(x.push(0u8)));
    lemma_part_start_push(terminated(names), x.push(0u8), 0);
    assert forall|j: int| 0 <= j <= names.len() implies #[trigger] name_offset_of(names.push(x), j)
        == name_offset_of(names, j) by {
        lemma_part_start_push(terminated(names), x.push(0u8), j);
    }
    lemma_part_start_push(terminated(names), x.push(0u8), names.len() as int);
}

/// The length of an archive laid out with a table area of the given size.
pub proof fn lemma_layout_len(names: Seq<Seq<u8>>, table: Seq<u8>, contents: Seq<Seq<u8>>)
    ensures
        layout(names, table, contents).len() == 8 + table.len() + names_blob(names).len() + concat(
            contents,
        ).len(),
{
}

} // verus!
