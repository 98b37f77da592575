# fvp_rs

Packing and unpacking the `.bin` archives of the FVP game engine, as a
library verified with Verus, and the `fvp` command around it.

    fvp pack input_dir [output_file]
    fvp unpack input_file [output_dir]

An archive is `count: u32 | names_size: u32 | count x (name_offset, offset,
size): u32 | names | data`, little endian, names in Shift-JIS and NUL
terminated. Outside raw mode, names ending in `.ogg` are stored without it,
and files whose data starts with `OggS` get it back when extracted.

Layout:

- `src/format.rs`: the byte layout of an archive as spec functions, and the
  32-bit fields (through `byteorder`).
- `src/sjis.rs`: Shift-JIS through `encoding_rs`.
- `src/text.rs`, `src/names.rs`: name handling (`MagicDetector`).
- `src/reader.rs`: `FvpReader` and what reading an archive means.
- `src/builder.rs`: `FvpBuilder`, which writes an archive.
- `src/archive.rs`: packing and extracting whole archives.
- `src/order.rs`: the order of the files to pack (by name bytes).
- `src/laws.rs`: proofs that archives read back as written.
- `app/main.rs`: the command line, file system access and messages.
