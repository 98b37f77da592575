//! Reading and writing FVP engine `.bin` archives.
//!
//! An archive is laid out as
//! `count: u32 | names_size: u32 | count x (name_offset, offset, size): u32 | names | data`,
//! all integers little endian, names Shift-JIS encoded and NUL terminated.
pub mod error;
pub mod format;
pub mod sjis;
pub mod text;
pub mod names;
pub mod reader;
pub mod builder;
pub mod laws;
pub mod archive;
pub mod order;

pub use archive::{extract_files, pack_files};
pub use builder::FvpBuilder;
pub use error::{FvpError, Result};
pub use names::MagicDetector;
pub use reader::{Entry, FvpReader};
