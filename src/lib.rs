//! A small USTAR archiver: a verified codec for the 512-byte header record
//! and an archive engine that assembles and walks entries in memory.
use vstd::prelude::*;

pub mod field;
pub mod header;
pub mod archive;

pub use archive::{
    append_to_archive, create_archive, extract_from_archive, get_archive_file_list,
    update_archive, Entry,
};
pub use field::{Field, TarError};
pub use header::{Header, HeaderReader, HeaderWriter};

verus! {

/// Type flag of a regular file.
pub const REGTYPE: u8 = 48;

/// Size of the footer that ends an archive: two zero blocks.
pub const FOOTER_SIZE: usize = 1024;

} // verus!
