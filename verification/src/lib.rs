//! Inspect and edit bit 11 (the UTF-8 flag) of the General Purpose Bit Flag
//! of the entries of a ZIP archive, held as bytes in memory.

pub mod bytes;
pub mod text;
pub mod status;
pub mod tokens;
pub mod selection;
pub mod signatures;
pub mod eocd;
pub mod local_header;
pub mod archive;
pub mod cli;
pub mod edit_laws;
pub mod placement;
