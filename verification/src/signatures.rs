//! Record signatures and field constants of the ZIP format.
use vstd::prelude::*;

verus! {

/// Signature of a Local File Header (`PK\x03\x04`).
pub const LOCAL_FILE_HEADER_SIG: u32 = 0x04034b50;

/// Signature of a Central Directory entry (`PK\x01\x02`).
pub const CENTRAL_DIR_SIG: u32 = 0x02014b50;

/// Signature of the End of Central Directory record (`PK\x05\x06`).
pub const EOCD_SIG: u32 = 0x06054b50;

/// Signature of the ZIP64 End of Central Directory record (`PK\x06\x06`).
pub const ZIP64_EOCD_SIG: u32 = 0x06064b50;

/// Signature of the ZIP64 End of Central Directory locator (`PK\x06\x07`).
pub const ZIP64_EOCD_LOCATOR_SIG: u32 = 0x07064b50;

/// Header id of the ZIP64 extended information extra field.
pub const ZIP64_EXTRA_FIELD_ID: u16 = 0x0001;

/// Bit 11 of the General Purpose Bit Flag: the file name and comment are
/// encoded in UTF-8.
pub const BIT11: u16 = 0x0800;

} // verus!
