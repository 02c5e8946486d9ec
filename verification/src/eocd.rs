//! Locating the End of Central Directory record and reading where the
//! Central Directory lies, through the ZIP64 records where needed.
use vstd::prelude::*;
use crate::bytes::{has_range, le16, le32, le64, read_u16, read_u32, read_u64};
use crate::signatures::{EOCD_SIG, ZIP64_EOCD_LOCATOR_SIG, ZIP64_EOCD_SIG};

verus! {

/// The entry count and start offset of the Central Directory.
#[derive(Debug, Clone, Copy, PartialEq, Eq)]
pub struct CentralDirectoryInfo {
    pub total_entries: usize,
    pub cd_offset: usize,
}

/// Whether an End of Central Directory record starts at `i` and its comment
/// runs exactly to the end of `d`.
pub open spec fn is_eocd_at(d: Seq<u8>, i: int) -> bool {
    &&& 0 <= i
    &&& i + 22 <= d.len()
    &&& le32(d, i) == EOCD_SIG
    &&& i + 22 + le16(d, i + 20) == d.len()
}

/// The lowest position the record can start at: its comment is at most
/// 65535 bytes long.
pub open spec fn eocd_search_from(len: int) -> int {
    if len >= 22 + 65535 { len - (22 + 65535) } else { 0 }
}

/// The last position in the search window that holds the record.
pub open spec fn last_eocd(d: Seq<u8>) -> int {
    choose|i: int|
        eocd_search_from(d.len() as int) <= i && #[trigger] is_eocd_at(d, i) && forall|j: int|
            i < j ==> !is_eocd_at(d, j)
}

/// Where the End of Central Directory record of `d` is: the last position
/// in the search window that holds one.
pub open spec fn eocd_result(d: Seq<u8>) -> Result<int, Seq<char>> {
    if d.len() < 22 {
        Err("file is too small to be a valid ZIP archive"@)
    } else if exists|i: int| eocd_search_from(d.len() as int) <= i && #[trigger] is_eocd_at(d, i) {
        Ok(last_eocd(d))
    } else {
        Err("End of Central Directory record not found; not a valid ZIP archive"@)
    }
}

/// Scan backwards through `data` for the End of Central Directory record.
pub fn find_eocd(data: &[u8]) -> (r: Result<usize, String>)
    ensures
        match r {
            Ok(i) => {
                &&& eocd_search_from(data@.len() as int) <= i
                &&& is_eocd_at(data@, i as int)
                &&& forall|j: int| i < j ==> !is_eocd_at(data@, j)
                &&& eocd_result(data@) == Ok::<int, Seq<char>>(i as int)
            },
            Err(e) => {
                &&& forall|j: int| eocd_search_from(data@.len() as int) <= j ==> !is_eocd_at(data@, j)
                &&& e@ == (if data@.len() < 22 {
                    "file is too small to be a valid ZIP archive"@
                } else {
                    "End of Central Directory record not found; not a valid ZIP archive"@
                })
                &&& eocd_result(data@) == Err::<int, Seq<char>>(e@)
            },
        },
{
    let len = data.len();
    if len < 22 {
        return Err(String::from_str("file is too small to be a valid ZIP archive"));
    }
    let search_from = len.saturating_sub(22 + 65535);
    let mut i = len - 22;
    loop
        invariant
            len == data@.len(),
            len >= 22,
            search_from == eocd_search_from(len as int),
            search_from <= i <= len - 22,
            forall|j: int| i < j ==> !is_eocd_at(data@, j),
        ensures
            forall|j: int| search_from <= j ==> !is_eocd_at(data@, j),
        decreases i,
    {
        if read_u32(data, i) == EOCD_SIG {
            let comment_len = read_u16(data, i + 20) as usize;
            if comment_len == len - 22 - i {
                proof {
                    let k = last_eocd(data@);
                    assert(eocd_search_from(len as int) <= i && is_eocd_at(data@, i as int));
                    assert(eocd_search_from(len as int) <= k && is_eocd_at(data@, k) && forall|j: int|
                        k < j ==> !is_eocd_at(data@, j));
                    if k < i {
                    } else if i < k {
                    }
                    assert(k == i);
                }
                return Ok(i);
            }
        }
        if i == search_from {
            break;
        }
        i = i - 1;
    }
    Err(String::from_str("End of Central Directory record not found; not a valid ZIP archive"))
}

/// The ZIP64 part of reading the Central Directory location, for the record
/// at `e`.
pub open spec fn zip64_info_result(d: Seq<u8>, e: int) -> Result<(int, int), Seq<char>> {
    if e < 20 {
        Err("ZIP64 EOCD locator not found before EOCD"@)
    } else if le32(d, e - 20) != ZIP64_EOCD_LOCATOR_SIG {
        Err("ZIP64 EOCD locator signature not found"@)
    } else if le32(d, e - 16) != 0 || le32(d, e - 4) != 1 {
        Err("multi-disk ZIP64 archives are not supported"@)
    } else {
        let z = le64(d, e - 12);
        if z > usize::MAX {
            Err("ZIP64 EOCD offset is too large for this platform"@)
        } else if z + 56 > d.len() {
            Err("ZIP64 EOCD record is out of bounds"@)
        } else if le32(d, z) != ZIP64_EOCD_SIG {
            Err("invalid ZIP64 EOCD signature"@)
        } else {
            let record_size = le64(d, z + 4);
            if record_size > usize::MAX {
                Err("ZIP64 EOCD record size is too large for this platform"@)
            } else if 12 + record_size > usize::MAX {
                Err("ZIP64 EOCD record length overflow"@)
            } else if z + 12 + record_size > d.len() {
                Err("ZIP64 EOCD record is truncated"@)
            } else if record_size < 44 {
                Err("ZIP64 EOCD record is too short"@)
            } else if le32(d, z + 16) != 0 || le32(d, z + 20) != 0 {
                Err("multi-disk ZIP64 archives are not supported"@)
            } else if le64(d, z + 24) != le64(d, z + 32) {
                Err("entry count mismatch in ZIP64 EOCD; multi-disk ZIP64 may be unsupported"@)
            } else if le64(d, z + 32) > usize::MAX {
                Err("ZIP64 total entry count is too large for this platform"@)
            } else if le64(d, z + 48) > usize::MAX {
                Err("ZIP64 Central Directory offset is too large for this platform"@)
            } else {
                Ok((le64(d, z + 32), le64(d, z + 48)))
            }
        }
    }
}

/// The entry count and Central Directory offset that the record at `e`
/// gives, through the ZIP64 records when a field holds its sentinel.
pub open spec fn cd_info_result(d: Seq<u8>, e: int) -> Result<(int, int), Seq<char>> {
    if le16(d, e + 4) != 0 || le16(d, e + 6) != 0 {
        Err("multi-disk ZIP archives are not supported"@)
    } else if le16(d, e + 8) == 0xFFFF || le16(d, e + 10) == 0xFFFF || le32(d, e + 12)
        == 0xFFFF_FFFF || le32(d, e + 16) == 0xFFFF_FFFF {
        zip64_info_result(d, e)
    } else if le16(d, e + 8) != le16(d, e + 10) {
        Err("entry count mismatch between EOCD fields; multi-disk ZIP may be unsupported"@)
    } else {
        Ok((le16(d, e + 10), le32(d, e + 16)))
    }
}

/// The Central Directory offset read from the records is never negative.
pub proof fn lemma_cd_info_nonneg(d: Seq<u8>, e: int)
    ensures
        cd_info_result(d, e) matches Ok((t, o)) ==> t >= 0 && o >= 0,
{
}

/// Whether the record at `e` sends the reader on to the ZIP64 records.
pub open spec fn uses_zip64(d: Seq<u8>, e: int) -> bool {
    &&& le16(d, e + 4) == 0
    &&& le16(d, e + 6) == 0
    &&& (le16(d, e + 8) == 0xFFFF || le16(d, e + 10) == 0xFFFF || le32(d, e + 12) == 0xFFFF_FFFF
        || le32(d, e + 16) == 0xFFFF_FFFF)
}

/// Whether byte `j` is one that finding the End of Central Directory record
/// at `e` and reading the Central Directory location from it reads: the
/// record, its comment and every byte searched after it; and, through the
/// ZIP64 records, the locator before it and the fields of the ZIP64 record
/// that are read.
pub open spec fn cd_info_frame(d: Seq<u8>, e: int, j: int) -> bool {
    ||| e <= j < d.len()
    ||| uses_zip64(d, e) && ({
        let z = le64(d, e - 12);
        ||| e - 20 <= j < e
        ||| z <= j < z + 12
        ||| z + 16 <= j < z + 40
        ||| z + 48 <= j < z + 56
    })
}

proof fn lemma_top_eocd(d: Seq<u8>, k: int) -> (m: int)
    requires
        is_eocd_at(d, k),
    ensures
        k <= m,
        is_eocd_at(d, m),
        forall|j: int| m < j ==> !is_eocd_at(d, j),
    decreases d.len() - k,
{
    if exists|j: int| k < j && is_eocd_at(d, j) {
        let j = choose|j: int| k < j && is_eocd_at(d, j);
        lemma_top_eocd(d, j)
    } else {
        k
    }
}

/// A found record is the last one in the search window.
pub proof fn lemma_last_eocd(d: Seq<u8>)
    requires
        eocd_result(d) is Ok,
    ensures
        eocd_search_from(d.len() as int) <= last_eocd(d),
        is_eocd_at(d, last_eocd(d)),
        forall|j: int| last_eocd(d) < j ==> !is_eocd_at(d, j),
{
    let k = choose|i: int| eocd_search_from(d.len() as int) <= i && #[trigger] is_eocd_at(d, i);
    let m = lemma_top_eocd(d, k);
    assert(eocd_search_from(d.len() as int) <= m && is_eocd_at(d, m));
}

/// Finding the record and reading the Central Directory location from it
/// depends only on the bytes that `cd_info_frame` names.
pub proof fn lemma_cd_info_congruent(d: Seq<u8>, d2: Seq<u8>)
    requires
        eocd_result(d) is Ok,
        d2.len() == d.len(),
        forall|j: int|
            0 <= j < d.len() && cd_info_frame(d, eocd_result(d)->Ok_0, j) ==> d2[j] == d[j],
    ensures
        eocd_result(d2) == eocd_result(d),
        cd_info_result(d2, eocd_result(d)->Ok_0) == cd_info_result(d, eocd_result(d)->Ok_0),
{
    lemma_last_eocd(d);
    let e = last_eocd(d);
    assert forall|i: int| e <= i implies is_eocd_at(d2, i) == is_eocd_at(d, i) by {
        if i + 22 <= d.len() {
            assert(cd_info_frame(d, e, i) && cd_info_frame(d, e, i + 1));
            assert(cd_info_frame(d, e, i + 2) && cd_info_frame(d, e, i + 3));
            assert(cd_info_frame(d, e, i + 20) && cd_info_frame(d, e, i + 21));
            assert(le32(d2, i) == le32(d, i));
            assert(le16(d2, i + 20) == le16(d, i + 20));
        }
    }
    assert(eocd_search_from(d2.len() as int) <= e && is_eocd_at(d2, e));
    lemma_last_eocd(d2);
    let e2 = last_eocd(d2);
    if e2 < e {
        assert(is_eocd_at(d2, e));
    } else if e < e2 {
        assert(is_eocd_at(d, e2));
    }
    assert(e2 == e);
    assert forall|j: int| e + 4 <= j < e + 20 implies d2[j] == d[j] by {
        assert(cd_info_frame(d, e, j));
    }
    assert(uses_zip64(d2, e) == uses_zip64(d, e));
    if uses_zip64(d, e) && e >= 20 {
        assert forall|j: int| e - 20 <= j < e implies d2[j] == d[j] by {
            assert(cd_info_frame(d, e, j));
        }
        let z = le64(d, e - 12);
        assert(le64(d2, e - 12) == z);
        assert(le32(d2, e - 20) == le32(d, e - 20));
        assert(le32(d2, e - 16) == le32(d, e - 16));
        assert(le32(d2, e - 4) == le32(d, e - 4));
        if 0 <= z && z + 56 <= d.len() {
            assert forall|j: int|
                z <= j < z + 12 || z + 16 <= j < z + 40 || z + 48 <= j < z + 56 implies d2[j]
                == d[j] by {
                assert(cd_info_frame(d, e, j));
            }
            assert(le32(d2, z) == le32(d, z));
            assert(le64(d2, z + 4) == le64(d, z + 4));
            assert(le32(d2, z + 16) == le32(d, z + 16));
            assert(le32(d2, z + 20) == le32(d, z + 20));
            assert(le64(d2, z + 24) == le64(d, z + 24));
            assert(le64(d2, z + 32) == le64(d, z + 32));
            assert(le64(d2, z + 48) == le64(d, z + 48));
        }
        assert(zip64_info_result(d2, e) == zip64_info_result(d, e));
    }
}

/// Whether `r` is the executable form of the model result `m`.
pub open spec fn info_matches(
    r: Result<CentralDirectoryInfo, String>,
    m: Result<(int, int), Seq<char>>,
) -> bool {
    match m {
        Ok((t, o)) => r is Ok && r->Ok_0.total_entries == t && r->Ok_0.cd_offset == o,
        Err(msg) => r is Err && r->Err_0@ == msg,
    }
}

/// Read the entry count and Central Directory offset from the End of
/// Central Directory record at `eocd_offset`.
pub fn read_central_directory_info(data: &[u8], eocd_offset: usize) -> (r: Result<
    CentralDirectoryInfo,
    String,
>)
    requires
        eocd_offset + 20 <= data.len(),
    ensures
        info_matches(r, cd_info_result(data@, eocd_offset as int)),
{
    let disk_number = read_u16(data, eocd_offset + 4);
    let cd_start_disk = read_u16(data, eocd_offset + 6);
    let entries_this_disk = read_u16(data, eocd_offset + 8);
    let total_entries_16 = read_u16(data, eocd_offset + 10);
    let cd_size_32 = read_u32(data, eocd_offset + 12);
    let cd_offset_32 = read_u32(data, eocd_offset + 16);

    if disk_number != 0 || cd_start_disk != 0 {
        return Err(String::from_str("multi-disk ZIP archives are not supported"));
    }
    let needs_zip64 = entries_this_disk == 0xFFFF || total_entries_16 == 0xFFFF || cd_size_32
        == 0xFFFF_FFFF || cd_offset_32 == 0xFFFF_FFFF;
    if !needs_zip64 {
        if entries_this_disk != total_entries_16 {
            return Err(
                String::from_str(
                    "entry count mismatch between EOCD fields; multi-disk ZIP may be unsupported",
                ),
            );
        }
        return Ok(
            CentralDirectoryInfo {
                total_entries: total_entries_16 as usize,
                cd_offset: cd_offset_32 as usize,
            },
        );
    }
    read_zip64_central_directory_info(data, eocd_offset)
}

/// Read the entry count and Central Directory offset from the ZIP64 End of
/// Central Directory record, found through the locator just before the
/// record at `eocd_offset`.
fn read_zip64_central_directory_info(data: &[u8], eocd_offset: usize) -> (r: Result<
    CentralDirectoryInfo,
    String,
>)
    requires
        eocd_offset >= 20 ==> eocd_offset <= data.len(),
    ensures
        info_matches(r, zip64_info_result(data@, eocd_offset as int)),
{
    if eocd_offset < 20 {
        return Err(String::from_str("ZIP64 EOCD locator not found before EOCD"));
    }
    let locator_offset = eocd_offset - 20;
    if read_u32(data, locator_offset) != ZIP64_EOCD_LOCATOR_SIG {
        return Err(String::from_str("ZIP64 EOCD locator signature not found"));
    }
    let zip64_eocd_disk = read_u32(data, locator_offset + 4);
    let zip64_eocd_offset = read_u64(data, locator_offset + 8);
    let total_disks = read_u32(data, locator_offset + 16);
    if zip64_eocd_disk != 0 || total_disks != 1 {
        return Err(String::from_str("multi-disk ZIP64 archives are not supported"));
    }
    if zip64_eocd_offset > usize::MAX as u64 {
        return Err(String::from_str("ZIP64 EOCD offset is too large for this platform"));
    }
    let zip64_eocd_offset = zip64_eocd_offset as usize;
    if !has_range(data, zip64_eocd_offset, 56) {
        return Err(String::from_str("ZIP64 EOCD record is out of bounds"));
    }
    if read_u32(data, zip64_eocd_offset) != ZIP64_EOCD_SIG {
        return Err(String::from_str("invalid ZIP64 EOCD signature"));
    }
    let record_size = read_u64(data, zip64_eocd_offset + 4);
    if record_size > usize::MAX as u64 {
        return Err(String::from_str("ZIP64 EOCD record size is too large for this platform"));
    }
    let record_size = record_size as usize;
    let total_record_len = match 12usize.checked_add(record_size) {
        Some(n) => n,
        None => return Err(String::from_str("ZIP64 EOCD record length overflow")),
    };
    if !has_range(data, zip64_eocd_offset, total_record_len) {
        return Err(String::from_str("ZIP64 EOCD record is truncated"));
    }
    if record_size < 44 {
        return Err(String::from_str("ZIP64 EOCD record is too short"));
    }
    let disk_number = read_u32(data, zip64_eocd_offset + 16);
    let cd_start_disk = read_u32(data, zip64_eocd_offset + 20);
    let entries_this_disk = read_u64(data, zip64_eocd_offset + 24);
    let total_entries = read_u64(data, zip64_eocd_offset + 32);
    let cd_offset = read_u64(data, zip64_eocd_offset + 48);
    if disk_number != 0 || cd_start_disk != 0 {
        return Err(String::from_str("multi-disk ZIP64 archives are not supported"));
    }
    if entries_this_disk != total_entries {
        return Err(
            String::from_str(
                "entry count mismatch in ZIP64 EOCD; multi-disk ZIP64 may be unsupported",
            ),
        );
    }
    if total_entries > usize::MAX as u64 {
        return Err(String::from_str("ZIP64 total entry count is too large for this platform"));
    }
    if cd_offset > usize::MAX as u64 {
        return Err(
            String::from_str("ZIP64 Central Directory offset is too large for this platform"),
        );
    }
    Ok(CentralDirectoryInfo { total_entries: total_entries as usize, cd_offset: cd_offset as usize })
}

} // verus!
