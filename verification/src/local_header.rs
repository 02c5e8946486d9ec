//! Finding the Local File Header of a Central Directory entry, through the
//! ZIP64 extended information extra field when the 32-bit offset is its
//! sentinel.
use vstd::prelude::*;
use crate::bytes::{le16, le32, le64, read_u16, read_u32, read_u64};
use crate::signatures::ZIP64_EXTRA_FIELD_ID;
use crate::text::{decimal, push_decimal};

verus! {

/// The message `prefix` followed by the entry number.
pub open spec fn entry_message(prefix: Seq<char>, entry_no: nat) -> Seq<char> {
    prefix + decimal(entry_no)
}

/// Build `prefix` followed by the decimal entry number.
pub fn entry_error(prefix: &str, entry_no: usize) -> (s: String)
    ensures
        s@ == entry_message(prefix@, entry_no as nat),
{
    let mut s = String::from_str(prefix);
    push_decimal(&mut s, entry_no as u64);
    s
}

/// How many bytes of 64-bit sizes precede the Local Header offset in a ZIP64
/// extra field: one for each size whose 32-bit field holds the sentinel.
pub open spec fn zip64_sizes_len(compressed_32: int, uncompressed_32: int) -> int {
    (if uncompressed_32 == 0xFFFF_FFFF { 8int } else { 0int }) + (if compressed_32 == 0xFFFF_FFFF {
        8int
    } else {
        0int
    })
}

/// The Local Header offset held by the ZIP64 extra field whose data is the
/// `size` bytes at `start`.
pub open spec fn zip64_extra_offset_result(
    d: Seq<u8>,
    start: int,
    size: int,
    compressed_32: int,
    uncompressed_32: int,
    entry_no: nat,
) -> Result<int, Seq<char>> {
    let skip = zip64_sizes_len(compressed_32, uncompressed_32);
    if skip + 8 > size {
        Err(
            entry_message(
                "ZIP64 extra field does not contain Local Header offset for entry "@,
                entry_no,
            ),
        )
    } else if le64(d, start + skip) > usize::MAX {
        Err(entry_message("Local Header offset is too large in entry "@, entry_no))
    } else {
        Ok(le64(d, start + skip))
    }
}

/// Walk the extra fields in `[cursor, end)` (each a 2-byte id, a 2-byte size
/// and its data) to the ZIP64 one and read the offset from it.
pub open spec fn extra_walk_result(
    d: Seq<u8>,
    cursor: int,
    end: int,
    compressed_32: int,
    uncompressed_32: int,
    entry_no: nat,
) -> Result<int, Seq<char>>
    decreases end - cursor,
{
    if cursor + 4 > end {
        Err(entry_message("ZIP64 extra field missing for Central Directory entry "@, entry_no))
    } else if cursor + 4 + le16(d, cursor + 2) > end {
        Err(entry_message("truncated extra field in Central Directory entry "@, entry_no))
    } else if le16(d, cursor) == ZIP64_EXTRA_FIELD_ID {
        zip64_extra_offset_result(
            d,
            cursor + 4,
            le16(d, cursor + 2),
            compressed_32,
            uncompressed_32,
            entry_no,
        )
    } else {
        extra_walk_result(
            d,
            cursor + 4 + le16(d, cursor + 2),
            end,
            compressed_32,
            uncompressed_32,
            entry_no,
        )
    }
}

/// Whether every byte the walk over the extra fields in `[cursor, end)` reads
/// lies inside `d`: each field header it steps on, and the offset in the
/// ZIP64 field it stops at.
pub open spec fn extra_reads_in(
    d: Seq<u8>,
    cursor: int,
    end: int,
    compressed_32: int,
    uncompressed_32: int,
) -> bool
    decreases end - cursor,
{
    if cursor + 4 > end {
        true
    } else if cursor + 4 > d.len() {
        false
    } else if cursor + 4 + le16(d, cursor + 2) > end {
        true
    } else if le16(d, cursor) == ZIP64_EXTRA_FIELD_ID {
        let skip = zip64_sizes_len(compressed_32, uncompressed_32);
        skip + 8 > le16(d, cursor + 2) || cursor + 4 + skip + 8 <= d.len()
    } else {
        extra_reads_in(d, cursor + 4 + le16(d, cursor + 2), end, compressed_32, uncompressed_32)
    }
}

/// Extra fields that lie inside `d` are read inside `d`.
pub proof fn lemma_extra_reads_in(
    d: Seq<u8>,
    cursor: int,
    end: int,
    compressed_32: int,
    uncompressed_32: int,
)
    requires
        end <= d.len(),
    ensures
        extra_reads_in(d, cursor, end, compressed_32, uncompressed_32),
    decreases end - cursor,
{
    if cursor + 4 <= end && cursor + 4 + le16(d, cursor + 2) <= end && le16(d, cursor)
        != ZIP64_EXTRA_FIELD_ID {
        lemma_extra_reads_in(d, cursor + 4 + le16(d, cursor + 2), end, compressed_32, uncompressed_32);
    }
}

/// Whether reading the Local File Header offset of the Central Directory
/// entry at `cd_pos` stays inside `d` (and its positions inside `usize`).
pub open spec fn lfh_reads_in(d: Seq<u8>, cd_pos: int, fname_len: int, extra_len: int) -> bool {
    &&& cd_pos + 46 <= d.len()
    &&& le32(d, cd_pos + 42) == 0xFFFF_FFFF ==> {
        &&& cd_pos + 46 + fname_len + extra_len <= usize::MAX
        &&& extra_reads_in(
            d,
            cd_pos + 46 + fname_len,
            cd_pos + 46 + fname_len + extra_len,
            le32(d, cd_pos + 20),
            le32(d, cd_pos + 24),
        )
    }
}

/// The Local File Header offset of the Central Directory entry at `cd_pos`.
pub open spec fn lfh_offset_result(
    d: Seq<u8>,
    cd_pos: int,
    fname_len: int,
    extra_len: int,
    entry_no: nat,
) -> Result<int, Seq<char>> {
    if le32(d, cd_pos + 42) != 0xFFFF_FFFF {
        Ok(le32(d, cd_pos + 42))
    } else {
        extra_walk_result(
            d,
            cd_pos + 46 + fname_len,
            cd_pos + 46 + fname_len + extra_len,
            le32(d, cd_pos + 20),
            le32(d, cd_pos + 24),
            entry_no,
        )
    }
}

/// The walk over extra fields only ever finds a non-negative offset.
pub proof fn lemma_extra_walk_nonneg(
    d: Seq<u8>,
    cursor: int,
    end: int,
    compressed_32: int,
    uncompressed_32: int,
    entry_no: nat,
)
    ensures
        extra_walk_result(d, cursor, end, compressed_32, uncompressed_32, entry_no) matches Ok(l)
            ==> l >= 0,
    decreases end - cursor,
{
    if cursor + 4 <= end && cursor + 4 + le16(d, cursor + 2) <= end && le16(d, cursor)
        != ZIP64_EXTRA_FIELD_ID {
        lemma_extra_walk_nonneg(
            d,
            cursor + 4 + le16(d, cursor + 2),
            end,
            compressed_32,
            uncompressed_32,
            entry_no,
        );
    }
}

/// A Local File Header offset read from a Central Directory entry is never negative.
pub proof fn lemma_lfh_offset_nonneg(
    d: Seq<u8>,
    cd_pos: int,
    fname_len: int,
    extra_len: int,
    entry_no: nat,
)
    ensures
        lfh_offset_result(d, cd_pos, fname_len, extra_len, entry_no) matches Ok(l) ==> l >= 0,
{
    lemma_extra_walk_nonneg(
        d,
        cd_pos + 46 + fname_len,
        cd_pos + 46 + fname_len + extra_len,
        le32(d, cd_pos + 20),
        le32(d, cd_pos + 24),
        entry_no,
    );
}

/// Whether byte `j` is one the walk over the extra fields in `[cursor, end)`
/// reads: a field header it steps on, or the offset in the ZIP64 field it
/// stops at.
pub open spec fn extra_frame(
    d: Seq<u8>,
    cursor: int,
    end: int,
    compressed_32: int,
    uncompressed_32: int,
    j: int,
) -> bool
    decreases end - cursor,
{
    if cursor + 4 > end {
        false
    } else if cursor <= j < cursor + 4 {
        true
    } else if cursor + 4 + le16(d, cursor + 2) > end {
        false
    } else if le16(d, cursor) == ZIP64_EXTRA_FIELD_ID {
        let skip = zip64_sizes_len(compressed_32, uncompressed_32);
        skip + 8 <= le16(d, cursor + 2) && cursor + 4 + skip <= j < cursor + 4 + skip + 8
    } else {
        extra_frame(d, cursor + 4 + le16(d, cursor + 2), end, compressed_32, uncompressed_32, j)
    }
}

/// The walk over the extra fields in `[cursor, end)` reads only bytes there.
pub proof fn lemma_extra_frame_in(
    d: Seq<u8>,
    cursor: int,
    end: int,
    compressed_32: int,
    uncompressed_32: int,
    j: int,
)
    ensures
        extra_frame(d, cursor, end, compressed_32, uncompressed_32, j) ==> cursor <= j < end,
    decreases end - cursor,
{
    if cursor + 4 <= end && !(cursor <= j < cursor + 4) && cursor + 4 + le16(d, cursor + 2) <= end
        && le16(d, cursor) != ZIP64_EXTRA_FIELD_ID {
        lemma_extra_frame_in(
            d,
            cursor + 4 + le16(d, cursor + 2),
            end,
            compressed_32,
            uncompressed_32,
            j,
        );
    }
}

/// The walk over extra fields depends only on the bytes it reads.
pub proof fn lemma_extra_walk_congruent(
    d: Seq<u8>,
    d2: Seq<u8>,
    cursor: int,
    end: int,
    compressed_32: int,
    uncompressed_32: int,
    entry_no: nat,
)
    requires
        d.len() == d2.len(),
        0 <= cursor,
        end <= d.len(),
        forall|j: int|
            extra_frame(d, cursor, end, compressed_32, uncompressed_32, j) ==> d[j] == d2[j],
    ensures
        extra_walk_result(d, cursor, end, compressed_32, uncompressed_32, entry_no)
            == extra_walk_result(d2, cursor, end, compressed_32, uncompressed_32, entry_no),
    decreases end - cursor,
{
    if cursor + 4 <= end {
        assert(extra_frame(d, cursor, end, compressed_32, uncompressed_32, cursor));
        assert(extra_frame(d, cursor, end, compressed_32, uncompressed_32, cursor + 1));
        assert(extra_frame(d, cursor, end, compressed_32, uncompressed_32, cursor + 2));
        assert(extra_frame(d, cursor, end, compressed_32, uncompressed_32, cursor + 3));
        assert(le16(d, cursor) == le16(d2, cursor));
        assert(le16(d, cursor + 2) == le16(d2, cursor + 2));
        let size = le16(d, cursor + 2);
        if cursor + 4 + size <= end {
            if le16(d, cursor) == ZIP64_EXTRA_FIELD_ID {
                let skip = zip64_sizes_len(compressed_32, uncompressed_32);
                if skip + 8 <= size {
                    let v = cursor + 4 + skip;
                    assert forall|k: int| v <= k < v + 8 implies d[k] == d2[k] by {
                        assert(extra_frame(d, cursor, end, compressed_32, uncompressed_32, k));
                    }
                    assert(le64(d, v) == le64(d2, v));
                }
            } else {
                let next = cursor + 4 + size;
                assert forall|j: int|
                    extra_frame(d, next, end, compressed_32, uncompressed_32, j) implies d[j]
                    == d2[j] by {
                    assert(extra_frame(d, cursor, end, compressed_32, uncompressed_32, j));
                }
                lemma_extra_walk_congruent(
                    d,
                    d2,
                    next,
                    end,
                    compressed_32,
                    uncompressed_32,
                    entry_no,
                );
            }
        }
    }
}

/// Whether byte `j` is one that reading the Local File Header offset of the
/// Central Directory entry at `cd_pos` reads: its offset field, and when that
/// holds the sentinel, its size fields and what the walk over its extra
/// fields reads.
pub open spec fn lfh_frame(d: Seq<u8>, cd_pos: int, fname_len: int, extra_len: int, j: int) -> bool {
    ||| cd_pos + 42 <= j < cd_pos + 46
    ||| le32(d, cd_pos + 42) == 0xFFFF_FFFF && (cd_pos + 20 <= j < cd_pos + 28 || extra_frame(
        d,
        cd_pos + 46 + fname_len,
        cd_pos + 46 + fname_len + extra_len,
        le32(d, cd_pos + 20),
        le32(d, cd_pos + 24),
        j,
    ))
}

/// Reading the Local File Header offset depends only on the bytes it reads.
pub proof fn lemma_lfh_offset_congruent(
    d: Seq<u8>,
    d2: Seq<u8>,
    cd_pos: int,
    fname_len: int,
    extra_len: int,
    entry_no: nat,
)
    requires
        d.len() == d2.len(),
        0 <= cd_pos,
        0 <= fname_len,
        0 <= extra_len,
        cd_pos + 46 + fname_len + extra_len <= d.len(),
        forall|j: int| lfh_frame(d, cd_pos, fname_len, extra_len, j) ==> d[j] == d2[j],
    ensures
        lfh_offset_result(d, cd_pos, fname_len, extra_len, entry_no) == lfh_offset_result(
            d2,
            cd_pos,
            fname_len,
            extra_len,
            entry_no,
        ),
{
    assert(lfh_frame(d, cd_pos, fname_len, extra_len, cd_pos + 42));
    assert(lfh_frame(d, cd_pos, fname_len, extra_len, cd_pos + 43));
    assert(lfh_frame(d, cd_pos, fname_len, extra_len, cd_pos + 44));
    assert(lfh_frame(d, cd_pos, fname_len, extra_len, cd_pos + 45));
    assert(le32(d, cd_pos + 42) == le32(d2, cd_pos + 42));
    if le32(d, cd_pos + 42) == 0xFFFF_FFFF {
        assert forall|k: int| cd_pos + 20 <= k < cd_pos + 28 implies d[k] == d2[k] by {
            assert(lfh_frame(d, cd_pos, fname_len, extra_len, k));
        }
        assert(le32(d, cd_pos + 20) == le32(d2, cd_pos + 20));
        assert(le32(d, cd_pos + 24) == le32(d2, cd_pos + 24));
        assert forall|j: int|
            extra_frame(
                d,
                cd_pos + 46 + fname_len,
                cd_pos + 46 + fname_len + extra_len,
                le32(d, cd_pos + 20),
                le32(d, cd_pos + 24),
                j,
            ) implies d[j] == d2[j] by {
            assert(lfh_frame(d, cd_pos, fname_len, extra_len, j));
        }
        lemma_extra_walk_congruent(
            d,
            d2,
            cd_pos + 46 + fname_len,
            cd_pos + 46 + fname_len + extra_len,
            le32(d, cd_pos + 20),
            le32(d, cd_pos + 24),
            entry_no,
        );
    }
}

/// Whether `r` is the executable form of the model result `m`.
pub open spec fn offset_matches(r: Result<usize, String>, m: Result<int, Seq<char>>) -> bool {
    match m {
        Ok(o) => r is Ok && r->Ok_0 == o,
        Err(msg) => r is Err && r->Err_0@ == msg,
    }
}

/// Read the Local File Header offset of the Central Directory entry at
/// `cd_pos`, whose file name and extra field are `fname_len` and `extra_len`
/// bytes long; `entry_no` numbers the entry in messages.
pub fn read_lfh_offset_from_cd(
    data: &[u8],
    cd_pos: usize,
    fname_len: usize,
    extra_len: usize,
    entry_no: usize,
) -> (r: Result<usize, String>)
    requires
        cd_pos + 46 <= data.len(),
        lfh_reads_in(data@, cd_pos as int, fname_len as int, extra_len as int),
    ensures
        offset_matches(
            r,
            lfh_offset_result(
                data@,
                cd_pos as int,
                fname_len as int,
                extra_len as int,
                entry_no as nat,
            ),
        ),
{
    let lfh_offset_32 = read_u32(data, cd_pos + 42);
    if lfh_offset_32 != 0xFFFF_FFFF {
        return Ok(lfh_offset_32 as usize);
    }
    let compressed_size_32 = read_u32(data, cd_pos + 20);
    let uncompressed_size_32 = read_u32(data, cd_pos + 24);
    let extra_start = cd_pos + 46 + fname_len;
    let extra_end = extra_start + extra_len;
    let mut cursor = extra_start;
    while extra_end - cursor >= 4
        invariant
            extra_start <= cursor <= extra_end,
            extra_start == cd_pos + 46 + fname_len,
            le32(data@, cd_pos + 42) == 0xFFFF_FFFF,
            extra_end == cd_pos + 46 + fname_len + extra_len,
            extra_reads_in(
                data@,
                cursor as int,
                extra_end as int,
                compressed_size_32 as int,
                uncompressed_size_32 as int,
            ),
            compressed_size_32 == le32(data@, cd_pos + 20),
            uncompressed_size_32 == le32(data@, cd_pos + 24),
            extra_walk_result(
                data@,
                extra_start as int,
                extra_end as int,
                compressed_size_32 as int,
                uncompressed_size_32 as int,
                entry_no as nat,
            ) == extra_walk_result(
                data@,
                cursor as int,
                extra_end as int,
                compressed_size_32 as int,
                uncompressed_size_32 as int,
                entry_no as nat,
            ),
        decreases extra_end - cursor,
    {
        let field_id = read_u16(data, cursor);
        let field_size = read_u16(data, cursor + 2) as usize;
        cursor = cursor + 4;
        if field_size > extra_end - cursor {
            return Err(entry_error("truncated extra field in Central Directory entry ", entry_no));
        }
        if field_id == ZIP64_EXTRA_FIELD_ID {
            return read_lfh_offset_from_zip64_extra(
                data,
                cursor,
                field_size,
                compressed_size_32,
                uncompressed_size_32,
                entry_no,
            );
        }
        cursor = cursor + field_size;
    }
    Err(entry_error("ZIP64 extra field missing for Central Directory entry ", entry_no))
}

/// Read the Local Header offset from the ZIP64 extra field whose data is the
/// `field_size` bytes at `field_start`; it follows the 64-bit sizes whose
/// 32-bit fields hold the sentinel.
fn read_lfh_offset_from_zip64_extra(
    data: &[u8],
    field_start: usize,
    field_size: usize,
    compressed_size_32: u32,
    uncompressed_size_32: u32,
    entry_no: usize,
) -> (r: Result<usize, String>)
    requires
        zip64_sizes_len(compressed_size_32 as int, uncompressed_size_32 as int) + 8 > field_size
            || field_start + zip64_sizes_len(compressed_size_32 as int, uncompressed_size_32 as int)
            + 8 <= data.len(),
    ensures
        offset_matches(
            r,
            zip64_extra_offset_result(
                data@,
                field_start as int,
                field_size as int,
                compressed_size_32 as int,
                uncompressed_size_32 as int,
                entry_no as nat,
            ),
        ),
{
    let mut cursor = 0usize;
    if uncompressed_size_32 == 0xFFFF_FFFF {
        cursor = cursor + 8;
    }
    if compressed_size_32 == 0xFFFF_FFFF {
        cursor = cursor + 8;
    }
    if cursor + 8 > field_size {
        return Err(
            entry_error(
                "ZIP64 extra field does not contain Local Header offset for entry ",
                entry_no,
            ),
        );
    }
    let lfh_offset_64 = read_u64(data, field_start + cursor);
    if lfh_offset_64 > usize::MAX as u64 {
        return Err(entry_error("Local Header offset is too large in entry ", entry_no));
    }
    Ok(lfh_offset_64 as usize)
}

/// Where the ZIP64 extra field keeps the Local File Header offset: when the
/// 32-bit offset of the Central Directory entry at `cd_pos` is its sentinel
/// and the entry's first extra field is the ZIP64 one, the offset is the
/// 8 bytes after one 8-byte value for the uncompressed size (if its 32-bit
/// field holds the sentinel) and one for the compressed size (likewise), in
/// that order; a field too short to hold it is an error.
pub proof fn law_zip64_offset_place(
    d: Seq<u8>,
    cd_pos: int,
    fname_len: int,
    extra_len: int,
    entry_no: nat,
)
    requires
        le32(d, cd_pos + 42) == 0xFFFF_FFFF,
        extra_len >= 4,
        le16(d, cd_pos + 46 + fname_len) == 0x0001,
        4 + le16(d, cd_pos + 46 + fname_len + 2) <= extra_len,
    ensures
        ({
            let start = cd_pos + 46 + fname_len + 4;
            let size = le16(d, cd_pos + 46 + fname_len + 2);
            let before = (if le32(d, cd_pos + 24) == 0xFFFF_FFFF { 8int } else { 0int }) + (if le32(
                d,
                cd_pos + 20,
            ) == 0xFFFF_FFFF {
                8int
            } else {
                0int
            });
            &&& before + 8 <= size && le64(d, start + before) <= usize::MAX ==> lfh_offset_result(
                d,
                cd_pos,
                fname_len,
                extra_len,
                entry_no,
            ) == Ok::<int, Seq<char>>(le64(d, start + before))
            &&& before + 8 > size ==> lfh_offset_result(d, cd_pos, fname_len, extra_len, entry_no)
                is Err
        }),
{
}

/// A sentinel 32-bit offset makes the reader pass over extra fields that are
/// not the ZIP64 one: the result is that of the walk from the next field.
pub proof fn law_extra_field_skipped(
    d: Seq<u8>,
    cursor: int,
    end: int,
    compressed_32: int,
    uncompressed_32: int,
    entry_no: nat,
)
    requires
        cursor + 4 + le16(d, cursor + 2) <= end,
        le16(d, cursor) != 0x0001,
    ensures
        extra_walk_result(d, cursor, end, compressed_32, uncompressed_32, entry_no)
            == extra_walk_result(
            d,
            cursor + 4 + le16(d, cursor + 2),
            end,
            compressed_32,
            uncompressed_32,
            entry_no,
        ),
{
}

/// An entry whose 32-bit Local File Header offset is not the sentinel has
/// its header at that offset, whatever its extra fields hold.
pub proof fn law_direct_offset(
    d: Seq<u8>,
    cd_pos: int,
    fname_len: int,
    extra_len: int,
    entry_no: nat,
)
    requires
        le32(d, cd_pos + 42) != 0xFFFF_FFFF,
    ensures
        lfh_offset_result(d, cd_pos, fname_len, extra_len, entry_no) == Ok::<int, Seq<char>>(
            le32(d, cd_pos + 42),
        ),
{
}

} // verus!
