//! Walking the Central Directory of an archive held in memory: counting,
//! listing and editing bit 11 of each entry's flags, in the Central
//! Directory and in the entry's Local File Header.
use vstd::prelude::*;
use vstd::slice::slice_subrange;
use crate::bytes::{has_range, le16, le32, put16, read_u16, read_u32, write_u16};
use crate::local_header::{
    entry_error, entry_message, lemma_extra_reads_in, lfh_offset_result, read_lfh_offset_from_cd,
};
use crate::selection::{selection_result, selects, EntrySelection};
use crate::status::{aggregate_of, detail_text, label_of, StatusSummary};
use crate::eocd::{
    cd_info_result, eocd_result, find_eocd, read_central_directory_info, CentralDirectoryInfo,
};
use crate::signatures::{BIT11, CENTRAL_DIR_SIG, LOCAL_FILE_HEADER_SIG};
use crate::text::{decimal, hex_alt, pad_right, push_decimal, push_decimal_padded, push_hex};

verus! {

/// The operation to run on an archive.
#[derive(Debug, Clone, Copy, PartialEq, Eq, Structural)]
pub enum Mode {
    /// Count the entries and summarise bit 11.
    Status,
    /// List the selected entries with their bit 11.
    Detail,
    /// Set bit 11 in the selected entries.
    SetBit,
    /// Clear bit 11 in the selected entries.
    Clear,
    /// Flip bit 11 in the selected entries.
    Toggle,
}

/// Whether `mode` edits the archive.
pub open spec fn edits(mode: Mode) -> bool {
    mode == Mode::SetBit || mode == Mode::Clear || mode == Mode::Toggle
}

/// Whether bit 11 is set in `flags`.
pub open spec fn bit11_of(flags: u16) -> bool {
    flags & BIT11 != 0
}

/// `flags` with bit 11 set to `enabled`.
pub open spec fn flags_with_bit11(flags: u16, enabled: bool) -> u16 {
    if enabled {
        flags | BIT11
    } else {
        flags & !BIT11
    }
}

/// The value an edit gives bit 11 of an entry whose Central Directory flags
/// have it as `current`.
pub open spec fn target_bit(mode: Mode, current: bool) -> bool {
    match mode {
        Mode::SetBit => true,
        Mode::Clear => false,
        Mode::Toggle => !current,
        _ => current,
    }
}

/// `flags` with bit 11 set to `enabled`.
pub fn with_bit11(flags: u16, enabled: bool) -> (r: u16)
    ensures
        r == flags_with_bit11(flags, enabled),
{
    if enabled {
        flags | BIT11
    } else {
        flags & !BIT11
    }
}

/// Bit 11 of `flags_with_bit11(f, b)` is `b`, and its other bits are those of `f`.
pub proof fn lemma_with_bit11(f: u16, b: bool)
    ensures
        bit11_of(flags_with_bit11(f, b)) == b,
        flags_with_bit11(f, b) & !BIT11 == f & !BIT11,
        flags_with_bit11(flags_with_bit11(f, b), b) == flags_with_bit11(f, b),
{
    assert(bit11_of(f | 0x0800u16)) by (bit_vector);
    assert(!bit11_of(f & !0x0800u16)) by (bit_vector);
    assert((f | 0x0800u16) & !0x0800u16 == f & !0x0800u16) by (bit_vector);
    assert((f & !0x0800u16) & !0x0800u16 == f & !0x0800u16) by (bit_vector);
    assert((f | 0x0800u16) | 0x0800u16 == f | 0x0800u16) by (bit_vector);
}

/// The position after the entry at `pos` of `entry_len` bytes.
pub fn advance_cd_pos(pos: usize, entry_len: usize, entry_no: usize) -> (r: Result<usize, String>)
    ensures
        pos + entry_len <= usize::MAX ==> r == Ok::<usize, String>((pos + entry_len) as usize),
        pos + entry_len > usize::MAX ==> r is Err && r->Err_0@ == entry_message(
            "offset overflow while advancing Central Directory entry "@,
            entry_no as nat,
        ),
{
    match pos.checked_add(entry_len) {
        Some(next) => Ok(next),
        None => Err(entry_error("offset overflow while advancing Central Directory entry ", entry_no)),
    }
}

/// What `String::from_utf8_lossy` makes of `b`.
pub uninterp spec fn utf8_lossy(b: Seq<u8>) -> Seq<char>;

/// The text shown for the bytes `b`: their decoding when they are valid
/// UTF-8, else what `String::from_utf8_lossy` makes of them.
pub open spec fn shown_text(b: Seq<u8>) -> Seq<char> {
    if vstd::utf8::valid_utf8(b) {
        vstd::utf8::decode_utf8(b)
    } else {
        utf8_lossy(b)
    }
}

/// Calls `String::from_utf8_lossy`, which decodes UTF-8 and puts U+FFFD in
/// place of each invalid sequence: its result is named `utf8_lossy`, and for
/// valid UTF-8 it is the decoded text. What it gives for invalid input is
/// left unsaid.
#[verifier::external_body]
fn lossy_text(b: &[u8]) -> (s: String)
    ensures
        s@ == utf8_lossy(b@),
        vstd::utf8::valid_utf8(b@) ==> s@ == vstd::utf8::decode_utf8(b@),
{
    String::from_utf8_lossy(b).into_owned()
}

/// The state of a walk over the Central Directory: the bytes as edited so
/// far, where the next entry starts, how many entries (and selected entries)
/// had bit 11, whether a byte changed, and the detail rows so far.
pub struct Scan {
    pub data: Seq<u8>,
    pub pos: int,
    pub set: nat,
    pub selected_set: nat,
    pub modified: bool,
    pub rows: Seq<Seq<char>>,
}

/// The file name length of the Central Directory entry at `pos`.
pub open spec fn cd_fname_len(d: Seq<u8>, pos: int) -> int {
    le16(d, pos + 28)
}

/// The extra field length of the Central Directory entry at `pos`.
pub open spec fn cd_extra_len(d: Seq<u8>, pos: int) -> int {
    le16(d, pos + 30)
}

/// The whole length of the Central Directory entry at `pos`.
pub open spec fn cd_entry_len(d: Seq<u8>, pos: int) -> int {
    46 + le16(d, pos + 28) + le16(d, pos + 30) + le16(d, pos + 32)
}

/// The flags of the Central Directory entry at `pos`.
pub open spec fn cd_flags(d: Seq<u8>, pos: int) -> u16 {
    le16(d, pos + 8) as u16
}

/// The file name of the Central Directory entry at `pos`, as shown.
pub open spec fn fname_text(d: Seq<u8>, pos: int) -> Seq<char> {
    if pos + 46 + cd_fname_len(d, pos) <= d.len() {
        shown_text(d.subrange(pos + 46, pos + 46 + cd_fname_len(d, pos)))
    } else {
        "<invalid filename>"@
    }
}

/// The mark shown for an entry's bit 11.
pub open spec fn mark_of(bit: bool) -> Seq<char> {
    if bit {
        "✓ set"@
    } else {
        "✗ clear"@
    }
}

/// The detail row of entry `entry_no`: its number, its mark and its name in
/// columns, the name starting at the same column for either mark.
pub open spec fn detail_row(entry_no: nat, bit: bool, fname: Seq<char>) -> Seq<char> {
    " "@ + pad_right(decimal(entry_no), 4) + "  "@ + pad_right(mark_of(bit), 7) + "  "@ + fname
}

/// The edit of the selected entry at `pos`: bit 11 of its Central Directory
/// flags and of its Local File Header flags both become `target_bit`; gives
/// the new bytes and whether they differ.
pub open spec fn edit_result(d: Seq<u8>, pos: int, entry_no: nat, mode: Mode) -> Result<
    (Seq<u8>, bool),
    Seq<char>,
> {
    let flags = cd_flags(d, pos);
    let b = target_bit(mode, bit11_of(flags));
    let new_flags = flags_with_bit11(flags, b);
    let fname = fname_text(d, pos);
    match lfh_offset_result(d, pos, cd_fname_len(d, pos), cd_extra_len(d, pos), entry_no) {
        Err(m) => Err(m),
        Ok(l) => if l + 8 > d.len() {
            Err("Local File Header offset "@ + hex_alt(l as nat) + " for '"@ + fname
                + "' is out of bounds"@)
        } else if le32(d, l) != LOCAL_FILE_HEADER_SIG {
            Err("invalid Local File Header signature for '"@ + fname + "' (offset: "@ + hex_alt(
                l as nat,
            ) + ")"@)
        } else {
            let lfh_flags = le16(d, l + 6) as u16;
            let new_lfh_flags = flags_with_bit11(lfh_flags, b);
            if new_flags != flags || new_lfh_flags != lfh_flags {
                Ok((put16(put16(d, pos + 8, new_flags), l + 6, new_lfh_flags), true))
            } else {
                Ok((d, false))
            }
        },
    }
}

/// One step of the walk: the entry numbered `i + 1`, at `s.pos`.
#[verifier::opaque]
pub open spec fn entry_step(s: Scan, i: nat, mode: Mode, sel: Option<Set<usize>>) -> Result<
    Scan,
    Seq<char>,
> {
    let d = s.data;
    let pos = s.pos;
    let no = i + 1;
    if pos + 46 > d.len() {
        Err(entry_message("file ended unexpectedly at Central Directory entry "@, no))
    } else if le32(d, pos) != CENTRAL_DIR_SIG {
        Err("invalid Central Directory signature (offset: "@ + hex_alt(pos as nat) + ")"@)
    } else if cd_entry_len(d, pos) > usize::MAX {
        Err(entry_message("size overflow while parsing Central Directory entry "@, no))
    } else if pos + cd_entry_len(d, pos) > d.len() {
        Err(entry_message("file ended unexpectedly in Central Directory entry "@, no))
    } else {
        let bit = bit11_of(cd_flags(d, pos));
        let selected = selects(sel, no as int);
        let next = pos + cd_entry_len(d, pos);
        let counted = Scan {
            data: d,
            pos: next,
            set: if bit { s.set + 1 } else { s.set },
            selected_set: if selected && bit { s.selected_set + 1 } else { s.selected_set },
            modified: s.modified,
            rows: if mode == Mode::Detail && selected {
                s.rows.push(detail_row(no, bit, fname_text(d, pos)))
            } else {
                s.rows
            },
        };
        if edits(mode) && selected {
            match edit_result(d, pos, no, mode) {
                Err(m) => Err(m),
                Ok((d2, changed)) => if next > usize::MAX {
                    Err(
                        entry_message(
                            "offset overflow while advancing Central Directory entry "@,
                            no,
                        ),
                    )
                } else {
                    Ok(Scan { data: d2, modified: s.modified || changed, ..counted })
                },
            }
        } else if next > usize::MAX {
            Err(entry_message("offset overflow while advancing Central Directory entry "@, no))
        } else {
            Ok(counted)
        }
    }
}

/// A step over the Central Directory entry at `s.pos`: without an edit it
/// succeeds exactly when the entry's 46-byte header lies inside the bytes,
/// starts with the Central Directory signature, and the entry (header, file
/// name, extra field and file comment, as the lengths at offsets 28, 30 and
/// 32 give them) ends inside the bytes and inside `usize`; the next entry
/// starts right after its file comment; and a step that succeeds leaves the
/// length of the bytes alone and counts the entry as set exactly when bit 11
/// of its flags is.
pub proof fn law_entry_step(s: Scan, i: nat, mode: Mode, sel: Option<Set<usize>>)
    requires
        s.pos >= 0,
    ensures
        ({
            let d = s.data;
            let pos = s.pos;
            let next = pos + 46 + le16(d, pos + 28) + le16(d, pos + 30) + le16(d, pos + 32);
            &&& !edits(mode) ==> (entry_step(s, i, mode, sel) is Ok <==> (pos + 46 <= d.len()
                && le32(d, pos) == CENTRAL_DIR_SIG && next <= d.len() && next <= usize::MAX))
            &&& !edits(mode) && entry_step(s, i, mode, sel) is Ok ==> entry_step(
                s,
                i,
                mode,
                sel,
            )->Ok_0.data == d
            &&& entry_step(s, i, mode, sel) is Ok ==> {
                &&& entry_step(s, i, mode, sel)->Ok_0.pos == next
                &&& entry_step(s, i, mode, sel)->Ok_0.data.len() == d.len()
                &&& entry_step(s, i, mode, sel)->Ok_0.set == s.set + (if le16(d, pos + 8) as u16
                    & 0x0800u16 != 0 {
                    1int
                } else {
                    0int
                })
            }
        }),
{
    reveal(entry_step);
    let d = s.data;
    let pos = s.pos;
    if entry_step(s, i, mode, sel) is Ok && edits(mode) && selects(sel, (i + 1) as int) {
        crate::local_header::lemma_lfh_offset_nonneg(
            d,
            pos,
            cd_fname_len(d, pos),
            cd_extra_len(d, pos),
            i + 1,
        );
        let l = lfh_offset_result(d, pos, cd_fname_len(d, pos), cd_extra_len(d, pos), i + 1)->Ok_0;
        let b = target_bit(mode, bit11_of(cd_flags(d, pos)));
        let r = edit_result(d, pos, i + 1, mode);
        if r->Ok_0.1 {
            assert(r->Ok_0.0 == put16(
                put16(d, pos + 8, flags_with_bit11(cd_flags(d, pos), b)),
                l + 6,
                flags_with_bit11(le16(d, l + 6) as u16, b),
            ));
        }
    }
    let next = pos + 46 + le16(d, pos + 28) + le16(d, pos + 30) + le16(d, pos + 32);
    assert(cd_entry_len(d, pos) + pos == next);
    if entry_step(s, i, mode, sel) is Ok {
        let u = entry_step(s, i, mode, sel)->Ok_0;
        assert(u.pos == next);
        assert(u.data.len() == d.len());
        assert(u.set == s.set + (if bit11_of(cd_flags(d, pos)) { 1int } else { 0int }));
    }
    if !edits(mode) {
        assert(entry_step(s, i, mode, sel) is Ok <==> (pos + 46 <= d.len()
                && le32(d, pos) == CENTRAL_DIR_SIG && next <= d.len() && next <= usize::MAX));
    }
}

/// The executable state of a walk; the bytes are held apart.
pub struct Progress {
    pub pos: usize,
    pub set_entries: usize,
    pub selected_set_entries: usize,
    pub modified: bool,
    pub rows: Vec<String>,
}

/// The texts of a sequence of strings.
pub open spec fn texts(v: Seq<String>) -> Seq<Seq<char>> {
    v.map_values(|s: String| s@)
}

/// The walk state that `p` and the bytes `d` stand for.
pub open spec fn scan_of(d: Seq<u8>, p: Progress) -> Scan {
    Scan {
        data: d,
        pos: p.pos as int,
        set: p.set_entries as nat,
        selected_set: p.selected_set_entries as nat,
        modified: p.modified,
        rows: texts(p.rows@),
    }
}

/// The detail row of entry `entry_no`.
fn make_detail_row(entry_no: usize, bit: bool, fname: &String) -> (row: String)
    ensures
        row@ == detail_row(entry_no as nat, bit, fname@),
{
    let mut row = String::from_str(" ");
    push_decimal_padded(&mut row, entry_no as u64, 4);
    row.append("  ");
    proof {
        reveal_strlit("✓ set");
        reveal_strlit("✓ set  ");
        reveal_strlit("✗ clear");
        assert(pad_right(mark_of(true), 7) =~= "✓ set  "@);
        assert(pad_right(mark_of(false), 7) =~= "✗ clear"@);
    }
    if bit {
        row.append("✓ set  ");
    } else {
        row.append("✗ clear");
    }
    row.append("  ");
    row.append(fname.as_str());
    row
}

/// The file name of the Central Directory entry at `pos`, as shown.
fn read_fname(data: &[u8], pos: usize, fname_len: usize) -> (s: String)
    requires
        pos + 46 <= data.len(),
        fname_len == cd_fname_len(data@, pos as int),
    ensures
        s@ == fname_text(data@, pos as int),
{
    let fname_start = pos + 46;
    match fname_start.checked_add(fname_len) {
        Some(end) => if end <= data.len() {
            lossy_text(slice_subrange(data, fname_start, end))
        } else {
            String::from_str("<invalid filename>")
        },
        None => String::from_str("<invalid filename>"),
    }
}

/// Edit the selected entry at `pos` as `mode` asks; gives whether a byte changed.
fn edit_entry(data: &mut [u8], pos: usize, entry_no: usize, mode: Mode, fname: &String) -> (r: Result<bool, String>)
    requires
        edits(mode),
        pos + cd_entry_len(old(data)@, pos as int) <= old(data).len(),
        fname@ == fname_text(old(data)@, pos as int),
    ensures
        match edit_result(old(data)@, pos as int, entry_no as nat, mode) {
            Ok((d2, changed)) => r == Ok::<bool, String>(changed) && final(data)@ == d2,
            Err(m) => r is Err && r->Err_0@ == m,
        },
{
    let current_flags = read_u16(data, pos + 8);
    let bit11_set = (current_flags & BIT11) != 0;
    let new_bit11 = match mode {
        Mode::SetBit => true,
        Mode::Clear => false,
        _ => !bit11_set,
    };
    let new_flags = with_bit11(current_flags, new_bit11);
    let fname_len = read_u16(data, pos + 28) as usize;
    let extra_len = read_u16(data, pos + 30) as usize;
    proof {
        lemma_extra_reads_in(
            data@,
            pos + 46 + fname_len,
            pos + 46 + fname_len + extra_len,
            le32(data@, pos + 20),
            le32(data@, pos + 24),
        );
    }
    let lfh_offset = match read_lfh_offset_from_cd(data, pos, fname_len, extra_len, entry_no) {
        Ok(o) => o,
        Err(e) => return Err(e),
    };
    if !has_range(data, lfh_offset, 8) {
        let mut e = String::from_str("Local File Header offset ");
        push_hex(&mut e, lfh_offset as u64);
        e.append(" for '");
        e.append(fname.as_str());
        e.append("' is out of bounds");
        return Err(e);
    }
    let lfh_sig = read_u32(data, lfh_offset);
    if lfh_sig != LOCAL_FILE_HEADER_SIG {
        let mut e = String::from_str("invalid Local File Header signature for '");
        e.append(fname.as_str());
        e.append("' (offset: ");
        push_hex(&mut e, lfh_offset as u64);
        e.append(")");
        return Err(e);
    }
    let lfh_flags = read_u16(data, lfh_offset + 6);
    let new_lfh_flags = with_bit11(lfh_flags, new_bit11);
    if new_flags != current_flags || new_lfh_flags != lfh_flags {
        write_u16(data, pos + 8, new_flags);
        write_u16(data, lfh_offset + 6, new_lfh_flags);
        Ok(true)
    } else {
        Ok(false)
    }
}

/// Process the Central Directory entry numbered `i + 1`, at `p.pos`.
fn process_entry(
    data: &mut [u8],
    i: usize,
    mode: Mode,
    selection: &EntrySelection,
    p: &mut Progress,
) -> (r: Result<(), String>)
    requires
        i < usize::MAX,
        old(p).set_entries <= i,
        old(p).selected_set_entries <= i,
    ensures
        match entry_step(scan_of(old(data)@, *old(p)), i as nat, mode, selection@) {
            Ok(t) => r is Ok && scan_of(final(data)@, *final(p)) == t,
            Err(m) => r is Err && r->Err_0@ == m,
        },
        final(p).set_entries <= old(p).set_entries + 1,
        final(p).selected_set_entries <= old(p).selected_set_entries + 1,
{
    reveal(entry_step);
    let pos = p.pos;
    let entry_no = i + 1;
    if !has_range(data, pos, 46) {
        return Err(entry_error("file ended unexpectedly at Central Directory entry ", entry_no));
    }
    let sig = read_u32(data, pos);
    if sig != CENTRAL_DIR_SIG {
        let mut e = String::from_str("invalid Central Directory signature (offset: ");
        push_hex(&mut e, pos as u64);
        e.append(")");
        return Err(e);
    }
    let fname_len = read_u16(data, pos + 28) as usize;
    let extra_len = read_u16(data, pos + 30) as usize;
    let comment_len = read_u16(data, pos + 32) as usize;
    let entry_len = match 46usize.checked_add(fname_len) {
        Some(n) => match n.checked_add(extra_len) {
            Some(n) => match n.checked_add(comment_len) {
                Some(n) => n,
                None => return Err(
                    entry_error("size overflow while parsing Central Directory entry ", entry_no),
                ),
            },
            None => return Err(
                entry_error("size overflow while parsing Central Directory entry ", entry_no),
            ),
        },
        None => return Err(
            entry_error("size overflow while parsing Central Directory entry ", entry_no),
        ),
    };
    if !has_range(data, pos, entry_len) {
        return Err(entry_error("file ended unexpectedly in Central Directory entry ", entry_no));
    }
    let current_flags = read_u16(data, pos + 8);
    let bit11_set = (current_flags & BIT11) != 0;
    if bit11_set {
        p.set_entries = p.set_entries + 1;
    }
    let is_selected = selection.includes(entry_no);
    if is_selected && bit11_set {
        p.selected_set_entries = p.selected_set_entries + 1;
    }
    let fname = read_fname(data, pos, fname_len);
    match mode {
        Mode::Status => {},
        Mode::Detail => {
            if is_selected {
                let row = make_detail_row(entry_no, bit11_set, &fname);
                p.rows.push(row);
                proof {
                    assert(texts(p.rows@) =~= texts(old(p).rows@).push(
                        detail_row(entry_no as nat, bit11_set, fname@),
                    ));
                }
            }
        },
        _ => {
            if is_selected {
                match edit_entry(data, pos, entry_no, mode, &fname) {
                    Ok(changed) => {
                        if changed {
                            p.modified = true;
                        }
                    },
                    Err(e) => return Err(e),
                }
            }
        },
    }
    match advance_cd_pos(pos, entry_len, entry_no) {
        Ok(next) => {
            p.pos = next;
            Ok(())
        },
        Err(e) => Err(e),
    }
}

/// The walk over entries `i + 1` to `n` from the state `s`; the first error stops it.
pub open spec fn walk(s: Scan, i: nat, n: nat, mode: Mode, sel: Option<Set<usize>>) -> Result<
    Scan,
    Seq<char>,
>
    decreases n - i,
{
    if i >= n {
        Ok(s)
    } else {
        match entry_step(s, i, mode, sel) {
            Err(m) => Err(m),
            Ok(t) => walk(t, i + 1, n, mode, sel),
        }
    }
}

/// The state a walk starts from, at the Central Directory offset `cd_offset`.
pub open spec fn start_scan(d: Seq<u8>, cd_offset: int) -> Scan {
    Scan { data: d, pos: cd_offset, set: 0, selected_set: 0, modified: false, rows: seq![] }
}

/// The selection `mode` works on: every entry for a status, else the selector.
pub open spec fn selection_for(mode: Mode, raw: Option<Seq<char>>, total: nat) -> Result<
    Option<Set<usize>>,
    Seq<char>,
> {
    if mode == Mode::Status {
        Ok(None)
    } else {
        selection_result(raw, total)
    }
}

/// How many entries `sel` selects out of `total`.
pub open spec fn selected_count(sel: Option<Set<usize>>, total: nat) -> nat {
    match sel {
        None => total,
        Some(s) => s.len(),
    }
}

/// The verb phrase reported for an edit.
pub open spec fn action_text(mode: Mode) -> Seq<char> {
    match mode {
        Mode::SetBit => "set bit 11 in"@,
        Mode::Clear => "cleared bit 11 in"@,
        _ => "toggled bit 11 in"@,
    }
}

/// The column header of the detail listing.
pub open spec fn detail_header() -> Seq<char> {
    " No.   bit11   Filename"@
}

/// The rule under the detail header: a space and sixty dashes.
pub open spec fn detail_rule() -> Seq<char> {
    " ------------------------------------------------------------"@
}

/// The lines reported after a successful walk over `total` entries, of which
/// `selected` are selected (`all`: no selector narrowed them), `set` have bit
/// 11 and `selected_set` are selected and have it; `modified` tells whether a
/// byte changed and `rows` are the detail rows.
#[verifier::opaque]
pub open spec fn report_lines(
    path: Seq<char>,
    mode: Mode,
    all: bool,
    total: nat,
    selected: nat,
    set: nat,
    selected_set: nat,
    modified: bool,
    rows: Seq<Seq<char>>,
) -> Seq<Seq<char>> {
    if mode == Mode::Status {
        seq![
            "File: "@ + path,
            "Entries: "@ + decimal(total),
            "bit11: "@ + label_of(aggregate_of(total, set)),
        ]
    } else if mode == Mode::Detail {
        seq![
            "File: "@ + path,
            if all {
                "Entries: "@ + decimal(total)
            } else {
                "Entries: "@ + decimal(selected) + " selected of "@ + decimal(total)
            },
            "bit11: "@ + detail_text(selected, selected_set),
            Seq::<char>::empty(),
            detail_header(),
            detail_rule(),
        ] + rows
    } else if modified {
        if all {
            seq![
                action_text(mode) + " '"@ + path + "' ("@ + decimal(total)
                    + " entries processed)"@,
            ]
        } else {
            seq![
                action_text(mode) + " '"@ + path + "' ("@ + decimal(selected) + " selected of "@
                    + decimal(total) + " entries)"@,
            ]
        }
    } else if all {
        seq!["no change needed: '"@ + path + "' (already in the desired state)"@]
    } else {
        seq![
            "no change needed: '"@ + path + "' ("@ + decimal(selected)
                + " selected entries already in the desired state)"@,
        ]
    }
}

/// Where the Central Directory of `d` is: its entry count and start offset,
/// read through the End of Central Directory record.
#[verifier::opaque]
pub open spec fn locate_result(d: Seq<u8>) -> Result<(int, int), Seq<char>> {
    match eocd_result(d) {
        Err(m) => Err(m),
        Ok(e) => match cd_info_result(d, e) {
            Err(m) => Err(m),
            Ok((total, cd_offset)) => if cd_offset > d.len() {
                Err("Central Directory offset "@ + hex_alt(cd_offset as nat) + " is out of bounds"@)
            } else {
                Ok((total, cd_offset))
            },
        },
    }
}

/// What running `mode` on the archive bytes `d` (read from `path`) with the
/// selector `raw` gives: the resulting bytes, the lines to report and
/// whether the bytes changed; or the lines already reported and the error.
pub open spec fn process_result(
    path: Seq<char>,
    d: Seq<u8>,
    mode: Mode,
    raw: Option<Seq<char>>,
) -> Result<(Seq<u8>, Seq<Seq<char>>, bool), (Seq<Seq<char>>, Seq<char>)> {
    match locate_result(d) {
        Err(m) => Err((seq![], m)),
        Ok((total, cd_offset)) => match selection_for(mode, raw, total as nat) {
            Err(m) => Err((seq![], m)),
            Ok(sel) => {
                let prelude = if mode == Mode::Detail {
                    seq!["File: "@ + path]
                } else {
                    seq![]
                };
                match walk(start_scan(d, cd_offset), 0, total as nat, mode, sel) {
                    Err(m) => Err((prelude, m)),
                    Ok(s) => Ok(
                        (
                            s.data,
                            report_lines(
                                path,
                                mode,
                                sel is None,
                                total as nat,
                                selected_count(sel, total as nat),
                                s.set,
                                s.selected_set,
                                s.modified,
                                s.rows,
                            ),
                            s.modified,
                        ),
                    ),
                }
            },
        },
    }
}

/// A status ignores the entry selector.
pub proof fn law_status_ignores_selector(
    path: Seq<char>,
    d: Seq<u8>,
    raw1: Option<Seq<char>>,
    raw2: Option<Seq<char>>,
)
    ensures
        process_result(path, d, Mode::Status, raw1) == process_result(path, d, Mode::Status, raw2),
{
}

/// The result of a successful run: the archive bytes after it, whether they
/// changed (and so must be written back), and the lines to report.
#[derive(Debug)]
pub struct Outcome {
    pub data: Vec<u8>,
    pub modified: bool,
    pub lines: Vec<String>,
}

/// A failed run: the lines reported before the error, and the error.
#[derive(Debug)]
pub struct Failure {
    pub lines: Vec<String>,
    pub message: String,
}

/// The lines reported after a successful walk.
fn make_report(
    path: &str,
    mode: Mode,
    all: bool,
    total_entries: usize,
    selected_entries: usize,
    p: Progress,
) -> (lines: Vec<String>)
    ensures
        texts(lines@) == report_lines(
            path@,
            mode,
            all,
            total_entries as nat,
            selected_entries as nat,
            p.set_entries as nat,
            p.selected_set_entries as nat,
            p.modified,
            texts(p.rows@),
        ),
{
    reveal(report_lines);
    let summary = StatusSummary::from_counts(total_entries, p.set_entries);
    let selected_summary = StatusSummary::from_counts(selected_entries, p.selected_set_entries);
    let mut lines: Vec<String> = Vec::new();
    match mode {
        Mode::Status => {
            let mut l1 = String::from_str("File: ");
            l1.append(path);
            let mut l2 = String::from_str("Entries: ");
            push_decimal(&mut l2, summary.total_entries as u64);
            let mut l3 = String::from_str("bit11: ");
            l3.append(summary.aggregate_label());
            lines.push(l1);
            lines.push(l2);
            lines.push(l3);
            proof {
                assert(texts(lines@) =~= report_lines(
                    path@,
                    mode,
                    all,
                    total_entries as nat,
                    selected_entries as nat,
                    p.set_entries as nat,
            p.selected_set_entries as nat,
            p.modified,
            texts(p.rows@),
                ));
            }
            lines
        },
        Mode::Detail => {
            let mut l1 = String::from_str("File: ");
            l1.append(path);
            let mut l2 = String::from_str("Entries: ");
            if all {
                push_decimal(&mut l2, summary.total_entries as u64);
            } else {
                push_decimal(&mut l2, selected_summary.total_entries as u64);
                l2.append(" selected of ");
                push_decimal(&mut l2, summary.total_entries as u64);
            }
            let mut l3 = String::from_str("bit11: ");
            l3.append(selected_summary.detail_label().as_str());
            lines.push(l1);
            lines.push(l2);
            lines.push(l3);
            lines.push(String::new());
            lines.push(String::from_str(" No.   bit11   Filename"));
            lines.push(String::from_str(" ------------------------------------------------------------"));
            let ghost head = lines@;
            let mut rows = p.rows;
            let ghost row_seq = rows@;
            lines.append(&mut rows);
            proof {
                assert(lines@ == head + row_seq);
                assert(texts(lines@) =~= texts(head) + texts(row_seq));
                assert(texts(lines@) =~= report_lines(
                    path@,
                    mode,
                    all,
                    total_entries as nat,
                    selected_entries as nat,
                    p.set_entries as nat,
            p.selected_set_entries as nat,
            p.modified,
            texts(p.rows@),
                ));
            }
            lines
        },
        _ => {
            let mut l = String::new();
            if p.modified {
                let action = match mode {
                    Mode::SetBit => "set bit 11 in",
                    Mode::Clear => "cleared bit 11 in",
                    _ => "toggled bit 11 in",
                };
                l.append(action);
                l.append(" '");
                l.append(path);
                if all {
                    l.append("' (");
                    push_decimal(&mut l, total_entries as u64);
                    l.append(" entries processed)");
                } else {
                    l.append("' (");
                    push_decimal(&mut l, selected_entries as u64);
                    l.append(" selected of ");
                    push_decimal(&mut l, total_entries as u64);
                    l.append(" entries)");
                }
            } else if all {
                l.append("no change needed: '");
                l.append(path);
                l.append("' (already in the desired state)");
            } else {
                l.append("no change needed: '");
                l.append(path);
                l.append("' (");
                push_decimal(&mut l, selected_entries as u64);
                l.append(" selected entries already in the desired state)");
            }
            lines.push(l);
            proof {
                assert(texts(lines@) =~= report_lines(
                    path@,
                    mode,
                    all,
                    total_entries as nat,
                    selected_entries as nat,
                    p.set_entries as nat,
            p.selected_set_entries as nat,
            p.modified,
            texts(p.rows@),
                ));
            }
            lines
        },
    }
}

/// Find the Central Directory of `data`: its entry count and start offset.
pub fn locate_central_directory(data: &[u8]) -> (r: Result<CentralDirectoryInfo, String>)
    ensures
        match locate_result(data@) {
            Ok((total, cd_offset)) => r is Ok && r->Ok_0.total_entries == total
                && r->Ok_0.cd_offset == cd_offset,
            Err(m) => r is Err && r->Err_0@ == m,
        },
{
    reveal(locate_result);
    let eocd_offset = match find_eocd(data) {
        Ok(o) => o,
        Err(e) => return Err(e),
    };
    let cd_info = match read_central_directory_info(data, eocd_offset) {
        Ok(info) => info,
        Err(e) => return Err(e),
    };
    if cd_info.cd_offset > data.len() {
        let mut e = String::from_str("Central Directory offset ");
        push_hex(&mut e, cd_info.cd_offset as u64);
        e.append(" is out of bounds");
        return Err(e);
    }
    Ok(cd_info)
}

/// Walk the `total_entries` entries of the Central Directory at `cd_offset`
/// in a copy of `data`.
fn run_walk(
    data: &[u8],
    cd_offset: usize,
    total_entries: usize,
    mode: Mode,
    selection: &EntrySelection,
) -> (r: Result<(Vec<u8>, Progress), String>)
    ensures
        match walk(start_scan(data@, cd_offset as int), 0, total_entries as nat, mode, selection@) {
            Ok(s) => r is Ok && scan_of(r->Ok_0.0@, r->Ok_0.1) == s
                && r->Ok_0.1.set_entries <= total_entries,
            Err(m) => r is Err && r->Err_0@ == m,
        },
{
    let ghost sel = selection@;
    let ghost n = total_entries as nat;
    let mut buf = vstd::slice::slice_to_vec(data);
    let mut p = Progress {
        pos: cd_offset,
        set_entries: 0,
        selected_set_entries: 0,
        modified: false,
        rows: Vec::new(),
    };
    let ghost whole = walk(start_scan(data@, cd_offset as int), 0, n, mode, sel);
    proof {
        assert(texts(p.rows@) =~= Seq::<Seq<char>>::empty());
        assert(scan_of(buf@, p) =~= start_scan(data@, cd_offset as int));
    }
    for i in 0..total_entries
        invariant
            n == total_entries as nat,
            sel == selection@,
            whole == walk(start_scan(data@, cd_offset as int), 0, n, mode, sel),
            whole == walk(scan_of(buf@, p), i as nat, n, mode, sel),
            p.set_entries <= i,
            p.selected_set_entries <= i,
    {
        match process_entry(buf.as_mut_slice(), i, mode, selection, &mut p) {
            Ok(()) => {},
            Err(e) => return Err(e),
        }
    }
    Ok((buf, p))
}

/// Run `mode` on the archive bytes `data`, read from `path`, with the entry
/// selector `selection` (ignored by a status).
pub fn process_archive(path: &str, data: &[u8], mode: Mode, selection: Option<&str>) -> (r: Result<
    Outcome,
    Failure,
>)
    ensures
        match process_result(
            path@,
            data@,
            mode,
            match selection {
                Some(s) => Some(s@),
                None => None,
            },
        ) {
            Ok((d2, lines, modified)) => {
                &&& r is Ok
                &&& r->Ok_0.data@ == d2
                &&& texts(r->Ok_0.lines@) == lines
                &&& r->Ok_0.modified == modified
            },
            Err((lines, msg)) => {
                &&& r is Err
                &&& texts(r->Err_0.lines@) == lines
                &&& r->Err_0.message@ == msg
            },
        },
{
    let no_lines: Vec<String> = Vec::new();
    proof {
        assert(texts(no_lines@) =~= Seq::<Seq<char>>::empty());
    }
    let cd_info = match locate_central_directory(data) {
        Ok(info) => info,
        Err(e) => return Err(Failure { lines: no_lines, message: e }),
    };
    let total_entries = cd_info.total_entries;
    let cd_offset = cd_info.cd_offset;
    let selection = match mode {
        Mode::Status => EntrySelection::All,
        _ => match EntrySelection::parse(selection, total_entries) {
            Ok(sel) => sel,
            Err(e) => return Err(Failure { lines: no_lines, message: e }),
        },
    };
    let selected_entries = selection.count(total_entries);
    let mut prelude: Vec<String> = Vec::new();
    if mode == Mode::Detail {
        let mut l = String::from_str("File: ");
        l.append(path);
        prelude.push(l);
    }
    proof {
        assert(texts(prelude@) =~= (if mode == Mode::Detail {
            seq!["File: "@ + path@]
        } else {
            seq![]
        }));
    }
    let (buf, p) = match run_walk(data, cd_offset, total_entries, mode, &selection) {
        Ok(res) => res,
        Err(e) => return Err(Failure { lines: prelude, message: e }),
    };
    let all = selection.is_all();
    let modified = p.modified;
    let lines = make_report(path, mode, all, total_entries, selected_entries, p);
    Ok(Outcome { data: buf, modified, lines })
}

} // verus!
