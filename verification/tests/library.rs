use std::collections::BTreeSet;
use zipbit11::archive::{advance_cd_pos, process_archive, with_bit11, Mode};
use zipbit11::bytes::{has_range, read_u16, read_u32, read_u64, write_u16};
use zipbit11::eocd::{find_eocd, read_central_directory_info};
use zipbit11::local_header::read_lfh_offset_from_cd;
use zipbit11::selection::{parse_entry_no, EntrySelection};
use zipbit11::signatures::{
    BIT11, CENTRAL_DIR_SIG, EOCD_SIG, LOCAL_FILE_HEADER_SIG, ZIP64_EOCD_LOCATOR_SIG, ZIP64_EOCD_SIG,
};
use zipbit11::status::{AggregateStatus, StatusSummary};
use zipbit11::text::decimal_string;

fn put_u16(buf: &mut [u8], offset: usize, value: u16) {
    buf[offset..offset + 2].copy_from_slice(&value.to_le_bytes());
}

fn put_u32(buf: &mut [u8], offset: usize, value: u32) {
    buf[offset..offset + 4].copy_from_slice(&value.to_le_bytes());
}

fn put_u64(buf: &mut [u8], offset: usize, value: u64) {
    buf[offset..offset + 8].copy_from_slice(&value.to_le_bytes());
}

/// An archive of entries `(name, local flags, central flags)`, with `comment`
/// after the End of Central Directory record.
fn make_zip(entries: &[(&[u8], u16, u16)], comment: &[u8]) -> Vec<u8> {
    let mut data = Vec::new();
    let mut local_offsets = Vec::new();
    for (name, lfh_flags, _) in entries {
        local_offsets.push(data.len() as u32);
        data.extend_from_slice(&LOCAL_FILE_HEADER_SIG.to_le_bytes());
        data.extend_from_slice(&20u16.to_le_bytes());
        data.extend_from_slice(&lfh_flags.to_le_bytes());
        data.extend_from_slice(&[0u8; 18]);
        data.extend_from_slice(&(name.len() as u16).to_le_bytes());
        data.extend_from_slice(&0u16.to_le_bytes());
        data.extend_from_slice(name);
    }
    let cd_offset = data.len() as u32;
    for ((name, _, cd_flags), lfh_offset) in entries.iter().zip(local_offsets.iter()) {
        data.extend_from_slice(&CENTRAL_DIR_SIG.to_le_bytes());
        data.extend_from_slice(&20u16.to_le_bytes());
        data.extend_from_slice(&20u16.to_le_bytes());
        data.extend_from_slice(&cd_flags.to_le_bytes());
        data.extend_from_slice(&[0u8; 18]);
        data.extend_from_slice(&(name.len() as u16).to_le_bytes());
        data.extend_from_slice(&[0u8; 12]);
        data.extend_from_slice(&lfh_offset.to_le_bytes());
        data.extend_from_slice(name);
    }
    let cd_size = data.len() as u32 - cd_offset;
    data.extend_from_slice(&EOCD_SIG.to_le_bytes());
    data.extend_from_slice(&0u16.to_le_bytes());
    data.extend_from_slice(&0u16.to_le_bytes());
    data.extend_from_slice(&(entries.len() as u16).to_le_bytes());
    data.extend_from_slice(&(entries.len() as u16).to_le_bytes());
    data.extend_from_slice(&cd_size.to_le_bytes());
    data.extend_from_slice(&cd_offset.to_le_bytes());
    data.extend_from_slice(&(comment.len() as u16).to_le_bytes());
    data.extend_from_slice(comment);
    data
}

fn three_entries(flags: u16) -> Vec<u8> {
    make_zip(
        &[
            (b"one.txt", flags, flags),
            (b"two.txt", flags, flags),
            (b"three.txt", flags, flags),
        ],
        b"",
    )
}

/// The (local, central) bit 11 of each entry.
fn bit11_pairs(data: &[u8]) -> Vec<(bool, bool)> {
    let eocd = find_eocd(data).unwrap();
    let info = read_central_directory_info(data, eocd).unwrap();
    let mut pos = info.cd_offset;
    let mut pairs = Vec::new();
    for i in 0..info.total_entries {
        let fname_len = read_u16(data, pos + 28) as usize;
        let extra_len = read_u16(data, pos + 30) as usize;
        let comment_len = read_u16(data, pos + 32) as usize;
        let lfh = read_lfh_offset_from_cd(data, pos, fname_len, extra_len, i + 1).unwrap();
        pairs.push((
            read_u16(data, lfh + 6) & BIT11 != 0,
            read_u16(data, pos + 8) & BIT11 != 0,
        ));
        pos += 46 + fname_len + extra_len + comment_len;
    }
    pairs
}

fn lines(v: &[String]) -> Vec<&str> {
    v.iter().map(|s| s.as_str()).collect()
}

#[test]
fn little_endian_reads_and_write_back() {
    let mut data = vec![0x01, 0x02, 0x03, 0x04, 0x05, 0x06, 0x07, 0x08, 0x09];
    assert_eq!(read_u16(&data, 0), 0x0201);
    assert_eq!(read_u32(&data, 1), 0x05040302);
    assert_eq!(read_u64(&data, 1), 0x0908070605040302);
    write_u16(&mut data, 3, 0xBEEF);
    assert_eq!(read_u16(&data, 3), 0xBEEF);
    assert_eq!(data[2], 0x03);
    assert_eq!(data[5], 0x06);
}

#[test]
fn has_range_checks_bounds_without_overflow() {
    let data = [0u8; 10];
    assert!(has_range(&data, 2, 8));
    assert!(!has_range(&data, 2, 9));
    assert!(!has_range(&data, usize::MAX, 2));
}

#[test]
fn decimal_rendering() {
    assert_eq!(decimal_string(0), "0");
    assert_eq!(decimal_string(7), "7");
    assert_eq!(decimal_string(1234567890), "1234567890");
    assert_eq!(decimal_string(u64::MAX), u64::MAX.to_string());
}

#[test]
fn with_bit11_sets_and_clears_only_that_bit() {
    assert_eq!(with_bit11(0x0001, true), 0x0801);
    assert_eq!(with_bit11(0xFFFF, false), 0xF7FF);
    assert_eq!(with_bit11(0x0800, true), 0x0800);
    assert_eq!(with_bit11(with_bit11(0x1234, true), true), with_bit11(0x1234, true));
}

#[test]
fn advance_cd_pos_overflow_message() {
    assert_eq!(advance_cd_pos(10, 46, 1), Ok(56));
    assert_eq!(
        advance_cd_pos(usize::MAX, 46, 7),
        Err("offset overflow while advancing Central Directory entry 7".to_string())
    );
}

#[test]
fn aggregate_labels_cover_every_state() {
    assert_eq!(AggregateStatus::from_counts(0, 0).label(), "- empty");
    assert_eq!(AggregateStatus::from_counts(2, 2).label(), "✓ set");
    assert_eq!(StatusSummary::from_counts(3, 3).detail_label(), "✓ set (3/3)");
    assert_eq!(StatusSummary::from_counts(0, 0).detail_label(), "- empty (0/0)");
    assert_eq!(StatusSummary::from_counts(12, 0).detail_label(), "✗ clear (0/12)");
}

#[test]
fn selector_absent_selects_everything() {
    let sel = EntrySelection::parse(None, 4).unwrap();
    assert!(sel.is_all());
    assert!(sel.includes(1));
    assert!(sel.includes(99));
    assert_eq!(sel.count(4), 4);
}

#[test]
fn selector_ranges_and_spaces() {
    let sel = EntrySelection::parse(Some("1,3-5"), 5).unwrap();
    assert_eq!(sel, EntrySelection::Selected(BTreeSet::from([1usize, 3, 4, 5])));
    assert!(!sel.is_all());
    assert!(sel.includes(4));
    assert!(!sel.includes(2));
    assert_eq!(sel.count(5), 4);
    let sel = EntrySelection::parse(Some(" 2 - 3 ,\t1 "), 3).unwrap();
    assert_eq!(sel, EntrySelection::Selected(BTreeSet::from([1usize, 2, 3])));
    let sel = EntrySelection::parse(Some("+2"), 3).unwrap();
    assert_eq!(sel, EntrySelection::Selected(BTreeSet::from([2usize])));
    let sel = EntrySelection::parse(Some("2-2"), 3).unwrap();
    assert_eq!(sel, EntrySelection::Selected(BTreeSet::from([2usize])));
}

#[test]
fn selector_errors() {
    assert_eq!(
        EntrySelection::parse(Some("  "), 3).unwrap_err(),
        "entry selector must not be empty"
    );
    assert_eq!(
        EntrySelection::parse(Some("1,,2"), 3).unwrap_err(),
        "entry selector contains an empty item"
    );
    assert_eq!(
        EntrySelection::parse(Some("1, "), 3).unwrap_err(),
        "entry selector contains an empty item"
    );
    assert_eq!(
        EntrySelection::parse(Some("0"), 3).unwrap_err(),
        "entry numbers start at 1"
    );
    assert_eq!(
        EntrySelection::parse(Some("x"), 3).unwrap_err(),
        "invalid entry number: 'x'"
    );
    assert_eq!(
        EntrySelection::parse(Some("1-2-3"), 3).unwrap_err(),
        "invalid entry number: '2-3'"
    );
    assert_eq!(
        EntrySelection::parse(Some("-2"), 3).unwrap_err(),
        "invalid entry number: ''"
    );
    assert_eq!(
        EntrySelection::parse(Some("99999999999999999999999"), 3).unwrap_err(),
        "invalid entry number: '99999999999999999999999'"
    );
    assert_eq!(
        EntrySelection::parse(Some("2,5,1"), 3).unwrap_err(),
        "entry number 5 is out of range (archive has 3 entries)"
    );
    assert_eq!(
        EntrySelection::parse(Some("3 - 2"), 3).unwrap_err(),
        "entry range '3 - 2' is descending"
    );
}

#[test]
fn entry_number_parsing() {
    assert_eq!(parse_entry_no("3", 3), Ok(3));
    assert_eq!(parse_entry_no("+1", 3), Ok(1));
    assert_eq!(parse_entry_no("", 3), Err("invalid entry number: ''".to_string()));
    assert_eq!(parse_entry_no("+", 3), Err("invalid entry number: '+'".to_string()));
    assert_eq!(parse_entry_no("1 ", 3), Err("invalid entry number: '1 '".to_string()));
    assert_eq!(parse_entry_no("٣", 3), Err("invalid entry number: '٣'".to_string()));
}

#[test]
fn find_eocd_errors_and_comment() {
    assert_eq!(
        find_eocd(&[0u8; 21]).unwrap_err(),
        "file is too small to be a valid ZIP archive"
    );
    assert_eq!(
        find_eocd(&[0u8; 40]).unwrap_err(),
        "End of Central Directory record not found; not a valid ZIP archive"
    );
    let data = make_zip(&[(b"a", 0, 0)], b"hello comment");
    let eocd = find_eocd(&data).unwrap();
    assert_eq!(eocd, data.len() - 22 - 13);
}

#[test]
fn find_eocd_skips_record_whose_comment_does_not_reach_the_end() {
    let mut data = vec![0u8; 60];
    put_u32(&mut data, 10, EOCD_SIG);
    put_u16(&mut data, 10 + 20, 28);
    put_u32(&mut data, 34, EOCD_SIG);
    put_u16(&mut data, 34 + 20, 3);
    assert_eq!(find_eocd(&data), Ok(10));
}

#[test]
fn eocd_info_errors() {
    let mut data = vec![0u8; 22];
    put_u32(&mut data, 0, EOCD_SIG);
    put_u16(&mut data, 4, 1);
    assert_eq!(
        read_central_directory_info(&data, 0).unwrap_err(),
        "multi-disk ZIP archives are not supported"
    );
    put_u16(&mut data, 4, 0);
    put_u16(&mut data, 8, 2);
    put_u16(&mut data, 10, 3);
    assert_eq!(
        read_central_directory_info(&data, 0).unwrap_err(),
        "entry count mismatch between EOCD fields; multi-disk ZIP may be unsupported"
    );
    put_u16(&mut data, 8, 0xFFFF);
    assert_eq!(
        read_central_directory_info(&data, 0).unwrap_err(),
        "ZIP64 EOCD locator not found before EOCD"
    );
}

fn zip64_fixture() -> (Vec<u8>, usize, usize, usize) {
    let mut data = vec![0u8; 142];
    let zip64_eocd = 40;
    let locator = 100;
    let eocd = 120;
    put_u32(&mut data, zip64_eocd, ZIP64_EOCD_SIG);
    put_u64(&mut data, zip64_eocd + 4, 44);
    put_u64(&mut data, zip64_eocd + 24, 5);
    put_u64(&mut data, zip64_eocd + 32, 5);
    put_u64(&mut data, zip64_eocd + 48, 7);
    put_u32(&mut data, locator, ZIP64_EOCD_LOCATOR_SIG);
    put_u64(&mut data, locator + 8, zip64_eocd as u64);
    put_u32(&mut data, locator + 16, 1);
    put_u32(&mut data, eocd, EOCD_SIG);
    put_u32(&mut data, eocd + 16, 0xFFFF_FFFF);
    (data, zip64_eocd, locator, eocd)
}

#[test]
fn zip64_info_and_errors() {
    let (data, _, _, eocd) = zip64_fixture();
    let info = read_central_directory_info(&data, eocd).unwrap();
    assert_eq!((info.total_entries, info.cd_offset), (5, 7));

    let (mut d, _, locator, eocd) = zip64_fixture();
    put_u32(&mut d, locator + 16, 2);
    assert_eq!(
        read_central_directory_info(&d, eocd).unwrap_err(),
        "multi-disk ZIP64 archives are not supported"
    );

    let (mut d, _, locator, eocd) = zip64_fixture();
    put_u64(&mut d, locator + 8, 100);
    assert_eq!(
        read_central_directory_info(&d, eocd).unwrap_err(),
        "ZIP64 EOCD record is out of bounds"
    );

    let (mut d, z, _, eocd) = zip64_fixture();
    put_u32(&mut d, z, 0);
    assert_eq!(
        read_central_directory_info(&d, eocd).unwrap_err(),
        "invalid ZIP64 EOCD signature"
    );

    let (mut d, z, _, eocd) = zip64_fixture();
    put_u64(&mut d, z + 4, 43);
    assert_eq!(
        read_central_directory_info(&d, eocd).unwrap_err(),
        "ZIP64 EOCD record is too short"
    );

    let (mut d, z, _, eocd) = zip64_fixture();
    put_u64(&mut d, z + 4, 1000);
    assert_eq!(
        read_central_directory_info(&d, eocd).unwrap_err(),
        "ZIP64 EOCD record is truncated"
    );

    let (mut d, z, _, eocd) = zip64_fixture();
    put_u64(&mut d, z + 4, u64::MAX);
    assert_eq!(
        read_central_directory_info(&d, eocd).unwrap_err(),
        "ZIP64 EOCD record length overflow"
    );

    let (mut d, z, _, eocd) = zip64_fixture();
    put_u32(&mut d, z + 20, 1);
    assert_eq!(
        read_central_directory_info(&d, eocd).unwrap_err(),
        "multi-disk ZIP64 archives are not supported"
    );

    let (mut d, z, _, eocd) = zip64_fixture();
    put_u64(&mut d, z + 24, 4);
    assert_eq!(
        read_central_directory_info(&d, eocd).unwrap_err(),
        "entry count mismatch in ZIP64 EOCD; multi-disk ZIP64 may be unsupported"
    );

    let (mut d, _, locator, eocd) = zip64_fixture();
    put_u32(&mut d, locator, 0);
    assert_eq!(
        read_central_directory_info(&d, eocd).unwrap_err(),
        "ZIP64 EOCD locator signature not found"
    );
}

/// A Central Directory entry at 0 whose 32-bit sizes and offset hold the
/// sentinel, with `extra` as its extra field.
fn cd_entry_with_extra(extra: &[u8], sizes_sentinel: bool) -> Vec<u8> {
    let mut data = vec![0u8; 46];
    put_u32(&mut data, 0, CENTRAL_DIR_SIG);
    if sizes_sentinel {
        put_u32(&mut data, 20, 0xFFFF_FFFF);
        put_u32(&mut data, 24, 0xFFFF_FFFF);
    }
    put_u16(&mut data, 30, extra.len() as u16);
    put_u32(&mut data, 42, 0xFFFF_FFFF);
    data.extend_from_slice(extra);
    data
}

#[test]
fn local_header_offset_direct_and_zip64() {
    let mut data = vec![0u8; 46];
    put_u32(&mut data, 42, 1234);
    assert_eq!(read_lfh_offset_from_cd(&data, 0, 0, 0, 1), Ok(1234));

    // An unrelated field first, then the ZIP64 field with the offset alone.
    let mut extra = vec![0x99, 0x99, 2, 0, 0xAA, 0xBB];
    extra.extend_from_slice(&[1, 0, 8, 0]);
    extra.extend_from_slice(&0x1_0000_0000u64.to_le_bytes());
    let data = cd_entry_with_extra(&extra, false);
    assert_eq!(
        read_lfh_offset_from_cd(&data, 0, 0, extra.len(), 1),
        Ok(0x1_0000_0000)
    );

    // Both sizes precede the offset.
    let mut extra = vec![1, 0, 24, 0];
    extra.extend_from_slice(&5u64.to_le_bytes());
    extra.extend_from_slice(&6u64.to_le_bytes());
    extra.extend_from_slice(&77u64.to_le_bytes());
    let data = cd_entry_with_extra(&extra, true);
    assert_eq!(read_lfh_offset_from_cd(&data, 0, 0, extra.len(), 1), Ok(77));
}

#[test]
fn local_header_offset_errors() {
    let data = cd_entry_with_extra(&[], false);
    assert_eq!(
        read_lfh_offset_from_cd(&data, 0, 0, 0, 4),
        Err("ZIP64 extra field missing for Central Directory entry 4".to_string())
    );
    let extra = [1, 0, 9, 0, 0, 0];
    let data = cd_entry_with_extra(&extra, false);
    assert_eq!(
        read_lfh_offset_from_cd(&data, 0, 0, extra.len(), 2),
        Err("truncated extra field in Central Directory entry 2".to_string())
    );
    let mut extra = vec![1, 0, 8, 0];
    extra.extend_from_slice(&5u64.to_le_bytes());
    let data = cd_entry_with_extra(&extra, true);
    assert_eq!(
        read_lfh_offset_from_cd(&data, 0, 0, extra.len(), 3),
        Err("ZIP64 extra field does not contain Local Header offset for entry 3".to_string())
    );
}

#[test]
fn status_report_lines() {
    let data = make_zip(&[(b"a.txt", BIT11, BIT11), (b"b.txt", 0, 0)], b"");
    let out = process_archive("x.zip", &data, Mode::Status, Some("ignored")).unwrap();
    assert!(!out.modified);
    assert_eq!(out.data, data);
    assert_eq!(
        lines(&out.lines),
        vec!["File: x.zip", "Entries: 2", "bit11: △ partial"]
    );
}

#[test]
fn detail_report_lines() {
    let data = make_zip(
        &[(b"a.txt", BIT11, BIT11), (b"b.txt", 0, 0), (b"\xffbad", 0, 0)],
        b"",
    );
    let out = process_archive("x.zip", &data, Mode::Detail, None).unwrap();
    assert_eq!(out.data, data);
    assert_eq!(
        lines(&out.lines),
        vec![
            "File: x.zip",
            "Entries: 3",
            "bit11: △ partial (1/3)",
            "",
            " No.   bit11   Filename",
            " ------------------------------------------------------------",
            " 1     ✓ set    a.txt",
            " 2     ✗ clear  b.txt",
            " 3     ✗ clear  \u{FFFD}bad",
        ]
    );
    let out = process_archive("x.zip", &data, Mode::Detail, Some("1")).unwrap();
    assert_eq!(
        lines(&out.lines),
        vec![
            "File: x.zip",
            "Entries: 1 selected of 3",
            "bit11: ✓ set (1/1)",
            "",
            " No.   bit11   Filename",
            " ------------------------------------------------------------",
            " 1     ✓ set    a.txt",
        ]
    );
}

#[test]
fn edit_report_lines() {
    let data = three_entries(0);
    let out = process_archive("x.zip", &data, Mode::SetBit, None).unwrap();
    assert!(out.modified);
    assert_eq!(lines(&out.lines), vec!["set bit 11 in 'x.zip' (3 entries processed)"]);
    assert_eq!(bit11_pairs(&out.data), vec![(true, true); 3]);

    let out = process_archive("x.zip", &data, Mode::Toggle, Some("2")).unwrap();
    assert_eq!(
        lines(&out.lines),
        vec!["toggled bit 11 in 'x.zip' (1 selected of 3 entries)"]
    );
    assert_eq!(
        bit11_pairs(&out.data),
        vec![(false, false), (true, true), (false, false)]
    );

    let out = process_archive("x.zip", &data, Mode::Clear, None).unwrap();
    assert!(!out.modified);
    assert_eq!(out.data, data);
    assert_eq!(
        lines(&out.lines),
        vec!["no change needed: 'x.zip' (already in the desired state)"]
    );

    let out = process_archive("x.zip", &data, Mode::Clear, Some("1-2")).unwrap();
    assert_eq!(
        lines(&out.lines),
        vec!["no change needed: 'x.zip' (2 selected entries already in the desired state)"]
    );
}

#[test]
fn cleared_report_and_other_bits_kept() {
    let data = three_entries(BIT11 | 0x0008);
    let out = process_archive("y.zip", &data, Mode::Clear, Some("3")).unwrap();
    assert_eq!(
        lines(&out.lines),
        vec!["cleared bit 11 in 'y.zip' (1 selected of 3 entries)"]
    );
    assert_eq!(
        bit11_pairs(&out.data),
        vec![(true, true), (true, true), (false, false)]
    );
    let changed: Vec<usize> = (0..data.len()).filter(|&i| data[i] != out.data[i]).collect();
    assert_eq!(changed.len(), 2);
}

#[test]
fn toggle_twice_restores_consistent_archive() {
    let data = make_zip(&[(b"a", BIT11, BIT11), (b"b", 0, 0)], b"c");
    let once = process_archive("t.zip", &data, Mode::Toggle, None).unwrap();
    assert_eq!(bit11_pairs(&once.data), vec![(false, false), (true, true)]);
    let twice = process_archive("t.zip", &once.data, Mode::Toggle, None).unwrap();
    assert_eq!(twice.data, data);
}

#[test]
fn toggle_twice_restores_archive_with_shared_local_header() {
    let mut data = make_zip(&[(b"a", BIT11, BIT11), (b"b", BIT11, BIT11)], b"");
    let eocd = find_eocd(&data).unwrap();
    let cd = read_central_directory_info(&data, eocd).unwrap().cd_offset;
    // The second entry points at the first entry's Local File Header.
    put_u32(&mut data, cd + 47 + 42, 0);
    let once = process_archive("t.zip", &data, Mode::Toggle, None).unwrap();
    assert!(once.modified);
    assert_eq!(bit11_pairs(&once.data), vec![(false, false), (false, false)]);
    let twice = process_archive("t.zip", &once.data, Mode::Toggle, None).unwrap();
    assert_eq!(twice.data, data);
    let cleared = process_archive("t.zip", &data, Mode::Clear, None).unwrap();
    let again = process_archive("t.zip", &cleared.data, Mode::Clear, None).unwrap();
    assert!(!again.modified);
    assert_eq!(again.data, cleared.data);
}

#[test]
fn set_is_idempotent_on_simple_archive() {
    let data = three_entries(0);
    let once = process_archive("s.zip", &data, Mode::SetBit, Some("1,3")).unwrap();
    assert!(once.modified);
    let twice = process_archive("s.zip", &once.data, Mode::SetBit, Some("1,3")).unwrap();
    assert!(!twice.modified);
    assert_eq!(twice.data, once.data);
    assert_eq!(
        lines(&twice.lines),
        vec!["no change needed: 's.zip' (2 selected entries already in the desired state)"]
    );
}

#[test]
fn process_errors() {
    let data = three_entries(0);
    let err = process_archive("x.zip", &data[..10], Mode::Status, None).unwrap_err();
    assert_eq!(err.message, "file is too small to be a valid ZIP archive");
    assert!(err.lines.is_empty());

    // Central Directory offset past the end.
    let mut d = data.clone();
    let eocd = d.len() - 22;
    put_u32(&mut d, eocd + 16, 0x1000);
    let err = process_archive("x.zip", &d, Mode::Status, None).unwrap_err();
    assert_eq!(err.message, "Central Directory offset 0x1000 is out of bounds");

    // Broken Central Directory signature; detail reports the file first.
    let mut d = data.clone();
    let cd = read_u32(&d, eocd + 16) as usize;
    put_u32(&mut d, cd, 0);
    let err = process_archive("x.zip", &d, Mode::Detail, None).unwrap_err();
    assert_eq!(
        err.message,
        format!("invalid Central Directory signature (offset: {:#x})", cd)
    );
    assert_eq!(lines(&err.lines), vec!["File: x.zip"]);

    // Selector errors come before any walk.
    let err = process_archive("x.zip", &data, Mode::SetBit, Some("4")).unwrap_err();
    assert_eq!(
        err.message,
        "entry number 4 is out of range (archive has 3 entries)"
    );

    // Broken Local File Header signature of the second entry.
    let mut d = data.clone();
    let lfh2 = read_u32(&d, cd + 46 + 7 + 42) as usize;
    put_u32(&mut d, lfh2, 0);
    let err = process_archive("x.zip", &d, Mode::SetBit, None).unwrap_err();
    assert_eq!(
        err.message,
        format!(
            "invalid Local File Header signature for 'two.txt' (offset: {:#x})",
            lfh2
        )
    );
    // Not selected: no error.
    assert!(process_archive("x.zip", &d, Mode::SetBit, Some("1,3")).is_ok());

    // Local File Header offset out of bounds.
    let mut d = data.clone();
    put_u32(&mut d, cd + 42, 0xABCDE);
    let err = process_archive("x.zip", &d, Mode::Toggle, Some("1")).unwrap_err();
    assert_eq!(
        err.message,
        "Local File Header offset 0xabcde for 'one.txt' is out of bounds"
    );

    // Entry count larger than the Central Directory.
    let mut d = data.clone();
    put_u16(&mut d, eocd + 8, 4);
    put_u16(&mut d, eocd + 10, 4);
    let err = process_archive("x.zip", &d, Mode::Status, None).unwrap_err();
    assert_eq!(
        err.message,
        "file ended unexpectedly at Central Directory entry 4"
    );
}

#[test]
fn truncated_central_directory_entry() {
    // One entry whose name length runs past the end of the archive.
    let mut data = make_zip(&[(b"a", 0, 0)], b"");
    let eocd = data.len() - 22;
    let cd = read_u32(&data, eocd + 16) as usize;
    put_u16(&mut data, cd + 28, 500);
    let err = process_archive("x.zip", &data, Mode::Status, None).unwrap_err();
    assert_eq!(
        err.message,
        "file ended unexpectedly in Central Directory entry 1"
    );
    // The Central Directory starting too close to the end.
    let mut data = make_zip(&[(b"a", 0, 0)], b"");
    let len = data.len();
    put_u32(&mut data, eocd + 16, (len - 30) as u32);
    let err = process_archive("x.zip", &data, Mode::Status, None).unwrap_err();
    assert_eq!(
        err.message,
        "file ended unexpectedly at Central Directory entry 1"
    );
}

#[test]
fn detail_listing_as_documented() {
    let data = make_zip(
        &[
            (b"English/", 0, 0),
            (b"English/cat.txt", 0, 0),
            ("日本語/".as_bytes(), BIT11, BIT11),
            ("日本語/猫.txt".as_bytes(), BIT11, BIT11),
        ],
        b"",
    );
    let out = process_archive("archive.zip", &data, Mode::Detail, None).unwrap();
    assert!(!out.modified);
    assert_eq!(out.data, data);
    let rule = format!(" {}", "-".repeat(60));
    assert_eq!(
        lines(&out.lines),
        vec![
            "File: archive.zip",
            "Entries: 4",
            "bit11: △ partial (2/4)",
            "",
            " No.   bit11   Filename",
            rule.as_str(),
            " 1     ✗ clear  English/",
            " 2     ✗ clear  English/cat.txt",
            " 3     ✓ set    日本語/",
            " 4     ✓ set    日本語/猫.txt",
        ]
    );
}
