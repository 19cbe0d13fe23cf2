use seer::parse::{
    is_space_byte, parse_line, parse_mappings, parse_offset, parse_range, LineError,
    MappingError,
};
use seer::region::MemoryRegion;

const TABLE: &[u8] = b"\
00400000-00452000 r-xp 00000000 08:02 173521      /usr/bin/dbus-daemon
00651000-00652000 r--p 00051000 08:02 173521      /usr/bin/dbus-daemon
00e03000-00e24000 rw-p 00000000 00:00 0           [heap]
35b1800000-35b1820000 r-xs 00000000 08:02 135522  /lib64/ld-2.15.so
7fffb2c0d000-7fffb2c2e000 rw-p 00000000 00:00 0
";

#[test]
fn the_six_separators_are_told_from_other_bytes() {
    for b in [b' ', b'\t', b'\n', 0x0b, 0x0c, b'\r'] {
        assert!(is_space_byte(b));
    }
    for b in [0x08, 0x0e, 0x1f, b'!', b'-', b'0', b'a', 0x7f, 0x85, 0xa0] {
        assert!(!is_space_byte(b));
    }
}

#[test]
fn an_address_range_gives_its_two_addresses() {
    assert_eq!(parse_range(b"400000-401000"), Ok((0x400000, 0x401000)));
    assert_eq!(parse_range(b"0-ffffffffffffffff"), Ok((0, u64::MAX)));
    assert_eq!(parse_range(b"7FFF0000-7fff1000"), Ok((0x7fff_0000, 0x7fff_1000)));
}

#[test]
fn an_inverted_or_empty_range_is_still_read() {
    assert_eq!(parse_range(b"2000-1000"), Ok((0x2000, 0x1000)));
    assert_eq!(parse_range(b"1000-1000"), Ok((0x1000, 0x1000)));
}

#[test]
fn a_range_without_separator_is_refused() {
    assert_eq!(parse_range(b"400000401000"), Err(LineError::MissingSeparator));
    assert_eq!(parse_range(b""), Err(LineError::MissingSeparator));
    assert_eq!(parse_range(b"400000_401000"), Err(LineError::MissingSeparator));
}

#[test]
fn a_range_with_a_bad_start_is_refused() {
    assert_eq!(parse_range(b"-401000"), Err(LineError::InvalidStart));
    assert_eq!(parse_range(b"4g0000-401000"), Err(LineError::InvalidStart));
    assert_eq!(parse_range(b"0x400000-401000"), Err(LineError::InvalidStart));
    assert_eq!(parse_range(b"10000000000000000-20000000000000000"), Err(LineError::InvalidStart));
    assert_eq!(parse_range(b"zz-zz"), Err(LineError::InvalidStart));
}

#[test]
fn a_range_with_a_bad_end_is_refused() {
    assert_eq!(parse_range(b"400000-"), Err(LineError::InvalidEnd));
    assert_eq!(parse_range(b"400000-40100z"), Err(LineError::InvalidEnd));
    assert_eq!(parse_range(b"400000-401000-402000"), Err(LineError::InvalidEnd));
    assert_eq!(parse_range(b"400000--401000"), Err(LineError::InvalidEnd));
    assert_eq!(parse_range(b"0-10000000000000000"), Err(LineError::InvalidEnd));
}

#[test]
fn an_offset_is_its_value_or_zero() {
    assert_eq!(parse_offset(b"00051000"), 0x51000);
    assert_eq!(parse_offset(b"0"), 0);
    assert_eq!(parse_offset(b""), 0);
    assert_eq!(parse_offset(b"12xz"), 0);
    assert_eq!(parse_offset(b"10000000000000000"), 0);
}

#[test]
fn a_full_line_gives_every_field() {
    let r = parse_line(b"00400000-00452000 r-xp 0001f000 08:02 173521      /usr/bin/dbus-daemon")
        .unwrap();
    assert_eq!(
        r,
        MemoryRegion {
            start: 0x400000,
            end: 0x452000,
            readable: true,
            writable: false,
            executable: true,
            private: true,
            shared: false,
            file_offset: 0x1f000,
            device_id: b"08:02".to_vec(),
            inode: b"173521".to_vec(),
            backing_path: Some(b"/usr/bin/dbus-daemon".to_vec()),
        }
    );
}

#[test]
fn an_anonymous_line_has_no_path() {
    let r = parse_line(b"7fffb2c0d000-7fffb2c2e000 rw-p 00000000 00:00 0").unwrap();
    assert_eq!(r.start, 0x7fff_b2c0_d000);
    assert_eq!(r.end, 0x7fff_b2c2_e000);
    assert!(r.readable && r.writable && !r.executable && r.private && !r.shared);
    assert_eq!(r.file_offset, 0);
    assert_eq!(r.device_id, b"00:00".to_vec());
    assert_eq!(r.inode, b"0".to_vec());
    assert_eq!(r.backing_path, None);
}

#[test]
fn a_pseudo_path_is_a_path() {
    let r = parse_line(b"00e03000-00e24000 rw-p 00000000 00:00 0           [heap]").unwrap();
    assert_eq!(r.backing_path, Some(b"[heap]".to_vec()));
}

#[test]
fn missing_trailing_fields_are_empty() {
    let r = parse_line(b"1000-2000").unwrap();
    assert_eq!((r.start, r.end), (0x1000, 0x2000));
    assert!(!r.readable && !r.writable && !r.executable && !r.private && !r.shared);
    assert_eq!(r.file_offset, 0);
    assert!(r.device_id.is_empty());
    assert!(r.inode.is_empty());
    assert_eq!(r.backing_path, None);

    let r = parse_line(b"1000-2000 r--s 20").unwrap();
    assert!(r.readable && r.shared && !r.private);
    assert_eq!(r.file_offset, 0x20);
    assert!(r.device_id.is_empty());

    let r = parse_line(b"1000-2000 r--s 20 fd:00").unwrap();
    assert_eq!(r.device_id, b"fd:00".to_vec());
    assert!(r.inode.is_empty());
}

#[test]
fn a_malformed_permission_field_sets_no_flag() {
    let r = parse_line(b"1000-2000 rwxpp 0 00:00 0").unwrap();
    assert!(!r.readable && !r.writable && !r.executable && !r.private && !r.shared);
    let r = parse_line(b"1000-2000 rw 0 00:00 0").unwrap();
    assert!(!r.readable && !r.writable);
}

#[test]
fn a_malformed_offset_is_zero() {
    let r = parse_line(b"1000-2000 r--p zz 00:00 7").unwrap();
    assert_eq!(r.file_offset, 0);
    assert_eq!(r.inode, b"7".to_vec());
}

#[test]
fn only_the_first_word_of_a_path_is_kept() {
    let r = parse_line(b"1000-2000 r--p 0 08:01 9 /tmp/a file (deleted)").unwrap();
    assert_eq!(r.backing_path, Some(b"/tmp/a".to_vec()));
}

#[test]
fn any_separator_delimits_fields() {
    let r = parse_line(b"\t1000-2000\x0br-xp\x0c10\r08:01  5\t/bin/true\r").unwrap();
    assert_eq!((r.start, r.end), (0x1000, 0x2000));
    assert!(r.readable && r.executable && r.private);
    assert_eq!(r.file_offset, 0x10);
    assert_eq!(r.device_id, b"08:01".to_vec());
    assert_eq!(r.inode, b"5".to_vec());
    assert_eq!(r.backing_path, Some(b"/bin/true".to_vec()));
}

#[test]
fn a_path_that_is_not_text_is_kept_as_it_is() {
    let r = parse_line(b"1000-2000 r--p 0 08:01 9 /tmp/\xff\xfe").unwrap();
    assert_eq!(r.backing_path, Some(b"/tmp/\xff\xfe".to_vec()));
}

#[test]
fn a_line_without_range_is_refused() {
    assert_eq!(parse_line(b""), Err(LineError::MissingSeparator));
    assert_eq!(parse_line(b"   \t "), Err(LineError::MissingSeparator));
    assert_eq!(parse_line(b"r-xp 400000-401000"), Err(LineError::InvalidStart));
    assert_eq!(parse_line(b"400000 401000 r-xp"), Err(LineError::MissingSeparator));
    assert_eq!(parse_line(b"400000- 401000"), Err(LineError::InvalidEnd));
}

#[test]
fn a_table_gives_its_regions_in_the_order_of_its_lines() {
    let regions = parse_mappings(TABLE).unwrap();
    let starts: Vec<u64> = regions.iter().map(|r| r.start).collect();
    assert_eq!(starts, vec![0x400000, 0x651000, 0xe03000, 0x35_b180_0000, 0x7fff_b2c0_d000]);
    for r in &regions {
        assert!(r.start < r.end);
    }
    assert!(regions[3].shared && !regions[3].private);
    assert_eq!(regions[2].backing_path, Some(b"[heap]".to_vec()));
    assert_eq!(regions[4].backing_path, None);
}

#[test]
fn a_table_is_not_sorted_or_merged() {
    let regions = parse_mappings(b"3000-4000 r--p\n1000-2000 r--p\n2000-3000 r--p\n").unwrap();
    let ranges: Vec<(u64, u64)> = regions.iter().map(|r| (r.start, r.end)).collect();
    assert_eq!(ranges, vec![(0x3000, 0x4000), (0x1000, 0x2000), (0x2000, 0x3000)]);
}

#[test]
fn each_line_of_a_table_parses_as_it_does_alone() {
    let regions = parse_mappings(TABLE).unwrap();
    let lines: Vec<&[u8]> = TABLE.split(|b| *b == b'\n').filter(|l| !l.is_empty()).collect();
    assert_eq!(regions.len(), lines.len());
    for (region, line) in regions.iter().zip(lines) {
        assert_eq!(Ok(region.clone()), parse_line(line));
    }
}

#[test]
fn an_empty_table_has_no_region() {
    assert_eq!(parse_mappings(b""), Ok(vec![]));
}

#[test]
fn the_last_line_needs_no_line_feed() {
    let with = parse_mappings(b"1000-2000 r--p\n3000-4000 rw-p\n").unwrap();
    let without = parse_mappings(b"1000-2000 r--p\n3000-4000 rw-p").unwrap();
    assert_eq!(with, without);
    assert_eq!(with.len(), 2);
}

#[test]
fn carriage_returns_before_line_feeds_are_passed_over() {
    let regions = parse_mappings(b"1000-2000 r--p 0 08:01 5 /bin/a\r\n3000-4000 rw-p\r\n").unwrap();
    assert_eq!(regions.len(), 2);
    assert_eq!(regions[0].backing_path, Some(b"/bin/a".to_vec()));
    assert_eq!(regions[1].start, 0x3000);
}

#[test]
fn the_first_bad_line_fails_the_whole_table() {
    let table = b"1000-2000 r--p\n3000x4000 rw-p\nzz-5000 r--p\n";
    assert_eq!(
        parse_mappings(table),
        Err(MappingError { line: 1, kind: LineError::MissingSeparator })
    );
    assert_eq!(
        parse_mappings(b"zz-5000 r--p\n1000 r--p\n"),
        Err(MappingError { line: 0, kind: LineError::InvalidStart })
    );
    assert_eq!(
        parse_mappings(b"1000-2000\n2000-3000\n3000-\n"),
        Err(MappingError { line: 2, kind: LineError::InvalidEnd })
    );
}

#[test]
fn a_blank_line_fails_the_table() {
    assert_eq!(
        parse_mappings(b"1000-2000 r--p\n\n3000-4000 rw-p\n"),
        Err(MappingError { line: 1, kind: LineError::MissingSeparator })
    );
    assert_eq!(
        parse_mappings(b"\n"),
        Err(MappingError { line: 0, kind: LineError::MissingSeparator })
    );
}
