use seer::parse::parse_line;
use seer::region::MemoryRegion;

fn region(path: Option<&[u8]>) -> MemoryRegion {
    MemoryRegion {
        start: 0x400000,
        end: 0x401000,
        readable: true,
        writable: false,
        executable: true,
        private: true,
        shared: false,
        file_offset: 0x1f000,
        device_id: b"08:02".to_vec(),
        inode: b"173521".to_vec(),
        backing_path: path.map(|p| p.to_vec()),
    }
}

#[test]
fn a_region_is_written_as_one_line() {
    let line = region(Some(b"/bin/cat")).describe();
    assert_eq!(line, b"400000-401000 r-xp 1f000 08:02 173521 /bin/cat".to_vec());
}

#[test]
fn a_region_without_path_ends_after_the_inode() {
    let line = region(None).describe();
    assert_eq!(line, b"400000-401000 r-xp 1f000 08:02 173521 ".to_vec());
}

#[test]
fn shared_and_unset_flags_are_written() {
    let mut r = region(None);
    r.readable = false;
    r.writable = true;
    r.executable = false;
    r.private = false;
    r.shared = true;
    r.start = 0;
    r.end = u64::MAX;
    r.file_offset = 0;
    assert_eq!(r.describe(), b"0-ffffffffffffffff -w-s 0 08:02 173521 ".to_vec());
    r.shared = false;
    assert_eq!(r.describe(), b"0-ffffffffffffffff -w-- 0 08:02 173521 ".to_vec());
}

#[test]
fn a_written_region_is_read_back() {
    for path in [None, Some(&b"/bin/cat"[..]), Some(&b"[heap]"[..]), Some(&b"/tmp/\xff"[..])] {
        let r = region(path);
        assert_eq!(parse_line(&r.describe()), Ok(r));
    }
}

#[test]
fn a_parsed_line_is_written_in_the_shortest_form() {
    let r = parse_line(b"00400000-00452000   r-xp 00000000 08:02 173521      /bin/cat").unwrap();
    assert_eq!(r.describe(), b"400000-452000 r-xp 0 08:02 173521 /bin/cat".to_vec());
}
