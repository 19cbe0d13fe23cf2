use seer::extract::ExtractedString;
use seer::reader::{
    excluded_path, read_request, scan_region, selected, ReadRequest, EXCLUDED_PREFIX_LEN,
};
use seer::region::MemoryRegion;

fn region(start: u64, end: u64, readable: bool, path: Option<&[u8]>) -> MemoryRegion {
    MemoryRegion {
        start,
        end,
        readable,
        writable: false,
        executable: false,
        private: true,
        shared: false,
        file_offset: 0,
        device_id: b"08:01".to_vec(),
        inode: b"7".to_vec(),
        backing_path: path.map(|p| p.to_vec()),
    }
}

#[test]
fn the_excluded_prefix_is_usr() {
    assert_eq!(EXCLUDED_PREFIX_LEN, 4);
    assert!(excluded_path(b"/usr"));
    assert!(excluded_path(b"/usr/lib/x86_64-linux-gnu/libc.so.6"));
    assert!(excluded_path(b"/usrlocal"));
}

#[test]
fn other_paths_are_not_excluded() {
    assert!(!excluded_path(b""));
    assert!(!excluded_path(b"/us"));
    assert!(!excluded_path(b"/home/usr"));
    assert!(!excluded_path(b"usr/lib"));
    assert!(!excluded_path(b"/Usr/lib"));
    assert!(!excluded_path(b"/opt/usr"));
    assert!(!excluded_path(b"[heap]"));
    assert!(!excluded_path(b"/usx/lib"));
    assert!(!excluded_path(b"/ubr/lib"));
    assert!(!excluded_path(b"-usr/lib"));
}

#[test]
fn an_unreadable_region_is_not_read() {
    let r = region(0x1000, 0x2000, false, None);
    assert!(!selected(&r));
    assert_eq!(read_request(&r), None);
    let r = region(0x1000, 0x2000, false, Some(b"/home/me/bin"));
    assert_eq!(read_request(&r), None);
}

#[test]
fn a_region_under_the_excluded_prefix_is_not_read_even_if_readable() {
    let r = region(0x1000, 0x2000, true, Some(b"/usr/lib/libc.so.6"));
    assert!(!selected(&r));
    assert_eq!(read_request(&r), None);
}

#[test]
fn an_empty_or_inverted_region_is_not_read() {
    assert_eq!(read_request(&region(0x2000, 0x2000, true, None)), None);
    assert_eq!(read_request(&region(0x3000, 0x2000, true, None)), None);
    assert_eq!(read_request(&region(u64::MAX, 0, true, None)), None);
}

#[test]
fn a_selected_region_is_read_from_start_to_end() {
    let r = region(0x400000, 0x401000, true, Some(b"/home/me/bin"));
    assert!(selected(&r));
    assert_eq!(read_request(&r), Some(ReadRequest { start: 0x400000, len: 0x1000 }));
    let r = region(0x7000, 0x7001, true, None);
    assert_eq!(read_request(&r), Some(ReadRequest { start: 0x7000, len: 1 }));
    let r = region(0, u64::MAX, true, Some(b"[stack]"));
    assert_eq!(read_request(&r), Some(ReadRequest { start: 0, len: u64::MAX }));
}

#[test]
fn a_complete_buffer_is_scanned() {
    let mut all: Vec<ExtractedString> = Vec::new();
    let request = ReadRequest { start: 0x5000, len: 8 };
    scan_region(&mut all, request, Some(b"\x00name\x00\x00\x00"));
    assert_eq!(all, vec![ExtractedString { address: 0x5001, text: String::from("name") }]);
}

#[test]
fn a_failed_read_adds_nothing() {
    let mut all = vec![ExtractedString { address: 1, text: String::from("kept") }];
    scan_region(&mut all, ReadRequest { start: 0x5000, len: 8 }, None);
    assert_eq!(all, vec![ExtractedString { address: 1, text: String::from("kept") }]);
}

#[test]
fn no_part_of_a_short_or_long_buffer_is_used() {
    let mut all: Vec<ExtractedString> = Vec::new();
    scan_region(&mut all, ReadRequest { start: 0x5000, len: 8 }, Some(b"\x00name\x00"));
    assert!(all.is_empty());
    scan_region(&mut all, ReadRequest { start: 0x5000, len: 4 }, Some(b"name\x00"));
    assert!(all.is_empty());
    scan_region(&mut all, ReadRequest { start: 0x5000, len: 4 }, Some(b""));
    assert!(all.is_empty());
}
