use seer::region::{parse_permissions, permission_text, MemoryRegion, Permissions};

fn flags(r: bool, w: bool, x: bool, p: bool, s: bool) -> Permissions {
    Permissions { readable: r, writable: w, executable: x, private: p, shared: s }
}

fn region(start: u64, end: u64, private: bool, shared: bool) -> MemoryRegion {
    MemoryRegion {
        start,
        end,
        readable: true,
        writable: false,
        executable: true,
        private,
        shared,
        file_offset: 0,
        device_id: b"08:01".to_vec(),
        inode: b"42".to_vec(),
        backing_path: None,
    }
}

#[test]
fn all_permissions_private() {
    assert_eq!(parse_permissions(b"rwxp"), flags(true, true, true, true, false));
}

#[test]
fn read_only_shared() {
    assert_eq!(parse_permissions(b"r--s"), flags(true, false, false, false, true));
}

#[test]
fn no_permissions() {
    assert_eq!(parse_permissions(b"----"), flags(false, false, false, false, false));
}

#[test]
fn each_flag_is_read_from_its_own_position() {
    assert_eq!(parse_permissions(b"-r--"), flags(false, false, false, false, false));
    assert_eq!(parse_permissions(b"wrxp"), flags(false, false, true, true, false));
    assert_eq!(parse_permissions(b"xxxx"), flags(false, false, true, false, false));
    assert_eq!(parse_permissions(b"psrw"), flags(false, false, false, false, false));
    assert_eq!(parse_permissions(b"---p"), flags(false, false, false, true, false));
    assert_eq!(parse_permissions(b"-w-s"), flags(false, true, false, false, true));
}

#[test]
fn a_field_of_the_wrong_length_sets_no_flag() {
    let none = flags(false, false, false, false, false);
    assert_eq!(parse_permissions(b""), none);
    assert_eq!(parse_permissions(b"r"), none);
    assert_eq!(parse_permissions(b"rw"), none);
    assert_eq!(parse_permissions(b"rwx"), none);
    assert_eq!(parse_permissions(b"rwxpp"), none);
    assert_eq!(parse_permissions(b"rwxps"), none);
}

#[test]
fn flags_are_written_as_four_characters() {
    assert_eq!(permission_text(flags(true, true, true, true, false)), b"rwxp".to_vec());
    assert_eq!(permission_text(flags(true, false, false, false, true)), b"r--s".to_vec());
    assert_eq!(permission_text(flags(false, false, false, false, false)), b"----".to_vec());
    assert_eq!(permission_text(flags(false, true, false, true, true)), b"-w-p".to_vec());
}

#[test]
fn written_flags_are_read_back() {
    for bits in 0u8..32 {
        let p = flags(bits & 1 != 0, bits & 2 != 0, bits & 4 != 0, bits & 8 != 0, bits & 16 != 0);
        if !(p.private && p.shared) {
            assert_eq!(parse_permissions(&permission_text(p)), p);
        }
    }
}

#[test]
fn a_region_gathers_its_flags() {
    let r = region(0x1000, 0x2000, true, false);
    assert_eq!(r.permissions(), flags(true, false, true, true, false));
}

#[test]
fn a_valid_region_has_a_range_and_one_sharing_mode() {
    assert!(region(0x1000, 0x2000, true, false).is_valid());
    assert!(region(0x1000, 0x2000, false, true).is_valid());
    assert!(!region(0x1000, 0x2000, false, false).is_valid());
    assert!(!region(0x1000, 0x2000, true, true).is_valid());
    assert!(!region(0x2000, 0x2000, true, false).is_valid());
    assert!(!region(0x3000, 0x2000, true, false).is_valid());
}

#[test]
fn the_size_of_a_region_never_underflows() {
    assert_eq!(region(0x400000, 0x401000, true, false).size(), 0x1000);
    assert_eq!(region(0, u64::MAX, true, false).size(), u64::MAX);
    assert_eq!(region(0x2000, 0x2000, true, false).size(), 0);
    assert_eq!(region(0x3000, 0x2000, true, false).size(), 0);
}
