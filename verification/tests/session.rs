use seer::extract::ExtractedString;
use seer::parse::{LineError, MappingError};
use seer::reader::ReadRequest;
use seer::session::{Action, Event, Failure, Mem, Phase};

const TABLE: &[u8] = b"\
400000-400008 r-xp 00000000 08:02 11 /home/me/app
600000-600010 ---p 00000000 08:02 11 /home/me/app
7f0000-7f0008 r-xp 00000000 08:02 22 /usr/lib/libc.so.6
800000-800008 rw-p 00000000 00:00 0 [heap]
900000-900000 rw-p 00000000 00:00 0
a00000-a00006 rw-p 00000000 00:00 0 [stack]
";

fn text(address: u64, s: &str) -> ExtractedString {
    ExtractedString { address, text: String::from(s) }
}

fn read(start: u64, len: u64) -> Action {
    Action::ReadRegion(ReadRequest { start, len })
}

fn attached(pid: i32) -> Mem {
    let mut mem = Mem::new(pid);
    assert_eq!(mem.step(Event::Attached), Action::AwaitStop);
    assert_eq!(mem.step(Event::Stopped), Action::ReadMappings);
    mem
}

fn reading(pid: i32) -> Mem {
    let mut mem = attached(pid);
    assert_eq!(mem.step(Event::Mappings(TABLE.to_vec())), read(0x400000, 8));
    mem
}

#[test]
fn a_new_snapshot_asks_for_the_attach() {
    let mem = Mem::new(4242);
    assert_eq!(mem.pid(), 4242);
    assert_eq!(mem.phase(), Phase::Detached);
    assert_eq!(mem.action(), Action::Attach);
    assert_eq!(mem.failure(), None);
    assert!(!mem.not_stopped());
    assert!(!mem.detach_failed());
    assert!(mem.mapping().is_empty());
    assert!(mem.strings().is_empty());
    assert!(mem.current_region().is_none());
}

#[test]
fn a_whole_snapshot_runs_from_attach_to_detach() {
    let mut mem = Mem::new(77);
    assert_eq!(mem.step(Event::Attached), Action::AwaitStop);
    assert_eq!(mem.phase(), Phase::Attaching);
    assert_eq!(mem.step(Event::Stopped), Action::ReadMappings);
    assert_eq!(mem.phase(), Phase::Attached);

    assert_eq!(mem.step(Event::Mappings(TABLE.to_vec())), read(0x400000, 8));
    assert_eq!(mem.phase(), Phase::Reading);
    assert_eq!(mem.mapping().len(), 6);
    assert_eq!(mem.current_region().unwrap().start, 0x400000);

    assert_eq!(mem.step(Event::RegionBytes(b"\x7fELF.app".to_vec())), read(0x800000, 8));
    assert_eq!(mem.current_region().unwrap().backing_path, Some(b"[heap]".to_vec()));
    assert_eq!(mem.step(Event::RegionBytes(b"key=val\x00".to_vec())), read(0xa00000, 6));
    assert_eq!(mem.step(Event::RegionBytes(b"\x00\x01ab\x02\x03".to_vec())), Action::Detach);
    assert_eq!(mem.phase(), Phase::Detaching);
    assert!(mem.current_region().is_none());

    assert_eq!(mem.step(Event::Detached), Action::Finish);
    assert_eq!(mem.phase(), Phase::Released);
    assert_eq!(mem.failure(), None);
    assert!(!mem.detach_failed());
    assert_eq!(mem.strings(), &vec![text(0x400001, "ELF.app"), text(0x800000, "key=val")]);
    assert_eq!(mem.pid(), 77);
}

#[test]
fn unreadable_excluded_and_empty_regions_are_never_asked_for() {
    let mut mem = attached(1);
    let mut asked = Vec::new();
    let mut action = mem.step(Event::Mappings(TABLE.to_vec()));
    while let Action::ReadRegion(request) = action {
        asked.push(request.start);
        action = mem.step(Event::RegionUnreadable);
    }
    assert_eq!(asked, vec![0x400000, 0x800000, 0xa00000]);
    assert_eq!(action, Action::Detach);
}

#[test]
fn a_refused_attach_ends_the_snapshot_without_a_detach() {
    let mut mem = Mem::new(1);
    assert_eq!(mem.step(Event::AttachFailed), Action::Finish);
    assert_eq!(mem.phase(), Phase::Released);
    assert_eq!(mem.failure(), Some(Failure::Attach));
    assert!(!mem.detach_failed());
    assert!(mem.mapping().is_empty());
    assert!(mem.strings().is_empty());
}

#[test]
fn a_target_that_is_not_stopped_is_detached_at_once() {
    let mut mem = Mem::new(1);
    mem.step(Event::Attached);
    assert_eq!(mem.step(Event::NotStopped), Action::Detach);
    assert!(mem.not_stopped());
    assert_eq!(mem.failure(), None);
    assert_eq!(mem.step(Event::Detached), Action::Finish);
    assert_eq!(mem.failure(), None);
    assert!(mem.mapping().is_empty());
    assert!(mem.strings().is_empty());
}

#[test]
fn a_failed_wait_is_fatal_and_detaches() {
    let mut mem = Mem::new(1);
    mem.step(Event::Attached);
    assert_eq!(mem.step(Event::WaitFailed), Action::Detach);
    assert_eq!(mem.failure(), Some(Failure::Wait));
    assert_eq!(mem.step(Event::Detached), Action::Finish);
    assert_eq!(mem.failure(), Some(Failure::Wait));
    assert!(mem.strings().is_empty());
}

#[test]
fn an_unreadable_table_is_fatal_and_detaches() {
    let mut mem = attached(1);
    assert_eq!(mem.step(Event::MappingsUnreadable), Action::Detach);
    assert_eq!(mem.failure(), Some(Failure::MappingRead));
    assert_eq!(mem.step(Event::Detached), Action::Finish);
    assert_eq!(mem.failure(), Some(Failure::MappingRead));
}

#[test]
fn a_malformed_table_is_fatal_and_detaches() {
    let mut mem = attached(1);
    let table = b"400000-401000 r-xp\n400000 r-xp\n".to_vec();
    assert_eq!(mem.step(Event::Mappings(table)), Action::Detach);
    let error = MappingError { line: 1, kind: LineError::MissingSeparator };
    assert_eq!(mem.failure(), Some(Failure::MappingParse(error)));
    assert!(mem.mapping().is_empty());
    assert_eq!(mem.step(Event::Detached), Action::Finish);
}

#[test]
fn a_table_without_a_region_to_read_leads_to_the_detach() {
    let mut mem = attached(1);
    assert_eq!(mem.step(Event::Mappings(Vec::new())), Action::Detach);
    assert_eq!(mem.failure(), None);

    let mut mem = attached(1);
    let table = b"1000-2000 ---p\n3000-4000 r-xp 0 08:01 5 /usr/bin/env\n".to_vec();
    assert_eq!(mem.step(Event::Mappings(table)), Action::Detach);
    assert_eq!(mem.mapping().len(), 2);
    assert_eq!(mem.failure(), None);
}

#[test]
fn a_failed_read_does_not_stop_the_scan() {
    let mut mem = reading(1);
    assert_eq!(mem.step(Event::RegionBytes(b"\x7fELF.app".to_vec())), read(0x800000, 8));
    assert_eq!(mem.step(Event::RegionUnreadable), read(0xa00000, 6));
    assert_eq!(mem.failure(), None);
    assert_eq!(mem.step(Event::RegionBytes(b"/bin/sh".as_ref()[..6].to_vec())), Action::Detach);
    assert_eq!(mem.strings(), &vec![text(0x400001, "ELF.app"), text(0xa00000, "/bin/s")]);
    assert_eq!(mem.step(Event::Detached), Action::Finish);
    assert_eq!(mem.failure(), None);
}

#[test]
fn a_failed_read_leads_where_a_good_read_leads() {
    let mut failed = reading(1);
    let mut good = reading(1);
    let after_failure = failed.step(Event::RegionUnreadable);
    let after_bytes = good.step(Event::RegionBytes(b"\x7fELF.app".to_vec()));
    assert_eq!(after_failure, after_bytes);
    assert_eq!(failed.phase(), good.phase());
    assert!(failed.strings().is_empty());
    assert_eq!(good.strings().len(), 1);
}

#[test]
fn a_short_read_is_dropped_whole() {
    let mut mem = reading(1);
    assert_eq!(mem.step(Event::RegionBytes(b"\x7fELF".to_vec())), read(0x800000, 8));
    assert!(mem.strings().is_empty());
    assert_eq!(mem.step(Event::RegionBytes(b"key=val\x00\x00".to_vec())), read(0xa00000, 6));
    assert!(mem.strings().is_empty());
}

#[test]
fn a_failed_detach_is_reported_and_keeps_what_was_found() {
    let mut mem = reading(1);
    mem.step(Event::RegionBytes(b"\x7fELF.app".to_vec()));
    mem.step(Event::RegionUnreadable);
    assert_eq!(mem.step(Event::RegionUnreadable), Action::Detach);
    assert_eq!(mem.step(Event::DetachFailed), Action::Finish);
    assert_eq!(mem.phase(), Phase::Released);
    assert!(mem.detach_failed());
    assert_eq!(mem.failure(), Some(Failure::Detach));
    assert_eq!(mem.strings(), &vec![text(0x400001, "ELF.app")]);
}

#[test]
fn a_failed_detach_does_not_hide_an_earlier_failure() {
    let mut mem = attached(1);
    mem.step(Event::MappingsUnreadable);
    assert_eq!(mem.step(Event::DetachFailed), Action::Finish);
    assert!(mem.detach_failed());
    assert_eq!(mem.failure(), Some(Failure::MappingRead));
}

#[test]
fn an_event_that_is_not_awaited_changes_nothing() {
    let mut mem = Mem::new(1);
    assert_eq!(mem.step(Event::Stopped), Action::Attach);
    assert_eq!(mem.step(Event::Mappings(TABLE.to_vec())), Action::Attach);
    assert_eq!(mem.step(Event::RegionBytes(b"text".to_vec())), Action::Attach);
    assert_eq!(mem.step(Event::Detached), Action::Attach);
    assert_eq!(mem.phase(), Phase::Detached);
    assert!(mem.mapping().is_empty());

    let mut mem = reading(1);
    assert_eq!(mem.step(Event::Attached), read(0x400000, 8));
    assert_eq!(mem.step(Event::Mappings(Vec::new())), read(0x400000, 8));
    assert_eq!(mem.step(Event::DetachFailed), read(0x400000, 8));
    assert_eq!(mem.mapping().len(), 6);
    assert!(!mem.detach_failed());
    assert_eq!(mem.failure(), None);

    let mut mem = Mem::new(1);
    mem.step(Event::AttachFailed);
    assert_eq!(mem.step(Event::Attached), Action::Finish);
    assert_eq!(mem.step(Event::Detached), Action::Finish);
    assert_eq!(mem.failure(), Some(Failure::Attach));
}

#[test]
fn the_table_and_the_bytes_can_be_handed_over_without_an_event() {
    let mut mem = attached(9);
    mem.read_mapping(Some(TABLE));
    assert_eq!(mem.action(), read(0x400000, 8));
    mem.read_memory(Some(b"\x00strings"));
    assert_eq!(mem.action(), read(0x800000, 8));
    mem.read_memory(None);
    assert_eq!(mem.action(), read(0xa00000, 6));
    assert_eq!(mem.strings(), &vec![text(0x400001, "strings")]);

    let mut idle = Mem::new(9);
    idle.read_mapping(Some(TABLE));
    idle.read_memory(Some(b"\x00strings"));
    assert_eq!(idle.action(), Action::Attach);
    assert!(idle.mapping().is_empty());
    assert!(idle.strings().is_empty());
}

#[test]
fn another_target_can_be_named_before_and_after_a_snapshot_only() {
    let mut mem = Mem::new(0);
    mem.set_pid(31337);
    assert_eq!(mem.pid(), 31337);
    assert_eq!(mem.action(), Action::Attach);

    let mut mem = reading(5);
    mem.set_pid(6);
    assert_eq!(mem.pid(), 5);
    assert_eq!(mem.action(), read(0x400000, 8));

    mem.step(Event::RegionBytes(b"\x7fELF.app".to_vec()));
    mem.step(Event::RegionUnreadable);
    mem.step(Event::RegionUnreadable);
    mem.step(Event::DetachFailed);
    assert_eq!(mem.phase(), Phase::Released);
    mem.set_pid(6);
    assert_eq!(mem.pid(), 6);
    assert_eq!(mem.phase(), Phase::Detached);
    assert_eq!(mem.action(), Action::Attach);
    assert_eq!(mem.failure(), None);
    assert!(!mem.detach_failed());
    assert!(mem.mapping().is_empty());
    assert!(mem.strings().is_empty());
}
