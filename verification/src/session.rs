//! One snapshot of a target process, as a state machine.
//!
//! The library decides; its caller acts. [`Mem::action`] names the one thing to
//! do next (attach, wait for the stop, read the mapping table, read a region,
//! detach), and [`Mem::step`] takes what came of it. The target is suspended
//! from the moment its stop was awaited until the detach, and every way out of
//! that span leads through the detach.

use crate::extract::{ExtractedString, StringView};
use crate::parse::{parse_mappings, table_of, MappingError};
use crate::pod::{decode_slice, decode_value, element_bytes, Pod};
use crate::reader::{
    is_excluded_path,
    is_selected,
    request_of,
    scan_of,
    scan_region,
    selected,
    ReadRequest,
};
use crate::region::{MemoryRegion, RegionView};
use vstd::prelude::*;

verus! {

/// Where a snapshot stands.
#[derive(Clone, Copy, Debug, PartialEq, Eq, Structural)]
pub enum Phase {
    /// Nothing has been asked of the target yet.
    Detached,
    /// The attach was granted; the target's stop has not been seen yet.
    Attaching,
    /// The target is stopped; its mapping table has not been read yet.
    Attached,
    /// The target is stopped and a region's bytes are awaited.
    Reading,
    /// The target is to be resumed.
    Detaching,
    /// The snapshot is over and the target is no longer held, or never was.
    Released,
}

/// What the caller is to do next.
#[derive(Clone, Copy, Debug, PartialEq, Eq, Structural)]
pub enum Action {
    /// Ask the operating system to attach to the target.
    Attach,
    /// Wait until the operating system reports the target's state.
    AwaitStop,
    /// Read the target's mapping table.
    ReadMappings,
    /// Read these bytes of the target's memory image.
    ReadRegion(ReadRequest),
    /// Resume the target.
    Detach,
    /// Nothing: the snapshot is over.
    Finish,
}

/// What came of the action that was last asked for.
#[derive(Debug)]
pub enum Event {
    /// The attach was granted.
    Attached,
    /// The attach was refused.
    AttachFailed,
    /// The target is reported stopped.
    Stopped,
    /// The target is reported in another state than stopped.
    NotStopped,
    /// Waiting for the target failed.
    WaitFailed,
    /// The text of the mapping table.
    Mappings(Vec<u8>),
    /// The mapping table could not be read.
    MappingsUnreadable,
    /// The bytes that the read of a region brought.
    RegionBytes(Vec<u8>),
    /// The read of a region failed.
    RegionUnreadable,
    /// The target was resumed.
    Detached,
    /// The target could not be resumed.
    DetachFailed,
}

/// The mathematical value of an [`Event`].
pub enum EventView {
    Attached,
    AttachFailed,
    Stopped,
    NotStopped,
    WaitFailed,
    Mappings(Seq<u8>),
    MappingsUnreadable,
    RegionBytes(Seq<u8>),
    RegionUnreadable,
    Detached,
    DetachFailed,
}

impl View for Event {
    type V = EventView;

    open spec fn view(&self) -> EventView {
        match self {
            Event::Attached => EventView::Attached,
            Event::AttachFailed => EventView::AttachFailed,
            Event::Stopped => EventView::Stopped,
            Event::NotStopped => EventView::NotStopped,
            Event::WaitFailed => EventView::WaitFailed,
            Event::Mappings(text) => EventView::Mappings(text@),
            Event::MappingsUnreadable => EventView::MappingsUnreadable,
            Event::RegionBytes(bytes) => EventView::RegionBytes(bytes@),
            Event::RegionUnreadable => EventView::RegionUnreadable,
            Event::Detached => EventView::Detached,
            Event::DetachFailed => EventView::DetachFailed,
        }
    }
}

/// Why a snapshot did not run to its end.
#[derive(Clone, Copy, Debug, PartialEq, Eq, Structural)]
pub enum Failure {
    /// The target could not be attached to.
    Attach,
    /// Waiting for the target's stop failed.
    Wait,
    /// The mapping table could not be read.
    MappingRead,
    /// The mapping table holds a line without an address range.
    MappingParse(MappingError),
    /// The target could not be resumed.
    Detach,
}

/// The mathematical value of a [`Mem`].
pub struct MemView {
    /// The target.
    pub pid: i32,
    pub phase: Phase,
    /// The regions of the mapping table, in its order; empty until it is read.
    pub regions: Seq<RegionView>,
    /// While reading: the index of the region whose bytes are awaited.
    pub cursor: int,
    /// The strings found so far, in the order of the regions.
    pub strings: Seq<StringView>,
    /// The first thing that went wrong, if anything did.
    pub failure: Option<Failure>,
    /// Whether the target was reported in another state than stopped.
    pub not_stopped: bool,
    /// Whether the detach failed, so that the target may still be suspended.
    pub detach_failed: bool,
}

/// The index of the first selected region at or after `from`, or the number
/// of regions where there is none.
pub open spec fn next_selected(regions: Seq<RegionView>, from: int) -> int
    decreases regions.len() - from,
{
    if from < 0 || from >= regions.len() {
        regions.len() as int
    } else if is_selected(regions[from]) {
        from
    } else {
        next_selected(regions, from + 1)
    }
}

impl MemView {
    /// A snapshot of `pid` that has not begun.
    pub open spec fn start(pid: i32) -> MemView {
        MemView {
            pid,
            phase: Phase::Detached,
            regions: Seq::empty(),
            cursor: 0,
            strings: Seq::empty(),
            failure: None,
            not_stopped: false,
            detach_failed: false,
        }
    }

    /// What holds of every snapshot: a region whose bytes are awaited exists
    /// and is selected, and before the target is stopped nothing has been
    /// read or found.
    pub open spec fn wf(self) -> bool {
        &&& self.phase == Phase::Reading ==> 0 <= self.cursor < self.regions.len() && is_selected(
            self.regions[self.cursor],
        )
        &&& (self.phase == Phase::Detached || self.phase == Phase::Attaching || self.phase
            == Phase::Attached) ==> self.regions.len() == 0 && self.strings.len() == 0
            && self.failure is None && !self.not_stopped && !self.detach_failed
        &&& self.phase == Phase::Reading ==> self.failure is None && !self.not_stopped
            && !self.detach_failed
        &&& self.phase == Phase::Detaching ==> !self.detach_failed
        &&& self.detach_failed ==> self.failure is Some
    }

    /// What the caller is to do in this state.
    pub open spec fn action(self) -> Action {
        match self.phase {
            Phase::Detached => Action::Attach,
            Phase::Attaching => Action::AwaitStop,
            Phase::Attached => Action::ReadMappings,
            Phase::Reading => Action::ReadRegion(
                ReadRequest {
                    start: self.regions[self.cursor].start,
                    len: (self.regions[self.cursor].end - self.regions[self.cursor].start) as u64,
                },
            ),
            Phase::Detaching => Action::Detach,
            Phase::Released => Action::Finish,
        }
    }

    /// The state with the cursor on the first selected region at or after
    /// `from`: reading it, or detaching where no region is left.
    pub open spec fn seek(self, from: int) -> MemView {
        let cursor = next_selected(self.regions, from);
        MemView {
            cursor,
            phase: if cursor < self.regions.len() {
                Phase::Reading
            } else {
                Phase::Detaching
            },
            ..self
        }
    }

    /// The state after another target was named: a snapshot that has not
    /// begun, or is over, starts afresh for `pid`; one that is under way stays
    /// as it is.
    pub open spec fn retarget(self, pid: i32) -> MemView {
        if self.phase == Phase::Detached || self.phase == Phase::Released {
            MemView::start(pid)
        } else {
            self
        }
    }

    /// The state after the table was read (`Some`) or could not be
    /// (`None`), in a state that awaits it; any other state stays as it is.
    pub open spec fn with_mapping(self, table: Option<Seq<u8>>) -> MemView {
        if self.phase != Phase::Attached {
            self
        } else {
            match table {
                None => MemView {
                    phase: Phase::Detaching,
                    failure: Some(Failure::MappingRead),
                    ..self
                },
                Some(text) => match table_of(text) {
                    Err(e) => MemView {
                        phase: Phase::Detaching,
                        failure: Some(Failure::MappingParse(e)),
                        ..self
                    },
                    Ok(regions) => MemView { regions, ..self }.seek(0),
                },
            }
        }
    }

    /// The state after a region's read brought `data` (`None`: it failed), in
    /// a state that awaits it; any other state stays as it is. Whatever the
    /// read brought, the scan goes on with the next selected region.
    pub open spec fn with_memory(self, data: Option<Seq<u8>>) -> MemView {
        if self.phase != Phase::Reading {
            self
        } else {
            MemView {
                strings: self.strings + scan_of(request_of(self.regions[self.cursor])->0, data),
                ..self
            }.seek(self.cursor + 1)
        }
    }

    /// The state after `event`. An event that the state does not await changes
    /// nothing.
    pub open spec fn step(self, event: EventView) -> MemView {
        match (self.phase, event) {
            (Phase::Detached, EventView::Attached) => MemView { phase: Phase::Attaching, ..self },
            (Phase::Detached, EventView::AttachFailed) => MemView {
                phase: Phase::Released,
                failure: Some(Failure::Attach),
                ..self
            },
            (Phase::Attaching, EventView::Stopped) => MemView { phase: Phase::Attached, ..self },
            (Phase::Attaching, EventView::NotStopped) => MemView {
                phase: Phase::Detaching,
                not_stopped: true,
                ..self
            },
            (Phase::Attaching, EventView::WaitFailed) => MemView {
                phase: Phase::Detaching,
                failure: Some(Failure::Wait),
                ..self
            },
            (Phase::Attached, EventView::Mappings(text)) => self.with_mapping(Some(text)),
            (Phase::Attached, EventView::MappingsUnreadable) => self.with_mapping(None),
            (Phase::Reading, EventView::RegionBytes(bytes)) => self.with_memory(Some(bytes)),
            (Phase::Reading, EventView::RegionUnreadable) => self.with_memory(None),
            (Phase::Detaching, EventView::Detached) => MemView { phase: Phase::Released, ..self },
            (Phase::Detaching, EventView::DetachFailed) => MemView {
                phase: Phase::Released,
                detach_failed: true,
                failure: match self.failure {
                    Some(f) => Some(f),
                    None => Some(Failure::Detach),
                },
                ..self
            },
            _ => self,
        }
    }
}

/// [`next_selected`] lands on a selected region or past the last one, and
/// passes over none that is selected.
pub proof fn lemma_next_selected(regions: Seq<RegionView>, from: int)
    requires
        0 <= from <= regions.len(),
    ensures
        from <= next_selected(regions, from) <= regions.len(),
        next_selected(regions, from) < regions.len() ==> is_selected(
            regions[next_selected(regions, from)],
        ),
        forall|j: int| from <= j < next_selected(regions, from) ==> !is_selected(regions[j]),
    decreases regions.len() - from,
{
    if from < regions.len() && !is_selected(regions[from]) {
        lemma_next_selected(regions, from + 1);
    }
}

/// The state that `events`, taken in order, lead to from `m`.
pub open spec fn run(m: MemView, events: Seq<EventView>) -> MemView
    decreases events.len(),
{
    if events.len() == 0 {
        m
    } else {
        run(m, events.drop_last()).step(events.last())
    }
}

/// Every step keeps a snapshot well formed.
pub proof fn lemma_step_keeps_wf(m: MemView, event: EventView)
    requires
        m.wf(),
    ensures
        m.step(event).wf(),
{
    match (m.phase, event) {
        (Phase::Attached, EventView::Mappings(text)) => {
            match table_of(text) {
                Ok(regions) => {
                    lemma_next_selected(regions, 0);
                },
                Err(_) => {},
            }
        },
        (Phase::Reading, EventView::RegionBytes(_)) => {
            lemma_next_selected(m.regions, m.cursor + 1);
        },
        (Phase::Reading, EventView::RegionUnreadable) => {
            lemma_next_selected(m.regions, m.cursor + 1);
        },
        _ => {},
    }
}

/// Whatever events arrive, and in whatever order, a snapshot that began
/// afresh is well formed.
pub proof fn lemma_run_keeps_wf(pid: i32, events: Seq<EventView>)
    ensures
        run(MemView::start(pid), events).wf(),
    decreases events.len(),
{
    if events.len() > 0 {
        lemma_run_keeps_wf(pid, events.drop_last());
        lemma_step_keeps_wf(run(MemView::start(pid), events.drop_last()), events.last());
    }
}

/// Only selected regions are ever asked for. Whatever events arrive, a read
/// that the snapshot asks for is the read of a region of the table that is
/// readable, has a range that is not empty, and has no backing path under the
/// excluded location; and it covers that region's range exactly.
pub proof fn lemma_only_selected_regions_are_read(pid: i32, events: Seq<EventView>)
    ensures
        ({
            let m = run(MemView::start(pid), events);
            match m.action() {
                Action::ReadRegion(request) => {
                    &&& 0 <= m.cursor < m.regions.len()
                    &&& m.regions[m.cursor].readable
                    &&& m.regions[m.cursor].start < m.regions[m.cursor].end
                    &&& match m.regions[m.cursor].backing_path {
                        Some(path) => !is_excluded_path(path),
                        None => true,
                    }
                    &&& request.start == m.regions[m.cursor].start
                    &&& request.start + request.len == m.regions[m.cursor].end
                },
                _ => true,
            }
        }),
{
    lemma_run_keeps_wf(pid, events);
}

/// A read that fails is lost alone. Where a region's bytes are awaited, a
/// failed read leaves the strings found so far as they are, sets no failure,
/// and leads to the same next region, or to the detach, as a read that brought
/// bytes would have; the strings found so far also stay in front of whatever
/// a successful read adds.
pub proof fn lemma_failed_read_is_isolated(m: MemView, bytes: Seq<u8>)
    requires
        m.wf(),
        m.phase == Phase::Reading,
    ensures
        m.step(EventView::RegionUnreadable).strings == m.strings,
        m.step(EventView::RegionUnreadable).failure is None,
        m.step(EventView::RegionUnreadable).regions == m.regions,
        m.step(EventView::RegionUnreadable).phase == m.step(EventView::RegionBytes(bytes)).phase,
        m.step(EventView::RegionUnreadable).cursor == m.step(EventView::RegionBytes(bytes)).cursor,
        m.step(EventView::RegionUnreadable).action() == m.step(
            EventView::RegionBytes(bytes),
        ).action(),
        m.step(EventView::RegionUnreadable).cursor == next_selected(m.regions, m.cursor + 1),
        m.strings.is_prefix_of(m.step(EventView::RegionBytes(bytes)).strings),
{
    let request = request_of(m.regions[m.cursor])->0;
    assert(m.strings + scan_of(request, None) =~= m.strings);
    let added = scan_of(request, Some(bytes));
    assert((m.strings + added).subrange(0, m.strings.len() as int) =~= m.strings);
}

/// The event that stands for what a region's read brought.
pub open spec fn read_event(read: Option<Seq<u8>>) -> EventView {
    match read {
        Some(bytes) => EventView::RegionBytes(bytes),
        None => EventView::RegionUnreadable,
    }
}

/// The state after the reads of regions brought `reads`, one after the other.
pub open spec fn feed(m: MemView, reads: Seq<Option<Seq<u8>>>) -> MemView
    decreases reads.len(),
{
    if reads.len() == 0 {
        m
    } else {
        feed(m.step(read_event(reads[0])), reads.skip(1))
    }
}

/// Number of selected regions at or after index `from`.
pub open spec fn selected_from(regions: Seq<RegionView>, from: int) -> nat
    decreases regions.len() - from,
{
    if from < 0 || from >= regions.len() {
        0
    } else if is_selected(regions[from]) {
        1 + selected_from(regions, from + 1)
    } else {
        selected_from(regions, from + 1)
    }
}

/// The strings of the regions at or after index `from`, where `reads` holds
/// what the read of each selected one of them brought, in their order: each
/// selected region gives the strings of its own read, and nothing else does.
pub open spec fn found_from(
    regions: Seq<RegionView>,
    from: int,
    reads: Seq<Option<Seq<u8>>>,
) -> Seq<StringView>
    decreases regions.len() - from,
{
    if from < 0 || from >= regions.len() || reads.len() == 0 {
        Seq::empty()
    } else if is_selected(regions[from]) {
        scan_of(request_of(regions[from])->0, reads[0]) + found_from(
            regions,
            from + 1,
            reads.skip(1),
        )
    } else {
        found_from(regions, from + 1, reads)
    }
}

/// Regions that are not selected count for nothing: neither among the
/// selected nor for the strings.
proof fn lemma_unselected_count_for_nothing(
    regions: Seq<RegionView>,
    from: int,
    reads: Seq<Option<Seq<u8>>>,
)
    requires
        0 <= from <= regions.len(),
    ensures
        selected_from(regions, from) == selected_from(regions, next_selected(regions, from)),
        found_from(regions, from, reads) == found_from(
            regions,
            next_selected(regions, from),
            reads,
        ),
    decreases regions.len() - from,
{
    if from < regions.len() && !is_selected(regions[from]) {
        lemma_unselected_count_for_nothing(regions, from + 1, reads);
    }
}

/// A scan goes through every selected region, whatever its reads bring. From
/// a state that awaits a region, once every selected region from there on has
/// had its read, failed or not, the detach is asked for, no failure is set,
/// and the strings found are those that were there before, followed by the
/// strings of each read in the order of the regions: a read that failed takes
/// away its own strings and nothing else.
pub proof fn lemma_scan_reaches_every_selected_region(m: MemView, reads: Seq<Option<Seq<u8>>>)
    requires
        m.wf(),
        m.phase == Phase::Reading,
        reads.len() == selected_from(m.regions, m.cursor),
    ensures
        feed(m, reads).phase == Phase::Detaching,
        feed(m, reads).action() == Action::Detach,
        feed(m, reads).failure is None,
        feed(m, reads).regions == m.regions,
        feed(m, reads).strings == m.strings + found_from(m.regions, m.cursor, reads),
    decreases reads.len(),
{
    let next = m.step(read_event(reads[0]));
    let rest = reads.skip(1);
    let own = scan_of(request_of(m.regions[m.cursor])->0, reads[0]);
    lemma_step_keeps_wf(m, read_event(reads[0]));
    lemma_next_selected(m.regions, m.cursor + 1);
    lemma_unselected_count_for_nothing(m.regions, m.cursor + 1, rest);
    assert(next.cursor == next_selected(m.regions, m.cursor + 1));
    assert(next.strings == m.strings + own);
    if next.cursor < m.regions.len() {
        lemma_scan_reaches_every_selected_region(next, rest);
        assert(m.strings + own + found_from(m.regions, next.cursor, rest) =~= m.strings + (own
            + found_from(m.regions, next.cursor, rest)));
    } else {
        assert(rest.len() == 0);
        assert(feed(next, rest) == next);
        assert(m.strings + own =~= m.strings + (own + Seq::<StringView>::empty()));
    }
}

/// The target is let go only through a detach. A step ends a snapshot either
/// because the attach was refused, so that the target was never held, or
/// because the detach was performed.
pub proof fn lemma_release_follows_detach(m: MemView, event: EventView)
    requires
        m.phase != Phase::Released,
        m.step(event).phase == Phase::Released,
    ensures
        (m.phase == Phase::Detached && event == EventView::AttachFailed) || (m.phase
            == Phase::Detaching && (event == EventView::Detached || event
            == EventView::DetachFailed)),
{
}

/// Trouble after the attach was granted leads straight to the detach. Where
/// a step leaves a failure behind, or finds the target in another state than
/// stopped, the very next thing that is asked for is the detach: no table and
/// no memory is read in between.
pub proof fn lemma_trouble_leads_to_detach(m: MemView, event: EventView)
    requires
        m.wf(),
        m.phase == Phase::Attaching || m.phase == Phase::Attached || m.phase == Phase::Reading,
        m.step(event).failure is Some || m.step(event).not_stopped,
    ensures
        m.step(event).action() == Action::Detach,
{
    if m.phase == Phase::Reading {
        lemma_next_selected(m.regions, m.cursor + 1);
    }
}

/// Memory is read only while the target is stopped. Whatever events arrive,
/// a snapshot asks for the mapping table or for a region only after it was
/// told that the attach was granted and that the target is stopped.
pub proof fn lemma_reads_need_stop(pid: i32, events: Seq<EventView>)
    ensures
        ({
            let m = run(MemView::start(pid), events);
            m.phase == Phase::Attached || m.phase == Phase::Reading ==> events.contains(
                EventView::Attached,
            ) && events.contains(EventView::Stopped)
        }),
        ({
            let m = run(MemView::start(pid), events);
            m.phase == Phase::Attaching ==> events.contains(EventView::Attached)
        }),
    decreases events.len(),
{
    if events.len() > 0 {
        let before = events.drop_last();
        let last = events.last();
        lemma_reads_need_stop(pid, before);
        lemma_run_keeps_wf(pid, before);
        let prev = run(MemView::start(pid), before);
        let m = prev.step(last);
        assert(events[events.len() - 1] == last);
        assert forall|e: EventView| before.contains(e) implies events.contains(e) by {
            let i = choose|i: int| 0 <= i < before.len() && before[i] == e;
            assert(events[i] == e);
        }
        match (prev.phase, last) {
            (Phase::Attached, EventView::Mappings(text)) => {
                match table_of(text) {
                    Ok(regions) => {
                        lemma_next_selected(regions, 0);
                    },
                    Err(_) => {},
                }
            },
            (Phase::Reading, EventView::RegionBytes(_)) => {
                lemma_next_selected(prev.regions, prev.cursor + 1);
            },
            (Phase::Reading, EventView::RegionUnreadable) => {
                lemma_next_selected(prev.regions, prev.cursor + 1);
            },
            _ => {},
        }
    }
}

/// A snapshot of one target process.
#[derive(Debug)]
pub struct Mem {
    pid: i32,
    phase: Phase,
    mapping: Vec<MemoryRegion>,
    cursor: usize,
    found: Vec<ExtractedString>,
    failure: Option<Failure>,
    not_stopped: bool,
    detach_failed: bool,
}

impl View for Mem {
    type V = MemView;

    closed spec fn view(&self) -> MemView {
        MemView {
            pid: self.pid,
            phase: self.phase,
            regions: self.mapping.deep_view(),
            cursor: self.cursor as int,
            strings: self.found.deep_view(),
            failure: self.failure,
            not_stopped: self.not_stopped,
            detach_failed: self.detach_failed,
        }
    }
}

impl Mem {
    #[verifier::type_invariant]
    spec fn inv(self) -> bool {
        self@.wf()
    }

    /// A snapshot of `pid` that has not begun.
    pub fn new(pid: i32) -> (mem: Mem)
        ensures
            mem@ == MemView::start(pid),
            mem@.wf(),
    {
        let mem = Mem {
            pid,
            phase: Phase::Detached,
            mapping: Vec::new(),
            cursor: 0,
            found: Vec::new(),
            failure: None,
            not_stopped: false,
            detach_failed: false,
        };
        assert(mem.mapping.deep_view() =~= Seq::<RegionView>::empty());
        assert(mem.found.deep_view() =~= Seq::<StringView>::empty());
        mem
    }

    /// The target.
    pub fn pid(&self) -> (pid: i32)
        ensures
            pid == self@.pid,
    {
        self.pid
    }

    /// Where the snapshot stands.
    pub fn phase(&self) -> (phase: Phase)
        ensures
            phase == self@.phase,
    {
        self.phase
    }

    /// What the caller is to do next.
    pub fn action(&self) -> (action: Action)
        ensures
            self@.wf(),
            action == self@.action(),
    {
        proof {
            use_type_invariant(self);
        }
        match self.phase {
            Phase::Detached => Action::Attach,
            Phase::Attaching => Action::AwaitStop,
            Phase::Attached => Action::ReadMappings,
            Phase::Reading => {
                let region = &self.mapping[self.cursor];
                Action::ReadRegion(
                    ReadRequest { start: region.start, len: region.end - region.start },
                )
            },
            Phase::Detaching => Action::Detach,
            Phase::Released => Action::Finish,
        }
    }

    /// The first thing that went wrong, if anything did.
    pub fn failure(&self) -> (failure: Option<Failure>)
        ensures
            failure == self@.failure,
    {
        self.failure
    }

    /// Whether the target was reported in another state than stopped, so that
    /// nothing was read.
    pub fn not_stopped(&self) -> (r: bool)
        ensures
            r == self@.not_stopped,
    {
        self.not_stopped
    }

    /// Whether the detach failed, so that the target may still be suspended.
    pub fn detach_failed(&self) -> (r: bool)
        ensures
            r == self@.detach_failed,
    {
        self.detach_failed
    }

    /// The regions of the mapping table, in its order; empty until it is read.
    pub fn mapping(&self) -> (regions: &Vec<MemoryRegion>)
        ensures
            regions.deep_view() == self@.regions,
    {
        &self.mapping
    }

    /// The strings found so far, in the order of the regions.
    pub fn strings(&self) -> (strings: &Vec<ExtractedString>)
        ensures
            strings.deep_view() == self@.strings,
    {
        &self.found
    }

    /// The region whose bytes are awaited, while one is.
    pub fn current_region(&self) -> (region: Option<&MemoryRegion>)
        ensures
            self@.phase == Phase::Reading ==> region is Some && region->0@
                == self@.regions[self@.cursor],
            self@.phase != Phase::Reading ==> region is None,
    {
        proof {
            use_type_invariant(self);
        }
        match self.phase {
            Phase::Reading => Some(&self.mapping[self.cursor]),
            _ => None,
        }
    }

    /// Turns the bytes that a read of one value brought into the value.
    /// `None` where `data` has another length than the value occupies.
    pub fn read_mem<T: Pod>(data: &[u8]) -> (value: Option<T>)
        ensures
            data@.len() == T::width() ==> value == Some(T::from_le(data@)),
            data@.len() != T::width() ==> value is None,
    {
        decode_value::<T>(data)
    }

    /// Turns the bytes that a read of `num_elems` values brought into the
    /// values, in their order. `None` where `data` has another length than
    /// `num_elems` values occupy: no part of a short buffer is used.
    pub fn read_mem_slice<T: Pod>(data: &[u8], num_elems: usize) -> (values: Option<Vec<T>>)
        ensures
            data@.len() == num_elems * T::width() ==> values is Some && values->0@.len()
                == num_elems && forall|i: int|
                0 <= i < num_elems ==> #[trigger] values->0@[i] == T::from_le(
                    element_bytes(data@, T::width(), i),
                ),
            data@.len() != num_elems * T::width() ==> values is None,
    {
        decode_slice::<T>(data, num_elems)
    }

    /// Names another target. A snapshot that has not begun, or is over, starts
    /// afresh for `pid`; one that is under way keeps its target and is left as
    /// it is.
    pub fn set_pid(&mut self, pid: i32)
        ensures
            final(self)@.wf(),
            final(self)@ == old(self)@.retarget(pid),
    {
        proof {
            use_type_invariant(&*self);
        }
        match self.phase {
            Phase::Detached | Phase::Released => {
                self.detach_failed = false;
                self.failure = None;
                self.not_stopped = false;
                self.mapping = Vec::new();
                self.found = Vec::new();
                self.cursor = 0;
                self.pid = pid;
                assert(self.mapping.deep_view() =~= Seq::<RegionView>::empty());
                assert(self.found.deep_view() =~= Seq::<StringView>::empty());
                self.phase = Phase::Detached;
            },
            _ => {},
        }
    }

    /// Moves on to the first selected region at or after `from`, or to the
    /// detach where none is left.
    fn seek(&mut self, from: usize)
        requires
            old(self).phase == Phase::Detaching,
            old(self).failure is None,
            !old(self).not_stopped,
            from <= old(self).mapping@.len(),
        ensures
            final(self)@ == old(self)@.seek(from as int),
    {
        proof {
            use_type_invariant(&*self);
        }
        let n: usize = self.mapping.len();
        let mut k: usize = from;
        while k < n && !selected(&self.mapping[k])
            invariant
                n == self.mapping@.len(),
                from <= k <= n,
                next_selected(self.mapping.deep_view(), from as int) == next_selected(
                    self.mapping.deep_view(),
                    k as int,
                ),
            decreases n - k,
        {
            k = k + 1;
        }
        self.cursor = k;
        if k < n {
            self.phase = Phase::Reading;
        }
    }

    /// Takes the mapping table (`None`: it could not be read). Where the
    /// table is awaited, its regions are kept and the scan moves to the first
    /// region to read; a table that is unreadable or malformed ends the
    /// snapshot with a detach. In any other state nothing changes.
    pub fn read_mapping(&mut self, table: Option<&[u8]>)
        ensures
            final(self)@.wf(),
            final(self)@ == old(self)@.with_mapping(
                match table {
                    Some(text) => Some(text@),
                    None => None,
                },
            ),
    {
        proof {
            use_type_invariant(&*self);
        }
        match self.phase {
            Phase::Attached => {},
            _ => {
                return ;
            },
        }
        self.phase = Phase::Detaching;
        match table {
            None => {
                self.failure = Some(Failure::MappingRead);
            },
            Some(text) => match parse_mappings(text) {
                Err(e) => {
                    self.failure = Some(Failure::MappingParse(e));
                },
                Ok(regions) => {
                    self.mapping = regions;
                    proof {
                        lemma_next_selected(self.mapping.deep_view(), 0);
                    }
                    self.seek(0);
                },
            },
        }
    }

    /// Takes what the read of the awaited region brought (`None`: it
    /// failed). The strings of a complete buffer are added to those found; a
    /// failed or short read adds none. Either way the scan moves to the next
    /// region to read, or to the detach after the last. In a state that
    /// awaits no region nothing changes.
    pub fn read_memory(&mut self, data: Option<&[u8]>)
        ensures
            final(self)@.wf(),
            final(self)@ == old(self)@.with_memory(
                match data {
                    Some(bytes) => Some(bytes@),
                    None => None,
                },
            ),
    {
        proof {
            use_type_invariant(&*self);
        }
        match self.phase {
            Phase::Reading => {},
            _ => {
                return ;
            },
        }
        let k: usize = self.cursor;
        let n: usize = self.mapping.len();
        assert(k < n);
        let request: ReadRequest = ReadRequest {
            start: self.mapping[k].start,
            len: self.mapping[k].end - self.mapping[k].start,
        };
        self.phase = Phase::Detaching;
        let mut found: Vec<ExtractedString> = Vec::new();
        core::mem::swap(&mut self.found, &mut found);
        scan_region(&mut found, request, data);
        self.found = found;
        proof {
            lemma_next_selected(self.mapping.deep_view(), k + 1);
        }
        self.seek(k + 1);
    }

    /// Takes what came of the action that was last asked for, and returns the
    /// action to perform next. An event that the state does not await changes
    /// nothing, and the same action is asked for again.
    pub fn step(&mut self, event: Event) -> (action: Action)
        ensures
            final(self)@.wf(),
            final(self)@ == old(self)@.step(event@),
            action == final(self)@.action(),
    {
        proof {
            use_type_invariant(&*self);
        }
        match event {
            Event::Attached => {
                if self.phase == Phase::Detached {
                    self.phase = Phase::Attaching;
                }
            },
            Event::AttachFailed => {
                if self.phase == Phase::Detached {
                    self.phase = Phase::Released;
                    self.failure = Some(Failure::Attach);
                }
            },
            Event::Stopped => {
                if self.phase == Phase::Attaching {
                    self.phase = Phase::Attached;
                }
            },
            Event::NotStopped => {
                if self.phase == Phase::Attaching {
                    self.phase = Phase::Detaching;
                    self.not_stopped = true;
                }
            },
            Event::WaitFailed => {
                if self.phase == Phase::Attaching {
                    self.phase = Phase::Detaching;
                    self.failure = Some(Failure::Wait);
                }
            },
            Event::Mappings(text) => {
                self.read_mapping(Some(text.as_slice()));
            },
            Event::MappingsUnreadable => {
                self.read_mapping(None);
            },
            Event::RegionBytes(bytes) => {
                self.read_memory(Some(bytes.as_slice()));
            },
            Event::RegionUnreadable => {
                self.read_memory(None);
            },
            Event::Detached => {
                if self.phase == Phase::Detaching {
                    self.phase = Phase::Released;
                }
            },
            Event::DetachFailed => {
                if self.phase == Phase::Detaching {
                    if self.failure.is_none() {
                        self.failure = Some(Failure::Detach);
                    }
                    self.phase = Phase::Released;
                    self.detach_failed = true;
                }
            },
        }
        self.action()
    }
}

} // verus!
