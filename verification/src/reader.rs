//! Which regions are read, how many bytes are asked for, and what becomes of
//! the bytes that come back.

use crate::extract::{extract_into, strings_of, ExtractedString, StringView};
use crate::region::{MemoryRegion, RegionView};
use vstd::prelude::*;

verus! {

/// Number of bytes in [`excluded_prefix`].
pub const EXCLUDED_PREFIX_LEN: usize = 4;

/// The path prefix of the system library location whose mappings are not
/// inspected: `/usr`.
pub open spec fn excluded_prefix() -> Seq<u8> {
    seq![0x2fu8, 0x75u8, 0x73u8, 0x72u8]
}

/// Whether a backing path lies under the excluded location, that is, starts
/// with the bytes of [`excluded_prefix`].
pub open spec fn is_excluded_path(path: Seq<u8>) -> bool {
    excluded_prefix().is_prefix_of(path)
}

/// Whether a region is read at all: it is readable, its range is not empty or
/// inverted, and its backing path, if it has one, is not excluded.
pub open spec fn is_selected(r: RegionView) -> bool {
    &&& r.readable
    &&& r.start < r.end
    &&& match r.backing_path {
        Some(path) => !is_excluded_path(path),
        None => true,
    }
}

/// One read of the target's memory image: `len` bytes, starting at `start`.
#[derive(Clone, Copy, Debug, PartialEq, Eq, Structural)]
pub struct ReadRequest {
    pub start: u64,
    pub len: u64,
}

/// The read that a region calls for: its whole range, from `start` up to
/// `end`, if the region is selected, and none otherwise.
pub open spec fn request_of(r: RegionView) -> Option<ReadRequest> {
    if is_selected(r) {
        Some(ReadRequest { start: r.start, len: (r.end - r.start) as u64 })
    } else {
        None
    }
}

/// The strings that a read yields. A read that failed (`None`) or that
/// brought another number of bytes than was asked for yields none: no part of
/// a short buffer is used.
pub open spec fn scan_of(request: ReadRequest, data: Option<Seq<u8>>) -> Seq<StringView> {
    match data {
        Some(bytes) => if bytes.len() == request.len {
            strings_of(request.start as int, bytes)
        } else {
            Seq::empty()
        },
        None => Seq::empty(),
    }
}

/// Whether `path` starts with the excluded prefix.
pub fn excluded_path(path: &[u8]) -> (r: bool)
    ensures
        r == is_excluded_path(path@),
{
    let r: bool = path.len() >= EXCLUDED_PREFIX_LEN && path[0] == 0x2f && path[1] == 0x75
        && path[2] == 0x73 && path[3] == 0x72;
    proof {
        let prefix = excluded_prefix();
        if r {
            assert(prefix =~= path@.subrange(0, 4));
        } else if path@.len() >= 4 {
            let head = path@.subrange(0, 4);
            assert(head[0] == path@[0] && head[1] == path@[1] && head[2] == path@[2] && head[3]
                == path@[3]);
        }
    }
    r
}

/// Whether `region` is read at all.
pub fn selected(region: &MemoryRegion) -> (r: bool)
    ensures
        r == is_selected(region@),
{
    if !region.readable || region.start >= region.end {
        return false;
    }
    match &region.backing_path {
        Some(path) => !excluded_path(path.as_slice()),
        None => true,
    }
}

/// The read that `region` calls for, if it is read at all.
pub fn read_request(region: &MemoryRegion) -> (request: Option<ReadRequest>)
    ensures
        request == request_of(region@),
{
    if selected(region) {
        Some(ReadRequest { start: region.start, len: region.end - region.start })
    } else {
        None
    }
}

/// Appends to `found` the strings in what a read brought back.
///
/// `data` is `None` where the read failed. A buffer is scanned only if it
/// holds exactly the bytes that were asked for; any other outcome leaves
/// `found` as it was.
pub fn scan_region(found: &mut Vec<ExtractedString>, request: ReadRequest, data: Option<&[u8]>)
    requires
        request.start + request.len <= u64::MAX,
    ensures
        final(found).deep_view() == old(found).deep_view() + scan_of(
            request,
            match data {
                Some(bytes) => Some(bytes@),
                None => None,
            },
        ),
{
    match data {
        Some(bytes) => {
            if bytes.len() as u64 == request.len {
                extract_into(found, request.start, bytes);
                return ;
            }
        },
        None => {},
    }
    assert(found.deep_view() + Seq::<StringView>::empty() =~= found.deep_view());
}

} // verus!
