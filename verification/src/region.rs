//! One entry of a process's mapping table, and its permission flags.

use vstd::prelude::*;

verus! {

/// `r`: the first position of a permission field where the region can be read.
pub const MARK_READ: u8 = 0x72;

/// `w`: the second position where the region can be written.
pub const MARK_WRITE: u8 = 0x77;

/// `x`: the third position where the region can be executed.
pub const MARK_EXECUTE: u8 = 0x78;

/// `p`: the fourth position of a private (copy-on-write) mapping.
pub const MARK_PRIVATE: u8 = 0x70;

/// `s`: the fourth position of a shared mapping.
pub const MARK_SHARED: u8 = 0x73;

/// `-`: any position whose flag is not set.
pub const MARK_UNSET: u8 = 0x2d;

/// The five flags that a four-character permission field encodes.
#[derive(Clone, Copy, Debug, PartialEq, Eq, Structural)]
pub struct Permissions {
    pub readable: bool,
    pub writable: bool,
    pub executable: bool,
    pub private: bool,
    pub shared: bool,
}

/// One contiguous range of a target's virtual addresses with uniform
/// permissions and backing.
///
/// Device, inode and path are kept as the bytes that the table holds: a path
/// on disk need not be valid text.
#[derive(Clone, Debug, PartialEq, Eq)]
pub struct MemoryRegion {
    /// First address of the range.
    pub start: u64,
    /// First address past the range.
    pub end: u64,
    pub readable: bool,
    pub writable: bool,
    pub executable: bool,
    pub private: bool,
    pub shared: bool,
    /// Offset into the backing file; zero for an anonymous region.
    pub file_offset: u64,
    /// `major:minor` of the backing device, not interpreted.
    pub device_id: Vec<u8>,
    /// Identity of the backing file, not interpreted; empty where the table
    /// gives none.
    pub inode: Vec<u8>,
    /// Path of the backing file or a pseudo-path such as `[heap]`; `None`
    /// for an anonymous region.
    pub backing_path: Option<Vec<u8>>,
}

/// The mathematical value of a [`MemoryRegion`].
pub struct RegionView {
    pub start: u64,
    pub end: u64,
    pub readable: bool,
    pub writable: bool,
    pub executable: bool,
    pub private: bool,
    pub shared: bool,
    pub file_offset: u64,
    pub device_id: Seq<u8>,
    pub inode: Seq<u8>,
    pub backing_path: Option<Seq<u8>>,
}

impl View for MemoryRegion {
    type V = RegionView;

    open spec fn view(&self) -> RegionView {
        RegionView {
            start: self.start,
            end: self.end,
            readable: self.readable,
            writable: self.writable,
            executable: self.executable,
            private: self.private,
            shared: self.shared,
            file_offset: self.file_offset,
            device_id: self.device_id@,
            inode: self.inode@,
            backing_path: match self.backing_path {
                Some(p) => Some(p@),
                None => None,
            },
        }
    }
}

impl DeepView for MemoryRegion {
    type V = RegionView;

    open spec fn deep_view(&self) -> RegionView {
        self@
    }
}

impl RegionView {
    /// The flags of the region, gathered.
    pub open spec fn permissions(self) -> Permissions {
        Permissions {
            readable: self.readable,
            writable: self.writable,
            executable: self.executable,
            private: self.private,
            shared: self.shared,
        }
    }

    /// A region as a well-formed table reports it: a non-empty range and
    /// exactly one sharing mode.
    pub open spec fn is_valid(self) -> bool {
        &&& self.start < self.end
        &&& self.private != self.shared
    }

    /// Number of bytes in the range; zero where the range is empty or inverted.
    pub open spec fn size(self) -> nat {
        if self.start < self.end {
            (self.end - self.start) as nat
        } else {
            0
        }
    }
}

/// No flag set: what a permission field of the wrong length stands for.
pub open spec fn no_permissions() -> Permissions {
    Permissions {
        readable: false,
        writable: false,
        executable: false,
        private: false,
        shared: false,
    }
}

/// The flags that a permission field encodes. Each flag is read from its own
/// position: `r`, `w`, `x` in the first three, `p` or `s` in the fourth. Any
/// other byte there leaves the flag unset, and a field that is not four bytes
/// long sets none.
pub open spec fn permissions_of(field: Seq<u8>) -> Permissions {
    if field.len() == 4 {
        Permissions {
            readable: field[0] == MARK_READ,
            writable: field[1] == MARK_WRITE,
            executable: field[2] == MARK_EXECUTE,
            private: field[3] == MARK_PRIVATE,
            shared: field[3] == MARK_SHARED,
        }
    } else {
        no_permissions()
    }
}

/// The four-character field for a set of flags: a letter where the flag is
/// set, `-` where it is not; in the fourth position `p` comes before `s`.
pub open spec fn permission_text_of(p: Permissions) -> Seq<u8> {
    seq![
        if p.readable { MARK_READ } else { MARK_UNSET },
        if p.writable { MARK_WRITE } else { MARK_UNSET },
        if p.executable { MARK_EXECUTE } else { MARK_UNSET },
        if p.private { MARK_PRIVATE } else if p.shared { MARK_SHARED } else { MARK_UNSET },
    ]
}

/// Derives the flags from a permission field.
pub fn parse_permissions(field: &[u8]) -> (p: Permissions)
    ensures
        p == permissions_of(field@),
{
    if field.len() == 4 {
        Permissions {
            readable: field[0] == MARK_READ,
            writable: field[1] == MARK_WRITE,
            executable: field[2] == MARK_EXECUTE,
            private: field[3] == MARK_PRIVATE,
            shared: field[3] == MARK_SHARED,
        }
    } else {
        Permissions {
            readable: false,
            writable: false,
            executable: false,
            private: false,
            shared: false,
        }
    }
}

/// Writes the flags as a four-character permission field.
pub fn permission_text(p: Permissions) -> (out: Vec<u8>)
    ensures
        out@ == permission_text_of(p),
{
    let mut out: Vec<u8> = Vec::new();
    out.push(if p.readable { MARK_READ } else { MARK_UNSET });
    out.push(if p.writable { MARK_WRITE } else { MARK_UNSET });
    out.push(if p.executable { MARK_EXECUTE } else { MARK_UNSET });
    out.push(if p.private { MARK_PRIVATE } else if p.shared { MARK_SHARED } else { MARK_UNSET });
    assert(out@ =~= permission_text_of(p));
    out
}

/// Each flag of a four-character field is decided by one position alone, and
/// by nothing but whether the letter of that flag stands there.
pub proof fn lemma_permissions_positional(field: Seq<u8>)
    requires
        field.len() == 4,
    ensures
        permissions_of(field).readable <==> field[0] == MARK_READ,
        permissions_of(field).writable <==> field[1] == MARK_WRITE,
        permissions_of(field).executable <==> field[2] == MARK_EXECUTE,
        permissions_of(field).private <==> field[3] == MARK_PRIVATE,
        permissions_of(field).shared <==> field[3] == MARK_SHARED,
        !(permissions_of(field).private && permissions_of(field).shared),
{
}

/// Reading back the field written for a set of flags gives the same flags,
/// provided that private and shared are not both set.
pub proof fn lemma_permissions_round_trip(p: Permissions)
    requires
        !(p.private && p.shared),
    ensures
        permissions_of(permission_text_of(p)) == p,
{
}

impl MemoryRegion {
    /// The flags of the region, gathered.
    pub fn permissions(&self) -> (p: Permissions)
        ensures
            p == self@.permissions(),
    {
        Permissions {
            readable: self.readable,
            writable: self.writable,
            executable: self.executable,
            private: self.private,
            shared: self.shared,
        }
    }

    /// Whether the range is non-empty and exactly one sharing mode is set.
    pub fn is_valid(&self) -> (r: bool)
        ensures
            r == self@.is_valid(),
    {
        self.start < self.end && self.private != self.shared
    }

    /// Number of bytes in the range; zero where the range is empty or inverted.
    pub fn size(&self) -> (n: u64)
        ensures
            n == self@.size(),
    {
        if self.start < self.end {
            self.end - self.start
        } else {
            0
        }
    }
}

} // verus!
