//! A region written back as a line of a mapping table, with the proof that
//! reading the line gives the region again.

use crate::hex::{digit_value, hex_text, lemma_hex_round_trip, push_hex};
use crate::parse::{
    field_or_empty,
    fields,
    is_space,
    leading,
    lemma_leading_holds,
    lemma_leading_is,
    lemma_range_round_trip,
    range_text,
    region_of_line,
    LineError,
    RANGE_SEPARATOR,
};
use crate::region::{
    lemma_permissions_round_trip,
    permission_text,
    permission_text_of,
    MemoryRegion,
    RegionView,
};
use vstd::prelude::*;

verus! {

/// The byte that stands between two fields of a written line.
pub const SPACE: u8 = 0x20;

/// Whether `s` can stand as one field of a line: it is not empty and holds no
/// separator.
pub open spec fn is_token(s: Seq<u8>) -> bool {
    &&& s.len() > 0
    &&& forall|i: int| 0 <= i < s.len() ==> !is_space(#[trigger] s[i])
}

/// The line for a region: address range, permissions, offset, device, inode
/// and path, with one space between each two; the numbers in lowercase
/// hexadecimal without leading zeros. A region without a path ends with the
/// space after the inode.
pub open spec fn line_of(r: RegionView) -> Seq<u8> {
    range_text(r.start, r.end) + seq![SPACE] + permission_text_of(r.permissions()) + seq![SPACE]
        + hex_text(r.file_offset as nat) + seq![SPACE] + r.device_id + seq![SPACE] + r.inode
        + seq![SPACE] + match r.backing_path {
        Some(path) => path,
        None => Seq::empty(),
    }
}

/// Whether a region is read back from its own line: private and shared are
/// not both set, and device, inode and path, where there is one, can each
/// stand as one field.
pub open spec fn reads_back(r: RegionView) -> bool {
    &&& !(r.private && r.shared)
    &&& is_token(r.device_id)
    &&& is_token(r.inode)
    &&& match r.backing_path {
        Some(path) => is_token(path),
        None => true,
    }
}

/// An empty line has no field.
pub proof fn lemma_fields_of_nothing()
    ensures
        fields(Seq::<u8>::empty()) == Seq::<Seq<u8>>::empty(),
{
    let e = Seq::<u8>::empty();
    assert(leading(e, true) == 0);
    assert(e.skip(0) =~= e);
}

/// A space in front of a line changes none of its fields.
pub proof fn lemma_fields_after_space(rest: Seq<u8>)
    ensures
        fields(seq![SPACE] + rest) == fields(rest),
{
    let line = seq![SPACE] + rest;
    let k = leading(rest, true);
    lemma_leading_holds(rest, true);
    assert(line.skip(1) =~= rest);
    assert(is_space(line[0]));
    assert(leading(line, true) == 1 + k);
    assert(line.skip(1 + k as int) =~= rest.skip(k as int));
}

/// The fields of a token that is followed by a space are the token and the
/// fields of what follows the space.
pub proof fn lemma_fields_of_token_then(token: Seq<u8>, rest: Seq<u8>)
    requires
        is_token(token),
    ensures
        fields(token + seq![SPACE] + rest) == seq![token] + fields(rest),
{
    let line = token + seq![SPACE] + rest;
    let n = token.len() as int;
    assert(line[0] == token[0]);
    lemma_leading_is(line, true, 0);
    assert(line.skip(0) =~= line);
    assert forall|j: int| 0 <= j < n implies is_space(line[j]) == false by {
        assert(line[j] == token[j]);
    }
    assert(line[n] == SPACE);
    lemma_leading_is(line, false, n);
    assert(line.take(n) =~= token);
    assert(line.skip(n) =~= seq![SPACE] + rest);
    lemma_fields_after_space(rest);
}

/// A token alone is its own single field.
pub proof fn lemma_fields_of_token(token: Seq<u8>)
    requires
        is_token(token),
    ensures
        fields(token) == seq![token],
{
    let n = token.len() as int;
    lemma_leading_is(token, true, 0);
    assert(token.skip(0) =~= token);
    lemma_leading_is(token, false, n);
    assert(token.take(n) =~= token);
    assert(token.skip(n) =~= Seq::<u8>::empty());
    lemma_fields_of_nothing();
    assert(seq![token] + Seq::<Seq<u8>>::empty() =~= seq![token]);
}

/// Hexadecimal text can stand as one field.
pub proof fn lemma_hex_text_is_token(n: nat)
    ensures
        is_token(hex_text(n)),
        !hex_text(n).contains(RANGE_SEPARATOR),
{
    lemma_hex_round_trip(n);
    let t = hex_text(n);
    assert forall|i: int| 0 <= i < t.len() implies !is_space(#[trigger] t[i]) && t[i]
        != RANGE_SEPARATOR by {
        assert(digit_value(t[i]) is Some);
    }
}

/// A region that [`reads_back`] is what its own line describes.
pub proof fn lemma_line_round_trip(r: RegionView)
    requires
        reads_back(r),
    ensures
        region_of_line(line_of(r)) == Ok::<RegionView, LineError>(r),
{
    let range = range_text(r.start, r.end);
    let perms = permission_text_of(r.permissions());
    let offset = hex_text(r.file_offset as nat);
    let path = match r.backing_path {
        Some(p) => p,
        None => Seq::empty(),
    };
    let sp = seq![SPACE];
    let after_inode = path;
    let after_device = r.inode + sp + after_inode;
    let after_offset = r.device_id + sp + after_device;
    let after_perms = offset + sp + after_offset;
    let after_range = perms + sp + after_perms;
    let line = line_of(r);
    assert(line =~= range + sp + after_range);

    lemma_hex_text_is_token(r.start as nat);
    lemma_hex_text_is_token(r.end as nat);
    lemma_hex_text_is_token(r.file_offset as nat);
    assert(is_token(range)) by {
        let a = hex_text(r.start as nat);
        let b = hex_text(r.end as nat);
        assert forall|i: int| 0 <= i < range.len() implies !is_space(#[trigger] range[i]) by {
            if i < a.len() {
                assert(range[i] == a[i]);
            } else if i == a.len() {
                assert(range[i] == RANGE_SEPARATOR);
            } else {
                assert(range[i] == b[i - a.len() - 1]);
            }
        }
    }
    assert(is_token(perms));

    lemma_fields_of_token_then(range, after_range);
    lemma_fields_of_token_then(perms, after_perms);
    lemma_fields_of_token_then(offset, after_offset);
    lemma_fields_of_token_then(r.device_id, after_device);
    lemma_fields_of_token_then(r.inode, after_inode);
    match r.backing_path {
        Some(p) => {
            lemma_fields_of_token(p);
        },
        None => {
            lemma_fields_of_nothing();
        },
    }
    let f = fields(line);
    let tail = fields(path);
    assert(f =~= seq![range, perms, offset, r.device_id, r.inode] + tail);
    assert(field_or_empty(f, 0) == range);
    assert(field_or_empty(f, 1) == perms);
    assert(field_or_empty(f, 2) == offset);
    assert(field_or_empty(f, 3) == r.device_id);
    assert(field_or_empty(f, 4) == r.inode);
    assert(f.len() > 5 <==> r.backing_path is Some);
    if r.backing_path is Some {
        assert(f[5] == r.backing_path->0);
    }
    lemma_range_round_trip(r.start, r.end);
    lemma_permissions_round_trip(r.permissions());
    lemma_hex_round_trip(r.file_offset as nat);
}

/// Appends `bytes` to `out`.
fn push_all(out: &mut Vec<u8>, bytes: &[u8])
    ensures
        final(out)@ == old(out)@ + bytes@,
{
    let n: usize = bytes.len();
    let mut i: usize = 0;
    assert(out@ =~= old(out)@ + bytes@.take(0));
    while i < n
        invariant
            n == bytes@.len(),
            i <= n,
            out@ == old(out)@ + bytes@.take(i as int),
        decreases n - i,
    {
        out.push(bytes[i]);
        assert(out@ =~= old(out)@ + bytes@.take(i + 1));
        i = i + 1;
    }
    assert(bytes@.take(n as int) =~= bytes@);
}

impl MemoryRegion {
    /// Writes the region as one line of a mapping table, without a line feed.
    pub fn describe(&self) -> (line: Vec<u8>)
        ensures
            line@ == line_of(self@),
    {
        let mut line: Vec<u8> = Vec::new();
        push_hex(&mut line, self.start);
        line.push(RANGE_SEPARATOR);
        push_hex(&mut line, self.end);
        line.push(SPACE);
        let perms: Vec<u8> = permission_text(self.permissions());
        push_all(&mut line, perms.as_slice());
        line.push(SPACE);
        push_hex(&mut line, self.file_offset);
        line.push(SPACE);
        push_all(&mut line, self.device_id.as_slice());
        line.push(SPACE);
        push_all(&mut line, self.inode.as_slice());
        line.push(SPACE);
        match &self.backing_path {
            Some(path) => {
                push_all(&mut line, path.as_slice());
            },
            None => {},
        }
        assert(line@ =~= line_of(self@));
        line
    }
}

} // verus!
