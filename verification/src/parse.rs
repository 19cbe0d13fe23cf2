//! The mapping table as text: lines, whitespace-delimited fields, and the
//! region that each line describes.

use crate::hex::{digit_value, hex_number, hex_text, lemma_hex_round_trip, parse_hex};
use crate::region::{parse_permissions, permissions_of, MemoryRegion, Permissions, RegionView};
use vstd::prelude::*;
use vstd::slice::slice_subrange;
use vstd::slice::slice_to_vec;

verus! {

/// The byte that ends a line of the table.
pub const NEWLINE: u8 = 0x0a;

/// The byte between the two addresses of a range.
pub const RANGE_SEPARATOR: u8 = 0x2d;

/// Why a line of the table describes no region. Only the address range can
/// fail: every other field has a value that stands for its absence.
#[derive(Clone, Copy, Debug, PartialEq, Eq, Structural)]
pub enum LineError {
    /// The first field holds no `-`, or the line holds no field at all.
    MissingSeparator,
    /// What stands before the first `-` is not a 64-bit hexadecimal number.
    InvalidStart,
    /// What stands after the first `-` is not a 64-bit hexadecimal number.
    InvalidEnd,
}

/// The first line of a table that describes no region, and why.
#[derive(Clone, Copy, Debug, PartialEq, Eq, Structural)]
pub struct MappingError {
    /// Index of the line, counted from zero.
    pub line: usize,
    pub kind: LineError,
}

/// Whether `b` separates fields: a space, a tab, a line feed, a vertical tab,
/// a form feed or a carriage return.
pub open spec fn is_space(b: u8) -> bool {
    b == 0x20 || (0x09 <= b && b <= 0x0d)
}

/// Number of bytes of `s` that stand before its first `stop`; the length of
/// `s` where it holds none.
pub open spec fn until(s: Seq<u8>, stop: u8) -> nat
    decreases s.len(),
{
    if s.len() == 0 || s[0] == stop {
        0
    } else {
        1 + until(s.skip(1), stop)
    }
}

/// Number of bytes at the start of `s` that are all separators (`spaces`) or
/// all not separators (`!spaces`).
pub open spec fn leading(s: Seq<u8>, spaces: bool) -> nat
    decreases s.len(),
{
    if s.len() == 0 || is_space(s[0]) != spaces {
        0
    } else {
        1 + leading(s.skip(1), spaces)
    }
}

/// The lines of a table. A line feed ends a line and belongs to none; text
/// after the last line feed is a line of its own, and an empty text has no
/// line.
pub open spec fn lines(text: Seq<u8>) -> Seq<Seq<u8>>
    decreases text.len(),
{
    if text.len() == 0 {
        Seq::empty()
    } else {
        let k = until(text, NEWLINE);
        if k >= text.len() {
            seq![text]
        } else {
            seq![text.take(k as int)] + lines(text.skip(k as int + 1))
        }
    }
}

/// The fields of a line: its maximal runs of bytes that are not separators,
/// from left to right.
pub open spec fn fields(line: Seq<u8>) -> Seq<Seq<u8>>
    decreases line.len(),
    via fields_terminates
{
    let rest = line.skip(leading(line, true) as int);
    let n = leading(rest, false);
    if n == 0 {
        Seq::empty()
    } else {
        seq![rest.take(n as int)] + fields(rest.skip(n as int))
    }
}

#[via_fn]
proof fn fields_terminates(line: Seq<u8>) {
    lemma_leading_holds(line, true);
    lemma_leading_holds(line.skip(leading(line, true) as int), false);
}

/// The `i`-th of the fields `f`, or the empty field where there are fewer.
pub open spec fn field_or_empty(f: Seq<Seq<u8>>, i: int) -> Seq<u8> {
    if 0 <= i < f.len() {
        f[i]
    } else {
        Seq::empty()
    }
}

/// The two addresses of a range field. The field is split at its first `-`;
/// each side must be a hexadecimal number of at most 64 bits.
pub open spec fn range_of(field: Seq<u8>) -> Result<(u64, u64), LineError> {
    let k = until(field, RANGE_SEPARATOR);
    if k >= field.len() {
        Err(LineError::MissingSeparator)
    } else {
        match hex_number(field.take(k as int)) {
            None => Err(LineError::InvalidStart),
            Some(start) => match hex_number(field.skip(k as int + 1)) {
                None => Err(LineError::InvalidEnd),
                Some(end) => Ok((start, end)),
            },
        }
    }
}

/// The offset that an offset field denotes: its hexadecimal value, and zero
/// where the field is absent or is no 64-bit hexadecimal number.
pub open spec fn offset_of(field: Seq<u8>) -> u64 {
    match hex_number(field) {
        Some(n) => n,
        None => 0,
    }
}

/// The region that a line describes. Its fields are, in order: address range,
/// permissions, offset, device, inode, path. A missing device or inode is
/// empty, a missing path is `None`; fields after the sixth are ignored.
pub open spec fn region_of_line(line: Seq<u8>) -> Result<RegionView, LineError> {
    let f = fields(line);
    match range_of(field_or_empty(f, 0)) {
        Err(e) => Err(e),
        Ok((start, end)) => {
            let p = permissions_of(field_or_empty(f, 1));
            Ok(
                RegionView {
                    start,
                    end,
                    readable: p.readable,
                    writable: p.writable,
                    executable: p.executable,
                    private: p.private,
                    shared: p.shared,
                    file_offset: offset_of(field_or_empty(f, 2)),
                    device_id: field_or_empty(f, 3),
                    inode: field_or_empty(f, 4),
                    backing_path: if f.len() > 5 {
                        Some(f[5])
                    } else {
                        None
                    },
                },
            )
        },
    }
}

/// Number of lines at the start of `ls` that each describe a region.
pub open spec fn parsed_prefix(ls: Seq<Seq<u8>>) -> nat
    decreases ls.len(),
{
    if ls.len() == 0 || region_of_line(ls[0]) is Err {
        0
    } else {
        1 + parsed_prefix(ls.skip(1))
    }
}

/// The regions that a table describes, one for each line and in the order of
/// the lines; or its first line that describes none.
pub open spec fn table_of(text: Seq<u8>) -> Result<Seq<RegionView>, MappingError> {
    let ls = lines(text);
    let k = parsed_prefix(ls);
    if k >= ls.len() {
        Ok(Seq::new(ls.len(), |i: int| region_of_line(ls[i])->Ok_0))
    } else {
        Err(MappingError { line: k as usize, kind: region_of_line(ls[k as int])->Err_0 })
    }
}

/// Whether a table is one that the operating system writes: every line
/// describes a region whose range is not empty.
pub open spec fn is_valid_table(text: Seq<u8>) -> bool {
    forall|i: int|
        0 <= i < lines(text).len() ==> match #[trigger] region_of_line(lines(text)[i]) {
            Ok(r) => r.start < r.end,
            Err(_) => false,
        }
}

/// The mathematical value of what parsing one line returns.
pub open spec fn line_result_view(r: Result<MemoryRegion, LineError>) -> Result<
    RegionView,
    LineError,
> {
    match r {
        Ok(region) => Ok(region@),
        Err(e) => Err(e),
    }
}

/// The mathematical value of what parsing a table returns.
pub open spec fn table_result_view(r: Result<Vec<MemoryRegion>, MappingError>) -> Result<
    Seq<RegionView>,
    MappingError,
> {
    match r {
        Ok(regions) => Ok(regions.deep_view()),
        Err(e) => Err(e),
    }
}

/// What [`until`] counts: the bytes before position `until(s, stop)` are not
/// `stop`, and the byte there, if any, is.
pub proof fn lemma_until_holds(s: Seq<u8>, stop: u8)
    ensures
        until(s, stop) <= s.len(),
        forall|j: int| 0 <= j < until(s, stop) ==> s[j] != stop,
        until(s, stop) < s.len() ==> s[until(s, stop) as int] == stop,
    decreases s.len(),
{
    if s.len() == 0 || s[0] == stop {
    } else {
        let t = s.skip(1);
        lemma_until_holds(t, stop);
        assert forall|j: int| 0 <= j < until(s, stop) implies s[j] != stop by {
            if j > 0 {
                assert(s[j] == t[j - 1]);
            }
        }
        if until(s, stop) < s.len() {
            assert(s[until(s, stop) as int] == t[until(t, stop) as int]);
        }
    }
}

/// The only position of which [`lemma_until_holds`] holds is
/// `until(s, stop)`.
pub proof fn lemma_until_is(s: Seq<u8>, stop: u8, n: int)
    requires
        0 <= n <= s.len(),
        forall|j: int| 0 <= j < n ==> s[j] != stop,
        n < s.len() ==> s[n] == stop,
    ensures
        until(s, stop) == n,
    decreases n,
{
    if n > 0 {
        let t = s.skip(1);
        assert forall|j: int| 0 <= j < n - 1 implies t[j] != stop by {
            assert(t[j] == s[j + 1]);
        }
        lemma_until_is(t, stop, n - 1);
    }
}

/// What [`leading`] counts: the bytes before position `leading(s, spaces)`
/// are of the kind asked for, and the byte there, if any, is not.
pub proof fn lemma_leading_holds(s: Seq<u8>, spaces: bool)
    ensures
        leading(s, spaces) <= s.len(),
        forall|j: int| 0 <= j < leading(s, spaces) ==> is_space(s[j]) == spaces,
        leading(s, spaces) < s.len() ==> is_space(s[leading(s, spaces) as int]) != spaces,
    decreases s.len(),
{
    if s.len() == 0 || is_space(s[0]) != spaces {
    } else {
        let t = s.skip(1);
        lemma_leading_holds(t, spaces);
        assert forall|j: int| 0 <= j < leading(s, spaces) implies is_space(s[j]) == spaces by {
            if j > 0 {
                assert(s[j] == t[j - 1]);
            }
        }
        if leading(s, spaces) < s.len() {
            assert(s[leading(s, spaces) as int] == t[leading(t, spaces) as int]);
        }
    }
}

/// The only position of which [`lemma_leading_holds`] holds is
/// `leading(s, spaces)`.
pub proof fn lemma_leading_is(s: Seq<u8>, spaces: bool, n: int)
    requires
        0 <= n <= s.len(),
        forall|j: int| 0 <= j < n ==> is_space(s[j]) == spaces,
        n < s.len() ==> is_space(s[n]) != spaces,
    ensures
        leading(s, spaces) == n,
    decreases n,
{
    if n > 0 {
        let t = s.skip(1);
        assert forall|j: int| 0 <= j < n - 1 implies is_space(t[j]) == spaces by {
            assert(t[j] == s[j + 1]);
        }
        lemma_leading_is(t, spaces, n - 1);
    }
}

/// The only count that [`parsed_prefix`] can be: the first
/// `k` lines describe regions, and line `k`, if there is one, does not.
pub proof fn lemma_parsed_prefix_is(ls: Seq<Seq<u8>>, k: int)
    requires
        0 <= k <= ls.len(),
        forall|j: int| 0 <= j < k ==> (#[trigger] region_of_line(ls[j])) is Ok,
        k < ls.len() ==> region_of_line(ls[k]) is Err,
    ensures
        parsed_prefix(ls) == k,
    decreases k,
{
    if k > 0 {
        let t = ls.skip(1);
        assert(region_of_line(ls[0]) is Ok);
        assert forall|j: int| 0 <= j < k - 1 implies (#[trigger] region_of_line(t[j])) is Ok by {
            assert(t[j] == ls[j + 1]);
        }
        lemma_parsed_prefix_is(t, k - 1);
    }
}

/// What [`parsed_prefix`] counts.
pub proof fn lemma_parsed_prefix_holds(ls: Seq<Seq<u8>>)
    ensures
        parsed_prefix(ls) <= ls.len(),
        forall|j: int| 0 <= j < parsed_prefix(ls) ==> (#[trigger] region_of_line(ls[j])) is Ok,
        parsed_prefix(ls) < ls.len() ==> region_of_line(ls[parsed_prefix(ls) as int]) is Err,
    decreases ls.len(),
{
    if ls.len() == 0 || region_of_line(ls[0]) is Err {
    } else {
        let t = ls.skip(1);
        lemma_parsed_prefix_holds(t);
        assert forall|j: int| 0 <= j < parsed_prefix(ls) implies (#[trigger] region_of_line(
            ls[j],
        )) is Ok by {
            if j > 0 {
                assert(ls[j] == t[j - 1]);
            }
        }
        if parsed_prefix(ls) < ls.len() {
            assert(ls[parsed_prefix(ls) as int] == t[parsed_prefix(t) as int]);
        }
    }
}

/// A text has no more lines than bytes.
pub proof fn lemma_lines_len(text: Seq<u8>)
    ensures
        lines(text).len() <= text.len(),
    decreases text.len(),
{
    if text.len() > 0 {
        let k = until(text, NEWLINE);
        if k < text.len() {
            lemma_lines_len(text.skip(k as int + 1));
        }
    }
}

/// What a table parses to, line by line. Success brings one region for each
/// line, in the order of the lines, each being what its line describes. A
/// failure names the first line that describes no region, with that line's
/// own error; every line before it describes one.
pub proof fn lemma_table_of(text: Seq<u8>)
    requires
        text.len() <= usize::MAX,
    ensures
        match table_of(text) {
            Ok(regions) => {
                &&& regions.len() == lines(text).len()
                &&& forall|i: int|
                    0 <= i < regions.len() ==> #[trigger] region_of_line(lines(text)[i]) == Ok::<
                        RegionView,
                        LineError,
                    >(regions[i])
            },
            Err(e) => {
                &&& e.line < lines(text).len()
                &&& region_of_line(lines(text)[e.line as int]) == Err::<RegionView, LineError>(
                    e.kind,
                )
                &&& forall|j: int|
                    0 <= j < e.line ==> (#[trigger] region_of_line(lines(text)[j])) is Ok
            },
        },
{
    let ls = lines(text);
    lemma_lines_len(text);
    lemma_parsed_prefix_holds(ls);
}

/// A table is read in full exactly when every one of its lines describes a
/// region.
pub proof fn lemma_table_ok_iff(text: Seq<u8>)
    ensures
        table_of(text) is Ok <==> forall|i: int|
            0 <= i < lines(text).len() ==> (#[trigger] region_of_line(lines(text)[i])) is Ok,
{
    let ls = lines(text);
    lemma_parsed_prefix_holds(ls);
    if forall|i: int| 0 <= i < ls.len() ==> (#[trigger] region_of_line(ls[i])) is Ok {
        lemma_parsed_prefix_is(ls, ls.len() as int);
    }
}

/// A valid table is read in full: its regions stand in the order of its
/// lines, one for each line, and the range of each is not empty.
pub proof fn lemma_valid_table_regions(text: Seq<u8>)
    requires
        is_valid_table(text),
    ensures
        table_of(text) is Ok,
        table_of(text)->Ok_0.len() == lines(text).len(),
        forall|i: int|
            0 <= i < lines(text).len() ==> {
                &&& #[trigger] region_of_line(lines(text)[i]) == Ok::<RegionView, LineError>(
                    table_of(text)->Ok_0[i],
                )
                &&& table_of(text)->Ok_0[i].start < table_of(text)->Ok_0[i].end
            },
{
    let ls = lines(text);
    assert forall|i: int| 0 <= i < ls.len() implies (#[trigger] region_of_line(ls[i])) is Ok by {}
    lemma_parsed_prefix_is(ls, ls.len() as int);
}

/// The text of an address range: the two addresses in hexadecimal, with the
/// separator between them.
pub open spec fn range_text(start: u64, end: u64) -> Seq<u8> {
    hex_text(start as nat) + seq![RANGE_SEPARATOR] + hex_text(end as nat)
}

/// Reading the text of an address range gives back its two addresses.
pub proof fn lemma_range_round_trip(start: u64, end: u64)
    ensures
        range_of(range_text(start, end)) == Ok::<(u64, u64), LineError>((start, end)),
{
    let a = hex_text(start as nat);
    let b = hex_text(end as nat);
    let field = range_text(start, end);
    lemma_hex_round_trip(start as nat);
    lemma_hex_round_trip(end as nat);
    assert forall|j: int| 0 <= j < a.len() implies field[j] != RANGE_SEPARATOR by {
        assert(field[j] == a[j]);
        assert(digit_value(a[j]) is Some);
    }
    assert(field[a.len() as int] == RANGE_SEPARATOR);
    lemma_until_is(field, RANGE_SEPARATOR, a.len() as int);
    assert(field.take(a.len() as int) =~= a);
    assert(field.skip(a.len() as int + 1) =~= b);
}

/// A range field is refused for want of a separator exactly when it holds no
/// `-` at all.
pub proof fn lemma_missing_separator(field: Seq<u8>)
    ensures
        range_of(field) == Err::<(u64, u64), LineError>(LineError::MissingSeparator)
            <==> !field.contains(RANGE_SEPARATOR),
{
    lemma_until_holds(field, RANGE_SEPARATOR);
    let k = until(field, RANGE_SEPARATOR);
    if k < field.len() {
        assert(field[k as int] == RANGE_SEPARATOR);
    } else {
        assert forall|j: int| 0 <= j < field.len() implies field[j] != RANGE_SEPARATOR by {}
    }
}

/// Whether `b` separates fields.
pub fn is_space_byte(b: u8) -> (r: bool)
    ensures
        r == is_space(b),
{
    b == 0x20 || (0x09 <= b && b <= 0x0d)
}

/// The fields `f` without their first `k`; none where there are fewer.
pub open spec fn fields_after(f: Seq<Seq<u8>>, k: int) -> Seq<Seq<u8>> {
    if 0 <= k <= f.len() {
        f.skip(k)
    } else {
        Seq::empty()
    }
}

/// Finds field `k` of `line`, given the position `pos` behind field `k - 1`.
/// The field occupies the bytes from `span.0` up to `span.1`; where the line
/// has no such field, the two are equal.
fn next_field(line: &[u8], pos: usize, Ghost(k): Ghost<int>) -> (span: (usize, usize))
    requires
        0 <= k,
        pos <= line@.len(),
        fields(line@.skip(pos as int)) == fields_after(fields(line@), k),
    ensures
        pos <= span.0 <= span.1 <= line@.len(),
        span.0 < span.1 <==> k < fields(line@).len(),
        line@.subrange(span.0 as int, span.1 as int) == field_or_empty(fields(line@), k),
        fields(line@.skip(span.1 as int)) == fields_after(fields(line@), k + 1),
{
    let n: usize = line.len();
    let mut a: usize = pos;
    while a < n && is_space_byte(line[a])
        invariant
            n == line@.len(),
            pos <= a <= n,
            forall|j: int| pos <= j < a ==> is_space(line@[j]),
        decreases n - a,
    {
        a = a + 1;
    }
    let mut b: usize = a;
    while b < n && !is_space_byte(line[b])
        invariant
            n == line@.len(),
            a <= b <= n,
            forall|j: int| a <= j < b ==> !is_space(line@[j]),
        decreases n - b,
    {
        b = b + 1;
    }
    proof {
        let f = fields(line@);
        let s = line@.skip(pos as int);
        lemma_leading_is(s, true, a - pos);
        let rest = s.skip(a - pos);
        assert(rest =~= line@.skip(a as int));
        lemma_leading_is(rest, false, b - a);
        assert(rest.take(b - a) =~= line@.subrange(a as int, b as int));
        assert(rest.skip(b - a) =~= line@.skip(b as int));
        if a < b {
            assert(fields(s)[0] == line@.subrange(a as int, b as int));
            assert(fields(line@.skip(b as int)) =~= fields(s).skip(1));
            assert(fields_after(f, k).skip(1) =~= fields_after(f, k + 1));
        } else {
            assert(line@.subrange(a as int, b as int) =~= Seq::<u8>::empty());
            assert(fields_after(f, k + 1) =~= Seq::<Seq<u8>>::empty());
        }
    }
    (a, b)
}

/// Reads the two addresses of a range field.
pub fn parse_range(field: &[u8]) -> (r: Result<(u64, u64), LineError>)
    ensures
        r == range_of(field@),
{
    let n: usize = field.len();
    let mut k: usize = 0;
    while k < n && field[k] != RANGE_SEPARATOR
        invariant
            n == field@.len(),
            k <= n,
            forall|j: int| 0 <= j < k ==> field@[j] != RANGE_SEPARATOR,
        decreases n - k,
    {
        k = k + 1;
    }
    proof {
        lemma_until_is(field@, RANGE_SEPARATOR, k as int);
    }
    if k >= n {
        return Err(LineError::MissingSeparator);
    }
    match parse_hex(slice_subrange(field, 0, k)) {
        None => Err(LineError::InvalidStart),
        Some(start) => match parse_hex(slice_subrange(field, k + 1, n)) {
            None => Err(LineError::InvalidEnd),
            Some(end) => Ok((start, end)),
        },
    }
}

/// Reads an offset field; zero where it is absent or malformed.
pub fn parse_offset(field: &[u8]) -> (n: u64)
    ensures
        n == offset_of(field@),
{
    match parse_hex(field) {
        Some(n) => n,
        None => 0,
    }
}

/// Reads one line of the table.
///
/// Succeeds exactly when the first field is an address range; the error says
/// what is wrong with it otherwise.
pub fn parse_line(line: &[u8]) -> (r: Result<MemoryRegion, LineError>)
    ensures
        line_result_view(r) == region_of_line(line@),
{
    proof {
        assert(line@.skip(0) =~= line@);
        assert(fields(line@).skip(0) =~= fields(line@));
    }
    let (a0, b0) = next_field(line, 0, Ghost(0));
    let (a1, b1) = next_field(line, b0, Ghost(1));
    let (a2, b2) = next_field(line, b1, Ghost(2));
    let (a3, b3) = next_field(line, b2, Ghost(3));
    let (a4, b4) = next_field(line, b3, Ghost(4));
    let (a5, b5) = next_field(line, b4, Ghost(5));
    let (start, end) = match parse_range(slice_subrange(line, a0, b0)) {
        Err(e) => {
            return Err(e);
        },
        Ok(range) => range,
    };
    let p: Permissions = parse_permissions(slice_subrange(line, a1, b1));
    let file_offset: u64 = parse_offset(slice_subrange(line, a2, b2));
    let device_id: Vec<u8> = slice_to_vec(slice_subrange(line, a3, b3));
    let inode: Vec<u8> = slice_to_vec(slice_subrange(line, a4, b4));
    let backing_path: Option<Vec<u8>> = if a5 < b5 {
        Some(slice_to_vec(slice_subrange(line, a5, b5)))
    } else {
        None
    };
    Ok(
        MemoryRegion {
            start,
            end,
            readable: p.readable,
            writable: p.writable,
            executable: p.executable,
            private: p.private,
            shared: p.shared,
            file_offset,
            device_id,
            inode,
            backing_path,
        },
    )
}

/// Reads a whole mapping table.
///
/// Returns one region for each line, in the order of the lines, where every
/// line has an address range; otherwise the index of the first line that has
/// none, with what is wrong with it. Nothing is sorted, merged or left out.
pub fn parse_mappings(text: &[u8]) -> (r: Result<Vec<MemoryRegion>, MappingError>)
    ensures
        table_result_view(r) == table_of(text@),
{
    let n: usize = text.len();
    let mut out: Vec<MemoryRegion> = Vec::new();
    let mut pos: usize = 0;
    let ghost mut done: Seq<Seq<u8>> = Seq::empty();
    proof {
        assert(text@.skip(0) =~= text@);
        assert(done + lines(text@) =~= lines(text@));
    }
    while pos < n
        invariant
            n == text@.len(),
            pos <= n,
            out@.len() == done.len(),
            out@.len() <= pos,
            lines(text@) == done + lines(text@.skip(pos as int)),
            forall|i: int|
                0 <= i < done.len() ==> #[trigger] region_of_line(done[i]) == Ok::<
                    RegionView,
                    LineError,
                >(out@[i]@),
        decreases n - pos,
    {
        let mut e: usize = pos;
        while e < n && text[e] != NEWLINE
            invariant
                n == text@.len(),
                pos <= e <= n,
                forall|j: int| pos <= j < e ==> text@[j] != NEWLINE,
            decreases n - e,
        {
            e = e + 1;
        }
        let ghost line = text@.subrange(pos as int, e as int);
        let next: usize = if e < n {
            e + 1
        } else {
            e
        };
        proof {
            let s = text@.skip(pos as int);
            lemma_until_is(s, NEWLINE, e - pos);
            if e < n {
                assert(s.take(e - pos) =~= line);
                assert(s.skip(e - pos + 1) =~= text@.skip(next as int));
            } else {
                assert(s =~= line);
                assert(text@.skip(next as int) =~= Seq::<u8>::empty());
            }
            assert(lines(s) =~= seq![line] + lines(text@.skip(next as int)));
            assert(lines(text@) =~= done.push(line) + lines(text@.skip(next as int)));
        }
        match parse_line(slice_subrange(text, pos, e)) {
            Err(kind) => {
                proof {
                    let ls = lines(text@);
                    let k = done.len() as int;
                    assert(ls[k] == line);
                    assert forall|j: int| 0 <= j < k implies (#[trigger] region_of_line(
                        ls[j],
                    )) is Ok by {
                        assert(ls[j] == done[j]);
                    }
                    lemma_parsed_prefix_is(ls, k);
                }
                return Err(MappingError { line: out.len(), kind });
            },
            Ok(region) => {
                out.push(region);
            },
        }
        proof {
            done = done.push(line);
        }
        pos = next;
    }
    proof {
        let ls = lines(text@);
        assert(text@.skip(pos as int) =~= Seq::<u8>::empty());
        assert(ls =~= done);
        lemma_parsed_prefix_is(ls, ls.len() as int);
        assert(out.deep_view() =~= Seq::new(ls.len(), |i: int| region_of_line(ls[i])->Ok_0));
    }
    Ok(out)
}

} // verus!
