//! Printable-text runs in raw memory.
//!
//! A run is a maximal span of printable ASCII bytes. Runs of at least
//! [`MIN_RUN_LEN`] bytes are reported, each with the address of its first byte.

use vstd::prelude::*;
use vstd::slice::slice_subrange;

verus! {

/// Shortest run of printable bytes that is reported.
pub const MIN_RUN_LEN: usize = 4;

/// A run of printable text found in memory.
#[derive(Clone, Debug, PartialEq, Eq)]
pub struct ExtractedString {
    /// Address of the first byte of the run in the target's address space.
    pub address: u64,
    /// The bytes of the run as text, one character for each byte.
    pub text: String,
}

/// The mathematical value of an [`ExtractedString`].
pub struct StringView {
    pub address: int,
    pub text: Seq<char>,
}

impl View for ExtractedString {
    type V = StringView;

    open spec fn view(&self) -> StringView {
        StringView { address: self.address as int, text: self.text@ }
    }
}

impl DeepView for ExtractedString {
    type V = StringView;

    open spec fn deep_view(&self) -> StringView {
        self@
    }
}

/// Whether `b` is a printable ASCII character: space through tilde.
pub open spec fn is_printable(b: u8) -> bool {
    32 <= b <= 126
}

/// Bytes read as text, one character for each byte, the byte's value being
/// the character's code point.
pub open spec fn ascii_text(bytes: Seq<u8>) -> Seq<char> {
    Seq::new(bytes.len(), |i: int| bytes[i] as char)
}

/// Number of printable bytes at the start of `s`.
pub open spec fn printable_len(s: Seq<u8>) -> nat
    decreases s.len(),
{
    if s.len() == 0 || !is_printable(s[0]) {
        0
    } else {
        1 + printable_len(s.skip(1))
    }
}

/// The strings in `bytes`, which lie at `address`: the scan goes from left to
/// right, passes over each byte that is not printable, and takes each run
/// whole; a run of at least [`MIN_RUN_LEN`] bytes is reported with the address
/// of its first byte, a shorter one is dropped.
pub open spec fn strings_of(address: int, bytes: Seq<u8>) -> Seq<StringView>
    decreases bytes.len(),
    via strings_of_terminates
{
    if bytes.len() == 0 {
        Seq::empty()
    } else {
        let n = printable_len(bytes);
        if n == 0 {
            strings_of(address + 1, bytes.skip(1))
        } else {
            let rest = strings_of(address + n, bytes.skip(n as int));
            if n >= MIN_RUN_LEN {
                seq![StringView { address, text: ascii_text(bytes.take(n as int)) }] + rest
            } else {
                rest
            }
        }
    }
}

#[via_fn]
proof fn strings_of_terminates(address: int, bytes: Seq<u8>) {
    lemma_printable_len_holds(bytes);
}

/// What [`printable_len`] counts: the bytes before position
/// `printable_len(s)` are printable, and the byte there, if any, is not.
pub proof fn lemma_printable_len_holds(s: Seq<u8>)
    ensures
        printable_len(s) <= s.len(),
        forall|j: int| 0 <= j < printable_len(s) ==> is_printable(s[j]),
        printable_len(s) < s.len() ==> !is_printable(s[printable_len(s) as int]),
    decreases s.len(),
{
    if s.len() == 0 || !is_printable(s[0]) {
    } else {
        let t = s.skip(1);
        lemma_printable_len_holds(t);
        assert forall|j: int| 0 <= j < printable_len(s) implies is_printable(s[j]) by {
            if j > 0 {
                assert(s[j] == t[j - 1]);
            }
        }
        if printable_len(s) < s.len() {
            assert(s[printable_len(s) as int] == t[printable_len(t) as int]);
        }
    }
}

/// The only position of which [`lemma_printable_len_holds`] holds is
/// `printable_len(s)`.
pub proof fn lemma_printable_len_is(s: Seq<u8>, n: int)
    requires
        0 <= n <= s.len(),
        forall|j: int| 0 <= j < n ==> is_printable(s[j]),
        n < s.len() ==> !is_printable(s[n]),
    ensures
        printable_len(s) == n,
    decreases n,
{
    if n > 0 {
        let t = s.skip(1);
        assert forall|j: int| 0 <= j < n - 1 implies is_printable(t[j]) by {
            assert(t[j] == s[j + 1]);
        }
        lemma_printable_len_is(t, n - 1);
    }
}

/// Whether the bytes of `bytes` from `a` up to `b` are a run: printable
/// throughout, and bounded on each side by a byte that is not printable or by
/// an end of `bytes`.
pub open spec fn is_run(bytes: Seq<u8>, a: int, b: int) -> bool {
    &&& 0 <= a < b <= bytes.len()
    &&& forall|j: int| a <= j < b ==> is_printable(bytes[j])
    &&& (a == 0 || !is_printable(bytes[a - 1]))
    &&& (b == bytes.len() || !is_printable(bytes[b]))
}

/// The string that is reported for the bytes of `bytes` from `a` up to `b`,
/// where `bytes` lie at `address`.
pub open spec fn string_at(address: int, bytes: Seq<u8>, a: int, b: int) -> StringView {
    StringView { address: address + a, text: ascii_text(bytes.subrange(a, b)) }
}

/// Whether `found` is sorted by address with no two strings touching: each
/// string ends at least one byte before the next begins.
pub open spec fn is_ascending(found: Seq<StringView>) -> bool {
    forall|i: int, j: int|
        0 <= i < j < found.len() ==> (#[trigger] found[i]).address + found[i].text.len() < (
        #[trigger] found[j]).address
}

/// A run of `tail = bytes.skip(m)` is a run of `bytes`, `m` places further
/// on, provided that no run of `bytes` goes across position `m`.
proof fn lemma_run_of_tail(bytes: Seq<u8>, m: int, a: int, b: int)
    requires
        0 <= m <= bytes.len(),
        m == 0 || m == bytes.len() || !is_printable(bytes[m - 1]) || !is_printable(bytes[m]),
        is_run(bytes.skip(m), a, b),
    ensures
        is_run(bytes, a + m, b + m),
        bytes.skip(m).subrange(a, b) == bytes.subrange(a + m, b + m),
{
    let tail = bytes.skip(m);
    assert forall|j: int| a + m <= j < b + m implies is_printable(bytes[j]) by {
        assert(bytes[j] == tail[j - m]);
    }
    if a > 0 {
        assert(bytes[a + m - 1] == tail[a - 1]);
    } else if m > 0 {
        assert(bytes[m] == tail[0]);
    }
    if b + m < bytes.len() {
        assert(bytes[b + m] == tail[b]);
    }
    assert(tail.subrange(a, b) =~= bytes.subrange(a + m, b + m));
}

/// A run of `bytes` that begins at or after `m` is a run of `bytes.skip(m)`,
/// `m` places earlier, provided that no run of `bytes` goes across position
/// `m`.
proof fn lemma_run_in_tail(bytes: Seq<u8>, m: int, a: int, b: int)
    requires
        0 <= m <= a,
        is_run(bytes, a, b),
    ensures
        is_run(bytes.skip(m), a - m, b - m),
        bytes.skip(m).subrange(a - m, b - m) == bytes.subrange(a, b),
{
    let tail = bytes.skip(m);
    assert forall|j: int| a - m <= j < b - m implies is_printable(tail[j]) by {
        assert(tail[j] == bytes[j + m]);
    }
    if a - m > 0 {
        assert(tail[a - m - 1] == bytes[a - 1]);
    }
    if b - m < tail.len() {
        assert(tail[b - m] == bytes[b]);
    }
    assert(tail.subrange(a - m, b - m) =~= bytes.subrange(a, b));
}

/// Every string that is reported is a run, and is long enough: it is the
/// text of a run of at least [`MIN_RUN_LEN`] bytes, at the address of the
/// run's first byte.
pub proof fn lemma_strings_are_runs(address: int, bytes: Seq<u8>, k: int)
    requires
        0 <= k < strings_of(address, bytes).len(),
    ensures
        exists|a: int, b: int|
            is_run(bytes, a, b) && b - a >= MIN_RUN_LEN && strings_of(address, bytes)[k]
                == #[trigger] string_at(address, bytes, a, b),
    decreases bytes.len(),
{
    let n = printable_len(bytes) as int;
    lemma_printable_len_holds(bytes);
    if n == 0 {
        let tail = bytes.skip(1);
        lemma_strings_are_runs(address + 1, tail, k);
        let (a, b) = choose|a: int, b: int|
            is_run(tail, a, b) && b - a >= MIN_RUN_LEN && strings_of(address + 1, tail)[k]
                == #[trigger] string_at(address + 1, tail, a, b);
        lemma_run_of_tail(bytes, 1, a, b);
        assert(strings_of(address, bytes)[k] == string_at(address, bytes, a + 1, b + 1));
    } else {
        let tail = bytes.skip(n);
        let rest = strings_of(address + n, tail);
        if n >= MIN_RUN_LEN && k == 0 {
            assert(bytes.take(n) =~= bytes.subrange(0, n));
            assert(is_run(bytes, 0, n));
            assert(strings_of(address, bytes)[0] == string_at(address, bytes, 0, n));
        } else {
            let shift: int = if n >= MIN_RUN_LEN {
                1
            } else {
                0
            };
            assert(strings_of(address, bytes)[k] == rest[k - shift]);
            lemma_strings_are_runs(address + n, tail, k - shift);
            let (a, b) = choose|a: int, b: int|
                is_run(tail, a, b) && b - a >= MIN_RUN_LEN && rest[k - shift]
                    == #[trigger] string_at(address + n, tail, a, b);
            lemma_run_of_tail(bytes, n, a, b);
            assert(strings_of(address, bytes)[k] == string_at(address, bytes, a + n, b + n));
        }
    }
}

/// Every run that is long enough is reported: the text of each run of at
/// least [`MIN_RUN_LEN`] bytes is among the strings, at the address of the
/// run's first byte.
pub proof fn lemma_runs_are_reported(address: int, bytes: Seq<u8>, a: int, b: int)
    requires
        is_run(bytes, a, b),
        b - a >= MIN_RUN_LEN,
    ensures
        strings_of(address, bytes).contains(string_at(address, bytes, a, b)),
    decreases bytes.len(),
{
    let n = printable_len(bytes) as int;
    let all = strings_of(address, bytes);
    lemma_printable_len_holds(bytes);
    if n == 0 {
        let tail = bytes.skip(1);
        lemma_run_in_tail(bytes, 1, a, b);
        lemma_runs_are_reported(address + 1, tail, a - 1, b - 1);
        let item = string_at(address + 1, tail, a - 1, b - 1);
        assert(item == string_at(address, bytes, a, b));
    } else {
        let tail = bytes.skip(n);
        let rest = strings_of(address + n, tail);
        if a == 0 {
            lemma_printable_len_is(bytes, b);
            assert(bytes.take(n) =~= bytes.subrange(0, n));
            assert(all[0] == string_at(address, bytes, a, b));
        } else {
            assert(a > n) by {
                if a <= n {
                    assert(is_printable(bytes[a - 1]));
                }
            }
            lemma_run_in_tail(bytes, n, a, b);
            lemma_runs_are_reported(address + n, tail, a - n, b - n);
            let item = string_at(address + n, tail, a - n, b - n);
            assert(item == string_at(address, bytes, a, b));
            let i = choose|i: int| 0 <= i < rest.len() && rest[i] == item;
            if n >= MIN_RUN_LEN {
                assert(all[i + 1] == item);
            } else {
                assert(all[i] == item);
            }
        }
    }
}

/// The strings lie within the bytes that were scanned.
pub proof fn lemma_strings_within(address: int, bytes: Seq<u8>, k: int)
    requires
        0 <= k < strings_of(address, bytes).len(),
    ensures
        address <= strings_of(address, bytes)[k].address,
        strings_of(address, bytes)[k].address + strings_of(address, bytes)[k].text.len()
            <= address + bytes.len(),
{
    lemma_strings_are_runs(address, bytes, k);
}

/// The strings come in ascending order of address, and no two of them touch.
pub proof fn lemma_strings_ascend(address: int, bytes: Seq<u8>)
    ensures
        is_ascending(strings_of(address, bytes)),
    decreases bytes.len(),
{
    let n = printable_len(bytes) as int;
    let all = strings_of(address, bytes);
    lemma_printable_len_holds(bytes);
    if bytes.len() == 0 {
    } else if n == 0 {
        lemma_strings_ascend(address + 1, bytes.skip(1));
    } else {
        let tail = bytes.skip(n);
        let rest = strings_of(address + n, tail);
        lemma_strings_ascend(address + n, tail);
        if n >= MIN_RUN_LEN {
            assert forall|i: int, j: int| 0 <= i < j < all.len() implies (#[trigger] all[i]).address
                + all[i].text.len() < (#[trigger] all[j]).address by {
                assert(all[j] == rest[j - 1]);
                if i == 0 {
                    assert(tail.len() > 0);
                    assert(!is_printable(tail[0]));
                    assert(printable_len(tail) == 0);
                    assert(rest == strings_of(address + n + 1, tail.skip(1)));
                    lemma_strings_within(address + n + 1, tail.skip(1), j - 1);
                } else {
                    assert(all[i] == rest[i - 1]);
                }
            }
        }
    }
}

/// Two scans of the same bytes at the same address find the same: whatever two
/// calls of [`extract_strings`] on equal arguments return holds as many
/// strings, with the same addresses and the same texts, in the same order.
/// Nothing but the two arguments decides what a scan finds.
pub proof fn lemma_scan_is_repeatable(
    address_base: u64,
    bytes: Seq<u8>,
    first: Vec<ExtractedString>,
    second: Vec<ExtractedString>,
)
    requires
        first.deep_view() == strings_of(address_base as int, bytes),
        second.deep_view() == strings_of(address_base as int, bytes),
    ensures
        first@.len() == second@.len(),
        forall|i: int|
            0 <= i < first@.len() ==> (#[trigger] first@[i]).address == second@[i].address
                && first@[i].text@ == second@[i].text@,
{
    assert(first.deep_view().len() == second.deep_view().len());
    assert forall|i: int| 0 <= i < first@.len() implies (#[trigger] first@[i]).address
        == second@[i].address && first@[i].text@ == second@[i].text@ by {
        assert(first.deep_view()[i] == second.deep_view()[i]);
    }
}

/// Whether `b` is a printable ASCII character.
pub fn printable(b: u8) -> (r: bool)
    ensures
        r == is_printable(b),
{
    b >= 32 && b <= 126
}

/// `String::from_utf8_lossy` on bytes that are all below `0x80`. Such bytes
/// are valid UTF-8 in which each byte encodes the character of the same code
/// point, so the string that comes back holds one character for each byte and
/// nothing is replaced.
#[verifier::external_body]
fn decode_ascii(bytes: &[u8]) -> (text: String)
    requires
        forall|i: int| 0 <= i < bytes@.len() ==> bytes@[i] < 0x80,
    ensures
        text@ == ascii_text(bytes@),
{
    String::from_utf8_lossy(bytes).into_owned()
}

/// Scans `bytes`, which were read at `address_base`, for printable strings.
///
/// Every call starts afresh: the result depends on the two arguments alone.
pub fn extract_strings(address_base: u64, bytes: &[u8]) -> (found: Vec<ExtractedString>)
    requires
        address_base + bytes@.len() <= u64::MAX,
    ensures
        found.deep_view() == strings_of(address_base as int, bytes@),
{
    let mut found: Vec<ExtractedString> = Vec::new();
    extract_into(&mut found, address_base, bytes);
    assert(Seq::<StringView>::empty() + strings_of(address_base as int, bytes@) =~= strings_of(
        address_base as int,
        bytes@,
    ));
    found
}

/// Scans `bytes` as [`extract_strings`] does and appends what it finds to
/// `found`, leaving what `found` held in place.
pub fn extract_into(found: &mut Vec<ExtractedString>, address_base: u64, bytes: &[u8])
    requires
        address_base + bytes@.len() <= u64::MAX,
    ensures
        final(found).deep_view() == old(found).deep_view() + strings_of(
            address_base as int,
            bytes@,
        ),
{
    let n: usize = bytes.len();
    let ghost prior = found.deep_view();
    let ghost all = strings_of(address_base as int, bytes@);
    let ghost mut here: Seq<StringView> = Seq::empty();
    let mut i: usize = 0;
    proof {
        assert(bytes@.skip(0) =~= bytes@);
        assert(prior + here =~= prior);
        assert(here + all =~= all);
    }
    while i < n
        invariant
            n == bytes@.len(),
            i <= n,
            address_base + n <= u64::MAX,
            found.deep_view() == prior + here,
            strings_of(address_base as int, bytes@) == here + strings_of(
                address_base + i,
                bytes@.skip(i as int),
            ),
        decreases n - i,
    {
        let start: usize = i;
        while i < n && printable(bytes[i])
            invariant
                n == bytes@.len(),
                start <= i <= n,
                forall|j: int| start <= j < i ==> is_printable(bytes@[j]),
            decreases n - i,
        {
            i = i + 1;
        }
        let ghost s = bytes@.skip(start as int);
        let ghost before = found.deep_view();
        let ghost after = strings_of(address_base + i, bytes@.skip(i as int));
        proof {
            lemma_printable_len_is(s, i - start);
            assert(s.take(i - start) =~= bytes@.subrange(start as int, i as int));
            assert(s.skip(i - start) =~= bytes@.skip(i as int));
            assert(s.skip(1) =~= bytes@.skip(start + 1));
        }
        if i - start >= MIN_RUN_LEN {
            let text: String = decode_ascii(slice_subrange(bytes, start, i));
            let address: u64 = address_base + (start as u64);
            found.push(ExtractedString { address, text });
            proof {
                let item = StringView {
                    address: address_base + start,
                    text: ascii_text(bytes@.subrange(start as int, i as int)),
                };
                assert(found.deep_view() =~= before.push(item));
                assert(before.push(item) =~= prior + here.push(item));
                assert(here + (seq![item] + after) =~= here.push(item) + after);
                here = here.push(item);
            }
        }
        if i == start {
            i = i + 1;
        }
    }
    proof {
        assert(bytes@.skip(n as int) =~= Seq::<u8>::empty());
        assert(here + Seq::<StringView>::empty() =~= here);
    }
}

} // verus!
