//! Plain data: values that a fixed number of bytes of memory fully describe.
//!
//! Bytes that were read from a target are turned into values here, through
//! length-checked conversions. The capability is given to the fixed-width
//! integers only, least significant byte first.

use vstd::prelude::*;
use vstd::slice::slice_subrange;

verus! {

/// The number that bytes denote, least significant byte first.
pub open spec fn le_value(bytes: Seq<u8>) -> nat
    decreases bytes.len(),
{
    if bytes.len() == 0 {
        0
    } else {
        bytes[0] as nat + 256 * le_value(bytes.skip(1))
    }
}

/// 256 to the power `n`: one more than the largest number that `n` bytes
/// denote.
pub open spec fn pow256(n: nat) -> nat
    decreases n,
{
    if n == 0 {
        1
    } else {
        256 * pow256((n - 1) as nat)
    }
}

/// The signed number that the `n`-byte two's complement pattern `v` denotes.
pub open spec fn signed_value(v: nat, n: nat) -> int {
    if 2 * v < pow256(n) {
        v as int
    } else {
        v - pow256(n)
    }
}

/// The bytes of `data` that hold its `i`-th element of `width` bytes.
pub open spec fn element_bytes(data: Seq<u8>, width: nat, i: int) -> Seq<u8> {
    data.subrange(i * width, (i + 1) * width)
}

/// `n` bytes denote a number below `pow256(n)`.
pub proof fn lemma_le_value_bound(bytes: Seq<u8>)
    ensures
        le_value(bytes) < pow256(bytes.len()),
    decreases bytes.len(),
{
    if bytes.len() > 0 {
        lemma_le_value_bound(bytes.skip(1));
    }
}

/// The values of [`pow256`] at the widths of the integer types.
pub proof fn lemma_pow256_widths()
    ensures
        pow256(1) == 0x100,
        pow256(2) == 0x1_0000,
        pow256(4) == 0x1_0000_0000,
        pow256(8) == 0x1_0000_0000_0000_0000,
        pow256(16) == 0x1_0000_0000_0000_0000_0000_0000_0000_0000,
{
    reveal_with_fuel(pow256, 17);
}

/// Plain data: a type whose every value is described by `width()` bytes, and
/// for which every such sequence of bytes describes a value.
pub trait Pod: Copy + Send + Sync + 'static {
    /// Number of bytes that a value occupies.
    spec fn width() -> nat;

    /// The value that `width()` bytes describe.
    spec fn from_le(bytes: Seq<u8>) -> Self;

    /// Number of bytes that a value occupies.
    fn size() -> (n: usize)
        ensures
            n == Self::width(),
    ;

    /// Turns the bytes of one value into the value.
    fn decode(bytes: &[u8]) -> (value: Self)
        requires
            bytes@.len() == Self::width(),
        ensures
            value == Self::from_le(bytes@),
    ;
}

/// Reads up to sixteen bytes as a number, least significant byte first.
fn decode_le(bytes: &[u8]) -> (v: u128)
    requires
        bytes@.len() <= 16,
    ensures
        v == le_value(bytes@),
        v < pow256(bytes@.len()),
{
    let n: usize = bytes.len();
    let mut acc: u128 = 0;
    let mut i: usize = n;
    proof {
        assert(bytes@.skip(n as int) =~= Seq::<u8>::empty());
        lemma_pow256_widths();
    }
    while i > 0
        invariant
            n == bytes@.len(),
            n <= 16,
            i <= n,
            acc == le_value(bytes@.skip(i as int)),
            acc < pow256((n - i) as nat),
        decreases i,
    {
        i = i - 1;
        proof {
            let s = bytes@.skip(i as int);
            assert(s.skip(1) =~= bytes@.skip(i + 1));
            lemma_le_value_bound(s);
            lemma_pow256_monotone(s.len(), 16);
            lemma_pow256_widths();
        }
        acc = acc * 256 + bytes[i] as u128;
    }
    proof {
        assert(bytes@.skip(0) =~= bytes@);
    }
    acc
}

/// [`pow256`] grows with its argument.
pub proof fn lemma_pow256_monotone(a: nat, b: nat)
    requires
        a <= b,
    ensures
        0 < pow256(a) <= pow256(b),
    decreases b,
{
    if b == 0 {
    } else if a == b {
        lemma_pow256_monotone((a - 1) as nat, (b - 1) as nat);
    } else {
        lemma_pow256_monotone(a, (b - 1) as nat);
    }
}

impl Pod for u8 {
    open spec fn width() -> nat {
        1
    }

    open spec fn from_le(bytes: Seq<u8>) -> u8 {
        le_value(bytes) as u8
    }

    fn size() -> (n: usize) {
        1
    }

    fn decode(bytes: &[u8]) -> (value: u8) {
        proof {
            lemma_pow256_widths();
        }
        decode_le(bytes) as u8
    }
}

impl Pod for u16 {
    open spec fn width() -> nat {
        2
    }

    open spec fn from_le(bytes: Seq<u8>) -> u16 {
        le_value(bytes) as u16
    }

    fn size() -> (n: usize) {
        2
    }

    fn decode(bytes: &[u8]) -> (value: u16) {
        proof {
            lemma_pow256_widths();
        }
        decode_le(bytes) as u16
    }
}

impl Pod for u32 {
    open spec fn width() -> nat {
        4
    }

    open spec fn from_le(bytes: Seq<u8>) -> u32 {
        le_value(bytes) as u32
    }

    fn size() -> (n: usize) {
        4
    }

    fn decode(bytes: &[u8]) -> (value: u32) {
        proof {
            lemma_pow256_widths();
        }
        decode_le(bytes) as u32
    }
}

impl Pod for u64 {
    open spec fn width() -> nat {
        8
    }

    open spec fn from_le(bytes: Seq<u8>) -> u64 {
        le_value(bytes) as u64
    }

    fn size() -> (n: usize) {
        8
    }

    fn decode(bytes: &[u8]) -> (value: u64) {
        proof {
            lemma_pow256_widths();
        }
        decode_le(bytes) as u64
    }
}

impl Pod for u128 {
    open spec fn width() -> nat {
        16
    }

    open spec fn from_le(bytes: Seq<u8>) -> u128 {
        le_value(bytes) as u128
    }

    fn size() -> (n: usize) {
        16
    }

    fn decode(bytes: &[u8]) -> (value: u128) {
        proof {
            lemma_pow256_widths();
        }
        decode_le(bytes)
    }
}

impl Pod for i8 {
    open spec fn width() -> nat {
        1
    }

    open spec fn from_le(bytes: Seq<u8>) -> i8 {
        signed_value(le_value(bytes), 1) as i8
    }

    fn size() -> (n: usize) {
        1
    }

    fn decode(bytes: &[u8]) -> (value: i8) {
        proof {
            lemma_pow256_widths();
        }
        let pattern: u8 = decode_le(bytes) as u8;
        if pattern < 0x80 {
            pattern as i8
        } else {
            ((pattern - 0x80) as i8) + i8::MIN
        }
    }
}

impl Pod for i16 {
    open spec fn width() -> nat {
        2
    }

    open spec fn from_le(bytes: Seq<u8>) -> i16 {
        signed_value(le_value(bytes), 2) as i16
    }

    fn size() -> (n: usize) {
        2
    }

    fn decode(bytes: &[u8]) -> (value: i16) {
        proof {
            lemma_pow256_widths();
        }
        let pattern: u16 = decode_le(bytes) as u16;
        if pattern < 0x8000 {
            pattern as i16
        } else {
            ((pattern - 0x8000) as i16) + i16::MIN
        }
    }
}

impl Pod for i32 {
    open spec fn width() -> nat {
        4
    }

    open spec fn from_le(bytes: Seq<u8>) -> i32 {
        signed_value(le_value(bytes), 4) as i32
    }

    fn size() -> (n: usize) {
        4
    }

    fn decode(bytes: &[u8]) -> (value: i32) {
        proof {
            lemma_pow256_widths();
        }
        let pattern: u32 = decode_le(bytes) as u32;
        if pattern < 0x8000_0000 {
            pattern as i32
        } else {
            ((pattern - 0x8000_0000) as i32) + i32::MIN
        }
    }
}

impl Pod for i64 {
    open spec fn width() -> nat {
        8
    }

    open spec fn from_le(bytes: Seq<u8>) -> i64 {
        signed_value(le_value(bytes), 8) as i64
    }

    fn size() -> (n: usize) {
        8
    }

    fn decode(bytes: &[u8]) -> (value: i64) {
        proof {
            lemma_pow256_widths();
        }
        let pattern: u64 = decode_le(bytes) as u64;
        if pattern < 0x8000_0000_0000_0000 {
            pattern as i64
        } else {
            ((pattern - 0x8000_0000_0000_0000) as i64) + i64::MIN
        }
    }
}

impl Pod for i128 {
    open spec fn width() -> nat {
        16
    }

    open spec fn from_le(bytes: Seq<u8>) -> i128 {
        signed_value(le_value(bytes), 16) as i128
    }

    fn size() -> (n: usize) {
        16
    }

    fn decode(bytes: &[u8]) -> (value: i128) {
        proof {
            lemma_pow256_widths();
        }
        let pattern: u128 = decode_le(bytes);
        if pattern < 0x8000_0000_0000_0000_0000_0000_0000_0000 {
            pattern as i128
        } else {
            ((pattern - 0x8000_0000_0000_0000_0000_0000_0000_0000) as i128) + i128::MIN
        }
    }
}

impl Pod for usize {
    open spec fn width() -> nat {
        (usize::BITS / 8) as nat
    }

    open spec fn from_le(bytes: Seq<u8>) -> usize {
        le_value(bytes) as usize
    }

    fn size() -> (n: usize) {
        (usize::BITS / 8) as usize
    }

    fn decode(bytes: &[u8]) -> (value: usize) {
        proof {
            lemma_pow256_widths();
        }
        decode_le(bytes) as usize
    }
}

impl Pod for isize {
    open spec fn width() -> nat {
        (usize::BITS / 8) as nat
    }

    open spec fn from_le(bytes: Seq<u8>) -> isize {
        signed_value(le_value(bytes), (usize::BITS / 8) as nat) as isize
    }

    fn size() -> (n: usize) {
        (usize::BITS / 8) as usize
    }

    fn decode(bytes: &[u8]) -> (value: isize) {
        proof {
            lemma_pow256_widths();
        }
        let pattern: usize = decode_le(bytes) as usize;
        let half: usize = usize::MAX / 2 + 1;
        if pattern < half {
            pattern as isize
        } else {
            ((pattern - half) as isize) + isize::MIN
        }
    }
}

/// Turns the bytes of one value into the value, if there are as many bytes as
/// the value occupies.
pub fn decode_value<T: Pod>(data: &[u8]) -> (value: Option<T>)
    ensures
        data@.len() == T::width() ==> value == Some(T::from_le(data@)),
        data@.len() != T::width() ==> value is None,
{
    if data.len() == T::size() {
        Some(T::decode(data))
    } else {
        None
    }
}

/// Turns the bytes of `count` values, one after the other, into the values, if
/// there are as many bytes as `count` values occupy.
pub fn decode_slice<T: Pod>(data: &[u8], count: usize) -> (values: Option<Vec<T>>)
    ensures
        data@.len() == count * T::width() ==> values is Some && values->0@.len() == count
            && forall|i: int|
            0 <= i < count ==> #[trigger] values->0@[i] == T::from_le(
                element_bytes(data@, T::width(), i),
            ),
        data@.len() != count * T::width() ==> values is None,
{
    let width: usize = T::size();
    let n: usize = data.len();
    let total: usize = match count.checked_mul(width) {
        Some(total) => total,
        None => {
            return None;
        },
    };
    if total != n {
        return None;
    }
    let mut values: Vec<T> = Vec::new();
    let mut i: usize = 0;
    while i < count
        invariant
            width == T::width(),
            n == data@.len(),
            n == count * width,
            i <= count,
            values@.len() == i,
            forall|j: int|
                0 <= j < i ==> #[trigger] values@[j] == T::from_le(
                    element_bytes(data@, T::width(), j),
                ),
        decreases count - i,
    {
        proof {
            assert(i * width + width == (i + 1) * width) by (nonlinear_arith);
            assert((i + 1) * width <= count * width) by (nonlinear_arith)
                requires
                    i + 1 <= count,
            ;
        }
        let from: usize = i * width;
        let value: T = T::decode(slice_subrange(data, from, from + width));
        values.push(value);
        i = i + 1;
    }
    Some(values)
}

} // verus!
