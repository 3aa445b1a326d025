//! Reading fixed-width integers, short arrays and records from a byte cursor.
//!
//! The cursor is a `&mut &[u8]`: a successful read hands back the value and
//! moves the cursor past the bytes it used; a read that finds too few bytes
//! fails and leaves the cursor where it was.

use vstd::prelude::*;
use vstd::slice::slice_subrange;

verus! {

broadcast use vstd::seq_lib::lemma_seq_skip_of_skip;

/// What a read returns: the value, or `Err(())` when the input ends too early.
pub type ParseResult<T> = Result<T, ()>;

/// The number of values that `width` bytes can hold: 256 to the power `width`.
pub open spec fn span(width: nat) -> nat
    decreases width,
{
    if width == 0 {
        1
    } else {
        256 * span((width - 1) as nat)
    }
}

/// The number that `bytes` spell with the most significant byte first.
pub open spec fn be_value(bytes: Seq<u8>) -> nat
    decreases bytes.len(),
{
    if bytes.len() == 0 {
        0
    } else {
        256 * be_value(bytes.drop_last()) + bytes.last() as nat
    }
}

/// The number that `bytes` spell with the least significant byte first.
pub open spec fn le_value(bytes: Seq<u8>) -> nat
    decreases bytes.len(),
{
    if bytes.len() == 0 {
        0
    } else {
        bytes.first() as nat + 256 * le_value(bytes.drop_first())
    }
}

/// The `width` bytes that spell `v` with the most significant byte first.
pub open spec fn be_bytes(v: nat, width: nat) -> Seq<u8>
    decreases width,
{
    if width == 0 {
        Seq::empty()
    } else {
        be_bytes(v / 256, (width - 1) as nat).push((v % 256) as u8)
    }
}

/// The `width` bytes that spell `v` with the least significant byte first.
pub open spec fn le_bytes(v: nat, width: nat) -> Seq<u8>
    decreases width,
{
    if width == 0 {
        Seq::empty()
    } else {
        seq![(v % 256) as u8] + le_bytes(v / 256, (width - 1) as nat)
    }
}

/// The signed reading of `v` in two's complement, where `modulus` is the
/// number of values of the type.
pub open spec fn twos_complement(v: nat, modulus: nat) -> int {
    if 2 * v >= modulus {
        v - modulus
    } else {
        v as int
    }
}

/// The unsigned number whose two's complement reading is `v`.
pub open spec fn twos_complement_of(v: int, modulus: nat) -> nat {
    if v < 0 {
        (v + modulus) as nat
    } else {
        v as nat
    }
}

/// The number of values that up to eight bytes can hold.
pub proof fn lemma_span_values()
    ensures
        span(0) == 1,
        span(1) == 0x100,
        span(2) == 0x1_0000,
        span(3) == 0x100_0000,
        span(4) == 0x1_0000_0000,
        span(5) == 0x100_0000_0000,
        span(6) == 0x1_0000_0000_0000,
        span(7) == 0x100_0000_0000_0000,
        span(8) == 0x1_0000_0000_0000_0000,
{
    reveal_with_fuel(span, 10);
}

/// A big-endian number of `n` bytes is below `span(n)`.
pub proof fn lemma_be_value_bound(bytes: Seq<u8>)
    ensures
        be_value(bytes) < span(bytes.len()),
    decreases bytes.len(),
{
    if bytes.len() > 0 {
        lemma_be_value_bound(bytes.drop_last());
    }
}

/// A little-endian number of `n` bytes is below `span(n)`.
pub proof fn lemma_le_value_bound(bytes: Seq<u8>)
    ensures
        le_value(bytes) < span(bytes.len()),
    decreases bytes.len(),
{
    if bytes.len() > 0 {
        lemma_le_value_bound(bytes.drop_first());
    }
}

/// Reads `n` bytes as one number, most significant byte first.
fn read_be(input: &mut &[u8], n: usize) -> (r: ParseResult<u64>)
    requires
        n <= 8,
    ensures
        r is Ok <==> n <= old(input)@.len(),
        r is Ok ==> r->Ok_0 == be_value(old(input)@.take(n as int)) && final(input)@ == old(
            input,
        )@.skip(n as int),
        r is Err ==> *final(input) == *old(input),
{
    let bytes = *input;
    if bytes.len() < n {
        return Err(());
    }
    let mut result: u64 = 0;
    let mut i: usize = 0;
    while i < n
        invariant
            i <= n <= 8,
            n <= bytes@.len(),
            result == be_value(bytes@.take(i as int)),
        decreases n - i,
    {
        proof {
            let next = bytes@.take(i + 1);
            assert(next.drop_last() == bytes@.take(i as int));
            lemma_be_value_bound(next);
            lemma_span_values();
        }
        result = result * 256 + bytes[i] as u64;
        i += 1;
    }
    *input = slice_subrange(bytes, n, bytes.len());
    Ok(result)
}

/// Reads `n` bytes as one number, least significant byte first.
fn read_le(input: &mut &[u8], n: usize) -> (r: ParseResult<u64>)
    requires
        n <= 8,
    ensures
        r is Ok <==> n <= old(input)@.len(),
        r is Ok ==> r->Ok_0 == le_value(old(input)@.take(n as int)) && final(input)@ == old(
            input,
        )@.skip(n as int),
        r is Err ==> *final(input) == *old(input),
{
    let bytes = *input;
    if bytes.len() < n {
        return Err(());
    }
    let mut result: u64 = 0;
    let mut i: usize = n;
    while i > 0
        invariant
            i <= n <= 8,
            n <= bytes@.len(),
            result == le_value(bytes@.subrange(i as int, n as int)),
        decreases i,
    {
        proof {
            let next = bytes@.subrange(i - 1, n as int);
            assert(next.drop_first() == bytes@.subrange(i as int, n as int));
            lemma_le_value_bound(next);
            lemma_span_values();
        }
        i -= 1;
        result = result * 256 + bytes[i] as u64;
    }
    assert(bytes@.subrange(0, n as int) == bytes@.take(n as int));
    *input = slice_subrange(bytes, n, bytes.len());
    Ok(result)
}

/// A type with a fixed layout in bytes, readable in either byte order.
pub trait Parse: Sized {
    /// The number of bytes that a value takes.
    spec fn width() -> nat;

    /// The value that the first `width()` bytes of `bytes` hold, least
    /// significant byte of each integer first.
    spec fn decode_le(bytes: Seq<u8>) -> Self;

    /// The value that the first `width()` bytes of `bytes` hold, most
    /// significant byte of each integer first.
    spec fn decode_be(bytes: Seq<u8>) -> Self;

    /// Reads a value in little-endian order and moves the cursor past it.
    /// Fails, with the cursor unmoved, exactly when fewer than `width()`
    /// bytes are left.
    fn parse_le(input: &mut &[u8]) -> (r: ParseResult<Self>)
        ensures
            r is Ok <==> Self::width() <= old(input)@.len(),
            r is Ok ==> r->Ok_0 == Self::decode_le(old(input)@) && final(input)@ == old(input)@.skip(
                Self::width() as int,
            ),
            r is Err ==> *final(input) == *old(input),
    ;

    /// Reads a value in big-endian order and moves the cursor past it.
    /// Fails, with the cursor unmoved, exactly when fewer than `width()`
    /// bytes are left.
    fn parse_be(input: &mut &[u8]) -> (r: ParseResult<Self>)
        ensures
            r is Ok <==> Self::width() <= old(input)@.len(),
            r is Ok ==> r->Ok_0 == Self::decode_be(old(input)@) && final(input)@ == old(input)@.skip(
                Self::width() as int,
            ),
            r is Err ==> *final(input) == *old(input),
    ;
}

impl Parse for u8 {
    open spec fn width() -> nat {
        1
    }

    open spec fn decode_le(bytes: Seq<u8>) -> u8 {
        le_value(bytes.take(1)) as u8
    }

    open spec fn decode_be(bytes: Seq<u8>) -> u8 {
        be_value(bytes.take(1)) as u8
    }

    fn parse_le(input: &mut &[u8]) -> (r: ParseResult<u8>) {
        let ghost taken = input@.take(1);
        match read_le(input, 1) {
            Ok(v) => {
                proof {
                    lemma_le_value_bound(taken);
                    lemma_span_values();
                }
                Ok(v as u8)
            },
            Err(e) => Err(e),
        }
    }

    fn parse_be(input: &mut &[u8]) -> (r: ParseResult<u8>) {
        let ghost taken = input@.take(1);
        match read_be(input, 1) {
            Ok(v) => {
                proof {
                    lemma_be_value_bound(taken);
                    lemma_span_values();
                }
                Ok(v as u8)
            },
            Err(e) => Err(e),
        }
    }
}

impl Parse for u16 {
    open spec fn width() -> nat {
        2
    }

    open spec fn decode_le(bytes: Seq<u8>) -> u16 {
        le_value(bytes.take(2)) as u16
    }

    open spec fn decode_be(bytes: Seq<u8>) -> u16 {
        be_value(bytes.take(2)) as u16
    }

    fn parse_le(input: &mut &[u8]) -> (r: ParseResult<u16>) {
        let ghost taken = input@.take(2);
        match read_le(input, 2) {
            Ok(v) => {
                proof {
                    lemma_le_value_bound(taken);
                    lemma_span_values();
                }
                Ok(v as u16)
            },
            Err(e) => Err(e),
        }
    }

    fn parse_be(input: &mut &[u8]) -> (r: ParseResult<u16>) {
        let ghost taken = input@.take(2);
        match read_be(input, 2) {
            Ok(v) => {
                proof {
                    lemma_be_value_bound(taken);
                    lemma_span_values();
                }
                Ok(v as u16)
            },
            Err(e) => Err(e),
        }
    }
}

impl Parse for u32 {
    open spec fn width() -> nat {
        4
    }

    open spec fn decode_le(bytes: Seq<u8>) -> u32 {
        le_value(bytes.take(4)) as u32
    }

    open spec fn decode_be(bytes: Seq<u8>) -> u32 {
        be_value(bytes.take(4)) as u32
    }

    fn parse_le(input: &mut &[u8]) -> (r: ParseResult<u32>) {
        let ghost taken = input@.take(4);
        match read_le(input, 4) {
            Ok(v) => {
                proof {
                    lemma_le_value_bound(taken);
                    lemma_span_values();
                }
                Ok(v as u32)
            },
            Err(e) => Err(e),
        }
    }

    fn parse_be(input: &mut &[u8]) -> (r: ParseResult<u32>) {
        let ghost taken = input@.take(4);
        match read_be(input, 4) {
            Ok(v) => {
                proof {
                    lemma_be_value_bound(taken);
                    lemma_span_values();
                }
                Ok(v as u32)
            },
            Err(e) => Err(e),
        }
    }
}

impl Parse for u64 {
    open spec fn width() -> nat {
        8
    }

    open spec fn decode_le(bytes: Seq<u8>) -> u64 {
        le_value(bytes.take(8)) as u64
    }

    open spec fn decode_be(bytes: Seq<u8>) -> u64 {
        be_value(bytes.take(8)) as u64
    }

    fn parse_le(input: &mut &[u8]) -> (r: ParseResult<u64>) {
        let ghost taken = input@.take(8);
        match read_le(input, 8) {
            Ok(v) => {
                proof {
                    lemma_le_value_bound(taken);
                    lemma_span_values();
                }
                Ok(v)
            },
            Err(e) => Err(e),
        }
    }

    fn parse_be(input: &mut &[u8]) -> (r: ParseResult<u64>) {
        let ghost taken = input@.take(8);
        match read_be(input, 8) {
            Ok(v) => {
                proof {
                    lemma_be_value_bound(taken);
                    lemma_span_values();
                }
                Ok(v)
            },
            Err(e) => Err(e),
        }
    }
}

impl Parse for i8 {
    open spec fn width() -> nat {
        1
    }

    open spec fn decode_le(bytes: Seq<u8>) -> i8 {
        twos_complement(le_value(bytes.take(1)), span(1)) as i8
    }

    open spec fn decode_be(bytes: Seq<u8>) -> i8 {
        twos_complement(be_value(bytes.take(1)), span(1)) as i8
    }

    fn parse_le(input: &mut &[u8]) -> (r: ParseResult<i8>) {
        let ghost taken = input@.take(1);
        match read_le(input, 1) {
            Ok(v) => {
                proof {
                    lemma_le_value_bound(taken);
                    lemma_span_values();
                }
                Ok(if v >= 0x80 {
                    (v as i64 - 0x100) as i8
                } else {
                    v as i8
                })
            },
            Err(e) => Err(e),
        }
    }

    fn parse_be(input: &mut &[u8]) -> (r: ParseResult<i8>) {
        let ghost taken = input@.take(1);
        match read_be(input, 1) {
            Ok(v) => {
                proof {
                    lemma_be_value_bound(taken);
                    lemma_span_values();
                }
                Ok(if v >= 0x80 {
                    (v as i64 - 0x100) as i8
                } else {
                    v as i8
                })
            },
            Err(e) => Err(e),
        }
    }
}

impl Parse for i16 {
    open spec fn width() -> nat {
        2
    }

    open spec fn decode_le(bytes: Seq<u8>) -> i16 {
        twos_complement(le_value(bytes.take(2)), span(2)) as i16
    }

    open spec fn decode_be(bytes: Seq<u8>) -> i16 {
        twos_complement(be_value(bytes.take(2)), span(2)) as i16
    }

    fn parse_le(input: &mut &[u8]) -> (r: ParseResult<i16>) {
        let ghost taken = input@.take(2);
        match read_le(input, 2) {
            Ok(v) => {
                proof {
                    lemma_le_value_bound(taken);
                    lemma_span_values();
                }
                Ok(if v >= 0x8000 {
                    (v as i64 - 0x1_0000) as i16
                } else {
                    v as i16
                })
            },
            Err(e) => Err(e),
        }
    }

    fn parse_be(input: &mut &[u8]) -> (r: ParseResult<i16>) {
        let ghost taken = input@.take(2);
        match read_be(input, 2) {
            Ok(v) => {
                proof {
                    lemma_be_value_bound(taken);
                    lemma_span_values();
                }
                Ok(if v >= 0x8000 {
                    (v as i64 - 0x1_0000) as i16
                } else {
                    v as i16
                })
            },
            Err(e) => Err(e),
        }
    }
}

impl Parse for i32 {
    open spec fn width() -> nat {
        4
    }

    open spec fn decode_le(bytes: Seq<u8>) -> i32 {
        twos_complement(le_value(bytes.take(4)), span(4)) as i32
    }

    open spec fn decode_be(bytes: Seq<u8>) -> i32 {
        twos_complement(be_value(bytes.take(4)), span(4)) as i32
    }

    fn parse_le(input: &mut &[u8]) -> (r: ParseResult<i32>) {
        let ghost taken = input@.take(4);
        match read_le(input, 4) {
            Ok(v) => {
                proof {
                    lemma_le_value_bound(taken);
                    lemma_span_values();
                }
                Ok(if v >= 0x8000_0000 {
                    (v as i64 - 0x1_0000_0000) as i32
                } else {
                    v as i32
                })
            },
            Err(e) => Err(e),
        }
    }

    fn parse_be(input: &mut &[u8]) -> (r: ParseResult<i32>) {
        let ghost taken = input@.take(4);
        match read_be(input, 4) {
            Ok(v) => {
                proof {
                    lemma_be_value_bound(taken);
                    lemma_span_values();
                }
                Ok(if v >= 0x8000_0000 {
                    (v as i64 - 0x1_0000_0000) as i32
                } else {
                    v as i32
                })
            },
            Err(e) => Err(e),
        }
    }
}

impl Parse for i64 {
    open spec fn width() -> nat {
        8
    }

    open spec fn decode_le(bytes: Seq<u8>) -> i64 {
        twos_complement(le_value(bytes.take(8)), span(8)) as i64
    }

    open spec fn decode_be(bytes: Seq<u8>) -> i64 {
        twos_complement(be_value(bytes.take(8)), span(8)) as i64
    }

    fn parse_le(input: &mut &[u8]) -> (r: ParseResult<i64>) {
        let ghost taken = input@.take(8);
        match read_le(input, 8) {
            Ok(v) => {
                proof {
                    lemma_le_value_bound(taken);
                    lemma_span_values();
                }
                Ok(if v >= 0x8000_0000_0000_0000 {
                    (v - 0x8000_0000_0000_0000) as i64 + i64::MIN
                } else {
                    v as i64
                })
            },
            Err(e) => Err(e),
        }
    }

    fn parse_be(input: &mut &[u8]) -> (r: ParseResult<i64>) {
        let ghost taken = input@.take(8);
        match read_be(input, 8) {
            Ok(v) => {
                proof {
                    lemma_be_value_bound(taken);
                    lemma_span_values();
                }
                Ok(if v >= 0x8000_0000_0000_0000 {
                    (v - 0x8000_0000_0000_0000) as i64 + i64::MIN
                } else {
                    v as i64
                })
            },
            Err(e) => Err(e),
        }
    }
}

/// An array without values: it takes no bytes.
impl<T: Parse> Parse for [T; 0] {
    open spec fn width() -> nat {
        0
    }

    open spec fn decode_le(bytes: Seq<u8>) -> [T; 0] {
        []
    }

    open spec fn decode_be(bytes: Seq<u8>) -> [T; 0] {
        []
    }

    fn parse_le(input: &mut &[u8]) -> (r: ParseResult<[T; 0]>) {
        assert(input@.skip(0) == input@);
        Ok([])
    }

    fn parse_be(input: &mut &[u8]) -> (r: ParseResult<[T; 0]>) {
        assert(input@.skip(0) == input@);
        Ok([])
    }
}

/// An array of 1 value.
impl<T: Parse> Parse for [T; 1] {
    open spec fn width() -> nat {
        T::width()
    }

    open spec fn decode_le(bytes: Seq<u8>) -> [T; 1] {
        [T::decode_le(bytes)]
    }

    open spec fn decode_be(bytes: Seq<u8>) -> [T; 1] {
        [T::decode_be(bytes)]
    }

    fn parse_le(input: &mut &[u8]) -> (r: ParseResult<[T; 1]>) {
        let mut bytes = *input;
        let a = T::parse_le(&mut bytes)?;
        *input = bytes;
        Ok([a])
    }

    fn parse_be(input: &mut &[u8]) -> (r: ParseResult<[T; 1]>) {
        let mut bytes = *input;
        let a = T::parse_be(&mut bytes)?;
        *input = bytes;
        Ok([a])
    }
}

/// An array of 2 values, one after the other.
impl<T: Parse> Parse for [T; 2] {
    open spec fn width() -> nat {
        2 * T::width()
    }

    open spec fn decode_le(bytes: Seq<u8>) -> [T; 2] {
        [
            T::decode_le(bytes),
            T::decode_le(bytes.skip(T::width() as int)),
        ]
    }

    open spec fn decode_be(bytes: Seq<u8>) -> [T; 2] {
        [
            T::decode_be(bytes),
            T::decode_be(bytes.skip(T::width() as int)),
        ]
    }

    fn parse_le(input: &mut &[u8]) -> (r: ParseResult<[T; 2]>) {
        let mut bytes = *input;
        let a = T::parse_le(&mut bytes)?;
        let b = T::parse_le(&mut bytes)?;
        *input = bytes;
        Ok([a, b])
    }

    fn parse_be(input: &mut &[u8]) -> (r: ParseResult<[T; 2]>) {
        let mut bytes = *input;
        let a = T::parse_be(&mut bytes)?;
        let b = T::parse_be(&mut bytes)?;
        *input = bytes;
        Ok([a, b])
    }
}

/// An array of 3 values, one after the other.
impl<T: Parse> Parse for [T; 3] {
    open spec fn width() -> nat {
        3 * T::width()
    }

    open spec fn decode_le(bytes: Seq<u8>) -> [T; 3] {
        [
            T::decode_le(bytes),
            T::decode_le(bytes.skip(T::width() as int)),
            T::decode_le(bytes.skip((2 * T::width()) as int)),
        ]
    }

    open spec fn decode_be(bytes: Seq<u8>) -> [T; 3] {
        [
            T::decode_be(bytes),
            T::decode_be(bytes.skip(T::width() as int)),
            T::decode_be(bytes.skip((2 * T::width()) as int)),
        ]
    }

    fn parse_le(input: &mut &[u8]) -> (r: ParseResult<[T; 3]>) {
        let mut bytes = *input;
        let a = T::parse_le(&mut bytes)?;
        let b = T::parse_le(&mut bytes)?;
        let c = T::parse_le(&mut bytes)?;
        *input = bytes;
        Ok([a, b, c])
    }

    fn parse_be(input: &mut &[u8]) -> (r: ParseResult<[T; 3]>) {
        let mut bytes = *input;
        let a = T::parse_be(&mut bytes)?;
        let b = T::parse_be(&mut bytes)?;
        let c = T::parse_be(&mut bytes)?;
        *input = bytes;
        Ok([a, b, c])
    }
}

/// An array of 4 values, one after the other.
impl<T: Parse> Parse for [T; 4] {
    open spec fn width() -> nat {
        4 * T::width()
    }

    open spec fn decode_le(bytes: Seq<u8>) -> [T; 4] {
        [
            T::decode_le(bytes),
            T::decode_le(bytes.skip(T::width() as int)),
            T::decode_le(bytes.skip((2 * T::width()) as int)),
            T::decode_le(bytes.skip((3 * T::width()) as int)),
        ]
    }

    open spec fn decode_be(bytes: Seq<u8>) -> [T; 4] {
        [
            T::decode_be(bytes),
            T::decode_be(bytes.skip(T::width() as int)),
            T::decode_be(bytes.skip((2 * T::width()) as int)),
            T::decode_be(bytes.skip((3 * T::width()) as int)),
        ]
    }

    fn parse_le(input: &mut &[u8]) -> (r: ParseResult<[T; 4]>) {
        let mut bytes = *input;
        let a = T::parse_le(&mut bytes)?;
        let b = T::parse_le(&mut bytes)?;
        let c = T::parse_le(&mut bytes)?;
        let d = T::parse_le(&mut bytes)?;
        *input = bytes;
        Ok([a, b, c, d])
    }

    fn parse_be(input: &mut &[u8]) -> (r: ParseResult<[T; 4]>) {
        let mut bytes = *input;
        let a = T::parse_be(&mut bytes)?;
        let b = T::parse_be(&mut bytes)?;
        let c = T::parse_be(&mut bytes)?;
        let d = T::parse_be(&mut bytes)?;
        *input = bytes;
        Ok([a, b, c, d])
    }
}

proof fn lemma_be_bytes_len(v: nat, width: nat)
    ensures
        be_bytes(v, width).len() == width,
    decreases width,
{
    if width > 0 {
        lemma_be_bytes_len(v / 256, (width - 1) as nat);
    }
}

proof fn lemma_le_bytes_len(v: nat, width: nat)
    ensures
        le_bytes(v, width).len() == width,
    decreases width,
{
    if width > 0 {
        lemma_le_bytes_len(v / 256, (width - 1) as nat);
    }
}

proof fn lemma_be_value_of_bytes(v: nat, width: nat)
    requires
        v < span(width),
    ensures
        be_value(be_bytes(v, width)) == v,
    decreases width,
{
    if width > 0 {
        let head = be_bytes(v / 256, (width - 1) as nat);
        lemma_be_value_of_bytes(v / 256, (width - 1) as nat);
        assert(be_bytes(v, width).drop_last() == head);
    }
}

proof fn lemma_le_value_of_bytes(v: nat, width: nat)
    requires
        v < span(width),
    ensures
        le_value(le_bytes(v, width)) == v,
    decreases width,
{
    if width > 0 {
        let tail = le_bytes(v / 256, (width - 1) as nat);
        lemma_le_value_of_bytes(v / 256, (width - 1) as nat);
        assert(le_bytes(v, width).drop_first() == tail);
    }
}

/// Decoding undoes encoding: the `width` bytes that spell `v` in either byte
/// order, followed by any bytes `rest`, decode to `v` again, and `rest` is
/// what lies beyond them.
pub proof fn lemma_round_trip(v: nat, width: nat, rest: Seq<u8>)
    requires
        v < span(width),
    ensures
        be_bytes(v, width).len() == width,
        le_bytes(v, width).len() == width,
        be_value((be_bytes(v, width) + rest).take(width as int)) == v,
        le_value((le_bytes(v, width) + rest).take(width as int)) == v,
        (be_bytes(v, width) + rest).skip(width as int) == rest,
        (le_bytes(v, width) + rest).skip(width as int) == rest,
{
    lemma_be_bytes_len(v, width);
    lemma_le_bytes_len(v, width);
    lemma_be_value_of_bytes(v, width);
    lemma_le_value_of_bytes(v, width);
    assert((be_bytes(v, width) + rest).take(width as int) == be_bytes(v, width));
    assert((le_bytes(v, width) + rest).take(width as int) == le_bytes(v, width));
}

/// Round trip of `u8`: reading the byte that spells `v`, in either byte
/// order and whatever follows it, gives `v` and leaves what follows.
pub proof fn lemma_u8_round_trip(v: u8, rest: Seq<u8>)
    ensures
        u8::decode_be(be_bytes(v as nat, 1) + rest) == v,
        u8::decode_le(le_bytes(v as nat, 1) + rest) == v,
        (be_bytes(v as nat, 1) + rest).skip(1) == rest,
        (le_bytes(v as nat, 1) + rest).skip(1) == rest,
{
    lemma_span_values();
    lemma_round_trip(v as nat, 1, rest);
}

/// Round trip of `u16`: reading the 2 bytes that spell `v`, in either byte
/// order and whatever follows them, gives `v` and leaves what follows.
pub proof fn lemma_u16_round_trip(v: u16, rest: Seq<u8>)
    ensures
        u16::decode_be(be_bytes(v as nat, 2) + rest) == v,
        u16::decode_le(le_bytes(v as nat, 2) + rest) == v,
        (be_bytes(v as nat, 2) + rest).skip(2) == rest,
        (le_bytes(v as nat, 2) + rest).skip(2) == rest,
{
    lemma_span_values();
    lemma_round_trip(v as nat, 2, rest);
}

/// Round trip of `u32`: reading the 4 bytes that spell `v`, in either byte
/// order and whatever follows them, gives `v` and leaves what follows.
pub proof fn lemma_u32_round_trip(v: u32, rest: Seq<u8>)
    ensures
        u32::decode_be(be_bytes(v as nat, 4) + rest) == v,
        u32::decode_le(le_bytes(v as nat, 4) + rest) == v,
        (be_bytes(v as nat, 4) + rest).skip(4) == rest,
        (le_bytes(v as nat, 4) + rest).skip(4) == rest,
{
    lemma_span_values();
    lemma_round_trip(v as nat, 4, rest);
}

/// Round trip of `u64`: reading the 8 bytes that spell `v`, in either byte
/// order and whatever follows them, gives `v` and leaves what follows.
pub proof fn lemma_u64_round_trip(v: u64, rest: Seq<u8>)
    ensures
        u64::decode_be(be_bytes(v as nat, 8) + rest) == v,
        u64::decode_le(le_bytes(v as nat, 8) + rest) == v,
        (be_bytes(v as nat, 8) + rest).skip(8) == rest,
        (le_bytes(v as nat, 8) + rest).skip(8) == rest,
{
    lemma_span_values();
    lemma_round_trip(v as nat, 8, rest);
}

/// Round trip of `i8`: reading the byte that spells `v`, in either byte
/// order and whatever follows it, gives `v` and leaves what follows.
pub proof fn lemma_i8_round_trip(v: i8, rest: Seq<u8>)
    ensures
        i8::decode_be(be_bytes(twos_complement_of(v as int, span(1)), 1) + rest) == v,
        i8::decode_le(le_bytes(twos_complement_of(v as int, span(1)), 1) + rest) == v,
        (be_bytes(twos_complement_of(v as int, span(1)), 1) + rest).skip(1) == rest,
        (le_bytes(twos_complement_of(v as int, span(1)), 1) + rest).skip(1) == rest,
{
    lemma_span_values();
    lemma_round_trip(twos_complement_of(v as int, span(1)), 1, rest);
}

/// Round trip of `i16`: reading the 2 bytes that spell `v`, in either byte
/// order and whatever follows them, gives `v` and leaves what follows.
pub proof fn lemma_i16_round_trip(v: i16, rest: Seq<u8>)
    ensures
        i16::decode_be(be_bytes(twos_complement_of(v as int, span(2)), 2) + rest) == v,
        i16::decode_le(le_bytes(twos_complement_of(v as int, span(2)), 2) + rest) == v,
        (be_bytes(twos_complement_of(v as int, span(2)), 2) + rest).skip(2) == rest,
        (le_bytes(twos_complement_of(v as int, span(2)), 2) + rest).skip(2) == rest,
{
    lemma_span_values();
    lemma_round_trip(twos_complement_of(v as int, span(2)), 2, rest);
}

/// Round trip of `i32`: reading the 4 bytes that spell `v`, in either byte
/// order and whatever follows them, gives `v` and leaves what follows.
pub proof fn lemma_i32_round_trip(v: i32, rest: Seq<u8>)
    ensures
        i32::decode_be(be_bytes(twos_complement_of(v as int, span(4)), 4) + rest) == v,
        i32::decode_le(le_bytes(twos_complement_of(v as int, span(4)), 4) + rest) == v,
        (be_bytes(twos_complement_of(v as int, span(4)), 4) + rest).skip(4) == rest,
        (le_bytes(twos_complement_of(v as int, span(4)), 4) + rest).skip(4) == rest,
{
    lemma_span_values();
    lemma_round_trip(twos_complement_of(v as int, span(4)), 4, rest);
}

/// Round trip of `i64`: reading the 8 bytes that spell `v`, in either byte
/// order and whatever follows them, gives `v` and leaves what follows.
pub proof fn lemma_i64_round_trip(v: i64, rest: Seq<u8>)
    ensures
        i64::decode_be(be_bytes(twos_complement_of(v as int, span(8)), 8) + rest) == v,
        i64::decode_le(le_bytes(twos_complement_of(v as int, span(8)), 8) + rest) == v,
        (be_bytes(twos_complement_of(v as int, span(8)), 8) + rest).skip(8) == rest,
        (le_bytes(twos_complement_of(v as int, span(8)), 8) + rest).skip(8) == rest,
{
    lemma_span_values();
    lemma_round_trip(twos_complement_of(v as int, span(8)), 8, rest);
}

} // verus!
