//! Byte scanning and translation kernels for Base64 input: symbol counts,
//! symbol and alphanumeric prefixes, and two-byte translation. The lane
//! kernels process a block of 16 or 32 bytes at a time in the same way as the
//! vector instructions they stand for; every kernel agrees with the scalar
//! definition.

use vstd::prelude::*;

use crate::alphabet::{is_alphanumeric, is_ascii_alphanumeric, is_lenient_symbol, lenient_symbol};

verus! {

/// A lane that matches a comparison holds all ones, as vector compares do.
pub const LANE_SET: u8 = 255;

/// The number of lenient symbols in `input`.
pub open spec fn count_symbols(input: Seq<u8>, altchars: Option<[u8; 2]>) -> nat
    decreases input.len(),
{
    if input.len() == 0 {
        0
    } else {
        count_symbols(input.drop_last(), altchars) + if lenient_symbol(input.last(), altchars) {
            1nat
        } else {
            0nat
        }
    }
}

/// The result of translating one byte: `source0` becomes `target0`, otherwise
/// `source1` becomes `target1`, and every other byte stays.
pub open spec fn translate_byte(byte: u8, source0: u8, target0: u8, source1: u8, target1: u8) -> u8 {
    if byte == source0 {
        target0
    } else if byte == source1 {
        target1
    } else {
        byte
    }
}

/// `count_symbols` splits over concatenation.
pub proof fn lemma_count_symbols_append(a: Seq<u8>, b: Seq<u8>, altchars: Option<[u8; 2]>)
    ensures
        count_symbols(a + b, altchars) == count_symbols(a, altchars) + count_symbols(b, altchars),
    decreases b.len(),
{
    if b.len() == 0 {
        assert(a + b =~= a);
    } else {
        lemma_count_symbols_append(a, b.drop_last(), altchars);
        assert((a + b).drop_last() =~= a + b.drop_last());
        assert((a + b).last() == b.last());
    }
}

/// `count_symbols` of a prefix one byte longer.
pub proof fn lemma_count_symbols_take(input: Seq<u8>, i: int, altchars: Option<[u8; 2]>)
    requires
        0 <= i < input.len(),
    ensures
        count_symbols(input.take(i + 1), altchars) == count_symbols(input.take(i), altchars)
            + if lenient_symbol(input[i], altchars) {
            1nat
        } else {
            0nat
        },
{
    assert(input.take(i + 1).drop_last() =~= input.take(i));
}

/// The symbol count of a sequence is at most its length.
pub proof fn lemma_count_symbols_bound(input: Seq<u8>, altchars: Option<[u8; 2]>)
    ensures
        count_symbols(input, altchars) <= input.len(),
    decreases input.len(),
{
    if input.len() > 0 {
        lemma_count_symbols_bound(input.drop_last(), altchars);
    }
}

/// Count the lenient symbols of `input` one byte at a time.
pub fn symbol_count_scalar(input: &[u8], altchars: Option<[u8; 2]>) -> (count: usize)
    ensures
        count == count_symbols(input@, altchars),
{
    let mut count: usize = 0;
    let mut index: usize = 0;
    while index < input.len()
        invariant
            index <= input@.len(),
            count == count_symbols(input@.take(index as int), altchars),
            count <= index,
        decreases input@.len() - index,
    {
        proof {
            lemma_count_symbols_take(input@, index as int, altchars);
        }
        if is_lenient_symbol(input[index], altchars) {
            count = count + 1;
        }
        index = index + 1;
    }
    assert(input@.take(input@.len() as int) =~= input@);
    count
}

/// The length of the longest prefix of `input` made of ASCII letters and digits.
pub fn alphanumeric_prefix_scalar(input: &[u8]) -> (len: usize)
    ensures
        len <= input@.len(),
        forall|i: int| 0 <= i < len ==> is_alphanumeric(#[trigger] input@[i]),
        len < input@.len() ==> !is_alphanumeric(input@[len as int]),
{
    let mut index: usize = 0;
    while index < input.len()
        invariant
            index <= input@.len(),
            forall|i: int| 0 <= i < index ==> is_alphanumeric(#[trigger] input@[i]),
        decreases input@.len() - index,
    {
        if !is_ascii_alphanumeric(input[index]) {
            return index;
        }
        index = index + 1;
    }
    index
}

/// The length of the longest prefix of `input` made of lenient symbols.
pub fn symbol_prefix_scalar(input: &[u8], altchars: Option<[u8; 2]>) -> (len: usize)
    ensures
        len <= input@.len(),
        forall|i: int| 0 <= i < len ==> lenient_symbol(#[trigger] input@[i], altchars),
        len < input@.len() ==> !lenient_symbol(input@[len as int], altchars),
{
    let mut index: usize = 0;
    while index < input.len()
        invariant
            index <= input@.len(),
            forall|i: int| 0 <= i < index ==> lenient_symbol(#[trigger] input@[i], altchars),
        decreases input@.len() - index,
    {
        if !is_lenient_symbol(input[index], altchars) {
            return index;
        }
        index = index + 1;
    }
    index
}

/// Replace every `source0` with `target0` and, failing that, every `source1`
/// with `target1`, one byte at a time.
pub fn translate_scalar(input: &mut Vec<u8>, source0: u8, target0: u8, source1: u8, target1: u8)
    ensures
        final(input)@.len() == old(input)@.len(),
        forall|i: int|
            0 <= i < old(input)@.len() ==> #[trigger] final(input)@[i] == translate_byte(
                old(input)@[i],
                source0,
                target0,
                source1,
                target1,
            ),
{
    let mut index: usize = 0;
    while index < input.len()
        invariant
            index <= input@.len(),
            input@.len() == old(input)@.len(),
            forall|i: int|
                0 <= i < index ==> #[trigger] input@[i] == translate_byte(
                    old(input)@[i],
                    source0,
                    target0,
                    source1,
                    target1,
                ),
            forall|i: int| index <= i < input@.len() ==> #[trigger] input@[i] == old(input)@[i],
        decreases input@.len() - index,
    {
        let byte = input[index];
        if byte == source0 {
            input.set(index, target0);
        } else if byte == source1 {
            input.set(index, target1);
        }
        index = index + 1;
    }
}

/// Lanes that hold `LANE_SET` where `lower <= byte <= upper` and zero elsewhere,
/// computed as the vector kernels do: `max(byte, lower) == byte` and
/// `min(byte, upper) == byte`.
pub fn range_lanes<const N: usize>(bytes: &[u8; N], lower: u8, upper: u8) -> (lanes: [u8; N])
    ensures
        forall|i: int|
            0 <= i < N ==> #[trigger] lanes@[i] == if lower <= bytes@[i] <= upper {
                LANE_SET
            } else {
                0u8
            },
{
    let mut lanes = *bytes;
    let mut index: usize = 0;
    while index < N
        invariant
            index <= N,
            lanes@.len() == N,
            bytes@.len() == N,
            forall|i: int|
                0 <= i < index ==> #[trigger] lanes@[i] == if lower <= bytes@[i] <= upper {
                    LANE_SET
                } else {
                    0u8
                },
        decreases N - index,
    {
        let byte = bytes[index];
        let at_least = if byte > lower {
            byte
        } else {
            lower
        } == byte;
        let at_most = if byte < upper {
            byte
        } else {
            upper
        } == byte;
        lanes[index] = if at_least && at_most {
            LANE_SET
        } else {
            0
        };
        index = index + 1;
    }
    lanes
}

/// Lanes that hold `LANE_SET` exactly at the lenient symbols, with `extra0` and
/// `extra1` as the alternative characters.
pub fn valid_lanes<const N: usize>(bytes: &[u8; N], extra0: u8, extra1: u8) -> (lanes: [u8; N])
    ensures
        forall|i: int|
            0 <= i < N ==> #[trigger] lanes@[i] == if lenient_symbol(
                bytes@[i],
                Some([extra0, extra1]),
            ) {
                LANE_SET
            } else {
                0u8
            },
{
    let upper = range_lanes(bytes, 65, 90);
    let lower = range_lanes(bytes, 97, 122);
    let digits = range_lanes(bytes, 48, 57);
    let mut lanes = *bytes;
    let mut index: usize = 0;
    while index < N
        invariant
            index <= N,
            lanes@.len() == N,
            bytes@.len() == N,
            forall|i: int|
                0 <= i < N ==> #[trigger] upper@[i] == if 65 <= bytes@[i] <= 90 {
                    LANE_SET
                } else {
                    0u8
                },
            forall|i: int|
                0 <= i < N ==> #[trigger] lower@[i] == if 97 <= bytes@[i] <= 122 {
                    LANE_SET
                } else {
                    0u8
                },
            forall|i: int|
                0 <= i < N ==> #[trigger] digits@[i] == if 48 <= bytes@[i] <= 57 {
                    LANE_SET
                } else {
                    0u8
                },
            forall|i: int|
                0 <= i < index ==> #[trigger] lanes@[i] == if lenient_symbol(
                    bytes@[i],
                    Some([extra0, extra1]),
                ) {
                    LANE_SET
                } else {
                    0u8
                },
        decreases N - index,
    {
        let byte = bytes[index];
        let special = byte == 43 || byte == 47 || byte == extra0 || byte == extra1;
        lanes[index] = if upper[index] != 0 || lower[index] != 0 || digits[index] != 0 || special {
            LANE_SET
        } else {
            0
        };
        index = index + 1;
    }
    lanes
}

/// The number of lanes that hold a nonzero value, as a movemask population
/// count gives it.
pub fn set_lane_count<const N: usize>(lanes: &[u8; N]) -> (count: usize)
    ensures
        count <= N,
        count == lane_count_spec(lanes@, N as int),
{
    let mut count: usize = 0;
    let mut index: usize = 0;
    while index < N
        invariant
            index <= N,
            lanes@.len() == N,
            count <= index,
            count == lane_count_spec(lanes@, index as int),
        decreases N - index,
    {
        if lanes[index] != 0 {
            count = count + 1;
        }
        index = index + 1;
    }
    count
}

/// The number of nonzero lanes among the first `n`.
pub open spec fn lane_count_spec(lanes: Seq<u8>, n: int) -> nat
    decreases n,
{
    if n <= 0 {
        0
    } else {
        lane_count_spec(lanes, n - 1) + if lanes[n - 1] != 0 {
            1nat
        } else {
            0nat
        }
    }
}

/// Counting the valid lanes of a block counts its symbols.
pub proof fn lemma_lane_count_symbols(
    lanes: Seq<u8>,
    block: Seq<u8>,
    n: int,
    altchars: Option<[u8; 2]>,
)
    requires
        0 <= n <= block.len(),
        lanes.len() == block.len(),
        forall|i: int|
            0 <= i < block.len() ==> (lanes[i] != 0) == lenient_symbol(block[i], altchars),
    ensures
        lane_count_spec(lanes, n) == count_symbols(block.take(n), altchars),
    decreases n,
{
    if n > 0 {
        lemma_lane_count_symbols(lanes, block, n - 1, altchars);
        lemma_count_symbols_take(block, n - 1, altchars);
    }
}

/// The alternative characters as two extra lane bytes; without alternative
/// characters `A`, already a symbol, fills both.
pub fn extra_symbols(altchars: Option<[u8; 2]>) -> (extras: [u8; 2])
    ensures
        forall|b: u8| lenient_symbol(b, Some(extras)) == lenient_symbol(b, altchars),
{
    match altchars {
        Some(pair) => pair,
        None => [65, 65],
    }
}

/// The 32 lanes of `bytes` that lie in `lower..=upper`.
pub fn range_avx2(bytes: &[u8; 32], lower: u8, upper: u8) -> (lanes: [u8; 32])
    ensures
        forall|i: int|
            0 <= i < 32 ==> #[trigger] lanes@[i] == if lower <= bytes@[i] <= upper {
                LANE_SET
            } else {
                0u8
            },
{
    range_lanes(bytes, lower, upper)
}

/// The 32 lanes of `bytes` that hold lenient symbols with the extra
/// characters `extra0` and `extra1`.
pub fn valid_avx2(bytes: &[u8; 32], extra0: &[u8; 32], extra1: &[u8; 32]) -> (lanes: [u8; 32])
    ensures
        forall|i: int|
            0 <= i < 32 ==> #[trigger] lanes@[i] == if lenient_symbol(
                bytes@[i],
                Some([extra0@[i], extra1@[i]]),
            ) {
                LANE_SET
            } else {
                0u8
            },
{
    valid_lanes_per_lane(bytes, extra0, extra1)
}

/// The 16 lanes of `bytes` that lie in `lower..=upper`.
pub fn range_sse2(bytes: &[u8; 16], lower: u8, upper: u8) -> (lanes: [u8; 16])
    ensures
        forall|i: int|
            0 <= i < 16 ==> #[trigger] lanes@[i] == if lower <= bytes@[i] <= upper {
                LANE_SET
            } else {
                0u8
            },
{
    range_lanes(bytes, lower, upper)
}

/// The 16 lanes of `bytes` that hold lenient symbols with the extra
/// characters `extra0` and `extra1`.
pub fn valid_sse2(bytes: &[u8; 16], extra0: &[u8; 16], extra1: &[u8; 16]) -> (lanes: [u8; 16])
    ensures
        forall|i: int|
            0 <= i < 16 ==> #[trigger] lanes@[i] == if lenient_symbol(
                bytes@[i],
                Some([extra0@[i], extra1@[i]]),
            ) {
                LANE_SET
            } else {
                0u8
            },
{
    valid_lanes_per_lane(bytes, extra0, extra1)
}


/// The lanes of `bytes` that hold lenient symbols, each lane with its own
/// pair of extra characters, as vector registers hold them.
pub fn valid_lanes_per_lane<const N: usize>(bytes: &[u8; N], extra0: &[u8; N], extra1: &[u8; N]) -> (lanes: [u8; N])
    ensures
        forall|i: int|
            0 <= i < N ==> #[trigger] lanes@[i] == if lenient_symbol(
                bytes@[i],
                Some([extra0@[i], extra1@[i]]),
            ) {
                LANE_SET
            } else {
                0u8
            },
{
    let mut lanes = *bytes;
    let mut index: usize = 0;
    while index < N
        invariant
            index <= N,
            lanes@.len() == N,
            bytes@.len() == N,
            extra0@.len() == N,
            extra1@.len() == N,
            forall|i: int|
                0 <= i < index ==> #[trigger] lanes@[i] == if lenient_symbol(
                    bytes@[i],
                    Some([extra0@[i], extra1@[i]]),
                ) {
                    LANE_SET
                } else {
                    0u8
                },
        decreases N - index,
    {
        let symbol = is_lenient_symbol(bytes[index], Some([extra0[index], extra1[index]]));
        lanes[index] = if symbol {
            LANE_SET
        } else {
            0u8
        };
        index = index + 1;
    }
    lanes
}

/// The `N` lanes that all hold `byte`.
pub fn splat<const N: usize>(byte: u8) -> (lanes: [u8; N])
    ensures
        forall|i: int| 0 <= i < N ==> #[trigger] lanes@[i] == byte,
{
    [byte; N]
}

/// Copy `input[start..start + N]` into `block`.
pub fn load_block<const N: usize>(input: &[u8], start: usize, block: &mut [u8; N])
    requires
        start + N <= input@.len(),
    ensures
        final(block)@ == input@.subrange(start as int, start + N),
{
    let mut lane: usize = 0;
    while lane < N
        invariant
            lane <= N,
            start + N <= input@.len(),
            input@.len() == input.len(),
            block@.len() == N,
            forall|i: int| 0 <= i < lane ==> block@[i] == input@[start + i],
        decreases N - lane,
    {
        block[lane] = input[start + lane];
        lane = lane + 1;
    }
    assert(block@ =~= input@.subrange(start as int, start + N));
}

/// The index of the first zero lane, or `N` when every lane is set.
pub fn first_clear_lane<const N: usize>(lanes: &[u8; N]) -> (index: usize)
    ensures
        index <= N,
        forall|i: int| 0 <= i < index ==> #[trigger] lanes@[i] != 0,
        index < N ==> lanes@[index as int] == 0,
{
    let mut index: usize = 0;
    while index < N
        invariant
            index <= N,
            lanes@.len() == N,
            forall|i: int| 0 <= i < index ==> #[trigger] lanes@[i] != 0,
        decreases N - index,
    {
        if lanes[index] == 0 {
            return index;
        }
        index = index + 1;
    }
    index
}

/// Lanes that hold `LANE_SET` exactly at the ASCII letters and digits.
pub fn alphanumeric_lanes<const N: usize>(bytes: &[u8; N]) -> (lanes: [u8; N])
    ensures
        forall|i: int|
            0 <= i < N ==> #[trigger] lanes@[i] == if is_alphanumeric(bytes@[i]) {
                LANE_SET
            } else {
                0u8
            },
{
    let upper = range_lanes(bytes, 65, 90);
    let lower = range_lanes(bytes, 97, 122);
    let digits = range_lanes(bytes, 48, 57);
    let mut lanes = *bytes;
    let mut index: usize = 0;
    while index < N
        invariant
            index <= N,
            lanes@.len() == N,
            bytes@.len() == N,
            forall|i: int|
                0 <= i < N ==> #[trigger] upper@[i] == if 65 <= bytes@[i] <= 90 {
                    LANE_SET
                } else {
                    0u8
                },
            forall|i: int|
                0 <= i < N ==> #[trigger] lower@[i] == if 97 <= bytes@[i] <= 122 {
                    LANE_SET
                } else {
                    0u8
                },
            forall|i: int|
                0 <= i < N ==> #[trigger] digits@[i] == if 48 <= bytes@[i] <= 57 {
                    LANE_SET
                } else {
                    0u8
                },
            forall|i: int|
                0 <= i < index ==> #[trigger] lanes@[i] == if is_alphanumeric(bytes@[i]) {
                    LANE_SET
                } else {
                    0u8
                },
        decreases N - index,
    {
        lanes[index] = if upper[index] != 0 || lower[index] != 0 || digits[index] != 0 {
            LANE_SET
        } else {
            0
        };
        index = index + 1;
    }
    lanes
}

/// Count lenient symbols one block of `N` bytes at a time with the generic
/// lane kernel, then finish the tail one byte at a time.
pub fn symbol_count_blocks<const N: usize>(input: &[u8], altchars: Option<[u8; 2]>, scratch: [u8; N]) -> (count: usize)
    requires
        N > 0,
    ensures
        count == count_symbols(input@, altchars),
{
    let extras = extra_symbols(altchars);
    let mut block = scratch;
    let mut source: usize = 0;
    let mut symbols: usize = 0;
    while input.len() - source >= N
        invariant
            N > 0,
            source <= input@.len(),
            input@.len() == input.len(),
            symbols == count_symbols(input@.take(source as int), altchars),
            symbols <= source,
            forall|b: u8| lenient_symbol(b, Some(extras)) == lenient_symbol(b, altchars),
        decreases input@.len() - source,
    {
        load_block(input, source, &mut block);
        let valid = valid_lanes(&block, extras[0], extras[1]);
        let found = set_lane_count(&valid);
        proof {
            let chunk = input@.subrange(source as int, source + N);
            lemma_lane_count_symbols(valid@, block@, N as int, altchars);
            assert(block@.take(N as int) =~= block@);
            lemma_count_symbols_append(input@.take(source as int), chunk, altchars);
            assert(input@.take(source as int) + chunk =~= input@.take(source + N));
        }
        symbols = symbols + found;
        source = source + N;
    }
    let tail = symbol_count_scalar(vstd::slice::slice_subrange(input, source, input.len()), altchars);
    proof {
        let rest = input@.subrange(source as int, input@.len() as int);
        lemma_count_symbols_append(input@.take(source as int), rest, altchars);
        assert(input@.take(source as int) + rest =~= input@);
        lemma_count_symbols_bound(input@, altchars);
    }
    symbols + tail
}

/// The longest prefix of lenient symbols, found one block of `N` bytes at a
/// time: the first clear lane of a block ends the prefix.
pub fn symbol_prefix_blocks<const N: usize>(input: &[u8], altchars: Option<[u8; 2]>, scratch: [u8; N]) -> (len: usize)
    requires
        N > 0,
    ensures
        len <= input@.len(),
        forall|i: int| 0 <= i < len ==> lenient_symbol(#[trigger] input@[i], altchars),
        len < input@.len() ==> !lenient_symbol(input@[len as int], altchars),
{
    let extras = extra_symbols(altchars);
    let mut block = scratch;
    let mut source: usize = 0;
    while input.len() - source >= N
        invariant
            N > 0,
            source <= input@.len(),
            input@.len() == input.len(),
            forall|i: int| 0 <= i < source ==> lenient_symbol(#[trigger] input@[i], altchars),
            forall|b: u8| lenient_symbol(b, Some(extras)) == lenient_symbol(b, altchars),
        decreases input@.len() - source,
    {
        load_block(input, source, &mut block);
        let valid = valid_lanes(&block, extras[0], extras[1]);
        let clear = first_clear_lane(&valid);
        assert forall|i: int| source <= i < source + clear implies lenient_symbol(
            #[trigger] input@[i],
            altchars,
        ) by {
            assert(valid@[i - source] != 0);
        }
        if clear < N {
            assert(valid@[clear as int] == 0);
            return source + clear;
        }
        source = source + N;
    }
    let rest = vstd::slice::slice_subrange(input, source, input.len());
    let tail = symbol_prefix_scalar(rest, altchars);
    assert forall|i: int| source <= i < source + tail implies lenient_symbol(
        #[trigger] input@[i],
        altchars,
    ) by {
        assert(rest@[i - source] == input@[i]);
    }
    if source + tail < input.len() {
        assert(rest@[tail as int] == input@[source + tail]);
    }
    source + tail
}

/// The longest prefix of ASCII letters and digits, found one block of `N`
/// bytes at a time.
pub fn alphanumeric_prefix_blocks<const N: usize>(input: &[u8], scratch: [u8; N]) -> (len: usize)
    requires
        N > 0,
    ensures
        len <= input@.len(),
        forall|i: int| 0 <= i < len ==> is_alphanumeric(#[trigger] input@[i]),
        len < input@.len() ==> !is_alphanumeric(input@[len as int]),
{
    let mut block = scratch;
    let mut source: usize = 0;
    while input.len() - source >= N
        invariant
            N > 0,
            source <= input@.len(),
            input@.len() == input.len(),
            forall|i: int| 0 <= i < source ==> is_alphanumeric(#[trigger] input@[i]),
        decreases input@.len() - source,
    {
        load_block(input, source, &mut block);
        let valid = alphanumeric_lanes(&block);
        let clear = first_clear_lane(&valid);
        assert forall|i: int| source <= i < source + clear implies is_alphanumeric(
            #[trigger] input@[i],
        ) by {
            assert(valid@[i - source] != 0);
        }
        if clear < N {
            assert(valid@[clear as int] == 0);
            return source + clear;
        }
        source = source + N;
    }
    let rest = vstd::slice::slice_subrange(input, source, input.len());
    let tail = alphanumeric_prefix_scalar(rest);
    assert forall|i: int| source <= i < source + tail implies is_alphanumeric(
        #[trigger] input@[i],
    ) by {
        assert(rest@[i - source] == input@[i]);
    }
    if source + tail < input.len() {
        assert(rest@[tail as int] == input@[source + tail]);
    }
    source + tail
}

/// Translate one block of `N` bytes at a time with lane masks, then finish
/// the tail one byte at a time.
pub fn translate_blocks<const N: usize>(
    input: &mut Vec<u8>,
    source0: u8,
    target0: u8,
    source1: u8,
    target1: u8,
    scratch: [u8; N],
)
    requires
        N > 0,
    ensures
        final(input)@.len() == old(input)@.len(),
        forall|i: int|
            0 <= i < old(input)@.len() ==> #[trigger] final(input)@[i] == translate_byte(
                old(input)@[i],
                source0,
                target0,
                source1,
                target1,
            ),
{
    let mut block = scratch;
    let mut offset: usize = 0;
    while input.len() - offset >= N
        invariant
            N > 0,
            offset <= input@.len(),
            input@.len() == old(input)@.len(),
            block@.len() == N,
            forall|i: int|
                0 <= i < offset ==> #[trigger] input@[i] == translate_byte(
                    old(input)@[i],
                    source0,
                    target0,
                    source1,
                    target1,
                ),
            forall|i: int| offset <= i < input@.len() ==> #[trigger] input@[i] == old(input)@[i],
        decreases input@.len() - offset,
    {
        load_block(input.as_slice(), offset, &mut block);
        let mut lane: usize = 0;
        while lane < N
            invariant
                lane <= N,
                offset + N <= input.len(),
                input@.len() == old(input)@.len(),
                block@.len() == N,
                forall|i: int| 0 <= i < N ==> #[trigger] block@[i] == old(input)@[offset + i],
                forall|i: int|
                    0 <= i < offset + lane ==> #[trigger] input@[i] == translate_byte(
                        old(input)@[i],
                        source0,
                        target0,
                        source1,
                        target1,
                    ),
                forall|i: int|
                    offset + lane <= i < input@.len() ==> #[trigger] input@[i] == old(input)@[i],
            decreases N - lane,
        {
            let byte = block[lane];
            let mask0 = byte == source0;
            let translated0 = if mask0 {
                target0
            } else {
                byte
            };
            let mask1 = byte == source1;
            let translated1 = if mask1 && !mask0 {
                target1
            } else {
                translated0
            };
            input.set(offset + lane, translated1);
            lane = lane + 1;
        }
        offset = offset + N;
    }
    while offset < input.len()
        invariant
            offset <= input@.len(),
            input@.len() == old(input)@.len(),
            forall|i: int|
                0 <= i < offset ==> #[trigger] input@[i] == translate_byte(
                    old(input)@[i],
                    source0,
                    target0,
                    source1,
                    target1,
                ),
            forall|i: int| offset <= i < input@.len() ==> #[trigger] input@[i] == old(input)@[i],
        decreases input@.len() - offset,
    {
        let byte = input[offset];
        if byte == source0 {
            input.set(offset, target0);
        } else if byte == source1 {
            input.set(offset, target1);
        }
        offset = offset + 1;
    }
}


/// Count lenient symbols 32 bytes at a time, as the AVX2 kernel does, and
/// finish the tail one byte at a time.
pub fn symbol_count_avx2(input: &[u8], altchars: Option<[u8; 2]>) -> (count: usize)
    ensures
        count == count_symbols(input@, altchars),
{
    let extras = extra_symbols(altchars);
    let first: [u8; 32] = splat(extras[0]);
    let second: [u8; 32] = splat(extras[1]);
    let mut block = [0u8; 32];
    let mut source: usize = 0;
    let mut symbols: usize = 0;
    while input.len() - source >= 32
        invariant
            source <= input@.len(),
            input@.len() == input.len(),
            symbols == count_symbols(input@.take(source as int), altchars),
            symbols <= source,
            forall|b: u8| lenient_symbol(b, Some(extras)) == lenient_symbol(b, altchars),
            forall|i: int| 0 <= i < 32 ==> #[trigger] first@[i] == extras[0],
            forall|i: int| 0 <= i < 32 ==> #[trigger] second@[i] == extras[1],
        decreases input@.len() - source,
    {
        load_block(input, source, &mut block);
        let valid = valid_avx2(&block, &first, &second);
        proof {
            assert forall|i: int| 0 <= i < 32 implies #[trigger] valid@[i] == if lenient_symbol(
                block@[i],
                Some(extras),
            ) {
                LANE_SET
            } else {
                0u8
            } by {
                assert([first@[i], second@[i]] =~= extras);
            }
        }
        let found = set_lane_count(&valid);
        proof {
            let chunk = input@.subrange(source as int, source + 32);
            lemma_lane_count_symbols(valid@, block@, 32, altchars);
            assert(block@.take(32) =~= block@);
            lemma_count_symbols_append(input@.take(source as int), chunk, altchars);
            assert(input@.take(source as int) + chunk =~= input@.take(source + 32));
        }
        symbols = symbols + found;
        source = source + 32;
    }
    let tail = symbol_count_scalar(vstd::slice::slice_subrange(input, source, input.len()), altchars);
    proof {
        let rest = input@.subrange(source as int, input@.len() as int);
        lemma_count_symbols_append(input@.take(source as int), rest, altchars);
        assert(input@.take(source as int) + rest =~= input@);
        lemma_count_symbols_bound(input@, altchars);
    }
    symbols + tail
}

/// Count lenient symbols 16 bytes at a time, as the SSE2 kernel does, and
/// finish the tail one byte at a time.
pub fn symbol_count_sse2(input: &[u8], altchars: Option<[u8; 2]>) -> (count: usize)
    ensures
        count == count_symbols(input@, altchars),
{
    let extras = extra_symbols(altchars);
    let first: [u8; 16] = splat(extras[0]);
    let second: [u8; 16] = splat(extras[1]);
    let mut block = [0u8; 16];
    let mut source: usize = 0;
    let mut symbols: usize = 0;
    while input.len() - source >= 16
        invariant
            source <= input@.len(),
            input@.len() == input.len(),
            symbols == count_symbols(input@.take(source as int), altchars),
            symbols <= source,
            forall|b: u8| lenient_symbol(b, Some(extras)) == lenient_symbol(b, altchars),
            forall|i: int| 0 <= i < 16 ==> #[trigger] first@[i] == extras[0],
            forall|i: int| 0 <= i < 16 ==> #[trigger] second@[i] == extras[1],
        decreases input@.len() - source,
    {
        load_block(input, source, &mut block);
        let valid = valid_sse2(&block, &first, &second);
        proof {
            assert forall|i: int| 0 <= i < 16 implies #[trigger] valid@[i] == if lenient_symbol(
                block@[i],
                Some(extras),
            ) {
                LANE_SET
            } else {
                0u8
            } by {
                assert([first@[i], second@[i]] =~= extras);
            }
        }
        let found = set_lane_count(&valid);
        proof {
            let chunk = input@.subrange(source as int, source + 16);
            lemma_lane_count_symbols(valid@, block@, 16, altchars);
            assert(block@.take(16) =~= block@);
            lemma_count_symbols_append(input@.take(source as int), chunk, altchars);
            assert(input@.take(source as int) + chunk =~= input@.take(source + 16));
        }
        symbols = symbols + found;
        source = source + 16;
    }
    let tail = symbol_count_scalar(vstd::slice::slice_subrange(input, source, input.len()), altchars);
    proof {
        let rest = input@.subrange(source as int, input@.len() as int);
        lemma_count_symbols_append(input@.take(source as int), rest, altchars);
        assert(input@.take(source as int) + rest =~= input@);
        lemma_count_symbols_bound(input@, altchars);
    }
    symbols + tail
}

/// Count lenient symbols 16 bytes at a time, as the NEON kernel does.
pub fn symbol_count_neon(input: &[u8], altchars: Option<[u8; 2]>) -> (count: usize)
    ensures
        count == count_symbols(input@, altchars),
{
    symbol_count_blocks(input, altchars, [0u8; 16])
}

/// The alphanumeric prefix, 32 bytes at a time.
pub fn alphanumeric_prefix_avx2(input: &[u8]) -> (len: usize)
    ensures
        len <= input@.len(),
        forall|i: int| 0 <= i < len ==> is_alphanumeric(#[trigger] input@[i]),
        len < input@.len() ==> !is_alphanumeric(input@[len as int]),
{
    alphanumeric_prefix_blocks(input, [0u8; 32])
}

/// The alphanumeric prefix, 16 bytes at a time.
pub fn alphanumeric_prefix_sse2(input: &[u8]) -> (len: usize)
    ensures
        len <= input@.len(),
        forall|i: int| 0 <= i < len ==> is_alphanumeric(#[trigger] input@[i]),
        len < input@.len() ==> !is_alphanumeric(input@[len as int]),
{
    alphanumeric_prefix_blocks(input, [0u8; 16])
}

/// The lenient symbol prefix, 32 bytes at a time.
pub fn symbol_prefix_avx2(input: &[u8], altchars: Option<[u8; 2]>) -> (len: usize)
    ensures
        len <= input@.len(),
        forall|i: int| 0 <= i < len ==> lenient_symbol(#[trigger] input@[i], altchars),
        len < input@.len() ==> !lenient_symbol(input@[len as int], altchars),
{
    symbol_prefix_blocks(input, altchars, [0u8; 32])
}

/// The lenient symbol prefix, 16 bytes at a time.
pub fn symbol_prefix_sse2(input: &[u8], altchars: Option<[u8; 2]>) -> (len: usize)
    ensures
        len <= input@.len(),
        forall|i: int| 0 <= i < len ==> lenient_symbol(#[trigger] input@[i], altchars),
        len < input@.len() ==> !lenient_symbol(input@[len as int], altchars),
{
    symbol_prefix_blocks(input, altchars, [0u8; 16])
}

/// The lenient symbol prefix, 16 bytes at a time, as the NEON kernel does.
pub fn symbol_prefix_neon(input: &[u8], altchars: Option<[u8; 2]>) -> (len: usize)
    ensures
        len <= input@.len(),
        forall|i: int| 0 <= i < len ==> lenient_symbol(#[trigger] input@[i], altchars),
        len < input@.len() ==> !lenient_symbol(input@[len as int], altchars),
{
    symbol_prefix_blocks(input, altchars, [0u8; 16])
}

/// Translate 32 bytes at a time.
pub fn translate_avx2(input: &mut Vec<u8>, source0: u8, target0: u8, source1: u8, target1: u8)
    ensures
        final(input)@.len() == old(input)@.len(),
        forall|i: int|
            0 <= i < old(input)@.len() ==> #[trigger] final(input)@[i] == translate_byte(
                old(input)@[i],
                source0,
                target0,
                source1,
                target1,
            ),
{
    translate_blocks(input, source0, target0, source1, target1, [0u8; 32]);
}

/// Translate 16 bytes at a time.
pub fn translate_sse2(input: &mut Vec<u8>, source0: u8, target0: u8, source1: u8, target1: u8)
    ensures
        final(input)@.len() == old(input)@.len(),
        forall|i: int|
            0 <= i < old(input)@.len() ==> #[trigger] final(input)@[i] == translate_byte(
                old(input)@[i],
                source0,
                target0,
                source1,
                target1,
            ),
{
    translate_blocks(input, source0, target0, source1, target1, [0u8; 16]);
}

/// Translate 16 bytes at a time, as the NEON kernel does.
pub fn translate_neon(input: &mut Vec<u8>, source0: u8, target0: u8, source1: u8, target1: u8)
    ensures
        final(input)@.len() == old(input)@.len(),
        forall|i: int|
            0 <= i < old(input)@.len() ==> #[trigger] final(input)@[i] == translate_byte(
                old(input)@[i],
                source0,
                target0,
                source1,
                target1,
            ),
{
    translate_blocks(input, source0, target0, source1, target1, [0u8; 16]);
}

/// The kernel family that a scanner or translator dispatches to.
#[derive(Clone, Copy, Debug, PartialEq, Eq, Structural)]
pub enum KernelTier {
    Avx2,
    Sse2,
    Neon,
    Scalar,
}

/// The processor family the extension runs on.
#[derive(Clone, Copy, Debug, PartialEq, Eq, Structural)]
pub enum TargetArch {
    X86,
    Aarch64,
    Other,
}

/// The processor features that select the byte kernels.
#[derive(Clone, Copy, Debug, PartialEq, Eq, Structural)]
pub struct CpuFeatures {
    pub arch: TargetArch,
    pub avx2: bool,
    pub sse2: bool,
}

/// The x86 tier: AVX2 when available, then SSE2, then scalar.
pub open spec fn x86_tier(avx2: bool, sse2: bool) -> KernelTier {
    if avx2 {
        KernelTier::Avx2
    } else if sse2 {
        KernelTier::Sse2
    } else {
        KernelTier::Scalar
    }
}

/// The tier of the alphanumeric scanner on x86.
pub fn select_alphanumeric_prefix_for_x86(avx2: bool, sse2: bool) -> (tier: KernelTier)
    ensures
        tier == x86_tier(avx2, sse2),
{
    if avx2 {
        return KernelTier::Avx2;
    }
    if sse2 {
        return KernelTier::Sse2;
    }
    KernelTier::Scalar
}

/// The tier of the symbol-prefix scanner on x86.
pub fn select_symbol_prefix_for_x86(avx2: bool, sse2: bool) -> (tier: KernelTier)
    ensures
        tier == x86_tier(avx2, sse2),
{
    if avx2 {
        return KernelTier::Avx2;
    }
    if sse2 {
        return KernelTier::Sse2;
    }
    KernelTier::Scalar
}

/// The tier of the translator on x86.
pub fn select_translate_bytes_for_x86(avx2: bool, sse2: bool) -> (tier: KernelTier)
    ensures
        tier == x86_tier(avx2, sse2),
{
    if avx2 {
        return KernelTier::Avx2;
    }
    if sse2 {
        return KernelTier::Sse2;
    }
    KernelTier::Scalar
}

/// The tier of the alphanumeric scanner: vector kernels exist only on x86.
pub fn select_alphanumeric_prefix(features: CpuFeatures) -> (tier: KernelTier)
    ensures
        tier == match features.arch {
            TargetArch::X86 => x86_tier(features.avx2, features.sse2),
            _ => KernelTier::Scalar,
        },
{
    match features.arch {
        TargetArch::X86 => select_alphanumeric_prefix_for_x86(features.avx2, features.sse2),
        _ => KernelTier::Scalar,
    }
}

/// The tier of the symbol-prefix scanner: x86 by its features, NEON on
/// AArch64, scalar elsewhere.
pub fn select_symbol_prefix(features: CpuFeatures) -> (tier: KernelTier)
    ensures
        tier == match features.arch {
            TargetArch::X86 => x86_tier(features.avx2, features.sse2),
            TargetArch::Aarch64 => KernelTier::Neon,
            TargetArch::Other => KernelTier::Scalar,
        },
{
    match features.arch {
        TargetArch::X86 => select_symbol_prefix_for_x86(features.avx2, features.sse2),
        TargetArch::Aarch64 => KernelTier::Neon,
        TargetArch::Other => KernelTier::Scalar,
    }
}

/// The tier of the translator: x86 by its features, NEON on AArch64,
/// scalar elsewhere.
pub fn select_translate_bytes(features: CpuFeatures) -> (tier: KernelTier)
    ensures
        tier == match features.arch {
            TargetArch::X86 => x86_tier(features.avx2, features.sse2),
            TargetArch::Aarch64 => KernelTier::Neon,
            TargetArch::Other => KernelTier::Scalar,
        },
{
    match features.arch {
        TargetArch::X86 => select_translate_bytes_for_x86(features.avx2, features.sse2),
        TargetArch::Aarch64 => KernelTier::Neon,
        TargetArch::Other => KernelTier::Scalar,
    }
}

/// The kernels that the decoders use for one process.
#[derive(Clone, Copy, Debug, PartialEq, Eq, Structural)]
pub struct DecodeByteKernels {
    pub scanner: KernelTier,
    pub symbol_prefix: KernelTier,
    pub translate: KernelTier,
}

/// Select every decode kernel from the processor features.
pub fn decode_byte_kernels(features: CpuFeatures) -> (kernels: DecodeByteKernels)
    ensures
        kernels.scanner == select_alphanumeric_prefix_spec(features),
        kernels.symbol_prefix == select_translate_spec(features),
        kernels.translate == select_translate_spec(features),
{
    DecodeByteKernels {
        scanner: select_alphanumeric_prefix(features),
        symbol_prefix: select_symbol_prefix(features),
        translate: select_translate_bytes(features),
    }
}

/// The tier that `select_alphanumeric_prefix` gives.
pub open spec fn select_alphanumeric_prefix_spec(features: CpuFeatures) -> KernelTier {
    match features.arch {
        TargetArch::X86 => x86_tier(features.avx2, features.sse2),
        _ => KernelTier::Scalar,
    }
}

/// The tier that `select_symbol_prefix` and `select_translate_bytes` give.
pub open spec fn select_translate_spec(features: CpuFeatures) -> KernelTier {
    match features.arch {
        TargetArch::X86 => x86_tier(features.avx2, features.sse2),
        TargetArch::Aarch64 => KernelTier::Neon,
        TargetArch::Other => KernelTier::Scalar,
    }
}

/// Run the alphanumeric scanner of `tier`; AArch64 has no vector scanner of
/// its own, so the NEON tier scans one byte at a time.
pub fn alphanumeric_prefix(tier: KernelTier, input: &[u8]) -> (len: usize)
    ensures
        len <= input@.len(),
        forall|i: int| 0 <= i < len ==> is_alphanumeric(#[trigger] input@[i]),
        len < input@.len() ==> !is_alphanumeric(input@[len as int]),
{
    match tier {
        KernelTier::Avx2 => alphanumeric_prefix_avx2(input),
        KernelTier::Sse2 => alphanumeric_prefix_sse2(input),
        _ => alphanumeric_prefix_scalar(input),
    }
}

/// Run the symbol-prefix scanner of `tier`.
pub fn symbol_prefix(tier: KernelTier, input: &[u8], altchars: Option<[u8; 2]>) -> (len: usize)
    ensures
        len <= input@.len(),
        forall|i: int| 0 <= i < len ==> lenient_symbol(#[trigger] input@[i], altchars),
        len < input@.len() ==> !lenient_symbol(input@[len as int], altchars),
{
    match tier {
        KernelTier::Avx2 => symbol_prefix_avx2(input, altchars),
        KernelTier::Sse2 => symbol_prefix_sse2(input, altchars),
        KernelTier::Neon => symbol_prefix_neon(input, altchars),
        KernelTier::Scalar => symbol_prefix_scalar(input, altchars),
    }
}

/// Run the translator of `tier`.
pub fn translate_bytes(
    tier: KernelTier,
    input: &mut Vec<u8>,
    source0: u8,
    target0: u8,
    source1: u8,
    target1: u8,
)
    ensures
        final(input)@.len() == old(input)@.len(),
        forall|i: int|
            0 <= i < old(input)@.len() ==> #[trigger] final(input)@[i] == translate_byte(
                old(input)@[i],
                source0,
                target0,
                source1,
                target1,
            ),
{
    match tier {
        KernelTier::Avx2 => translate_avx2(input, source0, target0, source1, target1),
        KernelTier::Sse2 => translate_sse2(input, source0, target0, source1, target1),
        KernelTier::Neon => translate_neon(input, source0, target0, source1, target1),
        KernelTier::Scalar => translate_scalar(input, source0, target0, source1, target1),
    }
}

/// Count lenient symbols with the widest kernel that the processor offers
/// and the input fills.
pub fn lenient_symbol_count(input: &[u8], altchars: Option<[u8; 2]>, features: CpuFeatures) -> (count: usize)
    ensures
        count == count_symbols(input@, altchars),
{
    match features.arch {
        TargetArch::X86 => {
            if input.len() >= 32 && features.avx2 {
                return symbol_count_avx2(input, altchars);
            }
            if input.len() >= 16 && features.sse2 {
                return symbol_count_sse2(input, altchars);
            }
        },
        TargetArch::Aarch64 => {
            if input.len() >= 16 {
                return symbol_count_neon(input, altchars);
            }
        },
        TargetArch::Other => {},
    }
    symbol_count_scalar(input, altchars)
}

} // verus!
