//! CPython's non-strict Base64 decoding: discarded invalid bytes, padding
//! rules that depend on the Python version, and exact output sizing.

use vstd::prelude::*;
use vstd::slice::slice_subrange;

use crate::alphabet::{
    decoded_symbol_len, is_lenient_symbol, lemma_lenient_table_symbol, lenient_symbol,
    lenient_table, spec_decoded_symbol_len,
};
use crate::symbols::{count_symbols, decode_byte_kernels, lenient_symbol_count, symbol_prefix, CpuFeatures};

verus! {

/// The byte `=`.
pub const PAD: u8 = 61;

/// Why non-strict decoding gave no output.
#[derive(Clone, Copy, Debug, PartialEq, Eq, Structural)]
pub enum LenientDecodeError {
    /// The symbols end in an incomplete group.
    InvalidInput,
    /// The decoded bytes do not fit in the destination.
    OutputTooSmall,
}

/// A destination too small for the decoded output.
#[derive(Clone, Copy, Debug, PartialEq, Eq, Structural)]
pub struct OutputTooSmall {
    pub required: usize,
    pub provided: usize,
}

/// The state of the non-strict decoder after a prefix of its input.
pub struct LenientState {
    /// The position in the current group of four symbols.
    pub quad: int,
    /// The bits of the last symbol that belong to the next output byte.
    pub leftchar: u8,
    /// The padding bytes seen since the last symbol.
    pub pads: int,
    /// The decoded bytes.
    pub out: Seq<u8>,
    /// The symbols decoded.
    pub symbols: int,
    /// Whether a complete padding sequence ended decoding early.
    pub stopped: bool,
}

/// The state before any input.
pub open spec fn lenient_initial() -> LenientState {
    LenientState { quad: 0, leftchar: 0, pads: 0, out: Seq::empty(), symbols: 0, stopped: false }
}

/// Whether `byte` counts as padding: `=` in padded mode when `=` is not a
/// symbol of the table.
pub open spec fn is_padding(byte: u8, table: Seq<u8>, padded: bool) -> bool {
    padded && byte == PAD && table[PAD as int] >= 64
}

/// One byte of CPython's non-strict decoder. Padding counts toward a complete
/// group; with `continue_after_padding` false a complete padding sequence
/// ends decoding; bytes outside the table are discarded; symbols fill groups
/// of four and emit three bytes per group.
pub open spec fn lenient_step(
    s: LenientState,
    byte: u8,
    table: Seq<u8>,
    padded: bool,
    continue_after_padding: bool,
) -> LenientState {
    if s.stopped {
        s
    } else if is_padding(byte, table, padded) {
        let pads = s.pads + 1;
        if !continue_after_padding && s.quad >= 2 && s.quad + pads >= 4 {
            LenientState { pads, stopped: true, ..s }
        } else {
            LenientState { pads, ..s }
        }
    } else {
        let value = table[byte as int];
        if value >= 64 {
            s
        } else if s.quad == 0 {
            LenientState { quad: 1, leftchar: value, pads: 0, symbols: s.symbols + 1, ..s }
        } else if s.quad == 1 {
            LenientState {
                quad: 2,
                leftchar: value & 0x0f,
                pads: 0,
                symbols: s.symbols + 1,
                out: s.out.push(((s.leftchar << 2u8) | (value >> 4u8)) as u8),
                ..s
            }
        } else if s.quad == 2 {
            LenientState {
                quad: 3,
                leftchar: value & 0x03,
                pads: 0,
                symbols: s.symbols + 1,
                out: s.out.push(((s.leftchar << 4u8) | (value >> 2u8)) as u8),
                ..s
            }
        } else {
            LenientState {
                quad: 0,
                leftchar: 0,
                pads: 0,
                symbols: s.symbols + 1,
                out: s.out.push(((s.leftchar << 6u8) | value) as u8),
                ..s
            }
        }
    }
}

/// The decoder state after all of `input`.
pub open spec fn lenient_run(
    input: Seq<u8>,
    table: Seq<u8>,
    padded: bool,
    continue_after_padding: bool,
) -> LenientState
    decreases input.len(),
{
    if input.len() == 0 {
        lenient_initial()
    } else {
        lenient_step(
            lenient_run(input.drop_last(), table, padded, continue_after_padding),
            input.last(),
            table,
            padded,
            continue_after_padding,
        )
    }
}

/// Whether the final state ends in an incomplete group: one lone symbol, or,
/// in padded mode, a partial group without enough padding.
pub open spec fn lenient_incomplete(s: LenientState, padded: bool) -> bool {
    !s.stopped && (s.quad == 1 || (padded && s.quad != 0 && s.quad + s.pads < 4))
}

/// The outcome of decoding `input` into a destination of `provided` bytes.
pub open spec fn lenient_outcome(
    input: Seq<u8>,
    table: Seq<u8>,
    padded: bool,
    continue_after_padding: bool,
    provided: int,
) -> Result<usize, LenientDecodeError> {
    let s = lenient_run(input, table, padded, continue_after_padding);
    if s.out.len() > provided {
        Err(LenientDecodeError::OutputTooSmall)
    } else if lenient_incomplete(s, padded) {
        Err(LenientDecodeError::InvalidInput)
    } else {
        Ok(s.out.len() as usize)
    }
}

/// The decoded size, or why there is none, for an unbounded destination.
pub open spec fn lenient_len_outcome(
    input: Seq<u8>,
    table: Seq<u8>,
    padded: bool,
    continue_after_padding: bool,
) -> Result<usize, LenientDecodeError> {
    let s = lenient_run(input, table, padded, continue_after_padding);
    if lenient_incomplete(s, padded) {
        Err(LenientDecodeError::InvalidInput)
    } else {
        Ok(s.out.len() as usize)
    }
}

/// The state after one more byte of a prefix.
pub proof fn lemma_run_take(
    input: Seq<u8>,
    i: int,
    table: Seq<u8>,
    padded: bool,
    continue_after_padding: bool,
)
    requires
        0 <= i < input.len(),
    ensures
        lenient_run(input.take(i + 1), table, padded, continue_after_padding) == lenient_step(
            lenient_run(input.take(i), table, padded, continue_after_padding),
            input[i],
            table,
            padded,
            continue_after_padding,
        ),
{
    assert(input.take(i + 1).drop_last() =~= input.take(i));
}

/// Decoding only appends to the output, and once decoding stops the state
/// no longer changes.
pub proof fn lemma_run_extends(
    input: Seq<u8>,
    i: int,
    j: int,
    table: Seq<u8>,
    padded: bool,
    continue_after_padding: bool,
)
    requires
        0 <= i <= j <= input.len(),
    ensures
        ({
            let a = lenient_run(input.take(i), table, padded, continue_after_padding);
            let b = lenient_run(input.take(j), table, padded, continue_after_padding);
            &&& a.out.len() <= b.out.len()
            &&& b.out.take(a.out.len() as int) == a.out
            &&& a.stopped ==> b == a
        }),
    decreases j - i,
{
    if i < j {
        lemma_run_extends(input, i, j - 1, table, padded, continue_after_padding);
        lemma_run_take(input, j - 1, table, padded, continue_after_padding);
        let a = lenient_run(input.take(i), table, padded, continue_after_padding);
        let m = lenient_run(input.take(j - 1), table, padded, continue_after_padding);
        let b = lenient_run(input.take(j), table, padded, continue_after_padding);
        assert(b.out.take(m.out.len() as int) =~= m.out);
        assert(b.out.take(a.out.len() as int) =~= m.out.take(a.out.len() as int));
    }
}

/// The final state is the state after the whole input as a prefix.
pub proof fn lemma_run_full(
    input: Seq<u8>,
    table: Seq<u8>,
    padded: bool,
    continue_after_padding: bool,
)
    ensures
        lenient_run(input.take(input.len() as int), table, padded, continue_after_padding)
            == lenient_run(input, table, padded, continue_after_padding),
{
    assert(input.take(input.len() as int) =~= input);
}

/// Whether `byte` is a symbol of the table.
pub open spec fn table_symbol(table: Seq<u8>, byte: u8) -> bool {
    table[byte as int] < 64
}

/// The number of table symbols in `input`.
pub open spec fn count_table_symbols(input: Seq<u8>, table: Seq<u8>) -> int
    decreases input.len(),
{
    if input.len() == 0 {
        0
    } else {
        count_table_symbols(input.drop_last(), table) + if table_symbol(table, input.last()) {
            1int
        } else {
            0int
        }
    }
}

/// The padding bytes after the last symbol of `input`.
pub open spec fn trailing_pads(input: Seq<u8>, table: Seq<u8>) -> int
    decreases input.len(),
{
    if input.len() == 0 {
        0
    } else if table_symbol(table, input.last()) {
        0
    } else {
        trailing_pads(input.drop_last(), table) + if input.last() == PAD {
            1int
        } else {
            0int
        }
    }
}

/// Until decoding stops, the state counts the symbols, the group position and
/// the output length follow from that count, and in padded mode the pads are
/// those after the last symbol.
pub proof fn lemma_run_counts(
    input: Seq<u8>,
    table: Seq<u8>,
    padded: bool,
    continue_after_padding: bool,
)
    requires
        table.len() == 256,
    ensures
        ({
            let s = lenient_run(input, table, padded, continue_after_padding);
            !s.stopped ==> {
                &&& s.symbols == count_table_symbols(input, table)
                &&& s.quad == s.symbols % 4
                &&& s.quad == 0 ==> s.leftchar == 0
                &&& s.out.len() == spec_decoded_symbol_len(s.symbols)
                &&& (padded && table[PAD as int] >= 64) ==> s.pads == trailing_pads(input, table)
                &&& (!padded || table[PAD as int] < 64) ==> s.pads == 0
            }
        }),
        lenient_run(input, table, padded, true).stopped == false,
    decreases input.len(),
{
    if input.len() > 0 {
        lemma_run_counts(input.drop_last(), table, padded, continue_after_padding);
        lemma_run_counts(input.drop_last(), table, padded, true);
    }
}

/// The number of symbols is at most the length of the input.
pub proof fn lemma_count_table_symbols_bound(input: Seq<u8>, table: Seq<u8>)
    ensures
        0 <= count_table_symbols(input, table) <= input.len(),
    decreases input.len(),
{
    if input.len() > 0 {
        lemma_count_table_symbols_bound(input.drop_last(), table);
    }
}

/// With the lenient table, table symbols are exactly the lenient symbols.
pub proof fn lemma_count_table_symbols_lenient(input: Seq<u8>, altchars: Option<[u8; 2]>)
    ensures
        count_table_symbols(input, lenient_table(altchars)) == count_symbols(input, altchars),
    decreases input.len(),
{
    if input.len() > 0 {
        lemma_count_table_symbols_lenient(input.drop_last(), altchars);
        lemma_lenient_table_symbol(altchars, input.last());
    }
}

/// More symbols never decode to fewer bytes.
pub proof fn lemma_decoded_symbol_len_monotone(a: int, b: int)
    requires
        0 <= a <= b,
    ensures
        spec_decoded_symbol_len(a) <= spec_decoded_symbol_len(b),
{
}

/// A lenient decoder bound check: the output never exceeds three bytes for
/// each started group of four input bytes.
pub proof fn lemma_run_output_bound(
    input: Seq<u8>,
    table: Seq<u8>,
    padded: bool,
    continue_after_padding: bool,
)
    requires
        table.len() == 256,
    ensures
        lenient_run(input, table, padded, continue_after_padding).out.len() <= input.len() / 4 * 3
            + if input.len() % 4 != 0 {
            3int
        } else {
            0int
        },
    decreases input.len(),
{
    let s = lenient_run(input, table, padded, continue_after_padding);
    if input.len() > 0 {
        lemma_run_output_bound(input.drop_last(), table, padded, continue_after_padding);
    }
    lemma_run_counts(input, table, padded, continue_after_padding);
    lemma_count_table_symbols_bound(input, table);
    if !s.stopped {
        lemma_decoded_symbol_len_monotone(s.symbols, input.len() as int);
    }
}

proof fn lemma_or_below_64(a: u8, b: u8, c: u8, d: u8)
    ensures
        ((a | b | c | d) >= 64) == (a >= 64 || b >= 64 || c >= 64 || d >= 64),
{
    assert(((a | b | c | d) >= 64) == (a >= 64 || b >= 64 || c >= 64 || d >= 64)) by (bit_vector);
}

proof fn lemma_masked_shifts(x: u8)
    ensures
        ((x & 0x0f) << 4u8) == (x << 4u8),
        ((x & 0x03) << 6u8) == (x << 6u8),
{
    assert(((x & 0x0f) << 4u8) == (x << 4u8)) by (bit_vector);
    assert(((x & 0x03) << 6u8) == (x << 6u8)) by (bit_vector);
}

/// Four symbols at a group boundary decode to three bytes at once.
pub proof fn lemma_fast_quartet(
    input: Seq<u8>,
    i: int,
    table: Seq<u8>,
    padded: bool,
    continue_after_padding: bool,
)
    requires
        0 <= i,
        i + 4 <= input.len(),
        table.len() == 256,
        !lenient_run(input.take(i), table, padded, continue_after_padding).stopped,
        lenient_run(input.take(i), table, padded, continue_after_padding).quad == 0,
        table[input[i] as int] < 64,
        table[input[i + 1] as int] < 64,
        table[input[i + 2] as int] < 64,
        table[input[i + 3] as int] < 64,
    ensures
        ({
            let a = lenient_run(input.take(i), table, padded, continue_after_padding);
            let b = lenient_run(input.take(i + 4), table, padded, continue_after_padding);
            let first = table[input[i] as int];
            let second = table[input[i + 1] as int];
            let third = table[input[i + 2] as int];
            let fourth = table[input[i + 3] as int];
            &&& !b.stopped
            &&& b.quad == 0
            &&& b.leftchar == 0
            &&& b.out == a.out.push(((first << 2u8) | (second >> 4u8)) as u8).push(
                ((second << 4u8) | (third >> 2u8)) as u8,
            ).push(((third << 6u8) | fourth) as u8)
        }),
{
    lemma_run_take(input, i, table, padded, continue_after_padding);
    lemma_run_take(input, i + 1, table, padded, continue_after_padding);
    lemma_run_take(input, i + 2, table, padded, continue_after_padding);
    lemma_run_take(input, i + 3, table, padded, continue_after_padding);
    lemma_masked_shifts(table[input[i + 1] as int]);
    lemma_masked_shifts(table[input[i + 2] as int]);
}

/// Once a prefix has produced more than `provided` bytes, decoding reports
/// that the destination is too small, and the destination then holds some
/// prefix of the output: the first `k` bytes that were written.
pub proof fn lemma_prefix_too_large(
    input: Seq<u8>,
    i: int,
    table: Seq<u8>,
    padded: bool,
    continue_after_padding: bool,
    provided: int,
)
    requires
        0 <= i <= input.len(),
        lenient_run(input.take(i), table, padded, continue_after_padding).out.len() > provided,
    ensures
        lenient_outcome(input, table, padded, continue_after_padding, provided) == Err::<
            usize,
            LenientDecodeError,
        >(LenientDecodeError::OutputTooSmall),
        lenient_run(input.take(i), table, padded, continue_after_padding).out.len()
            <= lenient_run(input, table, padded, continue_after_padding).out.len(),
        lenient_run(input, table, padded, continue_after_padding).out.take(
            lenient_run(input.take(i), table, padded, continue_after_padding).out.len() as int,
        ) == lenient_run(input.take(i), table, padded, continue_after_padding).out,
{
    lemma_run_extends(input, i, input.len() as int, table, padded, continue_after_padding);
    lemma_run_full(input, table, padded, continue_after_padding);
}

/// Decode with CPython's non-strict padding and invalid-byte rules into the
/// first `provided` bytes of `output`, writing them only when `write` is set.
/// Complete groups of four symbols take a fast path of three bytes at once.
pub fn decode_lenient_to_buffer(
    input: &[u8],
    output: &mut Vec<u8>,
    provided: usize,
    table: &[u8; 256],
    padded: bool,
    continue_after_padding: bool,
    write: bool,
) -> (result: Result<usize, LenientDecodeError>)
    requires
        provided <= old(output)@.len(),
    ensures
        result == lenient_outcome(
            input@,
            table@,
            padded,
            continue_after_padding,
            provided as int,
        ),
        final(output)@.len() == old(output)@.len(),
        !write ==> final(output)@ == old(output)@,
        ({
            let out = lenient_run(input@, table@, padded, continue_after_padding).out;
            write && result != Err::<usize, LenientDecodeError>(LenientDecodeError::OutputTooSmall)
                ==> final(output)@ == out + old(output)@.skip(out.len() as int)
        }),
        ({
            let out = lenient_run(input@, table@, padded, continue_after_padding).out;
            exists|k: int|
                0 <= k <= provided && k <= out.len() && final(output)@ == out.take(k) + old(
                    output,
                )@.skip(k)
        }),
{
    let ghost t = table@;
    let ghost old_output = output@;
    let mut source: usize = 0;
    let mut written: usize = 0;
    let mut quad_pos: u8 = 0;
    let mut leftchar: u8 = 0;
    let mut pads: usize = 0;

    proof {
        lemma_run_output_bound(input@, t, padded, continue_after_padding);
    }

    while source < input.len()
        invariant
            t == table@,
            t.len() == 256,
            source <= input@.len(),
            input@.len() == input.len(),
            provided <= output@.len(),
            output@.len() == old_output.len(),
            old_output == old(output)@,
            written <= provided,
            pads <= source,
            ({
                let s = lenient_run(input@.take(source as int), t, padded, continue_after_padding);
                &&& !s.stopped
                &&& written == s.out.len()
                &&& quad_pos == s.quad
                &&& leftchar == s.leftchar
                &&& quad_pos != 0 ==> pads == s.pads
                &&& write ==> output@ == s.out + old_output.skip(written as int)
                &&& !write ==> output@ == old_output
            }),
        ensures
            source == input@.len(),
        decreases input@.len() - source,
    {
        let ghost entry = source;
        let ghost s0 = lenient_run(input@.take(source as int), t, padded, continue_after_padding);
        proof {
            lemma_run_counts(input@.take(source as int), t, padded, continue_after_padding);
        }
        while quad_pos == 0 && input.len() - source >= 4
            invariant
                t == table@,
                t.len() == 256,
                source <= input@.len(),
                input@.len() == input.len(),
                provided <= output@.len(),
                output@.len() == old_output.len(),
                old_output == old(output)@,
                written <= provided,
                pads <= source,
                ({
                    let s = lenient_run(
                        input@.take(source as int),
                        t,
                        padded,
                        continue_after_padding,
                    );
                    &&& !s.stopped
                    &&& written == s.out.len()
                    &&& quad_pos == s.quad
                    &&& leftchar == s.leftchar
                    &&& quad_pos != 0 ==> pads == s.pads
                    &&& write ==> output@ == s.out + old_output.skip(written as int)
                    &&& !write ==> output@ == old_output
                }),
                entry <= source,
            decreases input@.len() - source,
        {
            let first = table[input[source] as usize];
            let second = table[input[source + 1] as usize];
            let third = table[input[source + 2] as usize];
            let fourth = table[input[source + 3] as usize];
            proof {
                lemma_or_below_64(first, second, third, fourth);
            }
            if first | second | third | fourth >= 64 {
                break;
            }
            let ghost s_a = lenient_run(input@.take(source as int), t, padded, continue_after_padding);
            proof {
                lemma_run_counts(input@.take(source as int), t, padded, continue_after_padding);
                lemma_fast_quartet(input@, source as int, t, padded, continue_after_padding);
            }
            let ghost s_b = lenient_run(input@.take(source + 4), t, padded, continue_after_padding);
            let decoded0 = (first << 2u8) | (second >> 4u8);
            let decoded1 = (second << 4u8) | (third >> 2u8);
            let decoded2 = (third << 6u8) | fourth;
            if provided - written < 3 {
                proof {
                    lemma_prefix_too_large(
                        input@,
                        source + 4,
                        t,
                        padded,
                        continue_after_padding,
                        provided as int,
                    );
                    let out = lenient_run(input@, t, padded, continue_after_padding).out;
                    assert(s_b.out.len() == written + 3);
                    assert(out.take(s_b.out.len() as int) == s_b.out);
                    assert(out.take(written as int) =~= s_a.out) by {
                        assert forall|j: int| 0 <= j < written implies out[j] == s_a.out[j] by {
                            assert(out.take(s_b.out.len() as int)[j] == out[j]);
                        }
                    }
                    if write {
                        assert(output@ == out.take(written as int) + old_output.skip(
                            written as int,
                        ));
                    } else {
                        assert(output@ =~= out.take(0) + old_output.skip(0));
                    }
                }
                return Err(LenientDecodeError::OutputTooSmall);
            }
            if write {
                output.set(written, decoded0);
                output.set(written + 1, decoded1);
                output.set(written + 2, decoded2);
                assert(output@ =~= s_b.out + old_output.skip(written + 3));
            }
            written = written + 3;
            source = source + 4;
        }
        if source == input.len() {
            break;
        }

        let ghost s1 = lenient_run(input@.take(source as int), t, padded, continue_after_padding);
        proof {
            lemma_run_take(input@, source as int, t, padded, continue_after_padding);
            lemma_run_counts(input@.take(source as int), t, padded, continue_after_padding);
        }
        let ghost s2 = lenient_run(input@.take(source + 1), t, padded, continue_after_padding);
        let byte = input[source];
        source = source + 1;
        if padded && byte == PAD && table[PAD as usize] >= 64 {
            pads = pads + 1;
            if !continue_after_padding && quad_pos >= 2 && pads >= 4 - quad_pos as usize {
                proof {
                    lemma_run_extends(
                        input@,
                        source as int,
                        input@.len() as int,
                        t,
                        padded,
                        continue_after_padding,
                    );
                    lemma_run_full(input@, t, padded, continue_after_padding);
                    if write {
                        assert(output@ =~= s2.out.take(written as int) + old_output.skip(
                            written as int,
                        ));
                    } else {
                        assert(output@ =~= s2.out.take(0) + old_output.skip(0));
                    }
                }
                return Ok(written);
            }
            continue;
        }
        let value = table[byte as usize];
        if value >= 64 {
            continue;
        }
        pads = 0;
        if quad_pos == 0 {
            quad_pos = 1;
            leftchar = value;
        } else {
            if written == provided {
                proof {
                    lemma_run_extends(
                        input@,
                        source as int,
                        input@.len() as int,
                        t,
                        padded,
                        continue_after_padding,
                    );
                    lemma_run_full(input@, t, padded, continue_after_padding);
                    let out = lenient_run(input@, t, padded, continue_after_padding).out;
                    assert(out.take(s2.out.len() as int).take(written as int) =~= out.take(
                        written as int,
                    ));
                    assert(s2.out.take(written as int) =~= s1.out);
                    if write {
                        assert(s1.out.take(written as int) =~= s1.out);
                        assert(output@ =~= out.take(written as int) + old_output.skip(
                            written as int,
                        ));
                    } else {
                        assert(output@ =~= out.take(0) + old_output.skip(0));
                    }
                }
                return Err(LenientDecodeError::OutputTooSmall);
            }
            let decoded = if quad_pos == 1 {
                (leftchar << 2u8) | (value >> 4u8)
            } else if quad_pos == 2 {
                (leftchar << 4u8) | (value >> 2u8)
            } else {
                (leftchar << 6u8) | value
            };
            if write {
                output.set(written, decoded);
                assert(output@ =~= s2.out + old_output.skip(written + 1));
            }
            written = written + 1;
            if quad_pos == 1 {
                quad_pos = 2;
                leftchar = value & 0x0f;
            } else if quad_pos == 2 {
                quad_pos = 3;
                leftchar = value & 0x03;
            } else {
                quad_pos = 0;
                leftchar = 0;
            }
        }
    }
    proof {
        lemma_run_full(input@, t, padded, continue_after_padding);
        lemma_run_counts(input@, t, padded, continue_after_padding);
        let out = lenient_run(input@, t, padded, continue_after_padding).out;
        if write {
            assert(out.take(written as int) =~= out);
        } else {
            assert(output@ =~= out.take(0) + old_output.skip(0));
        }
    }
    if quad_pos == 1 || (padded && quad_pos != 0 && pads < 4 - quad_pos as usize) {
        Err(LenientDecodeError::InvalidInput)
    } else {
        Ok(written)
    }
}


/// Symbols only advance the state: each one is counted, clears the padding
/// count, and never ends decoding.
pub proof fn lemma_run_symbols(
    input: Seq<u8>,
    i: int,
    n: int,
    table: Seq<u8>,
    padded: bool,
    continue_after_padding: bool,
)
    requires
        0 <= i,
        0 <= n,
        i + n <= input.len(),
        table.len() == 256,
        forall|j: int| i <= j < i + n ==> table_symbol(table, #[trigger] input[j]),
        !lenient_run(input.take(i), table, padded, continue_after_padding).stopped,
    ensures
        ({
            let a = lenient_run(input.take(i), table, padded, continue_after_padding);
            let b = lenient_run(input.take(i + n), table, padded, continue_after_padding);
            &&& !b.stopped
            &&& b.symbols == a.symbols + n
            &&& n > 0 ==> b.pads == 0
            &&& n == 0 ==> b.pads == a.pads
        }),
    decreases n,
{
    if n > 0 {
        lemma_run_symbols(input, i, n - 1, table, padded, continue_after_padding);
        lemma_run_take(input, i + n - 1, table, padded, continue_after_padding);
        assert(table_symbol(table, input[i + n - 1]));
    }
}

/// The padding bytes after the last symbol of a prefix grow by one padding
/// byte and are unchanged by any other non-symbol.
proof fn lemma_trailing_pads_take(input: Seq<u8>, i: int, table: Seq<u8>)
    requires
        0 < i <= input.len(),
    ensures
        trailing_pads(input.take(i), table) == if table_symbol(table, input[i - 1]) {
            0int
        } else {
            trailing_pads(input.take(i - 1), table) + if input[i - 1] == PAD {
                1int
            } else {
                0int
            }
        },
{
    assert(input.take(i).drop_last() =~= input.take(i - 1));
}

/// Count the padding bytes after the last lenient symbol of `input`.
fn trailing_padding(input: &[u8], altchars: Option<[u8; 2]>) -> (pads: usize)
    ensures
        pads == trailing_pads(input@, lenient_table(altchars)),
{
    let ghost t = lenient_table(altchars);
    let mut index: usize = input.len();
    let mut pads: usize = 0;
    proof {
        assert(input@.take(input@.len() as int) =~= input@);
    }
    while index > 0
        invariant
            index <= input@.len(),
            input@.len() == input.len(),
            t == lenient_table(altchars),
            pads <= input@.len() - index,
            trailing_pads(input@, t) == trailing_pads(input@.take(index as int), t) + pads,
        ensures
            trailing_pads(input@, t) == pads,
        decreases index,
    {
        let byte = input[index - 1];
        proof {
            lemma_trailing_pads_take(input@, index as int, t);
            lemma_lenient_table_symbol(altchars, byte);
        }
        if is_lenient_symbol(byte, altchars) {
            break;
        }
        if byte == PAD {
            pads = pads + 1;
        }
        index = index - 1;
    }
    pads
}

/// The size of CPython's non-strict decoding of `input`, or why there is none.
/// When decoding continues after padding, the symbol count and the padding
/// after the last symbol decide it; otherwise runs of symbols are scanned up
/// to the first complete padding sequence.
pub fn lenient_decoded_len(
    input: &[u8],
    altchars: Option<[u8; 2]>,
    padded: bool,
    continue_after_padding: bool,
    features: CpuFeatures,
) -> (result: Result<usize, LenientDecodeError>)
    ensures
        result == lenient_len_outcome(
            input@,
            lenient_table(altchars),
            padded,
            continue_after_padding,
        ),
{
    let ghost t = lenient_table(altchars);
    let pad_symbol = is_lenient_symbol(PAD, altchars);
    proof {
        lemma_lenient_table_symbol(altchars, PAD);
    }
    if continue_after_padding {
        let symbols = lenient_symbol_count(input, altchars, features);
        let quad_pos = symbols % 4;
        let pads = if padded && !pad_symbol && quad_pos != 0 {
            trailing_padding(input, altchars)
        } else {
            0
        };
        proof {
            lemma_run_counts(input@, t, padded, true);
            lemma_count_table_symbols_lenient(input@, altchars);
        }
        return if quad_pos == 1 || (padded && quad_pos != 0 && pads < 4 - quad_pos) {
            Err(LenientDecodeError::InvalidInput)
        } else {
            Ok(decoded_symbol_len(symbols))
        };
    }

    let tier = decode_byte_kernels(features).symbol_prefix;
    let mut source: usize = 0;
    let mut symbols: usize = 0;
    let mut pads: usize = 0;
    while source < input.len()
        invariant
            source <= input@.len(),
            input@.len() == input.len(),
            t == lenient_table(altchars),
            t.len() == 256,
            !continue_after_padding,
            pad_symbol == (t[PAD as int] < 64),
            symbols <= source,
            pads <= source,
            ({
                let s = lenient_run(input@.take(source as int), t, padded, false);
                &&& !s.stopped
                &&& symbols == s.symbols
                &&& pads == s.pads
            }),
        decreases input@.len() - source,
    {
        let rest = slice_subrange(input, source, input.len());
        let run = symbol_prefix(tier, rest, altchars);
        if run != 0 {
            proof {
                assert forall|j: int| source <= j < source + run implies table_symbol(
                    t,
                    #[trigger] input@[j],
                ) by {
                    assert(rest@[j - source] == input@[j]);
                    lemma_lenient_table_symbol(altchars, input@[j]);
                }
                lemma_run_symbols(input@, source as int, run as int, t, padded, false);
            }
            symbols = symbols + run;
            pads = 0;
            source = source + run;
            continue;
        }
        let byte = input[source];
        proof {
            assert(rest@[0] == byte);
            lemma_lenient_table_symbol(altchars, byte);
            lemma_run_take(input@, source as int, t, padded, false);
            lemma_run_counts(input@.take(source as int), t, padded, false);
        }
        source = source + 1;
        if padded && byte == PAD && !pad_symbol {
            pads = pads + 1;
            let quad_pos = symbols % 4;
            if quad_pos >= 2 && pads >= 4 - quad_pos {
                proof {
                    lemma_run_extends(input@, source as int, input@.len() as int, t, padded, false);
                    lemma_run_full(input@, t, padded, false);
                }
                return Ok(decoded_symbol_len(symbols));
            }
        }
    }
    proof {
        lemma_run_full(input@, t, padded, false);
        lemma_run_counts(input@, t, padded, false);
    }
    let quad_pos = symbols % 4;
    if quad_pos == 1 || (padded && quad_pos != 0 && pads < 4 - quad_pos) {
        Err(LenientDecodeError::InvalidInput)
    } else {
        Ok(decoded_symbol_len(symbols))
    }
}


/// The largest output that `len` input bytes can decode to: three bytes for
/// each started group of four.
pub open spec fn lenient_max_len(len: int) -> int {
    (len + 3) / 4 * 3
}

/// What decoding into a destination of `provided` bytes gives without
/// touching an undersized destination: the size error when the complete
/// output does not fit, nothing for an incomplete group, else the size.
pub open spec fn lenient_into_outcome(
    input: Seq<u8>,
    table: Seq<u8>,
    padded: bool,
    continue_after_padding: bool,
    provided: int,
) -> Result<Option<usize>, OutputTooSmall> {
    let s = lenient_run(input, table, padded, continue_after_padding);
    if lenient_incomplete(s, padded) {
        Ok(None)
    } else if provided < s.out.len() {
        Err(OutputTooSmall { required: s.out.len() as usize, provided: provided as usize })
    } else {
        Ok(Some(s.out.len() as usize))
    }
}

/// The largest output counts three bytes for each complete group of four and
/// three more for a partial one.
proof fn lemma_max_len_groups(len: int)
    requires
        len >= 0,
    ensures
        lenient_max_len(len) == len / 4 * 3 + if len % 4 != 0 {
            3int
        } else {
            0int
        },
{
}

/// The largest output of `len` input bytes as a machine integer.
fn lenient_max_output(len: usize) -> (maximum: usize)
    ensures
        maximum == lenient_max_len(len as int),
        maximum == len / 4 * 3 + if len % 4 != 0 {
            3int
        } else {
            0int
        },
{
    let quads = len / 4 + if len % 4 != 0 {
        1
    } else {
        0
    };
    quads * 3
}

/// Decode non-strictly into all of `output` without writing it when the
/// complete output would not fit. A destination smaller than the largest
/// possible output is first sized exactly; an incomplete group then gives
/// `Ok(None)` with the destination untouched. A destination at least that
/// large is decoded into directly, so an incomplete group leaves the decoded
/// bytes in front of the old contents.
pub fn decode_lenient_slice_into(
    input: &[u8],
    output: &mut Vec<u8>,
    table: &[u8; 256],
    altchars: Option<[u8; 2]>,
    padded: bool,
    continue_after_padding: bool,
    features: CpuFeatures,
) -> (result: Result<Option<usize>, OutputTooSmall>)
    requires
        table@ == lenient_table(altchars),
    ensures
        result == lenient_into_outcome(
            input@,
            table@,
            padded,
            continue_after_padding,
            old(output)@.len() as int,
        ),
        final(output)@.len() == old(output)@.len(),
        ({
            let out = lenient_run(input@, table@, padded, continue_after_padding).out;
            &&& result is Err ==> final(output)@ == old(output)@
            &&& result matches Ok(Some(n)) ==> final(output)@ == out + old(output)@.skip(n as int)
            &&& result is Ok && result->Ok_0 is None ==> if old(output)@.len() < lenient_max_len(
                input@.len() as int,
            ) {
                final(output)@ == old(output)@
            } else {
                final(output)@ == out + old(output)@.skip(out.len() as int)
            }
        }),
{
    let ghost t = table@;
    let provided = output.len();
    let maximum = lenient_max_output(input.len());
    proof {
        lemma_run_output_bound(input@, t, padded, continue_after_padding);
    }
    if provided < maximum {
        match lenient_decoded_len(input, altchars, padded, continue_after_padding, features) {
            Ok(required) => {
                if provided < required {
                    return Err(OutputTooSmall { required, provided });
                }
            },
            Err(_) => {
                return Ok(None);
            },
        }
    }
    match decode_lenient_to_buffer(
        input,
        output,
        provided,
        table,
        padded,
        continue_after_padding,
        true,
    ) {
        Ok(written) => Ok(Some(written)),
        Err(_) => Ok(None),
    }
}

/// Decode non-strictly into a new buffer, or give nothing when the symbols
/// end in an incomplete group.
pub fn try_decode_lenient(
    input: &[u8],
    table: &[u8; 256],
    padded: bool,
    continue_after_padding: bool,
) -> (decoded: Option<Vec<u8>>)
    ensures
        ({
            let s = lenient_run(input@, table@, padded, continue_after_padding);
            match decoded {
                Some(bytes) => !lenient_incomplete(s, padded) && bytes@ == s.out,
                None => lenient_incomplete(s, padded),
            }
        }),
{
    let maximum = lenient_max_output(input.len());
    let mut output: Vec<u8> = vec![0u8; maximum];
    proof {
        lemma_run_output_bound(input@, table@, padded, continue_after_padding);
    }
    match decode_lenient_to_buffer(
        input,
        &mut output,
        maximum,
        table,
        padded,
        continue_after_padding,
        true,
    ) {
        Ok(written) => {
            output.truncate(written);
            proof {
                let out = lenient_run(input@, table@, padded, continue_after_padding).out;
                assert(output@ =~= out);
            }
            Some(output)
        },
        Err(_) => None,
    }
}

/// Whether a CPython version continues decoding after a complete padding
/// sequence: 3.13.13 and later 3.13 releases, 3.14.4 and later 3.14
/// releases, and every version from 3.15 on.
pub open spec fn continues_after_padding_spec(major: u8, minor: u8, patch: u8) -> bool {
    if major == 3 && minor == 13 {
        patch >= 13
    } else if major == 3 && minor == 14 {
        patch >= 4
    } else {
        major > 3 || (major == 3 && minor >= 15)
    }
}

/// Whether a CPython version continues decoding after a complete padding
/// sequence.
pub fn version_continues_after_padding(major: u8, minor: u8, patch: u8) -> (continues: bool)
    ensures
        continues == continues_after_padding_spec(major, minor, patch),
{
    if major == 3 && minor == 13 {
        patch >= 13
    } else if major == 3 && minor == 14 {
        patch >= 4
    } else {
        major > 3 || (major == 3 && minor >= 15)
    }
}

/// Sizing agrees with decoding: into a destination that holds the largest
/// output of the input's length, or the size that sizing reports, decoding
/// gives exactly what sizing gives.
pub proof fn lemma_sizing_matches_decoding(
    input: Seq<u8>,
    table: Seq<u8>,
    padded: bool,
    continue_after_padding: bool,
    provided: int,
)
    requires
        table.len() == 256,
        input.len() <= usize::MAX,
        provided >= lenient_max_len(input.len() as int) || (lenient_len_outcome(
            input,
            table,
            padded,
            continue_after_padding,
        ) matches Ok(n) && n <= provided),
    ensures
        lenient_outcome(input, table, padded, continue_after_padding, provided) == lenient_len_outcome(
            input,
            table,
            padded,
            continue_after_padding,
        ),
{
    lemma_run_output_bound(input, table, padded, continue_after_padding);
    lemma_max_len_groups(input.len() as int);
}

/// Decoding never reports an undersized destination when it holds the
/// largest output that the input length allows.
pub proof fn lemma_max_len_suffices(
    input: Seq<u8>,
    table: Seq<u8>,
    padded: bool,
    continue_after_padding: bool,
    provided: int,
)
    requires
        table.len() == 256,
        provided >= lenient_max_len(input.len() as int),
    ensures
        lenient_outcome(input, table, padded, continue_after_padding, provided) != Err::<
            usize,
            LenientDecodeError,
        >(LenientDecodeError::OutputTooSmall),
{
    lemma_run_output_bound(input, table, padded, continue_after_padding);
    lemma_max_len_groups(input.len() as int);
}

/// Whether the byte at `k` is padding that completes a group: at least two
/// symbols of the group came before it, and with the padding since the last
/// symbol, up to and including this byte, the group has four.
pub open spec fn padding_completes(input: Seq<u8>, table: Seq<u8>, padded: bool, k: int) -> bool {
    let q = count_table_symbols(input.take(k), table) % 4;
    &&& 0 <= k < input.len()
    &&& is_padding(input[k], table, padded)
    &&& q >= 2
    &&& q + trailing_pads(input.take(k + 1), table) >= 4
}

/// Before the first padding byte that completes a group, decoding that ends
/// at such padding is in the state of decoding that continues after it, and
/// has not ended.
pub proof fn lemma_stop_prefix(input: Seq<u8>, table: Seq<u8>, padded: bool, m: int)
    requires
        table.len() == 256,
        0 <= m <= input.len(),
        forall|j: int| 0 <= j < m ==> !#[trigger] padding_completes(input, table, padded, j),
    ensures
        lenient_run(input.take(m), table, padded, false) == lenient_run(input.take(m), table, padded, true),
        !lenient_run(input.take(m), table, padded, false).stopped,
    decreases m,
{
    if m > 0 {
        lemma_stop_prefix(input, table, padded, m - 1);
        lemma_run_take(input, m - 1, table, padded, false);
        lemma_run_take(input, m - 1, table, padded, true);
        lemma_run_counts(input.take(m - 1), table, padded, false);
        assert(input.take(m).drop_last() =~= input.take(m - 1));
        assert(!padding_completes(input, table, padded, m - 1));
    }
}

/// Without continuing after padding, CPython's non-strict decoder ends at
/// the first padding byte that completes a group, with the bytes of the
/// symbols before it; when no padding byte completes a group, it decodes as
/// if it continued after padding.
pub proof fn lemma_lenient_stops_at_first_completion(input: Seq<u8>, table: Seq<u8>, padded: bool)
    requires
        table.len() == 256,
    ensures
        (forall|k: int| 0 <= k < input.len() ==> !#[trigger] padding_completes(input, table, padded, k))
            ==> lenient_run(input, table, padded, false) == lenient_run(input, table, padded, true),
        forall|k: int|
            #[trigger] padding_completes(input, table, padded, k) && (forall|j: int|
                0 <= j < k ==> !padding_completes(input, table, padded, j)) ==> {
                let s = lenient_run(input, table, padded, false);
                &&& s.stopped
                &&& !lenient_incomplete(s, padded)
                &&& s.out.len() == spec_decoded_symbol_len(count_table_symbols(input.take(k), table))
            },
{
    lemma_run_full(input, table, padded, false);
    lemma_run_full(input, table, padded, true);
    if forall|k: int| 0 <= k < input.len() ==> !#[trigger] padding_completes(input, table, padded, k) {
        lemma_stop_prefix(input, table, padded, input.len() as int);
    }
    assert forall|k: int|
        #[trigger] padding_completes(input, table, padded, k) && (forall|j: int|
            0 <= j < k ==> !padding_completes(input, table, padded, j)) implies {
        let s = lenient_run(input, table, padded, false);
        &&& s.stopped
        &&& !lenient_incomplete(s, padded)
        &&& s.out.len() == spec_decoded_symbol_len(count_table_symbols(input.take(k), table))
    } by {
        lemma_stop_prefix(input, table, padded, k);
        lemma_run_take(input, k, table, padded, false);
        lemma_run_counts(input.take(k), table, padded, false);
        assert(input.take(k + 1).drop_last() =~= input.take(k));
        lemma_run_extends(input, k + 1, input.len() as int, table, padded, false);
    }
}

/// The values of the symbols of `input`, in order.
pub open spec fn symbol_values(input: Seq<u8>, table: Seq<u8>) -> Seq<u8>
    decreases input.len(),
{
    if input.len() == 0 {
        Seq::empty()
    } else if table_symbol(table, input.last()) {
        symbol_values(input.drop_last(), table).push(table[input.last() as int])
    } else {
        symbol_values(input.drop_last(), table)
    }
}

/// The big-endian packing of 6-bit values into bytes: every value but the
/// first of its group of four completes one byte, whose high bits are the
/// bits of the value before it that no byte took yet; the bits left over
/// after the last complete byte are dropped.
pub open spec fn pack_values(values: Seq<u8>) -> Seq<u8>
    decreases values.len(),
{
    let n = values.len() as int;
    if n == 0 {
        Seq::empty()
    } else if n % 4 == 1 {
        pack_values(values.drop_last())
    } else if n % 4 == 2 {
        pack_values(values.drop_last()).push(((values[n - 2] << 2u8) | (values[n - 1] >> 4u8)) as u8)
    } else if n % 4 == 3 {
        pack_values(values.drop_last()).push(
            (((values[n - 2] & 0x0fu8) << 4u8) | (values[n - 1] >> 2u8)) as u8,
        )
    } else {
        pack_values(values.drop_last()).push((((values[n - 2] & 0x03u8) << 6u8) | values[n - 1]) as u8)
    }
}

/// The bits of the last value that the next byte takes.
pub open spec fn pending_bits(values: Seq<u8>) -> u8 {
    let n = values.len() as int;
    if n % 4 == 1 {
        values[n - 1]
    } else if n % 4 == 2 {
        values[n - 1] & 0x0fu8
    } else if n % 4 == 3 {
        values[n - 1] & 0x03u8
    } else {
        0u8
    }
}

/// Until CPython's non-strict decoder ends, its output is the packing of the
/// values of the symbols it read, with their group position and pending bits.
proof fn lemma_run_packs(input: Seq<u8>, table: Seq<u8>, padded: bool, continue_after_padding: bool)
    requires
        table.len() == 256,
        !lenient_run(input, table, padded, continue_after_padding).stopped,
    ensures
        ({
            let s = lenient_run(input, table, padded, continue_after_padding);
            let v = symbol_values(input, table);
            &&& s.out == pack_values(v)
            &&& s.quad == v.len() % 4
            &&& s.leftchar == pending_bits(v)
        }),
    decreases input.len(),
{
    if input.len() > 0 {
        let p = input.drop_last();
        let b = input.last();
        assert(!lenient_run(p, table, padded, continue_after_padding).stopped);
        lemma_run_packs(p, table, padded, continue_after_padding);
        let v = symbol_values(p, table);
        if table_symbol(table, b) && !is_padding(b, table, padded) {
            let w = v.push(table[b as int]);
            assert(w.drop_last() =~= v);
            if v.len() > 0 {
                assert(w[w.len() - 2] == v[v.len() - 1]);
            }
        }
    }
}

/// What CPython's non-strict decoder writes is the packing of the values of
/// the symbols it reads: all of them when it continues after padding, and
/// those before the first padding byte that completes a group otherwise.
pub proof fn lemma_lenient_output_packs(input: Seq<u8>, table: Seq<u8>, padded: bool)
    requires
        table.len() == 256,
    ensures
        lenient_run(input, table, padded, true).out == pack_values(symbol_values(input, table)),
        (forall|k: int| 0 <= k < input.len() ==> !#[trigger] padding_completes(input, table, padded, k))
            ==> lenient_run(input, table, padded, false).out == pack_values(
            symbol_values(input, table),
        ),
        forall|k: int|
            #[trigger] padding_completes(input, table, padded, k) && (forall|j: int|
                0 <= j < k ==> !padding_completes(input, table, padded, j)) ==> lenient_run(
                input,
                table,
                padded,
                false,
            ).out == pack_values(symbol_values(input.take(k), table)),
{
    lemma_run_counts(input, table, padded, true);
    lemma_run_packs(input, table, padded, true);
    lemma_lenient_stops_at_first_completion(input, table, padded);
    assert forall|k: int|
        #[trigger] padding_completes(input, table, padded, k) && (forall|j: int|
            0 <= j < k ==> !padding_completes(input, table, padded, j)) implies lenient_run(
        input,
        table,
        padded,
        false,
    ).out == pack_values(symbol_values(input.take(k), table)) by {
        lemma_stop_prefix(input, table, padded, k);
        lemma_run_packs(input.take(k), table, padded, false);
        lemma_run_counts(input.take(k), table, padded, false);
        assert(input.take(k + 1).drop_last() =~= input.take(k));
        lemma_run_take(input, k, table, padded, false);
        lemma_run_full(input, table, padded, false);
        lemma_run_extends(input, k + 1, input.len() as int, table, padded, false);
    }
}

/// The sizer without continuing after padding, in terms of the first
/// padding byte that completes a group: it sizes the symbols before that
/// byte, and when there is none it sizes as if it continued after padding.
pub proof fn lemma_sizer_stops_at_first_completion(input: Seq<u8>, table: Seq<u8>, padded: bool)
    requires
        table.len() == 256,
    ensures
        (forall|k: int| 0 <= k < input.len() ==> !#[trigger] padding_completes(input, table, padded, k))
            ==> lenient_len_outcome(input, table, padded, false) == lenient_len_outcome(
            input,
            table,
            padded,
            true,
        ),
        forall|k: int|
            #[trigger] padding_completes(input, table, padded, k) && (forall|j: int|
                0 <= j < k ==> !padding_completes(input, table, padded, j)) ==> lenient_len_outcome(
                input,
                table,
                padded,
                false,
            ) == Ok::<usize, LenientDecodeError>(
                spec_decoded_symbol_len(count_table_symbols(input.take(k), table)) as usize,
            ),
{
    lemma_lenient_stops_at_first_completion(input, table, padded);
}

} // verus!
