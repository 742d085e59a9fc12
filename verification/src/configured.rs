//! The configured decoder: caller-chosen alphabet, discarded bytes, strict or
//! non-strict validation, and canonical checks.

use vstd::prelude::*;

use crate::alphabet::{
    is_alphanumeric, is_std_char, lemma_std_char_value, lemma_std_value_char,
    spec_decoded_symbol_len, standard_alphabet_char, std_char, std_value, INVALID_VALUE,
};
use crate::error::Base64Error;
use crate::lenient::{lenient_incomplete, lenient_run, LenientState};
use crate::policy::{ErrorWrites, Padding, PreparedPolicy, Validation};
use crate::symbols::{
    decode_byte_kernels, translate_byte, translate_bytes, CpuFeatures, KernelTier,
};

verus! {

/// `memchr::memchr` gives the index of the first occurrence of `needle` in
/// `haystack`, or `None` when it does not occur.
pub assume_specification[memchr::memchr](needle: u8, haystack: &[u8]) -> (found: Option<usize>)
    ensures
        match found {
            Some(i) => i < haystack@.len() && haystack@[i as int] == needle && forall|j: int|
                0 <= j < i ==> haystack@[j] != needle,
            None => forall|j: int| 0 <= j < haystack@.len() ==> haystack@[j] != needle,
        },
;

/// `memchr::memchr2` gives the index of the first byte of `haystack` that is
/// either needle, or `None` when neither occurs.
pub assume_specification[memchr::memchr2](needle1: u8, needle2: u8, haystack: &[u8]) -> (found:
    Option<usize>)
    ensures
        match found {
            Some(i) => i < haystack@.len() && (haystack@[i as int] == needle1 || haystack@[i as int]
                == needle2) && forall|j: int|
                0 <= j < i ==> haystack@[j] != needle1 && haystack@[j] != needle2,
            None => forall|j: int|
                0 <= j < haystack@.len() ==> haystack@[j] != needle1 && haystack@[j] != needle2,
        },
;

/// `memchr::memchr3` gives the index of the first byte of `haystack` that is
/// any of the three needles, or `None` when none occurs.
pub assume_specification[memchr::memchr3](
    needle1: u8,
    needle2: u8,
    needle3: u8,
    haystack: &[u8],
) -> (found: Option<usize>)
    ensures
        match found {
            Some(i) => i < haystack@.len() && (haystack@[i as int] == needle1 || haystack@[i as int]
                == needle2 || haystack@[i as int] == needle3) && forall|j: int|
                0 <= j < i ==> haystack@[j] != needle1 && haystack@[j] != needle2 && haystack@[j]
                    != needle3,
            None => forall|j: int|
                0 <= j < haystack@.len() ==> haystack@[j] != needle1 && haystack@[j] != needle2
                    && haystack@[j] != needle3,
        },
;

/// The byte `=`.
pub const EQUALS: u8 = 61;

/// The value that the configured table gives `byte`. With alternative
/// characters, the second overrides the first; in a custom alphabet (one
/// with discarded bytes named) `+` and `/` are no symbols and `=` cannot be
/// made one; letters and digits keep their standard values.
pub open spec fn configured_value(altchars: Option<[u8; 2]>, custom: bool, byte: u8) -> u8 {
    match altchars {
        Some(pair) if byte == pair[1] && (!custom || byte != EQUALS) => 63u8,
        Some(pair) if byte == pair[0] && (!custom || byte != EQUALS) => 62u8,
        _ => if is_alphanumeric(byte) {
            std_value(byte)
        } else if !custom && byte == 43 {
            62u8
        } else if !custom && byte == 47 {
            63u8
        } else {
            INVALID_VALUE
        },
    }
}

/// The configured decode table.
pub open spec fn configured_table(altchars: Option<[u8; 2]>, custom: bool) -> Seq<u8> {
    Seq::new(256, |i: int| configured_value(altchars, custom, i as u8))
}

/// Whether decoding through the table must rewrite `byte` before the
/// standard alphabet reads it: a symbol whose standard character is another.
pub open spec fn translation_source(table: Seq<u8>, byte: u8) -> bool {
    table[byte as int] < 64 && std_char(table[byte as int] as int) != byte
}

/// Whether every translation source of the table is `a` or `b`.
pub open spec fn sources_within(table: Seq<u8>, a: u8, b: u8) -> bool {
    forall|byte: u8| #[trigger] translation_source(table, byte) ==> byte == a || byte == b
}

/// What the translation of a table makes of `byte`: a symbol becomes the
/// standard character of its value; every other byte stays.
pub open spec fn translated(table: Seq<u8>, byte: u8) -> u8 {
    if table[byte as int] < 64 {
        std_char(table[byte as int] as int)
    } else {
        byte
    }
}

/// The rewriting of up to two bytes into the standard alphabet.
#[derive(Clone, Copy, Debug)]
pub struct Translation {
    pub source0: u8,
    pub target0: u8,
    pub source1: u8,
    pub target1: u8,
    pub tier: KernelTier,
}

/// What an optional translation makes of `byte`.
pub open spec fn apply_translation(translation: Option<Translation>, byte: u8) -> u8 {
    match translation {
        Some(t) => translate_byte(byte, t.source0, t.target0, t.source1, t.target1),
        None => byte,
    }
}

impl Translation {
    /// The translation of a table with at most two source bytes, run by the
    /// kernel of `tier`; `None` when no byte needs rewriting. Sources come in
    /// increasing order, and a single source fills both slots.
    pub fn new(table: &[u8; 256], tier: KernelTier) -> (translation: Option<Self>)
        requires
            exists|a: u8, b: u8| #[trigger] sources_within(table@, a, b),
        ensures
            translation is None <==> forall|byte: u8| !translation_source(table@, byte),
            forall|byte: u8| #[trigger]
                apply_translation(translation, byte) == translated(table@, byte),
            translation matches Some(t) ==> {
                &&& t.tier == tier
                &&& translation_source(table@, t.source0)
                &&& translation_source(table@, t.source1)
                &&& t.source0 <= t.source1
            },
    {
        let ghost pair = choose|a: u8, b: u8| #[trigger] sources_within(table@, a, b);
        let mut sources = [0u8; 2];
        let mut targets = [0u8; 2];
        let mut count: usize = 0;
        let mut i: usize = 0;
        while i < 256
            invariant
                i <= 256,
                count <= 2,
                sources@.len() == 2,
                targets@.len() == 2,
                sources_within(table@, pair.0, pair.1),
                forall|k: int| 0 <= k < count ==> sources@[k] < i,
                forall|k: int| 0 <= k < count ==> translation_source(table@, #[trigger] sources@[k]),
                forall|k: int|
                    0 <= k < count ==> #[trigger] targets@[k] == std_char(
                        table@[sources@[k] as int] as int,
                    ),
                count == 2 ==> sources@[0] < sources@[1],
                forall|byte: u8|
                    byte < i && translation_source(table@, byte) ==> (count >= 1 && byte
                        == sources@[0]) || (count == 2 && byte == sources@[1]),
            decreases 256 - i,
        {
            let byte = i as u8;
            let value = table[i];
            if value < 64 {
                let target = standard_alphabet_char(value);
                if target != byte {
                    proof {
                        assert(translation_source(table@, byte));
                        if count == 2 {
                            assert(translation_source(table@, sources@[0]));
                            assert(translation_source(table@, sources@[1]));
                            assert(false);
                        }
                    }
                    sources[count] = byte;
                    targets[count] = target;
                    count = count + 1;
                }
            }
            i = i + 1;
        }
        if count == 0 {
            proof {
                assert forall|byte: u8| #[trigger]
                    apply_translation(None, byte) == translated(table@, byte) by {
                    assert(!translation_source(table@, byte));
                }
            }
            return None;
        }
        if count == 1 {
            sources[1] = sources[0];
            targets[1] = targets[0];
        }
        let translation = Translation {
            source0: sources[0],
            target0: targets[0],
            source1: sources[1],
            target1: targets[1],
            tier,
        };
        proof {
            assert forall|byte: u8| #[trigger]
                apply_translation(Some(translation), byte) == translated(table@, byte) by {
                if table@[byte as int] < 64 && !translation_source(table@, byte) {
                    assert(std_char(table@[byte as int] as int) == byte);
                }
            }
        }
        Some(translation)
    }

    /// Rewrite every source byte of `input` into its target.
    pub fn apply(&self, input: &mut Vec<u8>)
        ensures
            final(input)@.len() == old(input)@.len(),
            forall|i: int|
                0 <= i < old(input)@.len() ==> #[trigger] final(input)@[i] == apply_translation(
                    Some(*self),
                    old(input)@[i],
                ),
    {
        translate_bytes(self.tier, input, self.source0, self.target0, self.source1, self.target1);
    }
}


/// Build the configured decode table.
pub fn configured_decode_table(altchars: Option<[u8; 2]>, custom: bool) -> (table: [u8; 256])
    ensures
        table@ == configured_table(altchars, custom),
{
    let mut table = [INVALID_VALUE; 256];
    let mut value: u8 = 0;
    while value < 62
        invariant
            value <= 62,
            table@.len() == 256,
            forall|i: int|
                0 <= i < 256 ==> #[trigger] table@[i] == if is_alphanumeric(i as u8) && std_value(
                    i as u8,
                ) < value {
                    std_value(i as u8)
                } else {
                    INVALID_VALUE
                },
        decreases 62 - value,
    {
        let byte = standard_alphabet_char(value);
        proof {
            lemma_std_char_value(value as int);
        }
        table[byte as usize] = value;
        proof {
            assert forall|i: int| 0 <= i < 256 implies #[trigger] table@[i] == if is_alphanumeric(
                i as u8,
            ) && std_value(i as u8) < value + 1 {
                std_value(i as u8)
            } else {
                INVALID_VALUE
            } by {
                if is_alphanumeric(i as u8) && std_value(i as u8) == value {
                    lemma_std_value_char(i as u8);
                }
            }
        }
        value = value + 1;
    }
    if !custom {
        table[43] = 62;
        table[47] = 63;
    }
    match altchars {
        Some(pair) => {
            if !custom || pair[0] != EQUALS {
                table[pair[0] as usize] = 62;
            }
            if !custom || pair[1] != EQUALS {
                table[pair[1] as usize] = 63;
            }
        },
        None => {},
    }
    proof {
        assert forall|i: int| 0 <= i < 256 implies #[trigger] table@[i] == configured_value(
            altchars,
            custom,
            i as u8,
        ) by {
            if is_alphanumeric(i as u8) {
                lemma_std_value_char(i as u8);
            }
        }
        assert(table@ =~= configured_table(altchars, custom));
    }
    table
}

/// Only the alternative characters can need rewriting in a configured table.
pub proof fn lemma_configured_sources(altchars: Option<[u8; 2]>, custom: bool)
    ensures
        match altchars {
            Some(pair) => sources_within(configured_table(altchars, custom), pair[0], pair[1]),
            None => sources_within(configured_table(altchars, custom), 0, 0),
        },
{
    let table = configured_table(altchars, custom);
    let (a, b) = match altchars {
        Some(pair) => (pair[0], pair[1]),
        None => (0u8, 0u8),
    };
    assert forall|byte: u8| #[trigger] translation_source(table, byte) implies byte == a || byte
        == b by {
        if is_alphanumeric(byte) {
            lemma_std_value_char(byte);
        }
    }
}

/// The bytes that strict decoding skips, up to three of them, or `Many`.
#[derive(Clone, Copy, Debug, PartialEq, Eq, Structural)]
pub enum StrictSpecials {
    Empty,
    One(u8),
    Two(u8, u8),
    Three(u8, u8, u8),
    Many,
}

/// The special bytes for a list of at most three bytes, or `Many`.
pub open spec fn specials_of(bytes: Seq<u8>) -> StrictSpecials {
    if bytes.len() == 0 {
        StrictSpecials::Empty
    } else if bytes.len() == 1 {
        StrictSpecials::One(bytes[0])
    } else if bytes.len() == 2 {
        StrictSpecials::Two(bytes[0], bytes[1])
    } else if bytes.len() == 3 {
        StrictSpecials::Three(bytes[0], bytes[1], bytes[2])
    } else {
        StrictSpecials::Many
    }
}

impl StrictSpecials {
    /// Whether `byte` is one of the listed bytes.
    pub open spec fn has(self, byte: u8) -> bool {
        match self {
            StrictSpecials::Empty => false,
            StrictSpecials::One(a) => byte == a,
            StrictSpecials::Two(a, b) => byte == a || byte == b,
            StrictSpecials::Three(a, b, c) => byte == a || byte == b || byte == c,
            StrictSpecials::Many => false,
        }
    }

    /// Whether `byte` is skipped by strict decoding: no symbol, discarded, and
    /// not the padding byte where `=` pads.
    pub open spec fn discarded(table: Seq<u8>, ignored: Seq<bool>, padded: bool, byte: u8) -> bool {
        table[byte as int] >= 64 && ignored[byte as int] && !(padded && table[EQUALS as int] >= 64
            && byte == EQUALS)
    }

    /// The discarded bytes below `n`, in increasing order.
    pub open spec fn discarded_upto(table: Seq<u8>, ignored: Seq<bool>, padded: bool, n: int) -> Seq<
        u8,
    >
        decreases n,
    {
        if n <= 0 {
            Seq::empty()
        } else {
            Self::discarded_upto(table, ignored, padded, n - 1) + if Self::discarded(
                table,
                ignored,
                padded,
                (n - 1) as u8,
            ) {
                seq![(n - 1) as u8]
            } else {
                Seq::empty()
            }
        }
    }

    /// Whether the standard character of `value` is rejected outright: no
    /// symbol of the table and not discarded.
    pub open spec fn forbidden_value(table: Seq<u8>, ignored: Seq<bool>, value: int) -> bool {
        table[std_char(value) as int] >= 64 && !ignored[std_char(value) as int]
    }

    /// The rejected standard characters of the values below `n`, in order.
    pub open spec fn forbidden_upto(table: Seq<u8>, ignored: Seq<bool>, n: int) -> Seq<u8>
        decreases n,
    {
        if n <= 0 {
            Seq::empty()
        } else {
            Self::forbidden_upto(table, ignored, n - 1) + if Self::forbidden_value(
                table,
                ignored,
                n - 1,
            ) {
                seq![std_char(n - 1)]
            } else {
                Seq::empty()
            }
        }
    }

    proof fn lemma_discarded_upto_grows(
        table: Seq<u8>,
        ignored: Seq<bool>,
        padded: bool,
        m: int,
        n: int,
    )
        requires
            0 <= m <= n,
        ensures
            Self::discarded_upto(table, ignored, padded, m).len() <= Self::discarded_upto(
                table,
                ignored,
                padded,
                n,
            ).len(),
        decreases n - m,
    {
        if m < n {
            Self::lemma_discarded_upto_grows(table, ignored, padded, m, n - 1);
        }
    }

    proof fn lemma_forbidden_upto_grows(table: Seq<u8>, ignored: Seq<bool>, m: int, n: int)
        requires
            0 <= m <= n,
        ensures
            Self::forbidden_upto(table, ignored, m).len() <= Self::forbidden_upto(
                table,
                ignored,
                n,
            ).len(),
        decreases n - m,
    {
        if m < n {
            Self::lemma_forbidden_upto_grows(table, ignored, m, n - 1);
        }
    }

    fn from_list(bytes: [u8; 3], count: usize) -> (specials: Self)
        requires
            count <= 3,
        ensures
            specials == specials_of(bytes@.take(count as int)),
    {
        if count == 0 {
            StrictSpecials::Empty
        } else if count == 1 {
            StrictSpecials::One(bytes[0])
        } else if count == 2 {
            StrictSpecials::Two(bytes[0], bytes[1])
        } else {
            StrictSpecials::Three(bytes[0], bytes[1], bytes[2])
        }
    }

    /// The bytes that strict decoding skips, when there are at most three.
    pub fn new(table: &[u8; 256], ignored: &[bool; 256], padded: bool) -> (specials: Self)
        ensures
            specials == specials_of(Self::discarded_upto(table@, ignored@, padded, 256)),
    {
        let equals_is_padding = padded && table[EQUALS as usize] >= 64;
        let mut bytes = [0u8; 3];
        let mut count: usize = 0;
        let mut i: usize = 0;
        while i < 256
            invariant
                i <= 256,
                count <= 3,
                bytes@.len() == 3,
                equals_is_padding == (padded && table@[EQUALS as int] >= 64),
                bytes@.take(count as int) == Self::discarded_upto(
                    table@,
                    ignored@,
                    padded,
                    i as int,
                ),
            decreases 256 - i,
        {
            let byte = i as u8;
            let discarded = table[i] >= 64 && ignored[i] && !(equals_is_padding && byte
                == EQUALS);
            if discarded {
                if count == 3 {
                    proof {
                        Self::lemma_discarded_upto_grows(
                            table@,
                            ignored@,
                            padded,
                            i + 1,
                            256,
                        );
                    }
                    return StrictSpecials::Many;
                }
                bytes[count] = byte;
                count = count + 1;
            }
            proof {
                let before = Self::discarded_upto(table@, ignored@, padded, i as int);
                assert(bytes@.take(count as int) =~= Self::discarded_upto(
                    table@,
                    ignored@,
                    padded,
                    i + 1,
                ));
            }
            i = i + 1;
        }
        Self::from_list(bytes, count)
    }

    /// The standard characters that the table rejects outright, when there
    /// are at most three.
    pub fn forbidden(table: &[u8; 256], ignored: &[bool; 256]) -> (specials: Self)
        ensures
            specials == specials_of(Self::forbidden_upto(table@, ignored@, 64)),
    {
        let mut bytes = [0u8; 3];
        let mut count: usize = 0;
        let mut value: u8 = 0;
        while value < 64
            invariant
                value <= 64,
                count <= 3,
                bytes@.len() == 3,
                bytes@.take(count as int) == Self::forbidden_upto(table@, ignored@, value as int),
            decreases 64 - value,
        {
            let byte = standard_alphabet_char(value);
            if table[byte as usize] >= 64 && !ignored[byte as usize] {
                if count == 3 {
                    proof {
                        Self::lemma_forbidden_upto_grows(table@, ignored@, value + 1, 64);
                    }
                    return StrictSpecials::Many;
                }
                bytes[count] = byte;
                count = count + 1;
            }
            proof {
                assert(bytes@.take(count as int) =~= Self::forbidden_upto(
                    table@,
                    ignored@,
                    value + 1,
                ));
            }
            value = value + 1;
        }
        Self::from_list(bytes, count)
    }

    /// The index of the first listed byte in `input`.
    pub fn find(self, input: &[u8]) -> (found: Option<usize>)
        requires
            !(self is Many),
        ensures
            match found {
                Some(i) => i < input@.len() && self.has(input@[i as int]) && forall|j: int|
                    0 <= j < i ==> !self.has(#[trigger] input@[j]),
                None => forall|j: int| 0 <= j < input@.len() ==> !self.has(#[trigger] input@[j]),
            },
    {
        match self {
            StrictSpecials::Empty => None,
            StrictSpecials::One(a) => memchr::memchr(a, input),
            StrictSpecials::Two(a, b) => memchr::memchr2(a, b, input),
            StrictSpecials::Three(a, b, c) => memchr::memchr3(a, b, c, input),
            StrictSpecials::Many => None,
        }
    }
}


/// The rules by which a configured decoder reads its input.
pub struct ScanRules {
    pub table: Seq<u8>,
    pub ignored: Seq<bool>,
    pub strict: bool,
    pub padded: bool,
    pub canonical: bool,
    pub continue_after_padding: bool,
    /// Strict decoding of unpadded input skips a discarded `=` rather than
    /// reject it. Only the special-byte scanner reads `=` that way, and it
    /// runs only while at most three bytes are discarded (and at most three
    /// standard symbols are left out of the alphabet): with more, the
    /// byte-by-byte scanner rejects the same `=`. So, in strict unpadded
    /// decoding, a discarded `=` is accepted or refused depending on how many
    /// other bytes are discarded beside it.
    pub skip_unpadded_equals: bool,
}

/// The state of the configured decoder after a prefix of its input.
pub struct ScanState {
    /// The position in the current group of four symbols.
    pub quad: int,
    /// The bits of the last symbol that belong to the next output byte.
    pub leftchar: u8,
    /// The padding bytes seen since the last symbol.
    pub pads: int,
    /// The decoded bytes.
    pub out: Seq<u8>,
    /// The symbols decoded.
    pub symbols: int,
    /// Whether strict decoding has seen padding.
    pub saw_padding: bool,
    /// Whether a complete padding sequence ended non-strict decoding.
    pub done: bool,
    /// Whether the input was rejected.
    pub failed: bool,
}

/// The state before any input.
pub open spec fn scan_initial() -> ScanState {
    ScanState {
        quad: 0,
        leftchar: 0,
        pads: 0,
        out: Seq::empty(),
        symbols: 0,
        saw_padding: false,
        done: false,
        failed: false,
    }
}

/// Decode one symbol: every symbol after the first of a group completes an
/// output byte from the bits left by the one before.
pub open spec fn push_symbol(s: ScanState, value: u8) -> ScanState {
    let s1 = ScanState { pads: 0, symbols: s.symbols + 1, ..s };
    if s.quad == 0 {
        ScanState { quad: 1, leftchar: value, ..s1 }
    } else if s.quad == 1 {
        ScanState {
            quad: 2,
            leftchar: value & 0x0f,
            out: s.out.push(((s.leftchar << 2u8) | (value >> 4u8)) as u8),
            ..s1
        }
    } else if s.quad == 2 {
        ScanState {
            quad: 3,
            leftchar: value & 0x03,
            out: s.out.push(((s.leftchar << 4u8) | (value >> 2u8)) as u8),
            ..s1
        }
    } else {
        ScanState {
            quad: 0,
            leftchar: 0,
            out: s.out.push(((s.leftchar << 6u8) | value) as u8),
            ..s1
        }
    }
}

/// Whether `byte` is the `=` that pads rather than a symbol.
pub open spec fn equals_pads(r: ScanRules, byte: u8) -> bool {
    byte == EQUALS && r.table[EQUALS as int] >= 64
}

/// One byte of configured decoding. Strict decoding rejects a symbol after
/// padding, padding in unpadded input, and every byte that is neither a
/// symbol, padding nor discarded. Non-strict decoding skips every other
/// byte, rejects a non-canonical complete padding sequence when asked, and
/// ends at one unless it continues after padding.
pub open spec fn scan_step(r: ScanRules, s: ScanState, byte: u8) -> ScanState {
    let value = r.table[byte as int];
    if s.failed || s.done {
        s
    } else if r.strict {
        if value < 64 {
            if s.saw_padding {
                ScanState { failed: true, ..s }
            } else {
                push_symbol(s, value)
            }
        } else if equals_pads(r, byte) {
            if !r.padded {
                if r.skip_unpadded_equals && r.ignored[EQUALS as int] {
                    s
                } else {
                    ScanState { failed: true, ..s }
                }
            } else {
                ScanState { saw_padding: true, pads: s.pads + 1, ..s }
            }
        } else if r.ignored[byte as int] {
            s
        } else {
            ScanState { failed: true, ..s }
        }
    } else if r.padded && equals_pads(r, byte) {
        let pads = s.pads + 1;
        let complete = s.quad >= 2 && s.quad + pads >= 4;
        if r.canonical && complete && s.leftchar != 0 {
            ScanState { failed: true, ..s }
        } else if !r.continue_after_padding && complete {
            ScanState { pads, done: true, ..s }
        } else {
            ScanState { pads, ..s }
        }
    } else if value >= 64 {
        s
    } else {
        push_symbol(s, value)
    }
}

/// The state after all of `input`.
pub open spec fn scan_run(r: ScanRules, input: Seq<u8>) -> ScanState
    decreases input.len(),
{
    if input.len() == 0 {
        scan_initial()
    } else {
        scan_step(r, scan_run(r, input.drop_last()), input.last())
    }
}

/// The padding that strict decoding expects after `rem` symbols of a group.
pub open spec fn expected_padding(rem: int) -> int {
    if rem == 2 {
        2
    } else if rem == 3 {
        1
    } else {
        0
    }
}

/// The decoded bytes of a final state, or `None` when the input is rejected:
/// strict decoding needs complete groups, exact padding in padded mode and,
/// when asked, zero bits after the last complete byte; non-strict decoding
/// needs the same of input that a complete padding sequence did not end.
pub open spec fn scan_finish(r: ScanRules, s: ScanState) -> Option<Seq<u8>> {
    let nonzero_tail = r.canonical && (s.quad == 2 || s.quad == 3) && s.leftchar != 0;
    if s.failed {
        None
    } else if r.strict {
        if s.quad == 1 || (r.padded && s.pads != expected_padding(s.quad)) || nonzero_tail {
            None
        } else {
            Some(s.out)
        }
    } else if s.done {
        Some(s.out)
    } else if s.quad == 1 || (r.padded && s.quad != 0 && s.quad + s.pads < 4) || nonzero_tail {
        None
    } else {
        Some(s.out)
    }
}

/// The decoded bytes of `input`, or `None` when it is rejected.
pub open spec fn scan_outcome(r: ScanRules, input: Seq<u8>) -> Option<Seq<u8>> {
    scan_finish(r, scan_run(r, input))
}

/// The state after one more byte of a prefix.
pub proof fn lemma_scan_take(r: ScanRules, input: Seq<u8>, i: int)
    requires
        0 <= i < input.len(),
    ensures
        scan_run(r, input.take(i + 1)) == scan_step(r, scan_run(r, input.take(i)), input[i]),
{
    assert(input.take(i + 1).drop_last() =~= input.take(i));
}

/// The output only grows, and a rejected or ended state no longer changes.
pub proof fn lemma_scan_extends(r: ScanRules, input: Seq<u8>, i: int, j: int)
    requires
        0 <= i <= j <= input.len(),
    ensures
        ({
            let a = scan_run(r, input.take(i));
            let b = scan_run(r, input.take(j));
            &&& a.out.len() <= b.out.len()
            &&& b.out.take(a.out.len() as int) == a.out
            &&& (a.failed || a.done) ==> b == a
        }),
    decreases j - i,
{
    if i < j {
        lemma_scan_extends(r, input, i, j - 1);
        lemma_scan_take(r, input, j - 1);
        let a = scan_run(r, input.take(i));
        let m = scan_run(r, input.take(j - 1));
        let b = scan_run(r, input.take(j));
        assert(b.out.take(m.out.len() as int) =~= m.out);
        assert(b.out.take(a.out.len() as int) =~= m.out.take(a.out.len() as int));
    }
}

/// Canonical checks only reject: where a scan with them has not failed, it
/// is in the state of the same scan without them.
pub proof fn lemma_canonical_run(r: ScanRules, input: Seq<u8>)
    requires
        r.canonical,
    ensures
        !scan_run(r, input).failed ==> scan_run(r, input) == scan_run(
            ScanRules { canonical: false, ..r },
            input,
        ),
    decreases input.len(),
{
    if input.len() > 0 {
        lemma_canonical_run(r, input.drop_last());
    }
}

/// Canonical decoding accepts only input that decoding without the check
/// accepts, and gives the same bytes.
pub proof fn lemma_canonical_refines(r: ScanRules, input: Seq<u8>)
    requires
        r.canonical,
    ensures
        scan_outcome(r, input) is Some ==> scan_outcome(ScanRules { canonical: false, ..r }, input)
            == scan_outcome(r, input),
{
    lemma_canonical_run(r, input);
}

/// A non-strict scan state that is the non-strict decoder's state.
pub open spec fn agrees_with_lenient(s: ScanState, l: LenientState) -> bool {
    &&& !s.failed
    &&& s.quad == l.quad
    &&& s.leftchar == l.leftchar
    &&& s.pads == l.pads
    &&& s.out == l.out
    &&& s.symbols == l.symbols
    &&& s.done == l.stopped
}

/// Configured decoding without strict or canonical checks steps through the
/// states of CPython's non-strict decoder with the same table.
pub proof fn lemma_lenient_run_agrees(r: ScanRules, input: Seq<u8>)
    requires
        !r.strict,
        !r.canonical,
    ensures
        agrees_with_lenient(
            scan_run(r, input),
            lenient_run(input, r.table, r.padded, r.continue_after_padding),
        ),
    decreases input.len(),
{
    if input.len() > 0 {
        lemma_lenient_run_agrees(r, input.drop_last());
    }
}

/// Configured decoding without strict or canonical checks is CPython's
/// non-strict decoding through the same table: it accepts the same inputs
/// and gives the same bytes, whatever bytes were named to discard.
pub proof fn lemma_configured_lenient_is_lenient(r: ScanRules, input: Seq<u8>)
    requires
        !r.strict,
        !r.canonical,
    ensures
        scan_outcome(r, input) == ({
            let l = lenient_run(input, r.table, r.padded, r.continue_after_padding);
            if lenient_incomplete(l, r.padded) {
                None
            } else {
                Some(l.out)
            }
        }),
{
    lemma_lenient_run_agrees(r, input);
}

/// The number of bytes of `input` that the table of `r` reads as symbols.
pub open spec fn symbols_in(r: ScanRules, input: Seq<u8>) -> int
    decreases input.len(),
{
    if input.len() == 0 {
        0
    } else {
        symbols_in(r, input.drop_last()) + if r.table[input.last() as int] < 64 {
            1int
        } else {
            0int
        }
    }
}

/// The number of `=` bytes of `input`.
pub open spec fn equals_in(input: Seq<u8>) -> int
    decreases input.len(),
{
    if input.len() == 0 {
        0
    } else {
        equals_in(input.drop_last()) + if input.last() == EQUALS {
            1int
        } else {
            0int
        }
    }
}

/// The bytes that strict decoding accepts: each a symbol, `=` or discarded;
/// no symbol after an `=`; and no `=` at all in unpadded input.
pub open spec fn strict_bytes_accepted(r: ScanRules, input: Seq<u8>) -> bool {
    &&& forall|i: int|
        0 <= i < input.len() ==> r.table[#[trigger] input[i] as int] < 64 || input[i] == EQUALS
            || r.ignored[input[i] as int]
    &&& forall|i: int, j: int|
        0 <= i < j < input.len() && #[trigger] input[i] == EQUALS ==> r.table[#[trigger] input[j] as int]
            >= 64
    &&& !r.padded ==> forall|i: int| 0 <= i < input.len() ==> #[trigger] input[i] != EQUALS
}

proof fn lemma_equals_in_zero(input: Seq<u8>)
    ensures
        equals_in(input) >= 0,
        equals_in(input) == 0 <==> forall|i: int| 0 <= i < input.len() ==> input[i] != EQUALS,
    decreases input.len(),
{
    if input.len() > 0 {
        lemma_equals_in_zero(input.drop_last());
        let p = input.drop_last();
        if equals_in(p) != 0 {
            let i = choose|i: int| 0 <= i < p.len() && !(p[i] != EQUALS);
            assert(input[i] == p[i]);
        }
        assert forall|i: int| 0 <= i < p.len() implies p[i] == input[i] by {}
    }
}

proof fn lemma_strict_scan_state(r: ScanRules, input: Seq<u8>)
    requires
        r.strict,
        r.table.len() == 256,
        r.ignored.len() == 256,
        r.table[EQUALS as int] >= 64,
        !r.ignored[EQUALS as int],
    ensures
        !scan_run(r, input).failed <==> strict_bytes_accepted(r, input),
        !scan_run(r, input).failed ==> {
            &&& scan_run(r, input).symbols == symbols_in(r, input)
            &&& scan_run(r, input).pads == equals_in(input)
            &&& scan_run(r, input).saw_padding == (equals_in(input) > 0)
        },
    decreases input.len(),
{
    lemma_equals_in_zero(input);
    if input.len() > 0 {
        let p = input.drop_last();
        let b = input.last();
        let n = p.len() as int;
        lemma_strict_scan_state(r, p);
        lemma_equals_in_zero(p);
        lemma_scan_bounds(r, p);
        assert forall|i: int| 0 <= i < n implies input[i] == p[i] by {}
        assert(input[n] == b);
        assert(scan_run(r, input) == scan_step(r, scan_run(r, p), b));
        assert(symbols_in(r, input) == symbols_in(r, p) + if r.table[b as int] < 64 {
            1int
        } else {
            0int
        });
        assert(equals_in(input) == equals_in(p) + if b == EQUALS {
            1int
        } else {
            0int
        });
        if strict_bytes_accepted(r, input) {
            assert(strict_bytes_accepted(r, p)) by {
                assert forall|i: int, j: int|
                    0 <= i < j < p.len() && #[trigger] p[i] == EQUALS implies r.table[#[trigger] p[j] as int]
                    >= 64 by {
                    assert(input[i] == p[i] && input[j] == p[j]);
                }
            }
        }
        if !scan_run(r, p).failed {
            if r.table[b as int] < 64 && equals_in(p) > 0 {
                let i = choose|i: int| 0 <= i < p.len() && !(p[i] != EQUALS);
                assert(input[i] == EQUALS);
                assert(!strict_bytes_accepted(r, input));
            } else if r.table[b as int] < 64 {
                assert(strict_bytes_accepted(r, input)) by {
                    assert forall|i: int, j: int|
                        0 <= i < j < input.len() && #[trigger] input[i] == EQUALS implies r.table[
                        #[trigger] input[j] as int] >= 64 by {
                        assert(p[i] == input[i]);
                        if j < n {
                            assert(p[j] == input[j]);
                        }
                    }
                }
            } else if b == EQUALS {
                if r.padded {
                    assert(strict_bytes_accepted(r, input)) by {
                        assert forall|i: int, j: int|
                            0 <= i < j < input.len() && #[trigger] input[i] == EQUALS implies r.table[
                            #[trigger] input[j] as int] >= 64 by {
                            if j < n {
                                assert(p[i] == input[i] && p[j] == input[j]);
                            }
                        }
                    }
                } else {
                    assert(!strict_bytes_accepted(r, input));
                }
            } else if r.ignored[b as int] {
                assert(strict_bytes_accepted(r, input)) by {
                    assert forall|i: int, j: int|
                        0 <= i < j < input.len() && #[trigger] input[i] == EQUALS implies r.table[
                        #[trigger] input[j] as int] >= 64 by {
                        assert(p[i] == input[i]);
                        if j < n {
                            assert(p[j] == input[j]);
                        }
                    }
                }
            } else {
                assert(!strict_bytes_accepted(r, input));
            }
        }
    }
}

/// Strict decoding, without canonical checks and with `=` neither a symbol
/// nor discarded, counted: it accepts `input` exactly when every byte is a
/// symbol, `=` or discarded, no symbol follows an `=`, the symbols do not
/// leave a lone one in the last group, and the `=` bytes are none in
/// unpadded input and, in padded input, as many as the last group lacks
/// (none, two or one for zero, two or three symbols over). It then decodes
/// three bytes for each four symbols and one fewer than the symbols of a
/// partial group.
pub proof fn lemma_strict_scan_counts(r: ScanRules, input: Seq<u8>)
    requires
        r.strict,
        !r.canonical,
        r.table.len() == 256,
        r.ignored.len() == 256,
        r.table[EQUALS as int] >= 64,
        !r.ignored[EQUALS as int],
    ensures
        scan_outcome(r, input) is Some <==> {
            &&& strict_bytes_accepted(r, input)
            &&& symbols_in(r, input) % 4 != 1
            &&& r.padded ==> equals_in(input) == expected_padding(symbols_in(r, input) % 4)
        },
        scan_outcome(r, input) is Some ==> scan_outcome(r, input)->Some_0.len()
            == spec_decoded_symbol_len(symbols_in(r, input)),
{
    lemma_strict_scan_state(r, input);
    lemma_scan_out_len(r, input);
    lemma_equals_in_zero(input);
}

/// The whole input is its longest prefix.
pub proof fn lemma_scan_full(r: ScanRules, input: Seq<u8>)
    ensures
        scan_run(r, input.take(input.len() as int)) == scan_run(r, input),
{
    assert(input.take(input.len() as int) =~= input);
}

/// The group position stays below four, and the output is never longer than
/// the symbols decoded.
pub proof fn lemma_scan_bounds(r: ScanRules, input: Seq<u8>)
    ensures
        0 <= scan_run(r, input).quad < 4,
        scan_run(r, input).out.len() <= scan_run(r, input).symbols <= input.len(),
        scan_run(r, input).quad == 0 ==> scan_run(r, input).leftchar == 0,
        0 <= scan_run(r, input).pads <= input.len(),
        r.strict ==> !scan_run(r, input).done,
    decreases input.len(),
{
    if input.len() > 0 {
        lemma_scan_bounds(r, input.drop_last());
    }
}

/// The output holds three bytes for each complete group of four symbols and
/// one fewer than the symbols of a started group.
pub proof fn lemma_scan_out_len(r: ScanRules, input: Seq<u8>)
    ensures
        scan_run(r, input).quad == scan_run(r, input).symbols % 4,
        scan_run(r, input).out.len() == spec_decoded_symbol_len(scan_run(r, input).symbols),
        scan_run(r, input).out.len() <= (input.len() + 3) / 4 * 3,
    decreases input.len(),
{
    lemma_scan_bounds(r, input);
    if input.len() > 0 {
        lemma_scan_out_len(r, input.drop_last());
    }
    let symbols = scan_run(r, input).symbols;
    assert(spec_decoded_symbol_len(symbols) <= (input.len() + 3) / 4 * 3) by (nonlinear_arith)
        requires
            0 <= symbols <= input.len(),
            spec_decoded_symbol_len(symbols) == symbols / 4 * 3 + if symbols % 4 == 2 {
                1int
            } else if symbols % 4 == 3 {
                2int
            } else {
                0int
            },
    ;
}

/// The decoder state as machine integers.
pub struct Cursor {
    pub quad: u8,
    pub leftchar: u8,
    pub pads: usize,
    pub symbols: usize,
    pub written: usize,
    pub saw_padding: bool,
}

/// Whether the cursor and the destination hold the spec state `s`: its
/// counters, and, when writing, its output in front of the old contents.
pub open spec fn cursor_holds(
    cur: Cursor,
    s: ScanState,
    output: Seq<u8>,
    old_output: Seq<u8>,
    write: bool,
) -> bool {
    &&& cur.quad == s.quad
    &&& cur.leftchar == s.leftchar
    &&& cur.pads == s.pads
    &&& cur.symbols == s.symbols
    &&& cur.written == s.out.len()
    &&& cur.saw_padding == s.saw_padding
    &&& !s.failed
    &&& !s.done
    &&& cur.quad < 4
    &&& output.len() == old_output.len()
    &&& write ==> output == s.out + old_output.skip(cur.written as int)
    &&& !write ==> output == old_output
}

/// Decode one symbol into the cursor and, when writing, the destination.
fn push_value(
    cur: &mut Cursor,
    value: u8,
    output: &mut Vec<u8>,
    write: bool,
    Ghost(s): Ghost<ScanState>,
    Ghost(old_output): Ghost<Seq<u8>>,
)
    requires
        cursor_holds(*old(cur), s, old(output)@, old_output, write),
        value < 64,
        old(cur).symbols < usize::MAX,
        old(cur).written <= old(cur).symbols,
        write ==> push_symbol(s, value).out.len() <= old_output.len(),
    ensures
        cursor_holds(*final(cur), push_symbol(s, value), final(output)@, old_output, write),
        final(cur).symbols == old(cur).symbols + 1,
        final(cur).written <= final(cur).symbols,
{
    if cur.quad == 0 {
        cur.quad = 1;
        cur.leftchar = value;
    } else {
        let decoded = if cur.quad == 1 {
            (cur.leftchar << 2u8) | (value >> 4u8)
        } else if cur.quad == 2 {
            (cur.leftchar << 4u8) | (value >> 2u8)
        } else {
            (cur.leftchar << 6u8) | value
        };
        if write {
            output.set(cur.written, decoded);
            proof {
                assert(output@ =~= push_symbol(s, value).out + old_output.skip(
                    cur.written + 1,
                ));
            }
        }
        cur.written = cur.written + 1;
        if cur.quad == 1 {
            cur.quad = 2;
            cur.leftchar = value & 0x0f;
        } else if cur.quad == 2 {
            cur.quad = 3;
            cur.leftchar = value & 0x03;
        } else {
            cur.quad = 0;
            cur.leftchar = 0;
        }
    }
    cur.pads = 0;
    cur.symbols = cur.symbols + 1;
}


/// The length of a decoded output, or `None`.
pub open spec fn outcome_len(outcome: Option<Seq<u8>>) -> Option<usize> {
    match outcome {
        Some(out) => Some(out.len() as usize),
        None => None,
    }
}

/// A decoder for one policy: its table, its discarded bytes and its rules.
pub struct ConfiguredDecoder {
    pub table: [u8; 256],
    pub ignored: [bool; 256],
    pub validation: Validation,
    pub padding: Padding,
    pub canonical: bool,
    /// The tier of the alphanumeric scanner.
    pub scanner: KernelTier,
    pub strict_specials: StrictSpecials,
    pub strict_forbidden: StrictSpecials,
    pub translation: Option<Translation>,
}

impl ConfiguredDecoder {
    /// The derived fields agree with the table and the discarded bytes.
    pub open spec fn well_formed(&self) -> bool {
        let padded = self.padding == Padding::Padded;
        &&& self.strict_specials == specials_of(
            StrictSpecials::discarded_upto(self.table@, self.ignored@, padded, 256),
        )
        &&& self.strict_forbidden == specials_of(
            StrictSpecials::forbidden_upto(self.table@, self.ignored@, 64),
        )
        &&& forall|byte: u8| #[trigger]
            apply_translation(self.translation, byte) == translated(self.table@, byte)
    }

    /// Whether strict decoding searches for the few special bytes rather than
    /// reading every byte: at most three discarded bytes and at most three
    /// standard symbols left out of the alphabet. It also decides whether a
    /// discarded `=` in unpadded input is skipped (see `ScanRules`).
    pub open spec fn uses_specials(&self) -> bool {
        self.validation == Validation::Strict && !(self.strict_specials is Many) && !(
        self.strict_forbidden is Many)
    }

    /// The rules this decoder follows.
    pub open spec fn rules(&self, continue_after_padding: bool) -> ScanRules {
        ScanRules {
            table: self.table@,
            ignored: self.ignored@,
            strict: self.validation == Validation::Strict,
            padded: self.padding == Padding::Padded,
            canonical: self.canonical,
            continue_after_padding,
            skip_unpadded_equals: self.uses_specials(),
        }
    }

    /// What this decoder makes of `input`.
    pub open spec fn outcome(&self, input: Seq<u8>, continue_after_padding: bool) -> Option<
        Seq<u8>,
    > {
        scan_outcome(self.rules(continue_after_padding), input)
    }

    /// A decoder for a table and discarded bytes, with the kernels of
    /// `features`; at most two bytes of the table may need rewriting.
    pub fn with_table(
        table: [u8; 256],
        ignored: [bool; 256],
        validation: Validation,
        padding: Padding,
        canonical: bool,
        features: CpuFeatures,
    ) -> (decoder: Self)
        requires
            exists|a: u8, b: u8| #[trigger] sources_within(table@, a, b),
        ensures
            decoder.well_formed(),
            decoder.table == table,
            decoder.ignored == ignored,
            decoder.validation == validation,
            decoder.padding == padding,
            decoder.canonical == canonical,
    {
        let kernels = decode_byte_kernels(features);
        let padded = padding.is_padded();
        let strict_specials = StrictSpecials::new(&table, &ignored, padded);
        let strict_forbidden = StrictSpecials::forbidden(&table, &ignored);
        let translation = Translation::new(&table, kernels.translate);
        ConfiguredDecoder {
            table,
            ignored,
            validation,
            padding,
            canonical,
            scanner: kernels.scanner,
            strict_specials,
            strict_forbidden,
            translation,
        }
    }

    /// The decoder for a prepared policy, with the kernels of `features`.
    /// Discarded bytes named by the caller make a custom alphabet, in which
    /// `+` and `/` are symbols only as alternative characters.
    pub fn new(policy: &PreparedPolicy, features: CpuFeatures) -> (decoder: Self)
        ensures
            decoder.well_formed(),
            decoder.table@ == configured_table(
                policy.altchars,
                policy.altchars is Some && policy.ignorechars_specified,
            ),
            forall|i: int|
                0 <= i < 256 ==> #[trigger] decoder.ignored@[i] == match policy.ignored {
                    Some(set) => set.has(i as u8),
                    None => false,
                },
            decoder.validation == policy.validation,
            decoder.padding == policy.padding,
            decoder.canonical == policy.canonical,
    {
        let custom = policy.altchars.is_some() && policy.ignorechars_specified;
        let table = configured_decode_table(policy.altchars, custom);
        let ignored = match policy.ignored {
            Some(set) => set.to_flags(),
            None => [false; 256],
        };
        proof {
            lemma_configured_sources(policy.altchars, custom);
            match policy.altchars {
                Some(pair) => {
                    assert(sources_within(table@, pair[0], pair[1]));
                },
                None => {
                    assert(sources_within(table@, 0, 0));
                },
            }
        }
        ConfiguredDecoder::with_table(
            table,
            ignored,
            policy.validation,
            policy.padding,
            policy.canonical,
            features,
        )
    }

    /// A strict decoder for the alphabet of `altchars`, without discarded
    /// bytes or canonical checks; `custom` drops `+` and `/` from it.
    pub fn strict(
        altchars: Option<[u8; 2]>,
        custom: bool,
        padding: Padding,
        features: CpuFeatures,
    ) -> (decoder: Self)
        ensures
            decoder.well_formed(),
            decoder.table@ == configured_table(altchars, custom),
            forall|i: int| 0 <= i < 256 ==> !(#[trigger] decoder.ignored@[i]),
            decoder.validation == Validation::Strict,
            decoder.padding == padding,
            !decoder.canonical,
    {
        let table = configured_decode_table(altchars, custom);
        proof {
            lemma_configured_sources(altchars, custom);
            match altchars {
                Some(pair) => {
                    assert(sources_within(table@, pair[0], pair[1]));
                },
                None => {
                    assert(sources_within(table@, 0, 0));
                },
            }
        }
        ConfiguredDecoder::with_table(
            table,
            [false; 256],
            Validation::Strict,
            padding,
            false,
            features,
        )
    }

    /// Whether every letter and digit keeps its standard value.
    pub fn preserves_alphanumeric(&self) -> (preserves: bool)
        ensures
            preserves == forall|value: int|
                0 <= value < 62 ==> self.table@[std_char(value) as int] == value,
    {
        let mut value: u8 = 0;
        while value < 62
            invariant
                value <= 62,
                forall|v: int| 0 <= v < value ==> self.table@[std_char(v) as int] == v,
            decreases 62 - value,
        {
            if self.table[standard_alphabet_char(value) as usize] != value {
                return false;
            }
            value = value + 1;
        }
        true
    }

    /// The verdict on a final state held by the cursor.
    fn finish(
        &self,
        cur: &Cursor,
        continue_after_padding: bool,
        Ghost(s): Ghost<ScanState>,
    ) -> (result: Option<usize>)
        requires
            cur.quad == s.quad,
            cur.leftchar == s.leftchar,
            cur.pads == s.pads,
            cur.written == s.out.len(),
            !s.failed,
            !s.done,
            cur.quad < 4,
        ensures
            result == outcome_len(scan_finish(self.rules(continue_after_padding), s)),
    {
        let quad = cur.quad;
        let padded = self.padding.is_padded();
        let nonzero_tail = self.canonical && (quad == 2 || quad == 3) && cur.leftchar != 0;
        if self.validation.is_strict() {
            let expected: usize = if quad == 2 {
                2
            } else if quad == 3 {
                1
            } else {
                0
            };
            if quad == 1 || (padded && cur.pads != expected) || nonzero_tail {
                None
            } else {
                Some(cur.written)
            }
        } else if quad == 1 || (padded && quad != 0 && cur.pads < (4 - quad) as usize)
            || nonzero_tail {
            None
        } else {
            Some(cur.written)
        }
    }

    /// Read every byte of `input` by the rules of the decoder, writing the
    /// decoded bytes into `output` when `write` is set.
    fn scan_bytes(
        &self,
        input: &[u8],
        output: &mut Vec<u8>,
        write: bool,
        continue_after_padding: bool,
    ) -> (result: Option<usize>)
        requires
            !self.uses_specials(),
            write ==> old(output)@.len() >= scan_run(
                self.rules(continue_after_padding),
                input@,
            ).out.len(),
        ensures
            result == outcome_len(self.outcome(input@, continue_after_padding)),
            final(output)@.len() == old(output)@.len(),
            !write ==> final(output)@ == old(output)@,
            write && result is Some ==> final(output)@ == self.outcome(
                input@,
                continue_after_padding,
            )->Some_0 + old(output)@.skip(result->Some_0 as int),
    {
        let ghost r = self.rules(continue_after_padding);
        let ghost old_output = output@;
        let ghost final_out = scan_run(r, input@).out;
        let strict = self.validation.is_strict();
        let padded = self.padding.is_padded();
        let equals_is_data = self.table[EQUALS as usize] < 64;
        let mut cur = Cursor {
            quad: 0,
            leftchar: 0,
            pads: 0,
            symbols: 0,
            written: 0,
            saw_padding: false,
        };
        let mut source: usize = 0;
        proof {
            assert(input@.take(0) =~= Seq::<u8>::empty());
            assert(output@ =~= scan_initial().out + old_output.skip(0));
        }
        while source < input.len()
            invariant
                r == self.rules(continue_after_padding),
                !self.uses_specials(),
                source <= input@.len(),
                input@.len() == input.len(),
                old_output == old(output)@,
                final_out == scan_run(r, input@).out,
                write ==> old_output.len() >= final_out.len(),
                strict == (self.validation == Validation::Strict),
                padded == (self.padding == Padding::Padded),
                equals_is_data == (self.table@[EQUALS as int] < 64),
                cursor_holds(cur, scan_run(r, input@.take(source as int)), output@, old_output, write),
                cur.written <= cur.symbols,
                cur.symbols <= source,
                cur.pads <= source,
            decreases input@.len() - source,
        {
            let ghost s = scan_run(r, input@.take(source as int));
            let byte = input[source];
            let value = self.table[byte as usize];
            proof {
                lemma_scan_take(r, input@, source as int);
                lemma_scan_extends(r, input@, source + 1, input@.len() as int);
                lemma_scan_full(r, input@);
                lemma_scan_bounds(r, input@.take(source + 1));
            }
            source = source + 1;
            if strict {
                if value < 64 {
                    if cur.saw_padding {
                        return None;
                    }
                    push_value(&mut cur, value, output, write, Ghost(s), Ghost(old_output));
                } else if byte == EQUALS && !equals_is_data {
                    if !padded {
                        return None;
                    }
                    cur.saw_padding = true;
                    cur.pads = cur.pads + 1;
                } else if !self.ignored[byte as usize] {
                    return None;
                }
            } else if padded && byte == EQUALS && !equals_is_data {
                cur.pads = cur.pads + 1;
                let complete = cur.quad >= 2 && cur.pads >= (4 - cur.quad) as usize;
                if self.canonical && complete && cur.leftchar != 0 {
                    return None;
                }
                if !continue_after_padding && complete {
                    return Some(cur.written);
                }
            } else if value < 64 {
                push_value(&mut cur, value, output, write, Ghost(s), Ghost(old_output));
            }
        }
        proof {
            lemma_scan_full(r, input@);
        }
        self.finish(&cur, continue_after_padding, Ghost(scan_run(r, input@)))
    }
}


/// The listed bytes are exactly those of the list, when there are at most
/// three.
pub proof fn lemma_specials_of_has(bytes: Seq<u8>, byte: u8)
    requires
        bytes.len() <= 3,
    ensures
        specials_of(bytes).has(byte) <==> bytes.contains(byte),
{
    if bytes.contains(byte) {
        let k = choose|k: int| 0 <= k < bytes.len() && bytes[k] == byte;
        assert(k < 3);
    }
    if specials_of(bytes).has(byte) {
        if bytes.len() >= 1 && byte == bytes[0] {
            assert(bytes.contains(byte));
        } else if bytes.len() >= 2 && byte == bytes[1] {
            assert(bytes.contains(byte));
        } else {
            assert(bytes.len() == 3 && byte == bytes[2]);
            assert(bytes.contains(byte));
        }
    }
}

/// The discarded bytes below `n` are those listed.
pub proof fn lemma_discarded_upto_contains(
    table: Seq<u8>,
    ignored: Seq<bool>,
    padded: bool,
    n: int,
    byte: u8,
)
    requires
        0 <= n <= 256,
    ensures
        StrictSpecials::discarded_upto(table, ignored, padded, n).contains(byte) <==> (byte < n
            && StrictSpecials::discarded(table, ignored, padded, byte)),
    decreases n,
{
    if n > 0 {
        lemma_discarded_upto_contains(table, ignored, padded, n - 1, byte);
        let prev = StrictSpecials::discarded_upto(table, ignored, padded, n - 1);
        let cur = StrictSpecials::discarded_upto(table, ignored, padded, n);
        if StrictSpecials::discarded(table, ignored, padded, (n - 1) as u8) {
            assert(cur =~= prev.push((n - 1) as u8));
            if prev.contains(byte) {
                let k = choose|k: int| 0 <= k < prev.len() && prev[k] == byte;
                assert(cur[k] == byte);
            }
            if cur.contains(byte) && byte != (n - 1) as u8 {
                let k = choose|k: int| 0 <= k < cur.len() && cur[k] == byte;
                assert(prev[k] == byte);
            }
            if byte == (n - 1) as u8 {
                assert(cur[prev.len() as int] == byte);
            }
        } else {
            assert(cur =~= prev);
        }
    }
}

/// Every rejected standard character of a value below `n` is listed.
pub proof fn lemma_forbidden_upto_contains(table: Seq<u8>, ignored: Seq<bool>, n: int, value: int)
    requires
        0 <= value < n,
        StrictSpecials::forbidden_value(table, ignored, value),
    ensures
        StrictSpecials::forbidden_upto(table, ignored, n).contains(std_char(value)),
    decreases n,
{
    let prev = StrictSpecials::forbidden_upto(table, ignored, n - 1);
    let cur = StrictSpecials::forbidden_upto(table, ignored, n);
    if value < n - 1 {
        lemma_forbidden_upto_contains(table, ignored, n - 1, value);
        let k = choose|k: int| 0 <= k < prev.len() && prev[k] == std_char(value);
        assert(cur[k] == prev[k]);
    } else {
        assert(cur =~= prev.push(std_char(n - 1)));
        assert(cur[prev.len() as int] == std_char(value));
    }
}

/// The standard value of a standard-alphabet byte.
fn standard_value(byte: u8) -> (value: u8)
    requires
        is_std_char(byte),
    ensures
        value == std_value(byte),
{
    if 65 <= byte && byte <= 90 {
        byte - 65
    } else if 97 <= byte && byte <= 122 {
        byte - 97 + 26
    } else if 48 <= byte && byte <= 57 {
        byte - 48 + 52
    } else if byte == 43 {
        62
    } else {
        63
    }
}

/// The rewriting of one byte by an optional translation.
fn translate_one(translation: Option<Translation>, byte: u8) -> (translated: u8)
    ensures
        translated == apply_translation(translation, byte),
{
    match translation {
        Some(t) => {
            if byte == t.source0 {
                t.target0
            } else if byte == t.source1 {
                t.target1
            } else {
                byte
            }
        },
        None => byte,
    }
}

/// Whether `byte` belongs to the standard alphabet.
fn is_standard_byte(byte: u8) -> (standard: bool)
    ensures
        standard == is_std_char(byte),
{
    (65 <= byte && byte <= 90) || (97 <= byte && byte <= 122) || (48 <= byte && byte <= 57)
        || byte == 43 || byte == 47
}

impl ConfiguredDecoder {
    /// What strict decoding makes of a byte that the special-byte scanner
    /// puts in a run: a symbol is decoded, anything else rejected.
    proof fn lemma_run_byte(&self, continue_after_padding: bool, byte: u8, s: ScanState)
        requires
            self.well_formed(),
            self.uses_specials(),
            !s.failed,
            !s.done,
            !s.saw_padding,
            !self.strict_specials.has(byte),
            !self.strict_forbidden.has(byte),
            self.padding == Padding::Padded && self.table@[EQUALS as int] >= 64 ==> byte != EQUALS,
        ensures
            ({
                let t = translated(self.table@, byte);
                let r = self.rules(continue_after_padding);
                if is_std_char(t) {
                    &&& self.table@[byte as int] < 64
                    &&& std_value(t) == self.table@[byte as int]
                    &&& scan_step(r, s, byte) == push_symbol(s, std_value(t))
                } else {
                    scan_step(r, s, byte).failed
                }
            }),
    {
        let table = self.table@;
        let ignored = self.ignored@;
        let padded = self.padding == Padding::Padded;
        let specials = StrictSpecials::discarded_upto(table, ignored, padded, 256);
        let forbidden = StrictSpecials::forbidden_upto(table, ignored, 64);
        StrictSpecials::lemma_forbidden_upto_grows(table, ignored, 64, 64);
        lemma_discarded_upto_contains(table, ignored, padded, 256, byte);
        if specials.len() <= 3 {
            lemma_specials_of_has(specials, byte);
        }
        if forbidden.len() <= 3 {
            lemma_specials_of_has(forbidden, byte);
        }
        if table[byte as int] < 64 {
            lemma_std_char_value(table[byte as int] as int);
        } else if is_std_char(byte) {
            lemma_std_value_char(byte);
            if !ignored[byte as int] {
                lemma_forbidden_upto_contains(table, ignored, 64, std_value(byte) as int);
            }
        } else if byte == EQUALS && !padded {
            lemma_discarded_upto_contains(table, ignored, padded, 256, EQUALS);
        }
    }

    /// Strict decoding leaves its state alone on a byte that the
    /// special-byte scanner skips.
    proof fn lemma_special_byte(&self, continue_after_padding: bool, byte: u8, s: ScanState)
        requires
            self.well_formed(),
            self.uses_specials(),
            !s.failed,
            !s.done,
            self.strict_specials.has(byte),
        ensures
            scan_step(self.rules(continue_after_padding), s, byte) == s,
    {
        let padded = self.padding == Padding::Padded;
        let specials = StrictSpecials::discarded_upto(self.table@, self.ignored@, padded, 256);
        lemma_discarded_upto_contains(self.table@, self.ignored@, padded, 256, byte);
        if specials.len() <= 3 {
            lemma_specials_of_has(specials, byte);
        }
    }

    /// Strict decoding rejects a standard character that the table rejects
    /// outright.
    proof fn lemma_forbidden_byte(&self, continue_after_padding: bool, byte: u8, s: ScanState)
        requires
            self.well_formed(),
            self.uses_specials(),
            self.strict_forbidden.has(byte),
        ensures
            scan_step(self.rules(continue_after_padding), s, byte).failed || s.done,
    {
        let forbidden = StrictSpecials::forbidden_upto(self.table@, self.ignored@, 64);
        if forbidden.len() <= 3 {
            lemma_specials_of_has(forbidden, byte);
        }
        lemma_forbidden_members(self.table@, self.ignored@, 64, byte);
    }
}

/// Every listed rejected character is the standard character of a rejected
/// value.
pub proof fn lemma_forbidden_members(table: Seq<u8>, ignored: Seq<bool>, n: int, byte: u8)
    requires
        0 <= n <= 64,
        StrictSpecials::forbidden_upto(table, ignored, n).contains(byte),
    ensures
        exists|value: int|
            0 <= value < n && byte == std_char(value) && StrictSpecials::forbidden_value(
                table,
                ignored,
                value,
            ),
        is_std_char(byte),
        table[byte as int] >= 64,
        !ignored[byte as int],
    decreases n,
{
    let prev = StrictSpecials::forbidden_upto(table, ignored, n - 1);
    let cur = StrictSpecials::forbidden_upto(table, ignored, n);
    if prev.contains(byte) {
        lemma_forbidden_members(table, ignored, n - 1, byte);
    } else {
        let k = choose|k: int| 0 <= k < cur.len() && cur[k] == byte;
        if StrictSpecials::forbidden_value(table, ignored, n - 1) {
            assert(cur =~= prev.push(std_char(n - 1)));
            if k < prev.len() {
                assert(prev[k] == byte);
                assert(false);
            }
            lemma_std_char_value(n - 1);
        } else {
            assert(cur =~= prev);
            assert(prev[k] == byte);
            assert(false);
        }
    }
}


impl ConfiguredDecoder {
    /// Decode the run `input[start..end]`, which holds no special byte, no
    /// rejected standard character and no padding: each byte is translated
    /// into the standard alphabet and decoded, and anything else rejects the
    /// input. `false` means that the input was rejected.
    fn decode_run(
        &self,
        input: &[u8],
        start: usize,
        end: usize,
        cur: &mut Cursor,
        output: &mut Vec<u8>,
        write: bool,
        continue_after_padding: bool,
        Ghost(old_output): Ghost<Seq<u8>>,
    ) -> (ok: bool)
        requires
            self.well_formed(),
            self.uses_specials(),
            start <= end <= input@.len(),
            cursor_holds(
                *old(cur),
                scan_run(self.rules(continue_after_padding), input@.take(start as int)),
                old(output)@,
                old_output,
                write,
            ),
            !old(cur).saw_padding,
            old(cur).written <= old(cur).symbols,
            old(cur).symbols <= start,
            write ==> old_output.len() >= scan_run(
                self.rules(continue_after_padding),
                input@,
            ).out.len(),
            forall|j: int|
                start <= j < end ==> !self.strict_specials.has(#[trigger] input@[j])
                    && !self.strict_forbidden.has(input@[j]),
            self.padding == Padding::Padded && self.table@[EQUALS as int] >= 64 ==> forall|j: int|
                start <= j < end ==> #[trigger] input@[j] != EQUALS,
        ensures
            ok ==> cursor_holds(
                *final(cur),
                scan_run(self.rules(continue_after_padding), input@.take(end as int)),
                final(output)@,
                old_output,
                write,
            ),
            ok ==> !final(cur).saw_padding && final(cur).written <= final(cur).symbols
                && final(cur).symbols <= end,
            !ok ==> scan_run(self.rules(continue_after_padding), input@).failed,
            final(output)@.len() == old(output)@.len(),
            !write ==> final(output)@ == old(output)@,
    {
        let ghost r = self.rules(continue_after_padding);
        let mut source = start;
        while source < end
            invariant
                r == self.rules(continue_after_padding),
                self.well_formed(),
                self.uses_specials(),
                start <= source <= end <= input@.len(),
                input@.len() == input.len(),
                cursor_holds(*cur, scan_run(r, input@.take(source as int)), output@, old_output, write),
                old(output)@.len() == old_output.len(),
                !write ==> old(output)@ == old_output,
                !cur.saw_padding,
                cur.written <= cur.symbols,
                cur.symbols <= source,
                write ==> old_output.len() >= scan_run(r, input@).out.len(),
                forall|j: int|
                    start <= j < end ==> !self.strict_specials.has(#[trigger] input@[j])
                        && !self.strict_forbidden.has(input@[j]),
                self.padding == Padding::Padded && self.table@[EQUALS as int] >= 64 ==> forall|
                    j: int,
                | start <= j < end ==> #[trigger] input@[j] != EQUALS,
            decreases end - source,
        {
            let ghost s = scan_run(r, input@.take(source as int));
            let byte = input[source];
            let translated_byte = translate_one(self.translation, byte);
            proof {
                lemma_scan_take(r, input@, source as int);
                lemma_scan_extends(r, input@, source + 1, input@.len() as int);
                lemma_scan_full(r, input@);
                self.lemma_run_byte(continue_after_padding, byte, s);
            }
            if !is_standard_byte(translated_byte) {
                proof {
                    lemma_scan_bounds(r, input@.take(source as int));
                }
                return false;
            }
            let value = standard_value(translated_byte);
            push_value(cur, value, output, write, Ghost(s), Ghost(old_output));
            source = source + 1;
        }
        true
    }

    /// Strict decoding that searches for the special bytes: the data ends at
    /// the first padding byte, a rejected standard character rejects the
    /// input at once, runs between discarded bytes are decoded through the
    /// translation, and only padding and discarded bytes may follow the data.
    fn scan_specials(
        &self,
        input: &[u8],
        output: &mut Vec<u8>,
        write: bool,
        continue_after_padding: bool,
    ) -> (result: Option<usize>)
        requires
            self.well_formed(),
            self.uses_specials(),
            write ==> old(output)@.len() >= scan_run(
                self.rules(continue_after_padding),
                input@,
            ).out.len(),
        ensures
            result == outcome_len(self.outcome(input@, continue_after_padding)),
            final(output)@.len() == old(output)@.len(),
            !write ==> final(output)@ == old(output)@,
            write && result is Some ==> final(output)@ == self.outcome(
                input@,
                continue_after_padding,
            )->Some_0 + old(output)@.skip(result->Some_0 as int),
    {
        let ghost r = self.rules(continue_after_padding);
        let ghost old_output = output@;
        let padded = self.padding.is_padded();
        let equals_is_padding = padded && self.table[EQUALS as usize] >= 64;
        let data_end = if equals_is_padding {
            match memchr::memchr(EQUALS, input) {
                Some(index) => index,
                None => input.len(),
            }
        } else {
            input.len()
        };
        let head = vstd::slice::slice_subrange(input, 0, data_end);
        match self.strict_forbidden.find(head) {
            Some(index) => {
                proof {
                    let s = scan_run(r, input@.take(index as int));
                    lemma_scan_bounds(r, input@.take(index as int));
                    assert(head@[index as int] == input@[index as int]);
                    lemma_scan_take(r, input@, index as int);
                    self.lemma_forbidden_byte(continue_after_padding, input@[index as int], s);
                    if s.failed || s.done {
                        lemma_scan_extends(r, input@, index as int, input@.len() as int);
                    } else {
                        lemma_scan_extends(r, input@, index + 1, input@.len() as int);
                    }
                    lemma_scan_full(r, input@);
                    lemma_scan_bounds(r, input@);
                }
                return None;
            },
            None => {},
        }
        proof {
            assert forall|j: int| 0 <= j < data_end implies !self.strict_forbidden.has(
                #[trigger] input@[j],
            ) by {
                assert(head@[j] == input@[j]);
            }
        }
        let mut cur = Cursor {
            quad: 0,
            leftchar: 0,
            pads: 0,
            symbols: 0,
            written: 0,
            saw_padding: false,
        };
        let mut source: usize = 0;
        proof {
            assert(input@.take(0) =~= Seq::<u8>::empty());
            assert(output@ =~= scan_initial().out + old_output.skip(0));
        }
        while source < data_end
            invariant
                r == self.rules(continue_after_padding),
                self.well_formed(),
                self.uses_specials(),
                source <= data_end <= input@.len(),
                input@.len() == input.len(),
                old_output == old(output)@,
                write ==> old_output.len() >= scan_run(r, input@).out.len(),
                cursor_holds(cur, scan_run(r, input@.take(source as int)), output@, old_output, write),
                !cur.saw_padding,
                cur.written <= cur.symbols,
                cur.symbols <= source,
                forall|j: int|
                    0 <= j < data_end ==> !self.strict_forbidden.has(#[trigger] input@[j]),
                equals_is_padding == (self.padding == Padding::Padded && self.table@[EQUALS as int]
                    >= 64),
                equals_is_padding ==> forall|j: int|
                    0 <= j < data_end ==> #[trigger] input@[j] != EQUALS,
                data_end < input@.len() ==> equals_is_padding && input@[data_end as int] == EQUALS,
            decreases data_end - source,
        {
            let ghost run_start = source;
            let rest = vstd::slice::slice_subrange(input, source, data_end);
            let run_end = match self.strict_specials.find(rest) {
                Some(offset) => source + offset,
                None => data_end,
            };
            proof {
                assert forall|j: int| source <= j < run_end implies !self.strict_specials.has(
                    #[trigger] input@[j],
                ) && !self.strict_forbidden.has(input@[j]) by {
                    assert(rest@[j - source] == input@[j]);
                }
                assert(equals_is_padding ==> forall|j: int|
                    source <= j < run_end ==> #[trigger] input@[j] != EQUALS);
            }
            if !self.decode_run(
                input,
                source,
                run_end,
                &mut cur,
                output,
                write,
                continue_after_padding,
                Ghost(old_output),
            ) {
                proof {
                    lemma_scan_bounds(r, input@);
                }
                return None;
            }
            source = run_end;
            if source < data_end {
                proof {
                    let s = scan_run(r, input@.take(source as int));
                    assert(rest@[run_end - run_start] == input@[run_end as int]);
                    lemma_scan_take(r, input@, source as int);
                    self.lemma_special_byte(continue_after_padding, input@[source as int], s);
                }
                source = source + 1;
            }
        }
        proof {
            lemma_scan_bounds(r, input@.take(source as int));
        }
        while source < input.len()
            invariant
                r == self.rules(continue_after_padding),
                data_end <= source <= input@.len(),
                input@.len() == input.len(),
                old_output == old(output)@,
                r.strict,
                r.padded == padded,
                cursor_holds(cur, scan_run(r, input@.take(source as int)), output@, old_output, write),
                cur.pads <= source,
                source > data_end ==> cur.saw_padding,
                data_end < input@.len() ==> equals_is_padding && input@[data_end as int] == EQUALS,
                equals_is_padding == (padded && self.table@[EQUALS as int] >= 64),
            decreases input@.len() - source,
        {
            let byte = input[source];
            proof {
                lemma_scan_take(r, input@, source as int);
                lemma_scan_extends(r, input@, source + 1, input@.len() as int);
                lemma_scan_full(r, input@);
                lemma_scan_bounds(r, input@);
            }
            if byte == EQUALS {
                cur.pads = cur.pads + 1;
                cur.saw_padding = true;
            } else {
                let value = self.table[byte as usize];
                if value < 64 || !self.ignored[byte as usize] {
                    return None;
                }
            }
            source = source + 1;
        }
        proof {
            lemma_scan_full(r, input@);
        }
        self.finish(&cur, continue_after_padding, Ghost(scan_run(r, input@)))
    }
}


impl ConfiguredDecoder {
    /// Decode by the rules of the decoder, with the special-byte search for
    /// strict decoding when there are at most three discarded bytes and at
    /// most three rejected standard characters.
    fn scan(
        &self,
        input: &[u8],
        output: &mut Vec<u8>,
        write: bool,
        continue_after_padding: bool,
    ) -> (result: Option<usize>)
        requires
            self.well_formed(),
            write ==> old(output)@.len() >= scan_run(
                self.rules(continue_after_padding),
                input@,
            ).out.len(),
        ensures
            result == outcome_len(self.outcome(input@, continue_after_padding)),
            final(output)@.len() == old(output)@.len(),
            !write ==> final(output)@ == old(output)@,
            write && result is Some ==> final(output)@ == self.outcome(
                input@,
                continue_after_padding,
            )->Some_0 + old(output)@.skip(result->Some_0 as int),
    {
        let many_specials = matches!(self.strict_specials, StrictSpecials::Many);
        let many_forbidden = matches!(self.strict_forbidden, StrictSpecials::Many);
        if self.validation.is_strict() && !many_specials && !many_forbidden {
            self.scan_specials(input, output, write, continue_after_padding)
        } else {
            self.scan_bytes(input, output, write, continue_after_padding)
        }
    }

    /// The size of the decoded output, or `None` when the input is rejected.
    pub fn decoded_len(&self, input: &[u8], continue_after_padding: bool) -> (len: Option<usize>)
        requires
            self.well_formed(),
        ensures
            len == outcome_len(self.outcome(input@, continue_after_padding)),
    {
        let mut unused: Vec<u8> = Vec::new();
        self.scan(input, &mut unused, false, continue_after_padding)
    }

    /// Decode into the front of `output`, which holds three bytes for each
    /// started group of four input bytes; `None` when the input is rejected,
    /// which may leave part of the output written.
    pub fn decode_checked(
        &self,
        input: &[u8],
        output: &mut Vec<u8>,
        continue_after_padding: bool,
    ) -> (written: Option<usize>)
        requires
            self.well_formed(),
            old(output)@.len() >= (input@.len() + 3) / 4 * 3,
        ensures
            written == outcome_len(self.outcome(input@, continue_after_padding)),
            final(output)@.len() == old(output)@.len(),
            written is Some ==> final(output)@ == self.outcome(
                input@,
                continue_after_padding,
            )->Some_0 + old(output)@.skip(written->Some_0 as int),
    {
        proof {
            lemma_scan_out_len(self.rules(continue_after_padding), input@);
        }
        self.scan(input, output, true, continue_after_padding)
    }

    /// Decode input that the decoder accepts into the front of `output`,
    /// which holds the decoded size.
    pub fn decode_validated(
        &self,
        input: &[u8],
        output: &mut Vec<u8>,
        continue_after_padding: bool,
    ) -> (written: usize)
        requires
            self.well_formed(),
            self.outcome(input@, continue_after_padding) is Some,
            old(output)@.len() >= self.outcome(input@, continue_after_padding)->Some_0.len(),
        ensures
            written == self.outcome(input@, continue_after_padding)->Some_0.len(),
            final(output)@ == self.outcome(input@, continue_after_padding)->Some_0 + old(
                output,
            )@.skip(written as int),
    {
        match self.scan(input, output, true, continue_after_padding) {
            Some(written) => written,
            None => 0,
        }
    }
}

/// What configured decoding into a destination of `provided` bytes gives:
/// the rejection, the size error when the output does not fit, or the size.
pub open spec fn configured_into_outcome(outcome: Option<Seq<u8>>, provided: int) -> Result<
    usize,
    Base64Error,
> {
    match outcome {
        None => Err(Base64Error::InvalidInput),
        Some(out) => if provided < out.len() {
            Err(
                Base64Error::OutputTooSmall {
                    required: out.len() as usize,
                    provided: provided as usize,
                },
            )
        } else {
            Ok(out.len() as usize)
        },
    }
}

/// Decode into all of `output` only when the input is accepted and its
/// decoded bytes fit: a rejection or a size error leaves the destination
/// as it was.
pub fn decode_configured_slice_into(
    input: &[u8],
    output: &mut Vec<u8>,
    decoder: &ConfiguredDecoder,
    continue_after_padding: bool,
) -> (result: Result<usize, Base64Error>)
    requires
        decoder.well_formed(),
    ensures
        result == configured_into_outcome(
            decoder.outcome(input@, continue_after_padding),
            old(output)@.len() as int,
        ),
        final(output)@.len() == old(output)@.len(),
        result is Err ==> final(output)@ == old(output)@,
        result matches Ok(n) ==> final(output)@ == decoder.outcome(
            input@,
            continue_after_padding,
        )->Some_0 + old(output)@.skip(n as int),
{
    proof {
        lemma_scan_bounds(decoder.rules(continue_after_padding), input@);
    }
    let required = match decoder.decoded_len(input, continue_after_padding) {
        Some(required) => required,
        None => {
            return Err(Base64Error::InvalidInput);
        },
    };
    let provided = output.len();
    if provided < required {
        return Err(Base64Error::OutputTooSmall { required, provided });
    }
    proof {
        let r = decoder.rules(continue_after_padding);
        assert(input@.len() == input.len());
        assert(scan_run(r, input@).out.len() <= input@.len());
        assert(decoder.outcome(input@, continue_after_padding)->Some_0 == scan_run(r, input@).out);
    }
    Ok(decoder.decode_validated(input, output, continue_after_padding))
}

/// Strict configured decoding into all of `output`. Where a failure must
/// leave the destination as it was, the input is sized exactly first;
/// otherwise too the size decides first, and a rejection found while
/// writing may leave part of the destination written.
pub fn decode_configured_strict_into(
    input: &[u8],
    output: &mut Vec<u8>,
    decoder: &ConfiguredDecoder,
    error_writes: ErrorWrites,
) -> (result: Result<usize, Base64Error>)
    requires
        decoder.well_formed(),
    ensures
        result == configured_into_outcome(decoder.outcome(input@, false), old(output)@.len() as int),
        final(output)@.len() == old(output)@.len(),
        error_writes == ErrorWrites::PreserveOutput && result is Err ==> final(output)@ == old(
            output,
        )@,
        result matches Ok(n) ==> final(output)@ == decoder.outcome(input@, false)->Some_0 + old(
            output,
        )@.skip(n as int),
{
    decode_configured_slice_into(input, output, decoder, false)
}

/// Decode into a new buffer, or give `None` when the input is rejected.
pub fn decode_configured(
    input: &[u8],
    decoder: &ConfiguredDecoder,
    continue_after_padding: bool,
) -> (decoded: Option<Vec<u8>>)
    requires
        decoder.well_formed(),
    ensures
        match decoded {
            Some(bytes) => decoder.outcome(input@, continue_after_padding) == Some(bytes@),
            None => decoder.outcome(input@, continue_after_padding) is None,
        },
{
    let groups: usize = input.len() / 4 + if input.len() % 4 != 0 {
        1
    } else {
        0
    };
    assert(groups * 3 <= usize::MAX && groups * 3 == (input@.len() + 3) / 4 * 3) by (nonlinear_arith)
        requires
            groups == input@.len() / 4 + if input@.len() % 4 != 0 {
                1int
            } else {
                0int
            },
            input@.len() <= usize::MAX,
    ;
    let mut output: Vec<u8> = vec![0u8; groups * 3];
    match decoder.decode_checked(input, &mut output, continue_after_padding) {
        Some(written) => {
            output.truncate(written);
            proof {
                let out = decoder.outcome(input@, continue_after_padding)->Some_0;
                assert(output@ =~= out);
            }
            Some(output)
        },
        None => None,
    }
}

} // verus!
