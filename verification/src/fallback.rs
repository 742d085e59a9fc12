//! Preparing input for CPython's binascii decoder, and the checks that older
//! binascii versions lack.

use vstd::prelude::*;

use crate::compat::BinasciiApi;
use crate::encode::altchars_alphabet;
use crate::policy::{ignored_bytes_from, IgnoredBytes};
use crate::alphabet::{
    is_alphanumeric, is_std_char, lemma_std_char_value, lemma_std_value_char,
    standard_alphabet_char, std_char, std_value,
};

verus! {

/// The byte `=`.
pub const EQUALS_BYTE: u8 = 61;

/// What translating alternative characters makes of one byte: the second
/// becomes `/`, else the first becomes `+`.
pub open spec fn altchar_translated(byte: u8, altchars: [u8; 2]) -> u8 {
    if byte == altchars[1] {
        47u8
    } else if byte == altchars[0] {
        43u8
    } else {
        byte
    }
}

/// Whether `input` holds either alternative character.
pub open spec fn holds_altchars(input: Seq<u8>, altchars: [u8; 2]) -> bool {
    exists|i: int| 0 <= i < input.len() && (input[i] == altchars[0] || input[i] == altchars[1])
}

/// Rewrite the alternative characters of `input` into `+` and `/`, or give
/// `None` when it holds neither.
pub fn translate_altchars(input: &[u8], altchars: [u8; 2]) -> (translated: Option<Vec<u8>>)
    ensures
        translated is None <==> !holds_altchars(input@, altchars),
        translated matches Some(t) ==> t@.len() == input@.len() && forall|i: int|
            0 <= i < input@.len() ==> #[trigger] t@[i] == altchar_translated(input@[i], altchars),
{
    let plus = altchars[0];
    let slash = altchars[1];
    let first = match memchr::memchr2(plus, slash, input) {
        Some(first) => first,
        None => {
            return None;
        },
    };
    let mut translated: Vec<u8> = Vec::with_capacity(input.len());
    let mut i: usize = 0;
    while i < input.len()
        invariant
            i <= input@.len(),
            input@.len() == input.len(),
            plus == altchars[0],
            slash == altchars[1],
            first < input@.len(),
            forall|j: int| 0 <= j < first ==> input@[j] != plus && input@[j] != slash,
            translated@.len() == i,
            forall|j: int|
                0 <= j < i ==> #[trigger] translated@[j] == altchar_translated(input@[j], altchars),
        decreases input@.len() - i,
    {
        let byte = input[i];
        let out = if i < first {
            byte
        } else if byte == slash {
            47
        } else if byte == plus {
            43
        } else {
            byte
        };
        translated.push(out);
        i = i + 1;
    }
    Some(translated)
}

/// Whether the last symbol of standard-alphabet `data` leaves no set bits
/// after the last complete byte.
pub open spec fn canonical_padding_spec(data: Seq<u8>) -> bool {
    if data.len() == 0 {
        true
    } else {
        let value = std_value(data.last());
        if data.len() % 4 == 2 {
            value & 0x0f == 0
        } else if data.len() % 4 == 3 {
            value & 0x03 == 0
        } else {
            true
        }
    }
}

/// The 6-bit value of a standard-alphabet byte.
fn standard_value_of(byte: u8) -> (value: u8)
    requires
        is_std_char(byte),
    ensures
        value == std_value(byte),
        value < 64,
{
    if 65 <= byte && byte <= 90 {
        byte - 65
    } else if 97 <= byte && byte <= 122 {
        byte - 97 + 26
    } else if 48 <= byte && byte <= 57 {
        byte - 48 + 52
    } else if byte == 43 {
        62
    } else {
        63
    }
}

/// Whether the last symbol of standard-alphabet `data` leaves no set bits
/// after the last complete byte.
pub fn canonical_padding(data: &[u8]) -> (canonical: bool)
    requires
        data@.len() > 0 ==> is_std_char(data@.last()),
    ensures
        canonical == canonical_padding_spec(data@),
{
    if data.len() == 0 {
        return true;
    }
    let value = standard_value_of(data[data.len() - 1]);
    let rem = data.len() % 4;
    if rem == 2 {
        value & 0x0f == 0
    } else if rem == 3 {
        value & 0x03 == 0
    } else {
        true
    }
}

/// Whether `d` is the index of the first `=` in `s`, or its length when it
/// holds none.
pub open spec fn is_first_equals(s: Seq<u8>, d: int) -> bool {
    &&& 0 <= d <= s.len()
    &&& forall|j: int| 0 <= j < d ==> s[j] != EQUALS_BYTE
    &&& d < s.len() ==> s[d] == EQUALS_BYTE
}

/// The first `=` is unique.
pub proof fn lemma_first_equals_unique(s: Seq<u8>, d: int, e: int)
    requires
        is_first_equals(s, d),
        is_first_equals(s, e),
    ensures
        d == e,
{
    if d < e {
        assert(s[d] == EQUALS_BYTE);
    } else if e < d {
        assert(s[e] == EQUALS_BYTE);
    }
}

/// The index of the first `=` in `s`, or its length.
pub open spec fn first_equals_spec(s: Seq<u8>) -> int
    decreases s.len(),
{
    if s.len() == 0 || s[0] == EQUALS_BYTE {
        0
    } else {
        1 + first_equals_spec(s.drop_first())
    }
}

/// `first_equals_spec` is the first `=`.
pub proof fn lemma_first_equals_spec(s: Seq<u8>)
    ensures
        is_first_equals(s, first_equals_spec(s)),
    decreases s.len(),
{
    if s.len() > 0 && s[0] != EQUALS_BYTE {
        let t = s.drop_first();
        lemma_first_equals_spec(t);
        assert forall|j: int| 0 <= j < first_equals_spec(s) implies s[j] != EQUALS_BYTE by {
            if j > 0 {
                assert(s[j] == t[j - 1]);
            }
        }
        if first_equals_spec(s) < s.len() {
            assert(s[first_equals_spec(s)] == t[first_equals_spec(t)]);
        }
    }
}

/// The index of the first `=` in `input`, or its length.
pub fn first_equals(input: &[u8]) -> (index: usize)
    ensures
        is_first_equals(input@, index as int),
        index == first_equals_spec(input@),
{
    let mut i: usize = 0;
    while i < input.len()
        invariant
            i <= input@.len(),
            input@.len() == input.len(),
            forall|j: int| 0 <= j < i ==> input@[j] != EQUALS_BYTE,
        decreases input@.len() - i,
    {
        if input[i] == EQUALS_BYTE {
            proof {
                lemma_first_equals_spec(input@);
                lemma_first_equals_unique(input@, i as int, first_equals_spec(input@));
            }
            return i;
        }
        i = i + 1;
    }
    proof {
        lemma_first_equals_spec(input@);
        lemma_first_equals_unique(input@, i as int, first_equals_spec(input@));
    }
    i
}

/// Python 3.10's missing strict check: standard symbols up to the first
/// `=`, then at most two bytes, all `=`.
pub open spec fn strict_base64_310_spec(input: Seq<u8>, d: int) -> bool {
    &&& forall|j: int| 0 <= j < d ==> is_std_char(#[trigger] input[j])
    &&& input.len() - d <= 2
    &&& forall|j: int| d <= j < input.len() ==> #[trigger] input[j] == EQUALS_BYTE
}

/// Python 3.10's missing strict check on the whole input.
pub open spec fn strict_310(data: Seq<u8>) -> bool {
    strict_base64_310_spec(data, first_equals_spec(data))
}

/// Whether `input` is strict Base64 by the rules that binascii only checks
/// from Python 3.11.
pub fn strict_base64_310(input: &[u8]) -> (strict: bool)
    ensures
        strict == strict_310(input@),
{
    let padding = first_equals(input);
    let mut i: usize = 0;
    while i < padding
        invariant
            i <= padding <= input@.len(),
            input@.len() == input.len(),
            forall|j: int| 0 <= j < i ==> is_std_char(#[trigger] input@[j]),
            padding == first_equals_spec(input@),
        decreases padding - i,
    {
        let byte = input[i];
        if !((65 <= byte && byte <= 90) || (97 <= byte && byte <= 122) || (48 <= byte && byte
            <= 57) || byte == 43 || byte == 47) {
            assert(!is_std_char(input@[i as int]));
            return false;
        }
        i = i + 1;
    }
    if input.len() - padding > 2 {
        return false;
    }
    let mut j: usize = padding;
    while j < input.len()
        invariant
            padding <= j <= input@.len(),
            input@.len() == input.len(),
            forall|k: int| padding <= k < j ==> #[trigger] input@[k] == EQUALS_BYTE,
            padding == first_equals_spec(input@),
        decreases input@.len() - j,
    {
        if input[j] != EQUALS_BYTE {
            assert(input@[j as int] != EQUALS_BYTE);
            return false;
        }
        j = j + 1;
    }
    true
}

/// The first of `+` and `/` that `input` holds although the alternative
/// characters replace it.
pub open spec fn legacy_badchar_spec(input: Seq<u8>, altchars: [u8; 2]) -> Option<u8> {
    if altchars[0] != 43 && altchars[1] != 43 && input.contains(43u8) {
        Some(43u8)
    } else if altchars[0] != 47 && altchars[1] != 47 && input.contains(47u8) {
        Some(47u8)
    } else {
        None
    }
}

fn contains_byte(input: &[u8], byte: u8) -> (found: bool)
    ensures
        found == input@.contains(byte),
{
    let mut i: usize = 0;
    while i < input.len()
        invariant
            i <= input@.len(),
            input@.len() == input.len(),
            forall|j: int| 0 <= j < i ==> input@[j] != byte,
        decreases input@.len() - i,
    {
        if input[i] == byte {
            return true;
        }
        i = i + 1;
    }
    false
}

/// The standard character that the alternative characters replace but
/// `input` still holds, which Python 3.15 warns about.
pub fn legacy_badchar(input: &[u8], altchars: [u8; 2]) -> (badchar: Option<u8>)
    ensures
        badchar == legacy_badchar_spec(input@, altchars),
{
    if altchars[0] != 43 && altchars[1] != 43 && contains_byte(input, 43) {
        Some(43)
    } else if altchars[0] != 47 && altchars[1] != 47 && contains_byte(input, 47) {
        Some(47)
    } else {
        None
    }
}

/// Whether the legacy altchars warning applies: alternative characters on
/// Python 3.15 or later, without discarded bytes named, and an input that
/// holds a replaced standard character.
pub fn legacy_altchars_warning(
    input: &[u8],
    altchars: Option<[u8; 2]>,
    ignorechars_specified: bool,
    python_315: bool,
) -> (badchar: Option<u8>)
    ensures
        badchar == match altchars {
            Some(pair) if !ignorechars_specified && python_315 => legacy_badchar_spec(input@, pair),
            _ => None,
        },
{
    if ignorechars_specified || !python_315 {
        return None;
    }
    match altchars {
        Some(pair) => legacy_badchar(input, pair),
        None => None,
    }
}


/// The value that Python's legacy decode map gives `byte`, or `None`: with
/// alternative characters the second overrides the first; in a custom
/// alphabet `+` and `/` are no symbols.
pub open spec fn legacy_value(altchars: Option<[u8; 2]>, custom: bool, byte: u8) -> Option<u8> {
    match altchars {
        Some(pair) if byte == pair[1] => Some(63u8),
        Some(pair) if byte == pair[0] => Some(62u8),
        _ => if is_alphanumeric(byte) {
            Some(std_value(byte))
        } else if !custom && byte == 43 {
            Some(62u8)
        } else if !custom && byte == 47 {
            Some(63u8)
        } else {
            None
        },
    }
}

/// The normalized form of `input`: symbols rewritten into the standard
/// alphabet, `=` kept, every other byte dropped.
pub open spec fn legacy_map(input: Seq<u8>, altchars: Option<[u8; 2]>, custom: bool) -> Seq<u8>
    decreases input.len(),
{
    if input.len() == 0 {
        Seq::empty()
    } else {
        let byte = input.last();
        legacy_map(input.drop_last(), altchars, custom) + match legacy_value(
            altchars,
            custom,
            byte,
        ) {
            Some(value) => seq![std_char(value as int)],
            None => if byte == EQUALS_BYTE {
                seq![EQUALS_BYTE]
            } else {
                Seq::empty()
            },
        }
    }
}

/// Why the legacy path refused an input, with binascii's message for each.
#[derive(Clone, Copy, Debug, PartialEq, Eq, Structural)]
pub enum LegacyDecodeError {
    /// "Only base64 data is allowed"
    OnlyBase64,
    /// "Padding not allowed"
    PaddingNotAllowed,
    /// "Incorrect padding"
    IncorrectPadding,
    /// "Non-zero padding bits"
    NonZeroPaddingBits,
}

/// Whether the named bytes to discard include `byte`.
pub open spec fn discards(ignorechars: Option<&[u8]>, byte: u8) -> bool {
    match ignorechars {
        Some(bytes) => bytes@.contains(byte),
        None => false,
    }
}

/// Whether strict mode refuses a byte of `input` that is neither a symbol,
/// `=` nor discarded.
pub open spec fn legacy_rejects(
    input: Seq<u8>,
    altchars: Option<[u8; 2]>,
    ignorechars: Option<&[u8]>,
    strict_mode: bool,
) -> bool {
    let custom = altchars is Some && ignorechars is Some;
    strict_mode && exists|i: int|
        0 <= i < input.len() && legacy_value(altchars, custom, #[trigger] input[i]) is None
            && input[i] != EQUALS_BYTE && !discards(ignorechars, input[i])
}

/// The padding to add to normalized input whose data ends at `d`, with
/// `present` padding bytes after it, so that binascii reads it as padded.
pub open spec fn missing_padding(d: int, present: int) -> int {
    let required = (4 - d % 4) % 4;
    if present < required {
        required - present
    } else {
        0
    }
}

/// The outcome of the legacy path for normalized input `n` whose first `=`
/// is at `d`.
pub open spec fn legacy_finish(
    n: Seq<u8>,
    d: int,
    strict_mode: bool,
    padded: bool,
    canonical: bool,
) -> Result<Seq<u8>, LegacyDecodeError> {
    if !padded && strict_mode && d != n.len() {
        Err(LegacyDecodeError::PaddingNotAllowed)
    } else if d % 4 == 1 {
        Err(LegacyDecodeError::IncorrectPadding)
    } else if canonical && !canonical_padding_spec(n.take(d)) {
        Err(LegacyDecodeError::NonZeroPaddingBits)
    } else if padded {
        Ok(n)
    } else {
        Ok(n + Seq::new(missing_padding(d, n.len() - d) as nat, |i: int| EQUALS_BYTE))
    }
}

/// What the legacy path gives for `input`: its normalized form, ready for
/// binascii, or why it refused it.
pub open spec fn legacy_outcome(
    input: Seq<u8>,
    altchars: Option<[u8; 2]>,
    strict_mode: bool,
    padded: bool,
    ignorechars: Option<&[u8]>,
    canonical: bool,
) -> Result<Seq<u8>, LegacyDecodeError> {
    let custom = altchars is Some && ignorechars is Some;
    if legacy_rejects(input, altchars, ignorechars, strict_mode) {
        Err(LegacyDecodeError::OnlyBase64)
    } else {
        let n = legacy_map(input, altchars, custom);
        legacy_finish(n, first_equals_spec(n), strict_mode, padded, canonical)
    }
}

fn legacy_value_of(altchars: Option<[u8; 2]>, custom: bool, byte: u8) -> (value: Option<u8>)
    ensures
        value == legacy_value(altchars, custom, byte),
{
    match altchars {
        Some(pair) if byte == pair[1] => {
            return Some(63);
        },
        Some(pair) if byte == pair[0] => {
            return Some(62);
        },
        _ => {},
    }
    if (65 <= byte && byte <= 90) || (97 <= byte && byte <= 122) || (48 <= byte && byte <= 57) {
        Some(standard_value_of(byte))
    } else if !custom && byte == 43 {
        Some(62)
    } else if !custom && byte == 47 {
        Some(63)
    } else {
        None
    }
}

/// Normalize input for binascii on Python versions before 3.15, which lack
/// discarded bytes, unpadded input and canonical checks: symbols are
/// rewritten into the standard alphabet, strict mode refuses every other
/// byte that is not `=` or discarded, and missing padding is added to
/// unpadded input.
pub fn decode_advanced_legacy(
    input: &[u8],
    altchars: Option<[u8; 2]>,
    strict_mode: bool,
    padded: bool,
    ignorechars: Option<&[u8]>,
    canonical: bool,
) -> (normalized: Result<Vec<u8>, LegacyDecodeError>)
    ensures
        match legacy_outcome(input@, altchars, strict_mode, padded, ignorechars, canonical) {
            Ok(bytes) => normalized matches Ok(v) && v@ == bytes,
            Err(e) => normalized == Err::<Vec<u8>, LegacyDecodeError>(e),
        },
{
    let custom = altchars.is_some() && ignorechars.is_some();
    let ignored = match ignorechars {
        Some(bytes) => ignored_bytes_from(bytes),
        None => IgnoredBytes::new(),
    };
    let mut normalized: Vec<u8> = Vec::new();
    let mut i: usize = 0;
    proof {
        assert(input@.take(0) =~= Seq::<u8>::empty());
    }
    while i < input.len()
        invariant
            i <= input@.len(),
            input@.len() == input.len(),
            custom == (altchars is Some && ignorechars is Some),
            forall|b: u8| ignored.has(b) == discards(ignorechars, b),
            normalized@ == legacy_map(input@.take(i as int), altchars, custom),
            strict_mode ==> forall|j: int|
                0 <= j < i ==> !(legacy_value(altchars, custom, #[trigger] input@[j]) is None
                    && input@[j] != EQUALS_BYTE && !discards(ignorechars, input@[j])),
        decreases input@.len() - i,
    {
        let byte = input[i];
        proof {
            assert(input@.take(i + 1).drop_last() =~= input@.take(i as int));
        }
        match legacy_value_of(altchars, custom, byte) {
            Some(value) => {
                proof {
                    lemma_std_char_value(value as int);
                }
                normalized.push(standard_alphabet_char(value));
            },
            None => {
                if byte == EQUALS_BYTE {
                    normalized.push(EQUALS_BYTE);
                } else if strict_mode && !ignored.contains(byte) {
                    proof {
                        assert(legacy_value(altchars, custom, input@[i as int]) is None);
                    }
                    return Err(LegacyDecodeError::OnlyBase64);
                }
            },
        }
        proof {
            assert(normalized@ =~= legacy_map(input@.take(i + 1), altchars, custom));
        }
        i = i + 1;
    }
    proof {
        assert(input@.take(input@.len() as int) =~= input@);
    }
    let ghost n = normalized@;
    let data_len = first_equals(normalized.as_slice());
    if !padded && strict_mode && data_len != normalized.len() {
        return Err(LegacyDecodeError::PaddingNotAllowed);
    }
    if data_len % 4 == 1 {
        return Err(LegacyDecodeError::IncorrectPadding);
    }
    if canonical {
        let data = vstd::slice::slice_subrange(normalized.as_slice(), 0, data_len);
        proof {
            legacy_map_standard(input@, altchars, custom);
            if data_len > 0 {
                assert(data@.last() == n[data_len - 1]);
            }
            assert(data@ =~= n.take(data_len as int));
        }
        if !canonical_padding(data) {
            return Err(LegacyDecodeError::NonZeroPaddingBits);
        }
    }
    if !padded {
        let required = (4 - data_len % 4) % 4;
        let present = normalized.len() - data_len;
        if present < required {
            let missing = required - present;
            let mut k: usize = 0;
            while k < missing
                invariant
                    k <= missing,
                    normalized@ == n + Seq::new(k as nat, |i: int| EQUALS_BYTE),
                decreases missing - k,
            {
                normalized.push(EQUALS_BYTE);
                proof {
                    assert(normalized@ =~= n + Seq::new((k + 1) as nat, |i: int| EQUALS_BYTE));
                }
                k = k + 1;
            }
        } else {
            assert(normalized@ =~= n + Seq::new(0, |i: int| EQUALS_BYTE));
        }
    }
    Ok(normalized)
}

/// Every byte of the normalized form is a standard character or `=`.
proof fn legacy_map_standard(input: Seq<u8>, altchars: Option<[u8; 2]>, custom: bool)
    ensures
        forall|j: int|
            0 <= j < legacy_map(input, altchars, custom).len() ==> is_std_char(
                #[trigger] legacy_map(input, altchars, custom)[j],
            ) || legacy_map(input, altchars, custom)[j] == EQUALS_BYTE,
    decreases input.len(),
{
    if input.len() > 0 {
        legacy_map_standard(input.drop_last(), altchars, custom);
        let byte = input.last();
        let m = legacy_map(input, altchars, custom);
        let p = legacy_map(input.drop_last(), altchars, custom);
        assert forall|j: int| 0 <= j < p.len() implies m[j] == p[j] by {}
        match legacy_value(altchars, custom, byte) {
            Some(value) => {
                if is_alphanumeric(byte) && !(altchars matches Some(pair) && (byte == pair[0]
                    || byte == pair[1])) {
                    lemma_std_value_char(byte);
                }
                lemma_std_char_value(value as int);
            },
            None => {},
        }
    }
}


/// Whether `byte` is MIME line whitespace: carriage return, newline or space.
pub open spec fn mime_whitespace(byte: u8) -> bool {
    byte == 13 || byte == 10 || byte == 32
}

/// Whether `byte` may stand in MIME-wrapped Base64: a letter or digit, `+`,
/// `/`, `=`, and with the mixed alphabet `-` and `_`.
pub open spec fn mime_data_byte(byte: u8, mixed_alphabet: bool) -> bool {
    is_alphanumeric(byte) || byte == 43 || byte == 47 || byte == 61 || (mixed_alphabet && (byte
        == 45 || byte == 95))
}

/// Whether `input` is Base64 broken into lines: nothing but data bytes and
/// MIME whitespace, with some whitespace.
pub open spec fn mime_whitespace_input(input: Seq<u8>, mixed_alphabet: bool) -> bool {
    &&& forall|i: int|
        0 <= i < input.len() ==> mime_whitespace(#[trigger] input[i]) || mime_data_byte(
            input[i],
            mixed_alphabet,
        )
    &&& exists|i: int| 0 <= i < input.len() && mime_whitespace(#[trigger] input[i])
}

/// Whether `input` is Base64 broken into lines: nothing but data bytes and
/// MIME whitespace, with some whitespace.
pub fn is_mime_whitespace_input(input: &[u8], mixed_alphabet: bool) -> (mime: bool)
    ensures
        mime == mime_whitespace_input(input@, mixed_alphabet),
{
    let mut saw_whitespace = false;
    let mut i: usize = 0;
    while i < input.len()
        invariant
            i <= input@.len(),
            input@.len() == input.len(),
            forall|j: int|
                0 <= j < i ==> mime_whitespace(#[trigger] input@[j]) || mime_data_byte(
                    input@[j],
                    mixed_alphabet,
                ),
            saw_whitespace == exists|j: int| 0 <= j < i && mime_whitespace(#[trigger] input@[j]),
        decreases input@.len() - i,
    {
        let byte = input[i];
        if byte == 13 || byte == 10 || byte == 32 {
            saw_whitespace = true;
        } else if !((65 <= byte && byte <= 90) || (97 <= byte && byte <= 122) || (48 <= byte
            && byte <= 57) || byte == 43 || byte == 47 || byte == 61 || (mixed_alphabet && (byte
            == 45 || byte == 95))) {
            assert(!(mime_whitespace(input@[i as int]) || mime_data_byte(input@[i as int], mixed_alphabet)));
            return false;
        }
        i = i + 1;
    }
    saw_whitespace
}

/// `input` without its MIME whitespace.
pub open spec fn strip_mime_whitespace(input: Seq<u8>) -> Seq<u8>
    decreases input.len(),
{
    if input.len() == 0 {
        Seq::empty()
    } else {
        strip_mime_whitespace(input.drop_last()) + if mime_whitespace(input.last()) {
            Seq::empty()
        } else {
            seq![input.last()]
        }
    }
}

/// `input` without its MIME whitespace, or `None` when it holds none.
pub fn normalize_mime_whitespace(input: &[u8]) -> (normalized: Option<Vec<u8>>)
    ensures
        normalized is None <==> forall|i: int|
            0 <= i < input@.len() ==> !mime_whitespace(#[trigger] input@[i]),
        normalized matches Some(v) ==> v@ == strip_mime_whitespace(input@),
{
    let first = match memchr::memchr3(13, 10, 32, input) {
        Some(first) => first,
        None => {
            return None;
        },
    };
    let mut normalized: Vec<u8> = Vec::new();
    let mut i: usize = 0;
    proof {
        assert(input@.take(0) =~= Seq::<u8>::empty());
    }
    while i < input.len()
        invariant
            i <= input@.len(),
            input@.len() == input.len(),
            first < input@.len(),
            mime_whitespace(input@[first as int]),
            normalized@ == strip_mime_whitespace(input@.take(i as int)),
        decreases input@.len() - i,
    {
        let byte = input[i];
        if !(byte == 13 || byte == 10 || byte == 32) {
            normalized.push(byte);
        }
        proof {
            assert(input@.take(i + 1).drop_last() =~= input@.take(i as int));
            assert(normalized@ =~= strip_mime_whitespace(input@.take(i + 1)));
        }
        i = i + 1;
    }
    proof {
        assert(input@.take(input@.len() as int) =~= input@);
    }
    Some(normalized)
}


/// Why the input never reached binascii.
#[derive(Clone, Copy, Debug, PartialEq, Eq, Structural)]
pub enum BinasciiRefusal {
    /// Python 3.10's missing strict check failed: "Non-base64 digit found".
    NonBase64Digit,
    /// The legacy normalization refused the input.
    Legacy(LegacyDecodeError),
}

/// The keyword arguments of a binascii call, by the API of the Python
/// version.
#[derive(Clone, Copy, Debug)]
pub enum BinasciiKeywords {
    /// Python before 3.11: no keyword arguments.
    Plain,
    /// Python 3.11 to 3.14: `strict_mode`.
    StrictMode { strict_mode: bool },
    /// Python 3.15: `strict_mode`, `padded`, `canonical`, `ignorechars` (the
    /// caller's when `pass_ignorechars`, else empty) and, for a custom
    /// alphabet, `alphabet`.
    Full {
        strict_mode: bool,
        padded: bool,
        canonical: bool,
        pass_ignorechars: bool,
        alphabet: Option<[u8; 64]>,
    },
}

/// A call of `binascii.a2b_base64` on `data`.
pub struct BinasciiCall {
    pub data: Vec<u8>,
    pub keywords: BinasciiKeywords,
}

/// The data handed to binascii: the input with its alternative characters
/// rewritten, except in a custom alphabet, which binascii reads itself.
pub open spec fn binascii_data(input: Seq<u8>, altchars: Option<[u8; 2]>, custom: bool) -> Seq<u8> {
    match altchars {
        Some(pair) if !custom => Seq::new(input.len(), |i: int| altchar_translated(input[i], pair)),
        _ => input,
    }
}

/// Whether Python versions before 3.15 need the legacy normalization.
pub open spec fn needs_legacy(api: BinasciiApi, padded: bool, ignorechars: bool, canonical: bool) -> bool {
    api != BinasciiApi::Padding && (!padded || ignorechars || canonical)
}

fn copy_bytes(input: &[u8]) -> (copy: Vec<u8>)
    ensures
        copy@ == input@,
{
    let mut copy: Vec<u8> = Vec::with_capacity(input.len());
    let mut i: usize = 0;
    while i < input.len()
        invariant
            i <= input@.len(),
            input@.len() == input.len(),
            copy@ == input@.take(i as int),
        decreases input@.len() - i,
    {
        copy.push(input[i]);
        proof {
            assert(copy@ =~= input@.take(i + 1));
        }
        i = i + 1;
    }
    proof {
        assert(input@.take(input@.len() as int) =~= input@);
    }
    copy
}

/// The keyword arguments that the Python version's binascii API takes for
/// these options.
pub open spec fn keywords_for(
    keywords: BinasciiKeywords,
    api: BinasciiApi,
    strict_mode: bool,
    altchars: Option<[u8; 2]>,
    custom: bool,
    padded: bool,
    ignorechars: bool,
    canonical: bool,
) -> bool {
    match api {
        BinasciiApi::Legacy => keywords is Plain,
        BinasciiApi::StrictMode => keywords == BinasciiKeywords::StrictMode { strict_mode },
        BinasciiApi::Padding => match keywords {
            BinasciiKeywords::Full { strict_mode: s, padded: p, canonical: k, pass_ignorechars: i, alphabet: a } => {
                &&& s == strict_mode
                &&& p == padded
                &&& k == canonical
                &&& i == ignorechars
                &&& match a {
                    Some(table) => custom && altchars is Some && table@ == altchars_alphabet(altchars.unwrap()),
                    None => !(custom && altchars is Some),
                }
            },
            _ => false,
        },
    }
}

/// The binascii call on `data`: the keyword arguments that the Python
/// version takes, after Python 3.10's missing strict check.
fn plain_binascii_call(
    data: Vec<u8>,
    api: BinasciiApi,
    strict_mode: bool,
    altchars: Option<[u8; 2]>,
    custom: bool,
    padded: bool,
    ignorechars: bool,
    canonical: bool,
) -> (call: Result<BinasciiCall, BinasciiRefusal>)
    ensures
        if api == BinasciiApi::Legacy && strict_mode && !strict_310(data@) {
            call == Err::<BinasciiCall, BinasciiRefusal>(BinasciiRefusal::NonBase64Digit)
        } else {
            &&& call is Ok
            &&& call.unwrap().data@ == data@
            &&& keywords_for(
                call.unwrap().keywords,
                api,
                strict_mode,
                altchars,
                custom,
                padded,
                ignorechars,
                canonical,
            )
        },
{
    match api {
        BinasciiApi::Padding => {
            let alphabet = match altchars {
                Some(pair) => {
                    if custom {
                        let mut table = crate::alphabet::standard_alphabet();
                        table[62] = pair[0];
                        table[63] = pair[1];
                        assert(table@ =~= altchars_alphabet(pair));
                        Some(table)
                    } else {
                        None
                    }
                },
                None => None,
            };
            Ok(
                BinasciiCall {
                    data,
                    keywords: BinasciiKeywords::Full {
                        strict_mode,
                        padded,
                        canonical,
                        pass_ignorechars: ignorechars,
                        alphabet,
                    },
                },
            )
        },
        BinasciiApi::Legacy => {
            let strict_ok = strict_base64_310(data.as_slice());
            if strict_mode && !strict_ok {
                return Err(BinasciiRefusal::NonBase64Digit);
            }
            Ok(BinasciiCall { data, keywords: BinasciiKeywords::Plain })
        },
        BinasciiApi::StrictMode => Ok(
            BinasciiCall { data, keywords: BinasciiKeywords::StrictMode { strict_mode } },
        ),
    }
}

/// What binascii receives, or why it receives nothing, for the options of a
/// decode that the native decoder left to binascii.
pub open spec fn legacy_request_holds(
    call: Result<BinasciiCall, BinasciiRefusal>,
    normalized: Seq<u8>,
    api: BinasciiApi,
    strict_mode: bool,
) -> bool {
    if api == BinasciiApi::Legacy && strict_mode && !strict_310(normalized) {
        call == Err::<BinasciiCall, BinasciiRefusal>(BinasciiRefusal::NonBase64Digit)
    } else {
        &&& call is Ok
        &&& call.unwrap().data@ == normalized
        &&& keywords_for(call.unwrap().keywords, api, strict_mode, None, false, true, false, false)
    }
}

/// The call of `binascii.a2b_base64` that decodes `input` with these
/// options: Python versions before 3.15 get the input normalized by
/// `decode_advanced_legacy` when it is unpadded, has bytes to discard or
/// asks for canonical checks; otherwise the alternative characters are
/// rewritten (unless they make a custom alphabet, which Python 3.15 takes
/// as `alphabet`), and Python 3.10 checks strict mode itself.
pub fn binascii_request(
    input: &[u8],
    api: BinasciiApi,
    altchars: Option<[u8; 2]>,
    strict_mode: bool,
    padded: bool,
    ignorechars: Option<&[u8]>,
    canonical: bool,
) -> (call: Result<BinasciiCall, BinasciiRefusal>)
    ensures
        needs_legacy(api, padded, ignorechars is Some, canonical) ==> match legacy_outcome(
            input@,
            altchars,
            strict_mode,
            padded,
            ignorechars,
            canonical,
        ) {
            Ok(bytes) => legacy_request_holds(call, bytes, api, strict_mode),
            Err(e) => call == Err::<BinasciiCall, BinasciiRefusal>(BinasciiRefusal::Legacy(e)),
        },
        !needs_legacy(api, padded, ignorechars is Some, canonical) ==> ({
            let custom = altchars is Some && ignorechars is Some;
            let data = binascii_data(input@, altchars, custom);
            if api == BinasciiApi::Legacy && strict_mode && !strict_310(data) {
                call == Err::<BinasciiCall, BinasciiRefusal>(BinasciiRefusal::NonBase64Digit)
            } else {
                &&& call is Ok
                &&& call.unwrap().data@ == data
                &&& keywords_for(
                    call.unwrap().keywords,
                    api,
                    strict_mode,
                    altchars,
                    custom,
                    padded,
                    ignorechars is Some,
                    canonical,
                )
            }
        }),
{
    if api != BinasciiApi::Padding && (!padded || ignorechars.is_some() || canonical) {
        return match decode_advanced_legacy(input, altchars, strict_mode, padded, ignorechars, canonical) {
            Ok(normalized) => plain_binascii_call(normalized, api, strict_mode, None, false, true, false, false),
            Err(e) => Err(BinasciiRefusal::Legacy(e)),
        };
    }
    let custom = altchars.is_some() && ignorechars.is_some();
    let data = match altchars {
        Some(pair) => {
            if custom {
                copy_bytes(input)
            } else {
                match translate_altchars(input, pair) {
                    Some(translated) => {
                        assert(translated@ =~= binascii_data(input@, altchars, custom));
                        translated
                    },
                    None => {
                        assert(input@ =~= binascii_data(input@, altchars, custom));
                        copy_bytes(input)
                    },
                }
            }
        },
        None => copy_bytes(input),
    };
    plain_binascii_call(data, api, strict_mode, altchars, custom, padded, ignorechars.is_some(), canonical)
}

} // verus!
