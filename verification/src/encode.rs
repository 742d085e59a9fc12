//! Base64 encoding with a chosen alphabet, optional padding and line wrapping.

use vstd::prelude::*;

use crate::alphabet::{standard_alphabet, std_alphabet};
use crate::error::Base64Error;

verus! {

/// The byte `=`.
pub const PAD_BYTE: u8 = 61;

/// The byte that separates wrapped lines.
pub const NEWLINE: u8 = 10;

/// Inputs above this length are wrapped while encoding rather than after.
pub const DIRECT_WRAPPED_INPUT_THRESHOLD: usize = 4194304;

/// The four characters of a complete group of three bytes.
pub open spec fn encode_group(alphabet: Seq<u8>, a: u8, b: u8, c: u8) -> Seq<u8> {
    seq![
        alphabet[(a >> 2u8) as int],
        alphabet[(((a & 3u8) << 4u8) | (b >> 4u8)) as int],
        alphabet[(((b & 15u8) << 2u8) | (c >> 6u8)) as int],
        alphabet[(c & 63u8) as int],
    ]
}

/// The characters of the complete groups of `input`, whose length is a
/// multiple of three.
pub open spec fn encode_groups(alphabet: Seq<u8>, input: Seq<u8>) -> Seq<u8>
    decreases input.len(),
{
    if input.len() < 3 {
        Seq::empty()
    } else {
        let n = input.len() as int;
        encode_groups(alphabet, input.take(n - 3)) + encode_group(
            alphabet,
            input[n - 3],
            input[n - 2],
            input[n - 1],
        )
    }
}

/// The characters of a final group of one or two bytes, with the padding
/// that completes it to four when `padded`.
pub open spec fn encode_tail(alphabet: Seq<u8>, tail: Seq<u8>, padded: bool) -> Seq<u8> {
    if tail.len() == 1 {
        let a = tail[0];
        seq![alphabet[(a >> 2u8) as int], alphabet[((a & 3u8) << 4u8) as int]] + if padded {
            seq![PAD_BYTE, PAD_BYTE]
        } else {
            Seq::empty()
        }
    } else if tail.len() == 2 {
        let a = tail[0];
        let b = tail[1];
        seq![
            alphabet[(a >> 2u8) as int],
            alphabet[(((a & 3u8) << 4u8) | (b >> 4u8)) as int],
            alphabet[((b & 15u8) << 2u8) as int],
        ] + if padded {
            seq![PAD_BYTE]
        } else {
            Seq::empty()
        }
    } else {
        Seq::empty()
    }
}

/// The Base64 encoding of `input` with `alphabet`: four characters for each
/// complete group of three bytes, then the final partial group.
pub open spec fn encode_spec(alphabet: Seq<u8>, input: Seq<u8>, padded: bool) -> Seq<u8> {
    let complete = input.len() / 3 * 3;
    encode_groups(alphabet, input.take(complete as int)) + encode_tail(
        alphabet,
        input.skip(complete as int),
        padded,
    )
}

/// `data` with a newline before every position that is a positive multiple
/// of `width`.
pub open spec fn wrap_spec(data: Seq<u8>, width: int) -> Seq<u8>
    decreases data.len(),
{
    if data.len() == 0 {
        Seq::empty()
    } else {
        let n = data.len() - 1;
        wrap_spec(data.drop_last(), width) + if n > 0 && n % width == 0 {
            seq![NEWLINE, data.last()]
        } else {
            seq![data.last()]
        }
    }
}

/// The padded encoded length of `n` bytes.
pub open spec fn encoded_len_spec(n: int) -> int {
    (n + 2) / 3 * 4
}

/// The unpadded encoded length of `n` bytes.
pub open spec fn unpadded_len_spec(n: int) -> int {
    n / 3 * 4 + if n % 3 == 1 {
        2int
    } else if n % 3 == 2 {
        3int
    } else {
        0int
    }
}

/// The length of `len` data bytes wrapped at `width`.
pub open spec fn wrapped_len_spec(len: int, width: int) -> int {
    if len == 0 {
        0
    } else {
        len + (len - 1) / width
    }
}

/// Whether the encoding of `n` bytes, even wrapped at every character, has
/// a length that a machine integer holds.
pub open spec fn encodable(n: int) -> bool {
    (n / 3 * 4 + 4) * 2 <= usize::MAX
}

proof fn lemma_encoded_len_groups(n: int)
    requires
        n >= 0,
    ensures
        encoded_len_spec(n) == n / 3 * 4 + if n % 3 != 0 {
            4int
        } else {
            0int
        },
{
}

/// The padded encoded length of `input_len` bytes.
pub fn encoded_len(input_len: usize) -> (len: usize)
    requires
        encodable(input_len as int),
    ensures
        len == encoded_len_spec(input_len as int),
{
    proof {
        lemma_encoded_len_groups(input_len as int);
    }
    input_len / 3 * 4 + if input_len % 3 != 0 {
        4
    } else {
        0
    }
}

/// The unpadded encoded length of `input_len` bytes.
pub fn unpadded_encoded_len(input_len: usize) -> (len: usize)
    requires
        encodable(input_len as int),
    ensures
        len == unpadded_len_spec(input_len as int),
        len <= encoded_len_spec(input_len as int),
{
    proof {
        lemma_encoded_len_groups(input_len as int);
    }
    let rem = input_len % 3;
    input_len / 3 * 4 + if rem == 1 {
        2
    } else if rem == 2 {
        3
    } else {
        0
    }
}

/// The alphabet an encoder writes.
#[derive(Clone, Copy, Debug)]
pub enum EncodeAlphabet {
    Standard,
    UrlSafe,
    Custom([u8; 64]),
}

/// The URL-safe alphabet: the standard one with `-` and `_` for `+` and `/`.
pub open spec fn urlsafe_alphabet() -> Seq<u8> {
    std_alphabet().update(62, 45u8).update(63, 95u8)
}

/// The standard alphabet with `altchars` for `+` and `/`.
pub open spec fn altchars_alphabet(altchars: [u8; 2]) -> Seq<u8> {
    std_alphabet().update(62, altchars[0]).update(63, altchars[1])
}

impl EncodeAlphabet {
    /// The 64 characters of the alphabet.
    pub open spec fn characters(self) -> Seq<u8> {
        match self {
            EncodeAlphabet::Standard => std_alphabet(),
            EncodeAlphabet::UrlSafe => urlsafe_alphabet(),
            EncodeAlphabet::Custom(table) => table@,
        }
    }

    /// The alphabet with `altchars` for `+` and `/`.
    pub fn new(altchars: Option<[u8; 2]>) -> (alphabet: Self)
        ensures
            alphabet.characters() == match altchars {
                Some(pair) => altchars_alphabet(pair),
                None => std_alphabet(),
            },
            altchars is None ==> alphabet is Standard,
            (altchars matches Some(pair) && pair[0] == 45 && pair[1] == 95) ==> alphabet is UrlSafe,
    {
        match altchars {
            None => EncodeAlphabet::Standard,
            Some(pair) => {
                if pair[0] == 45 && pair[1] == 95 {
                    assert(altchars_alphabet(pair) =~= urlsafe_alphabet());
                    EncodeAlphabet::UrlSafe
                } else {
                    let mut table = standard_alphabet();
                    table[62] = pair[0];
                    table[63] = pair[1];
                    assert(table@ =~= altchars_alphabet(pair));
                    EncodeAlphabet::Custom(table)
                }
            },
        }
    }

    /// The alphabet of a 64-byte table, recognizing the standard and URL-safe
    /// ones.
    pub fn from_table(table: [u8; 64]) -> (alphabet: Self)
        ensures
            alphabet.characters() == table@,
            alphabet is Standard <==> table@ == std_alphabet(),
            alphabet is UrlSafe <==> table@ == urlsafe_alphabet(),
    {
        let standard = standard_alphabet();
        let mut index: usize = 0;
        while index < 62
            invariant
                index <= 62,
                standard@ == std_alphabet(),
                forall|j: int| 0 <= j < index ==> table@[j] == std_alphabet()[j],
            decreases 62 - index,
        {
            if table[index] != standard[index] {
                proof {
                    assert(table@[index as int] != std_alphabet()[index as int]);
                    assert(table@ != std_alphabet());
                    assert(table@[index as int] != urlsafe_alphabet()[index as int]);
                    assert(table@ != urlsafe_alphabet());
                }
                return EncodeAlphabet::Custom(table);
            }
            index = index + 1;
        }
        if table[62] == 43 && table[63] == 47 {
            assert(table@ =~= std_alphabet());
            EncodeAlphabet::Standard
        } else if table[62] == 45 && table[63] == 95 {
            assert(table@ =~= urlsafe_alphabet());
            assert(table@[62] != std_alphabet()[62]);
            EncodeAlphabet::UrlSafe
        } else {
            proof {
                if table[62] != 43 {
                    assert(table@[62] != std_alphabet()[62]);
                } else {
                    assert(table@[63] != std_alphabet()[63]);
                }
                if table[62] != 45 {
                    assert(table@[62] != urlsafe_alphabet()[62]);
                } else {
                    assert(table@[63] != urlsafe_alphabet()[63]);
                }
            }
            EncodeAlphabet::Custom(table)
        }
    }

    pub fn is_urlsafe(&self) -> (urlsafe: bool)
        ensures
            urlsafe == (*self is UrlSafe),
    {
        matches!(self, EncodeAlphabet::UrlSafe)
    }

    /// The 64 characters as a table.
    pub fn table(&self) -> (table: [u8; 64])
        ensures
            table@ == self.characters(),
    {
        match self {
            EncodeAlphabet::Standard => standard_alphabet(),
            EncodeAlphabet::UrlSafe => {
                let mut table = standard_alphabet();
                table[62] = 45;
                table[63] = 95;
                assert(table@ =~= urlsafe_alphabet());
                table
            },
            EncodeAlphabet::Custom(table) => *table,
        }
    }
}

/// The padding for `padded`.
pub open spec fn padding_of(padded: bool) -> EncodePadding {
    if padded {
        EncodePadding::Padded
    } else {
        EncodePadding::Unpadded
    }
}

/// The wrapping for an optional line width.
pub open spec fn wrapping_of(wrapcol: Option<usize>) -> LineWrapping {
    match wrapcol {
        Some(width) => LineWrapping::Columns(width),
        None => LineWrapping::Unwrapped,
    }
}

/// Whether encoded output ends in `=` padding.
#[derive(Clone, Copy, Debug, PartialEq, Eq, Structural)]
pub enum EncodePadding {
    Padded,
    Unpadded,
}

impl EncodePadding {
    pub fn new(padded: bool) -> (padding: Self)
        ensures
            padding == (if padded {
                EncodePadding::Padded
            } else {
                EncodePadding::Unpadded
            }),
    {
        if padded {
            EncodePadding::Padded
        } else {
            EncodePadding::Unpadded
        }
    }
}

/// Whether encoded output is broken into lines.
#[derive(Clone, Copy, Debug, PartialEq, Eq, Structural)]
pub enum LineWrapping {
    Unwrapped,
    Columns(usize),
}

impl LineWrapping {
    pub fn new(wrapcol: Option<usize>) -> (wrapping: Self)
        ensures
            wrapping == match wrapcol {
                Some(width) => LineWrapping::Columns(width),
                None => LineWrapping::Unwrapped,
            },
    {
        match wrapcol {
            Some(width) => LineWrapping::Columns(width),
            None => LineWrapping::Unwrapped,
        }
    }
}

/// An alphabet, padding and line width chosen once for many inputs.
#[derive(Clone, Copy, Debug)]
pub struct PreparedEncoder {
    pub alphabet: EncodeAlphabet,
    pub padding: EncodePadding,
    pub wrapping: LineWrapping,
}

impl PreparedEncoder {
    /// A line width of zero would never end a line.
    pub open spec fn well_formed(self) -> bool {
        self.wrapping matches LineWrapping::Columns(width) ==> width > 0
    }

    /// The encoding of `input` without line breaks.
    pub open spec fn data_spec(self, input: Seq<u8>) -> Seq<u8> {
        encode_spec(self.alphabet.characters(), input, self.padding == EncodePadding::Padded)
    }

    /// The complete output for `input`.
    pub open spec fn output_spec(self, input: Seq<u8>) -> Seq<u8> {
        match self.wrapping {
            LineWrapping::Unwrapped => self.data_spec(input),
            LineWrapping::Columns(width) => wrap_spec(self.data_spec(input), width as int),
        }
    }

    /// The length of the encoding without line breaks.
    pub open spec fn data_len_spec(self, n: int) -> int {
        if self.padding == EncodePadding::Padded {
            encoded_len_spec(n)
        } else {
            unpadded_len_spec(n)
        }
    }

    /// The length of the complete output.
    pub open spec fn output_len_spec(self, n: int) -> int {
        match self.wrapping {
            LineWrapping::Unwrapped => self.data_len_spec(n),
            LineWrapping::Columns(width) => wrapped_len_spec(self.data_len_spec(n), width as int),
        }
    }

    pub fn new(altchars: Option<[u8; 2]>, padded: bool, wrapcol: Option<usize>) -> (encoder: Self)
        ensures
            encoder.alphabet.characters() == match altchars {
                Some(pair) => altchars_alphabet(pair),
                None => std_alphabet(),
            },
            encoder.padding == padding_of(padded),
            encoder.wrapping == wrapping_of(wrapcol),
    {
        PreparedEncoder::with_alphabet(EncodeAlphabet::new(altchars), padded, wrapcol)
    }

    pub fn with_alphabet(alphabet: EncodeAlphabet, padded: bool, wrapcol: Option<usize>) -> (encoder:
        Self)
        ensures
            encoder.alphabet == alphabet,
            encoder.padding == padding_of(padded),
            encoder.wrapping == wrapping_of(wrapcol),
    {
        PreparedEncoder {
            alphabet,
            padding: EncodePadding::new(padded),
            wrapping: LineWrapping::new(wrapcol),
        }
    }

    /// The length of the encoding of `input_len` bytes without line breaks.
    pub fn data_len(&self, input_len: usize) -> (len: usize)
        requires
            encodable(input_len as int),
        ensures
            len == self.data_len_spec(input_len as int),
            len <= encoded_len_spec(input_len as int),
    {
        match self.padding {
            EncodePadding::Padded => encoded_len(input_len),
            EncodePadding::Unpadded => unpadded_encoded_len(input_len),
        }
    }

    /// The length of the complete output for `input_len` bytes.
    pub fn output_len(&self, input_len: usize) -> (len: usize)
        requires
            self.well_formed(),
            encodable(input_len as int),
        ensures
            len == self.output_len_spec(input_len as int),
    {
        let data_len = self.data_len(input_len);
        match self.wrapping {
            LineWrapping::Unwrapped => data_len,
            LineWrapping::Columns(width) => {
                if data_len == 0 {
                    0
                } else {
                    assert((data_len - 1) / (width as int) <= data_len - 1) by (nonlinear_arith)
                        requires
                            width > 0,
                            data_len >= 1,
                    ;
                    data_len + (data_len - 1) / width
                }
            },
        }
    }

    /// The line width for encoding straight into wrapped lines: only inputs
    /// above the threshold whose encoding spans more than one line.
    pub fn direct_wrap_width(&self, input_len: usize) -> (width: Option<usize>)
        requires
            encodable(input_len as int),
        ensures
            width == (if input_len > DIRECT_WRAPPED_INPUT_THRESHOLD {
                match self.wrapping {
                    LineWrapping::Columns(w) if self.data_len_spec(input_len as int) > w => Some(w),
                    _ => None,
                }
            } else {
                None
            }),
    {
        if input_len <= DIRECT_WRAPPED_INPUT_THRESHOLD {
            return None;
        }
        match self.wrapping {
            LineWrapping::Unwrapped => None,
            LineWrapping::Columns(width) => {
                if self.data_len(input_len) > width {
                    Some(width)
                } else {
                    None
                }
            },
        }
    }
}


proof fn lemma_sextets(a: u8, b: u8, c: u8)
    ensures
        a >> 2u8 < 64,
        ((a & 3u8) << 4u8) | (b >> 4u8) < 64,
        ((b & 15u8) << 2u8) | (c >> 6u8) < 64,
        c & 63u8 < 64,
        (a & 3u8) << 4u8 < 64,
        (b & 15u8) << 2u8 < 64,
{
    assert(a >> 2u8 < 64) by (bit_vector);
    assert(((a & 3u8) << 4u8) | (b >> 4u8) < 64) by (bit_vector);
    assert(((b & 15u8) << 2u8) | (c >> 6u8) < 64) by (bit_vector);
    assert(c & 63u8 < 64) by (bit_vector);
    assert((a & 3u8) << 4u8 < 64) by (bit_vector);
    assert((b & 15u8) << 2u8 < 64) by (bit_vector);
}

/// The complete groups of a prefix grow by one group at a time.
proof fn lemma_encode_groups_step(alphabet: Seq<u8>, input: Seq<u8>, i: int)
    requires
        0 <= i,
        i + 3 <= input.len(),
    ensures
        encode_groups(alphabet, input.take(i + 3)) == encode_groups(alphabet, input.take(i))
            + encode_group(alphabet, input[i], input[i + 1], input[i + 2]),
{
    assert(input.take(i + 3).take(i) =~= input.take(i));
}

/// Complete groups encode to four characters each.
pub proof fn lemma_encode_groups_len(alphabet: Seq<u8>, input: Seq<u8>)
    requires
        input.len() % 3 == 0,
    ensures
        encode_groups(alphabet, input).len() == input.len() / 3 * 4,
    decreases input.len(),
{
    if input.len() >= 3 {
        lemma_encode_groups_len(alphabet, input.take(input.len() - 3));
    }
}

/// The encoding has the padded or unpadded encoded length.
pub proof fn lemma_encode_len(alphabet: Seq<u8>, input: Seq<u8>, padded: bool)
    ensures
        encode_spec(alphabet, input, padded).len() == if padded {
            encoded_len_spec(input.len() as int)
        } else {
            unpadded_len_spec(input.len() as int)
        },
{
    let complete = input.len() / 3 * 3;
    lemma_encode_groups_len(alphabet, input.take(complete as int));
    lemma_encoded_len_groups(input.len() as int);
}

proof fn lemma_div_step(m: int, w: int)
    requires
        m >= 1,
        w > 0,
    ensures
        m / w == (m - 1) / w + if m % w == 0 {
            1int
        } else {
            0int
        },
{
    vstd::arithmetic::div_mod::lemma_fundamental_div_mod(m, w);
    vstd::arithmetic::div_mod::lemma_fundamental_div_mod(m - 1, w);
    if m % w == 0 {
        assert((m - 1) % w == w - 1) by (nonlinear_arith)
            requires
                m == w * (m / w) + m % w,
                m - 1 == w * ((m - 1) / w) + (m - 1) % w,
                0 <= (m - 1) % w < w,
                m % w == 0,
        ;
        assert(m / w == (m - 1) / w + 1) by (nonlinear_arith)
            requires
                m == w * (m / w),
                m - 1 == w * ((m - 1) / w) + w - 1,
                w > 0,
        ;
    } else {
        assert(m / w == (m - 1) / w) by (nonlinear_arith)
            requires
                m == w * (m / w) + m % w,
                m - 1 == w * ((m - 1) / w) + (m - 1) % w,
                0 < m % w < w,
                0 <= (m - 1) % w < w,
        ;
    }
}

/// Wrapping adds one newline for each line after the first.
pub proof fn lemma_wrap_len(data: Seq<u8>, width: int)
    requires
        width > 0,
    ensures
        wrap_spec(data, width).len() == wrapped_len_spec(data.len() as int, width),
    decreases data.len(),
{
    if data.len() > 0 {
        lemma_wrap_len(data.drop_last(), width);
        let n = data.len() - 1;
        if n > 0 {
            lemma_div_step(n, width);
        }
    }
}

/// Wrapping one more line: `r` characters after a prefix of whole lines
/// come after a line break, unless the prefix is empty.
pub proof fn lemma_wrap_line(data: Seq<u8>, start: int, r: int, width: int)
    requires
        width > 0,
        start >= 0,
        start % width == 0,
        1 <= r <= width,
        start + r <= data.len(),
    ensures
        wrap_spec(data.take(start + r), width) == wrap_spec(data.take(start), width) + (if start
            > 0 {
            seq![NEWLINE]
        } else {
            Seq::empty()
        }) + data.subrange(start, start + r),
    decreases r,
{
    let n = start + r - 1;
    let whole = data.take(start + r);
    assert(whole.drop_last() =~= data.take(n));
    assert(whole.last() == data[n]);
    assert(n % width == r - 1) by (nonlinear_arith)
        requires
            start % width == 0,
            0 <= r - 1 < width,
            start >= 0,
            width > 0,
            n == start + r - 1,
    {
        vstd::arithmetic::div_mod::lemma_mod_add_multiples_vanish(r - 1, width);
        vstd::arithmetic::div_mod::lemma_fundamental_div_mod(start, width);
        vstd::arithmetic::div_mod::lemma_mod_multiples_vanish(start / width, r - 1, width);
        vstd::arithmetic::div_mod::lemma_small_mod((r - 1) as nat, width as nat);
    }
    if r == 1 {
        assert(data.subrange(start, start + 1) =~= seq![data[start]]);
        if start > 0 {
            assert(seq![NEWLINE, data[start]] =~= seq![NEWLINE] + seq![data[start]]);
        } else {
            assert(data.take(0) =~= Seq::<u8>::empty());
        }
    } else {
        lemma_wrap_line(data, start, r - 1, width);
        assert(data.subrange(start, start + r) =~= data.subrange(start, start + r - 1).push(
            data[n],
        ));
    }
}

/// Wrapped output is the data cut into lines of `width` characters joined
/// by single line breaks, with none at the end: data that fits one line
/// stays as it is, and longer data is its first line, a line break, and the
/// wrapping of the rest.
pub proof fn lemma_wrap_lines(data: Seq<u8>, width: int)
    requires
        width > 0,
    ensures
        data.len() <= width ==> wrap_spec(data, width) == data,
        data.len() > width ==> wrap_spec(data, width) == data.take(width) + seq![NEWLINE]
            + wrap_spec(data.skip(width), width),
    decreases data.len(),
{
    if data.len() > 0 {
        let shorter = data.drop_last();
        let n = data.len() - 1;
        lemma_wrap_lines(shorter, width);
        if data.len() <= width {
            assert(n % width == n) by {
                vstd::arithmetic::div_mod::lemma_small_mod(n as nat, width as nat);
            }
            assert(shorter.push(data.last()) =~= data);
        } else if data.len() == width + 1 {
            vstd::arithmetic::div_mod::lemma_mod_self_0(width);
            assert(shorter =~= data.take(width));
            let one = seq![data.last()];
            assert(one.drop_last() =~= Seq::<u8>::empty());
            assert(wrap_spec(Seq::<u8>::empty(), width) =~= Seq::<u8>::empty());
            assert(wrap_spec(one, width) == wrap_spec(one.drop_last(), width) + seq![one.last()]);
            assert(wrap_spec(one, width) =~= one);
            assert(data.skip(width) =~= one);
            assert(wrap_spec(data, width) =~= data.take(width) + seq![NEWLINE] + wrap_spec(
                data.skip(width),
                width,
            ));
        } else {
            let rest = data.skip(width);
            assert(shorter.skip(width) =~= rest.drop_last());
            assert(shorter.take(width) =~= data.take(width));
            assert(rest.last() == data.last());
            vstd::arithmetic::div_mod::lemma_mod_add_multiples_vanish(n - width, width);
            assert((n - width) % width == n % width);
            assert(wrap_spec(data, width) =~= data.take(width) + seq![NEWLINE] + wrap_spec(
                rest,
                width,
            ));
        }
    }
}

/// Wrapping a shorter prefix gives a prefix of the wrapped whole.
pub proof fn lemma_wrap_prefix(data: Seq<u8>, a: int, b: int, width: int)
    requires
        width > 0,
        0 <= a <= b <= data.len(),
    ensures
        wrap_spec(data.take(b), width).len() >= wrap_spec(data.take(a), width).len(),
        wrap_spec(data.take(b), width).take(wrap_spec(data.take(a), width).len() as int)
            == wrap_spec(data.take(a), width),
    decreases b - a,
{
    if a < b {
        lemma_wrap_prefix(data, a, b - 1, width);
        let whole = data.take(b);
        assert(whole.drop_last() =~= data.take(b - 1));
        let shorter = wrap_spec(data.take(b - 1), width);
        let prefix = wrap_spec(data.take(a), width);
        assert(wrap_spec(whole, width).take(prefix.len() as int) =~= shorter.take(
            prefix.len() as int,
        ));
    } else {
        assert(wrap_spec(data.take(b), width).take(wrap_spec(data.take(a), width).len() as int)
            =~= wrap_spec(data.take(a), width));
    }
}

/// Break the encoded characters at the front of `buffer` into lines of
/// `width` (`lemma_wrap_lines` gives the result line by line), in place: lines move toward the end, from the last one down, so
/// no character is overwritten before it has moved. The buffer holds exactly
/// the wrapped length.
pub fn wrap_encoded_in_place(buffer: &mut Vec<u8>, data_len: usize, width: usize)
    requires
        width > 0,
        data_len <= old(buffer)@.len(),
        old(buffer)@.len() == wrapped_len_spec(data_len as int, width as int),
    ensures
        final(buffer)@ == wrap_spec(old(buffer)@.take(data_len as int), width as int),
{
    let ghost data = old(buffer)@.take(data_len as int);
    let ghost wrapped = wrap_spec(data, width as int);
    proof {
        lemma_wrap_len(data, width as int);
        assert(data.take(data_len as int) =~= data);
    }
    if data_len <= width {
        proof {
            if data_len > 0 {
                lemma_wrap_line(data, 0, data_len as int, width as int);
                assert(data.take(0) =~= Seq::<u8>::empty());
                assert(data.subrange(0, data_len as int) =~= data);
            }
            assert(buffer@ =~= wrapped);
        }
        return;
    }
    let mut source: usize = data_len;
    let mut destination: usize = buffer.len();
    while source != 0
        invariant
            width > 0,
            0 <= source <= data_len,
            data_len > width,
            source == data_len || source % width == 0,
            buffer@.len() == wrapped.len(),
            wrapped == wrap_spec(data, width as int),
            data.len() == data_len,
            destination == wrap_spec(data.take(source as int), width as int).len(),
            forall|k: int| 0 <= k < source ==> buffer@[k] == data[k],
            forall|k: int| destination <= k < wrapped.len() ==> buffer@[k] == wrapped[k],
        decreases source,
    {
        let remainder = source % width;
        proof {
            if source < width {
                vstd::arithmetic::div_mod::lemma_small_mod(source as nat, width as nat);
            }
        }
        let line_len = if remainder == 0 {
            width
        } else {
            remainder
        };
        let start = source - line_len;
        proof {
            assert(start as int % width as int == 0) by (nonlinear_arith)
                requires
                    source as int == data_len as int || source as int % width as int == 0,
                    remainder == source as int % width as int,
                    line_len as int == if remainder == 0 {
                        width as int
                    } else {
                        remainder as int
                    },
                    start as int == source as int - line_len as int,
                    width > 0,
                    source > 0,
            {
                vstd::arithmetic::div_mod::lemma_fundamental_div_mod(source as int, width as int);
                if remainder == 0 {
                    vstd::arithmetic::div_mod::lemma_mod_multiples_basic(
                        source as int / width as int - 1,
                        width as int,
                    );
                    assert(start as int == (source as int / width as int - 1) * width as int);
                } else {
                    vstd::arithmetic::div_mod::lemma_mod_multiples_basic(
                        source as int / width as int,
                        width as int,
                    );
                    assert(start as int == (source as int / width as int) * width as int);
                }
            }
            lemma_wrap_line(data, start as int, line_len as int, width as int);
            lemma_wrap_prefix(data, source as int, data_len as int, width as int);
            lemma_wrap_prefix(data, start as int, data_len as int, width as int);
            lemma_wrap_len(data.take(start as int), width as int);
            assert(data.take(data_len as int) =~= data);
            assert((start - 1) / (width as int) >= 0 || start == 0);
        }
        let ghost before = buffer@;
        let ghost prefix_len = wrap_spec(data.take(start as int), width as int).len();
        let target = destination - line_len;
        let mut t: usize = line_len;
        while t > 0
            invariant
                t <= line_len,
                start + line_len == source,
                target + line_len == destination,
                start <= target,
                destination <= buffer@.len(),
                buffer@.len() == before.len(),
                forall|k: int| 0 <= k < target + t ==> buffer@[k] == before[k],
                forall|k: int| destination <= k < buffer@.len() ==> buffer@[k] == before[k],
                forall|k: int|
                    target + t <= k < target + line_len ==> #[trigger] buffer@[k] == before[k - target + start],
            decreases t,
        {
            t = t - 1;
            let byte = buffer[start + t];
            buffer.set(target + t, byte);
        }
        destination = target;
        if start != 0 {
            destination = destination - 1;
            buffer.set(destination, NEWLINE);
        }
        source = start;
        proof {
            let line = wrap_spec(data.take(source as int), width as int);
            assert(destination == prefix_len);
            assert forall|k: int| 0 <= k < source implies buffer@[k] == data[k] by {
                assert(buffer@[k] == before[k]);
            }
            assert forall|k: int| destination <= k < wrapped.len() implies buffer@[k]
                == wrapped[k] by {
                let upper = wrap_spec(data.take((source + line_len) as int), width as int);
                assert(wrapped.take(upper.len() as int) == upper);
                if k >= target + line_len {
                } else if k >= target {
                    let q = k - target;
                    assert(buffer@[k] == before[k - target + start]);
                    assert(before[start + q] == data[start + q]);
                    assert(upper[k] == data.subrange(start as int, start + line_len)[q]);
                    assert(wrapped[k] == upper[k]);
                } else {
                    assert(start > 0 && k == destination);
                    assert(upper[k] == NEWLINE);
                    assert(wrapped[k] == upper[k]);
                }
            }
        }
    }
    proof {
        assert(data.take(0) =~= Seq::<u8>::empty());
        assert(buffer@ =~= wrapped);
    }
}

/// Encode `input` with `alphabet`, padded or not, without line breaks.
#[verifier::rlimit(40)]
pub fn encode_data(alphabet: &[u8; 64], input: &[u8], padded: bool) -> (encoded: Vec<u8>)
    requires
        encodable(input@.len() as int),
    ensures
        encoded@ == encode_spec(alphabet@, input@, padded),
{
    let mut encoded: Vec<u8> = Vec::new();
    let mut i: usize = 0;
    while input.len() - i >= 3
        invariant
            i <= input@.len(),
            input@.len() == input.len(),
            i % 3 == 0,
            encoded@ == encode_groups(alphabet@, input@.take(i as int)),
        decreases input@.len() - i,
    {
        let a = input[i];
        let b = input[i + 1];
        let c = input[i + 2];
        proof {
            lemma_sextets(a, b, c);
            lemma_encode_groups_step(alphabet@, input@, i as int);
        }
        encoded.push(alphabet[(a >> 2u8) as usize]);
        encoded.push(alphabet[(((a & 3u8) << 4u8) | (b >> 4u8)) as usize]);
        encoded.push(alphabet[(((b & 15u8) << 2u8) | (c >> 6u8)) as usize]);
        encoded.push(alphabet[(c & 63u8) as usize]);
        proof {
            assert(encoded@ =~= encode_groups(alphabet@, input@.take(i + 3)));
        }
        i = i + 3;
    }
    let ghost complete = input@.len() / 3 * 3;
    assert(i == complete);
    let rest = input.len() - i;
    if rest == 1 {
        let a = input[i];
        proof {
            lemma_sextets(a, 0, 0);
        }
        encoded.push(alphabet[(a >> 2u8) as usize]);
        encoded.push(alphabet[((a & 3u8) << 4u8) as usize]);
        if padded {
            encoded.push(PAD_BYTE);
            encoded.push(PAD_BYTE);
        }
    } else if rest == 2 {
        let a = input[i];
        let b = input[i + 1];
        proof {
            lemma_sextets(a, b, 0);
        }
        encoded.push(alphabet[(a >> 2u8) as usize]);
        encoded.push(alphabet[(((a & 3u8) << 4u8) | (b >> 4u8)) as usize]);
        encoded.push(alphabet[((b & 15u8) << 2u8) as usize]);
        if padded {
            encoded.push(PAD_BYTE);
        }
    }
    proof {
        let tail = input@.skip(complete as int);
        assert(tail.len() == rest);
        if rest >= 1 {
            assert(tail[0] == input@[i as int]);
        }
        if rest == 2 {
            assert(tail[1] == input@[i + 1]);
        }
        assert(encoded@ =~= encode_spec(alphabet@, input@, padded));
    }
    encoded
}

/// Break `data` into lines of `width` bytes joined by newlines.
pub fn wrap_lines(data: &[u8], width: usize) -> (wrapped: Vec<u8>)
    requires
        width > 0,
    ensures
        wrapped@ == wrap_spec(data@, width as int),
{
    let mut wrapped: Vec<u8> = Vec::new();
    let mut j: usize = 0;
    proof {
        assert(data@.take(0) =~= Seq::<u8>::empty());
    }
    while j < data.len()
        invariant
            j <= data@.len(),
            data@.len() == data.len(),
            width > 0,
            wrapped@ == wrap_spec(data@.take(j as int), width as int),
        decreases data@.len() - j,
    {
        if j > 0 && j % width == 0 {
            wrapped.push(NEWLINE);
        }
        wrapped.push(data[j]);
        proof {
            assert(data@.take(j + 1).drop_last() =~= data@.take(j as int));
            assert(wrapped@ =~= wrap_spec(data@.take(j + 1), width as int));
        }
        j = j + 1;
    }
    proof {
        assert(data@.take(data@.len() as int) =~= data@);
    }
    wrapped
}

impl PreparedEncoder {
    /// The complete output has the length that `output_len` gives.
    pub proof fn lemma_output_len(self, input: Seq<u8>)
        requires
            self.well_formed(),
        ensures
            self.output_spec(input).len() == self.output_len_spec(input.len() as int),
    {
        lemma_encode_len(self.alphabet.characters(), input, self.padding == EncodePadding::Padded);
        match self.wrapping {
            LineWrapping::Columns(width) => {
                lemma_wrap_len(self.data_spec(input), width as int);
            },
            LineWrapping::Unwrapped => {},
        }
    }

    /// Encode `input` with the alphabet, padding and line width.
    pub fn encode(&self, input: &[u8]) -> (encoded: Vec<u8>)
        requires
            self.well_formed(),
            encodable(input@.len() as int),
        ensures
            encoded@ == self.output_spec(input@),
            encoded@.len() == self.output_len_spec(input@.len() as int),
    {
        proof {
            self.lemma_output_len(input@);
        }
        let table = self.alphabet.table();
        let mut data = encode_data(&table, input, matches!(self.padding, EncodePadding::Padded));
        match self.wrapping {
            LineWrapping::Unwrapped => data,
            LineWrapping::Columns(width) => {
                if self.direct_wrap_width(input.len()).is_some() {
                    return wrap_lines(data.as_slice(), width);
                }
                let data_len = data.len();
                let output_len = self.output_len(input.len());
                let ghost encoded = data@;
                proof {
                    lemma_wrap_len(encoded, width as int);
                }
                while data.len() < output_len
                    invariant
                        data_len <= data@.len() <= output_len,
                        data@.take(data_len as int) == encoded,
                        encoded.len() == data_len,
                    decreases output_len - data@.len(),
                {
                    let ghost before = data@;
                    data.push(0);
                    proof {
                        assert(data@.take(data_len as int) =~= before.take(data_len as int));
                    }
                }
                wrap_encoded_in_place(&mut data, data_len, width);
                data
            },
        }
    }
}

/// Encode `input` into a new buffer.
pub fn encode_with_prepared(input: &[u8], encoder: &PreparedEncoder) -> (encoded: Vec<u8>)
    requires
        encoder.well_formed(),
        encodable(input@.len() as int),
    ensures
        encoded@ == encoder.output_spec(input@),
{
    encoder.encode(input)
}

/// Encode `input` with alternative characters, padding and line width.
pub fn encode(input: &[u8], altchars: Option<[u8; 2]>, padded: bool, wrapcol: Option<usize>) -> (encoded:
    Vec<u8>)
    requires
        encodable(input@.len() as int),
        wrapcol != Some(0usize),
    ensures
        ({
            let alphabet = match altchars {
                Some(pair) => altchars_alphabet(pair),
                None => std_alphabet(),
            };
            let data = encode_spec(alphabet, input@, padded);
            encoded@ == match wrapcol {
                Some(width) => wrap_spec(data, width as int),
                None => data,
            }
        }),
{
    let encoder = PreparedEncoder::new(altchars, padded, wrapcol);
    encoder.encode(input)
}

/// Encode `input` into the front of `output` when the complete encoding
/// fits, and report the size needed otherwise, leaving `output` untouched.
pub fn encode_slice_into(
    input: &[u8],
    output: &mut Vec<u8>,
    encoder: &PreparedEncoder,
) -> (result: Result<usize, Base64Error>)
    requires
        encoder.well_formed(),
        encodable(input@.len() as int),
    ensures
        final(output)@.len() == old(output)@.len(),
        (match result {
            Ok(n) => n == encoder.output_len_spec(input@.len() as int) && final(output)@
                == encoder.output_spec(input@) + old(output)@.skip(n as int),
            Err(e) => e == (Base64Error::OutputTooSmall {
                required: encoder.output_len_spec(input@.len() as int) as usize,
                provided: old(output)@.len() as usize,
            }) && old(output)@.len() < encoder.output_len_spec(input@.len() as int)
                && final(output)@ == old(output)@,
        }),
{
    let required = encoder.output_len(input.len());
    let provided = output.len();
    if provided < required {
        return Err(Base64Error::OutputTooSmall { required, provided });
    }
    let encoded = encoder.encode(input);
    let ghost old_output = output@;
    let mut i: usize = 0;
    while i < required
        invariant
            i <= required,
            required == encoded@.len(),
            required <= old_output.len(),
            output@.len() == old_output.len(),
            forall|j: int| 0 <= j < i ==> output@[j] == encoded@[j],
            forall|j: int| i <= j < old_output.len() ==> output@[j] == old_output[j],
        decreases required - i,
    {
        output.set(i, encoded[i]);
        i = i + 1;
    }
    assert(output@ =~= encoded@ + old_output.skip(required as int));
    Ok(required)
}

/// Why a line width was refused.
#[derive(Clone, Copy, Debug, PartialEq, Eq, Structural)]
pub enum WrapcolError {
    /// A negative width.
    Negative,
    /// A width too large for a machine integer.
    TooLarge,
}

/// The line width for a requested column count: zero means no wrapping, and
/// every other count is rounded down to a multiple of four, at least four.
pub fn normalize_wrapcol(wrapcol: i128) -> (width: Result<Option<usize>, WrapcolError>)
    ensures
        wrapcol < 0 <==> width == Err::<Option<usize>, WrapcolError>(WrapcolError::Negative),
        wrapcol > usize::MAX <==> width == Err::<Option<usize>, WrapcolError>(
            WrapcolError::TooLarge,
        ),
        wrapcol == 0 <==> width == Ok::<Option<usize>, WrapcolError>(None),
        0 < wrapcol < 4 ==> width == Ok::<Option<usize>, WrapcolError>(Some(4usize)),
        4 <= wrapcol <= usize::MAX ==> width == Ok::<Option<usize>, WrapcolError>(
            Some((wrapcol / 4 * 4) as usize),
        ),
{
    if wrapcol < 0 {
        return Err(WrapcolError::Negative);
    }
    if wrapcol > usize::MAX as i128 {
        return Err(WrapcolError::TooLarge);
    }
    let wrapcol = wrapcol as usize;
    if wrapcol == 0 {
        Ok(None)
    } else if wrapcol < 4 {
        Ok(Some(4))
    } else {
        Ok(Some(wrapcol / 4 * 4))
    }
}

} // verus!
