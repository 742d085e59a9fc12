//! The RFC 4648 Base64 alphabets, the lenient symbol class, and decode tables.

use vstd::prelude::*;

verus! {

/// Table value of a byte that is not a Base64 symbol.
pub const INVALID_VALUE: u8 = 64;

/// The byte that encodes the 6-bit `value` in the standard alphabet
/// `A-Z a-z 0-9 + /`.
pub open spec fn std_char(value: int) -> u8 {
    if value < 26 {
        (65 + value) as u8
    } else if value < 52 {
        (97 + value - 26) as u8
    } else if value < 62 {
        (48 + value - 52) as u8
    } else if value == 62 {
        43u8
    } else {
        47u8
    }
}

/// Whether `byte` belongs to the standard alphabet.
pub open spec fn is_std_char(byte: u8) -> bool {
    (65 <= byte <= 90) || (97 <= byte <= 122) || (48 <= byte <= 57) || byte == 43 || byte == 47
}

/// Whether `byte` is an ASCII letter or digit, the first 62 standard symbols.
pub open spec fn is_alphanumeric(byte: u8) -> bool {
    (65 <= byte <= 90) || (97 <= byte <= 122) || (48 <= byte <= 57)
}

/// The 6-bit value of a standard-alphabet byte.
pub open spec fn std_value(byte: u8) -> u8 {
    if 65 <= byte <= 90 {
        (byte - 65) as u8
    } else if 97 <= byte <= 122 {
        (byte - 97 + 26) as u8
    } else if 48 <= byte <= 57 {
        (byte - 48 + 52) as u8
    } else if byte == 43 {
        62u8
    } else {
        63u8
    }
}

/// The standard alphabet as a sequence of 64 bytes.
pub open spec fn std_alphabet() -> Seq<u8> {
    Seq::new(64, |i: int| std_char(i))
}

/// A byte counts as a Base64 symbol in CPython's non-strict decoder: a standard
/// alphabet byte or one of the two alternative characters.
pub open spec fn lenient_symbol(byte: u8, altchars: Option<[u8; 2]>) -> bool {
    is_std_char(byte) || match altchars {
        Some(pair) => byte == pair[0] || byte == pair[1],
        None => false,
    }
}

/// The value that the lenient decode table gives `byte`: alternative
/// characters override the standard ones, and the second overrides the first.
pub open spec fn lenient_table_value(altchars: Option<[u8; 2]>, byte: u8) -> u8 {
    match altchars {
        Some(pair) if byte == pair[1] => 63u8,
        Some(pair) if byte == pair[0] => 62u8,
        _ => if is_std_char(byte) {
            std_value(byte)
        } else {
            64u8
        },
    }
}

/// The decode table that `lenient_decode_table` builds.
pub open spec fn lenient_table(altchars: Option<[u8; 2]>) -> Seq<u8> {
    Seq::new(256, |i: int| lenient_table_value(altchars, i as u8))
}

/// `std_char` and `std_value` are inverse on the standard alphabet.
pub proof fn lemma_std_char_value(value: int)
    requires
        0 <= value < 64,
    ensures
        is_std_char(std_char(value)),
        std_value(std_char(value)) == value,
{
}

/// Every standard-alphabet byte is the character of its value.
pub proof fn lemma_std_value_char(byte: u8)
    requires
        is_std_char(byte),
    ensures
        std_value(byte) < 64,
        std_char(std_value(byte) as int) == byte,
{
}

/// The byte that encodes the 6-bit `value` in the standard alphabet.
pub fn standard_alphabet_char(value: u8) -> (byte: u8)
    requires
        value < 64,
    ensures
        byte == std_char(value as int),
{
    if value < 26 {
        65 + value
    } else if value < 52 {
        97 + (value - 26)
    } else if value < 62 {
        48 + (value - 52)
    } else if value == 62 {
        43
    } else {
        47
    }
}

/// The standard RFC 4648 alphabet `A-Z a-z 0-9 + /`.
pub fn standard_alphabet() -> (alphabet: [u8; 64])
    ensures
        alphabet@ == std_alphabet(),
{
    let mut alphabet = [0u8; 64];
    for value in 0..64u8
        invariant
            forall|i: int| 0 <= i < value ==> alphabet@[i] == std_char(i),
            alphabet@.len() == 64,
    {
        alphabet[value as usize] = standard_alphabet_char(value);
    }
    assert(alphabet@ =~= std_alphabet());
    alphabet
}

/// Whether `byte` is a symbol for CPython's non-strict decoder with the given
/// alternative characters.
pub fn is_lenient_symbol(byte: u8, altchars: Option<[u8; 2]>) -> (symbol: bool)
    ensures
        symbol == lenient_symbol(byte, altchars),
{
    // 'A'..='Z', 'a'..='z', '0'..='9', '+', '/'
    let standard = byte.wrapping_sub(65) <= 25 || byte.wrapping_sub(97) <= 25 || byte.wrapping_sub(
        48,
    ) <= 9 || byte == 43 || byte == 47;
    match altchars {
        Some(pair) => standard || byte == pair[0] || byte == pair[1],
        None => standard,
    }
}

/// Whether `byte` is an ASCII letter or digit.
pub fn is_ascii_alphanumeric(byte: u8) -> (alphanumeric: bool)
    ensures
        alphanumeric == is_alphanumeric(byte),
{
    (65 <= byte && byte <= 90) || (97 <= byte && byte <= 122) || (48 <= byte && byte <= 57)
}

/// Build the 256-entry decode table for the non-strict decoder: each standard
/// symbol maps to its value, the alternative characters map to 62 and 63, and
/// every other byte maps to 64.
pub fn lenient_decode_table(altchars: Option<[u8; 2]>) -> (table: [u8; 256])
    ensures
        table@ == lenient_table(altchars),
{
    let mut table = [64u8; 256];
    for value in 0..64u8
        invariant
            table@.len() == 256,
            forall|b: int|
                0 <= b < 256 ==> #[trigger] table@[b] == if is_std_char(b as u8) && std_value(
                    b as u8,
                ) < value {
                    std_value(b as u8)
                } else {
                    64u8
                },
    {
        let byte = standard_alphabet_char(value);
        proof {
            lemma_std_char_value(value as int);
        }
        table[byte as usize] = value;
        assert forall|b: int| 0 <= b < 256 implies #[trigger] table@[b] == if is_std_char(b as u8)
            && std_value(b as u8) < value + 1 {
            std_value(b as u8)
        } else {
            64u8
        } by {
            if is_std_char(b as u8) && b != byte {
                lemma_std_value_char(b as u8);
            }
        }
    }
    if let Some(pair) = altchars {
        table[pair[0] as usize] = 62;
        table[pair[1] as usize] = 63;
    }
    proof {
        assert forall|b: int| 0 <= b < 256 implies #[trigger] table@[b] == lenient_table_value(
            altchars,
            b as u8,
        ) by {
            if is_std_char(b as u8) {
                lemma_std_value_char(b as u8);
            }
        }
    }
    assert(table@ =~= lenient_table(altchars));
    table
}

/// A byte is a lenient symbol exactly when the lenient table gives it a
/// value below 64.
pub proof fn lemma_lenient_table_symbol(altchars: Option<[u8; 2]>, byte: u8)
    ensures
        (lenient_table_value(altchars, byte) < 64) == lenient_symbol(byte, altchars),
        lenient_table(altchars)[byte as int] == lenient_table_value(altchars, byte),
{
    if is_std_char(byte) {
        lemma_std_value_char(byte);
    }
}

/// The number of bytes that `symbols` Base64 symbols decode to: three per
/// complete quartet, and one or two for a trailing group of two or three.
pub open spec fn spec_decoded_symbol_len(symbols: int) -> int {
    symbols / 4 * 3 + if symbols % 4 == 2 {
        1int
    } else if symbols % 4 == 3 {
        2int
    } else {
        0int
    }
}

/// The number of bytes that `symbols` Base64 symbols decode to.
pub fn decoded_symbol_len(symbols: usize) -> (len: usize)
    ensures
        len == spec_decoded_symbol_len(symbols as int),
        len <= symbols,
{
    symbols / 4 * 3 + match symbols % 4 {
        2 => 1,
        3 => 2,
        _ => 0,
    }
}

} // verus!
