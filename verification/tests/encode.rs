use hashcodecs::encode::{
    encode, encode_slice_into, encode_with_prepared, encoded_len, normalize_wrapcol,
    unpadded_encoded_len, wrap_encoded_in_place, wrap_lines, EncodeAlphabet, PreparedEncoder, WrapcolError,
    DIRECT_WRAPPED_INPUT_THRESHOLD,
};
use hashcodecs::error::Base64Error;

fn sample(len: usize) -> Vec<u8> {
    (0..len).map(|index| (index as u8).wrapping_mul(37).wrapping_add(11)).collect()
}

fn wrapped(contiguous: &[u8], width: usize) -> Vec<u8> {
    let mut expected = Vec::new();
    for (line, chunk) in contiguous.chunks(width).enumerate() {
        if line != 0 {
            expected.push(b'\n');
        }
        expected.extend_from_slice(chunk);
    }
    expected
}

fn substitute(encoded: &mut [u8], altchars: [u8; 2]) {
    for byte in encoded {
        if *byte == b'+' {
            *byte = altchars[0];
        } else if *byte == b'/' {
            *byte = altchars[1];
        }
    }
}

#[test]
fn custom_lookup_tables_cover_wrapping_byte_offsets_and_exact_boundaries() {
    let input = sample(257);
    for altchars in [*b"@#", *b"==", [0, u8::MAX], [62, 63]] {
        for length in 0..=256 {
            for padded in [false, true] {
                let encoder = PreparedEncoder::new(Some(altchars), padded, None);
                let output_len = encoder.output_len(length);
                let mut actual = vec![0xa5; output_len + 1];
                assert_eq!(encode_slice_into(&input[..length], &mut actual, &encoder), Ok(output_len));

                let mut expected = encode(&input[..length], None, true, None);
                if !padded {
                    while expected.last() == Some(&b'=') {
                        expected.pop();
                    }
                }
                substitute(&mut expected, altchars);
                assert_eq!(&actual[..output_len], expected);
                assert_eq!(actual[output_len], 0xa5);
            }
        }
    }
}

#[test]
fn large_wrapped_custom_unpadded_output_uses_final_layout() {
    let input = sample(DIRECT_WRAPPED_INPUT_THRESHOLD + 2);
    let encoder = PreparedEncoder::new(Some(*b"@#"), false, Some(76));
    assert_eq!(encoder.direct_wrap_width(input.len()), Some(76));
    let mut actual = vec![0xa5; encoder.output_len(input.len()) + 1];
    let written = encode_slice_into(&input, &mut actual, &encoder).unwrap();

    let mut contiguous = encode(&input, None, true, None);
    while contiguous.last() == Some(&b'=') {
        contiguous.pop();
    }
    substitute(&mut contiguous, *b"@#");
    let expected = wrapped(&contiguous, 76);
    assert_eq!(written, expected.len());
    assert_eq!(&actual[..expected.len()], expected);
    assert_eq!(actual[expected.len()], 0xa5);
}

#[test]
fn wrapped_arbitrary_alphabet_uses_complete_table() {
    let input = sample(257);
    let alphabet = EncodeAlphabet::from_table([b'Z'; 64]);
    let encoder = PreparedEncoder::with_alphabet(alphabet, false, Some(76));
    let mut actual = vec![0xa5; encoder.output_len(input.len()) + 1];
    encode_slice_into(&input, &mut actual, &encoder).unwrap();

    let data_len = unpadded_encoded_len(input.len());
    let mut expected = Vec::new();
    for (line, length) in (0..data_len).step_by(76).enumerate() {
        if line != 0 {
            expected.push(b'\n');
        }
        expected.extend(std::iter::repeat_n(b'Z', (data_len - length).min(76)));
    }
    assert_eq!(&actual[..expected.len()], expected);
    assert_eq!(actual[expected.len()], 0xa5);
}

#[test]
fn large_wrapped_standard_padded_output_uses_final_layout() {
    let input = sample(DIRECT_WRAPPED_INPUT_THRESHOLD + 1);
    let encoder = PreparedEncoder::new(None, true, Some(76));
    let mut actual = vec![0xa5; encoder.output_len(input.len()) + 1];
    encode_slice_into(&input, &mut actual, &encoder).unwrap();
    let expected = wrapped(&encode(&input, None, true, None), 76);
    assert_eq!(&actual[..expected.len()], expected);
    assert_eq!(actual[expected.len()], 0xa5);
}

#[test]
fn short_wrapped_custom_output_uses_scalar_fallback_and_exact_store() {
    let input = [0xfb; 15];
    let encoder = PreparedEncoder::new(Some(*b"@#"), true, Some(4));
    let mut actual = vec![0xa5; 25];
    encode_slice_into(&input, &mut actual, &encoder).unwrap();

    let mut contiguous = encode(&input, None, true, None);
    substitute(&mut contiguous, *b"@#");
    let expected = wrapped(&contiguous, 4);
    assert_eq!(&actual[..expected.len()], expected);
    assert_eq!(actual[expected.len()], 0xa5);
}

#[test]
fn rfc_4648_vectors_encode_exactly() {
    for (input, expected) in [
        (b"".as_slice(), b"".as_slice()),
        (b"f".as_slice(), b"Zg==".as_slice()),
        (b"fo".as_slice(), b"Zm8=".as_slice()),
        (b"foo".as_slice(), b"Zm9v".as_slice()),
        (b"foob".as_slice(), b"Zm9vYg==".as_slice()),
        (b"fooba".as_slice(), b"Zm9vYmE=".as_slice()),
        (b"foobar".as_slice(), b"Zm9vYmFy".as_slice()),
    ] {
        assert_eq!(encode(input, None, true, None), expected);
        let unpadded: Vec<u8> = expected.iter().copied().filter(|&b| b != b'=').collect();
        assert_eq!(encode(input, None, false, None), unpadded);
    }
    assert_eq!(encode(&[0xfb, 0xff], Some(*b"-_"), true, None), b"-_8=");
    assert_eq!(encode(&[0xfb, 0xff], None, true, None), b"+/8=");
    assert_eq!(encode(b"foobar", None, true, Some(4)), b"Zm9v\nYmFy");
    assert_eq!(encode(b"foobar", None, true, Some(3)), b"Zm9\nvYm\nFy");
    let encoder = PreparedEncoder::new(None, true, None);
    assert_eq!(encode_with_prepared(b"fo", &encoder), b"Zm8=");
}

#[test]
fn encoded_lengths_count_groups_and_line_breaks() {
    assert_eq!(encoded_len(0), 0);
    assert_eq!(encoded_len(1), 4);
    assert_eq!(encoded_len(3), 4);
    assert_eq!(encoded_len(4), 8);
    assert_eq!(unpadded_encoded_len(1), 2);
    assert_eq!(unpadded_encoded_len(2), 3);
    assert_eq!(unpadded_encoded_len(3), 4);
    let encoder = PreparedEncoder::new(None, true, Some(4));
    assert_eq!(encoder.output_len(0), 0);
    assert_eq!(encoder.output_len(3), 4);
    assert_eq!(encoder.output_len(6), 9);
    assert_eq!(encoder.data_len(6), 8);
    assert_eq!(encoder.direct_wrap_width(6), None);
    assert_eq!(wrap_lines(b"abcdefgh", 3), b"abc\ndef\ngh");
    assert_eq!(wrap_lines(b"", 3), b"");
}

#[test]
fn undersized_destinations_are_left_untouched() {
    let encoder = PreparedEncoder::new(None, true, None);
    let mut output = vec![0xa5; 3];
    assert_eq!(
        encode_slice_into(b"foo", &mut output, &encoder),
        Err(Base64Error::OutputTooSmall { required: 4, provided: 3 })
    );
    assert_eq!(output, [0xa5; 3]);
}

#[test]
fn alphabets_recognize_standard_and_urlsafe_tables() {
    let mut table = *b"ABCDEFGHIJKLMNOPQRSTUVWXYZabcdefghijklmnopqrstuvwxyz0123456789+/";
    assert!(matches!(EncodeAlphabet::from_table(table), EncodeAlphabet::Standard));
    table[62] = b'-';
    table[63] = b'_';
    assert!(EncodeAlphabet::from_table(table).is_urlsafe());
    assert!(EncodeAlphabet::new(Some(*b"-_")).is_urlsafe());
    table[0] = b'!';
    assert!(matches!(EncodeAlphabet::from_table(table), EncodeAlphabet::Custom(_)));
    assert!(matches!(EncodeAlphabet::new(None), EncodeAlphabet::Standard));
}

#[test]
fn line_widths_round_down_to_whole_groups() {
    assert_eq!(normalize_wrapcol(-1), Err(WrapcolError::Negative));
    assert_eq!(normalize_wrapcol(0), Ok(None));
    assert_eq!(normalize_wrapcol(1), Ok(Some(4)));
    assert_eq!(normalize_wrapcol(7), Ok(Some(4)));
    assert_eq!(normalize_wrapcol(76), Ok(Some(76)));
    assert_eq!(normalize_wrapcol(79), Ok(Some(76)));
    assert_eq!(normalize_wrapcol(i128::MAX), Err(WrapcolError::TooLarge));
}

#[test]
fn in_place_wrapping_moves_lines_from_the_end() {
    let mut buffer = b"ABCDEFGHIJ\0\0".to_vec();
    wrap_encoded_in_place(&mut buffer, 10, 4);
    assert_eq!(buffer, b"ABCD\nEFGH\nIJ".to_vec());
    let mut exact = b"ABCDEFGHIJ\0".to_vec();
    wrap_encoded_in_place(&mut exact, 10, 5);
    assert_eq!(exact, b"ABCDE\nFGHIJ".to_vec());
    let mut short = b"ABCD".to_vec();
    wrap_encoded_in_place(&mut short, 4, 4);
    assert_eq!(short, b"ABCD".to_vec());
    let mut empty: Vec<u8> = Vec::new();
    wrap_encoded_in_place(&mut empty, 0, 4);
    assert!(empty.is_empty());
}

#[test]
fn alternative_characters_only_replace_plus_and_slash() {
    for pair in [*b"@#", *b"==", [0u8, 255u8], [62u8, 63u8]] {
        for padded in [false, true] {
            for len in 0..=64 {
                let input = sample(len);
                let standard = encode(&input, None, padded, None);
                let substituted: Vec<u8> = standard
                    .iter()
                    .map(|&b| if b == b'+' { pair[0] } else if b == b'/' { pair[1] } else { b })
                    .collect();
                assert_eq!(encode(&input, Some(pair), padded, None), substituted);
            }
        }
    }
}
