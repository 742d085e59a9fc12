use hashcodecs::alphabet::{lenient_decode_table, standard_alphabet};
use hashcodecs::configured::{
    configured_decode_table, decode_configured, decode_configured_slice_into, ConfiguredDecoder,
    StrictSpecials, Translation,
};
use hashcodecs::error::Base64Error;
use hashcodecs::policy::{ignored_bytes_from, Padding, PreparedPolicy, Validation};
use hashcodecs::symbols::{CpuFeatures, KernelTier, TargetArch};

const FEATURES: CpuFeatures = CpuFeatures { arch: TargetArch::X86, avx2: true, sse2: true };
const STAGING: usize = 4096;

fn advanced_decoder(
    ignored_bytes: &[u8],
    strict_mode: bool,
    padded: bool,
    canonical: bool,
) -> ConfiguredDecoder {
    let table = lenient_decode_table(None);
    let mut ignored = [false; 256];
    for &byte in ignored_bytes {
        ignored[usize::from(byte)] = true;
    }
    ConfiguredDecoder::with_table(
        table,
        ignored,
        if strict_mode { Validation::Strict } else { Validation::Lenient },
        Padding::new(padded),
        canonical,
        FEATURES,
    )
}

fn checked(decoder: &ConfiguredDecoder, input: &[u8], cap: bool) -> (Option<usize>, Vec<u8>) {
    let mut output = vec![0xa5; input.len() + 8];
    let written = decoder.decode_checked(input, &mut output, cap);
    (written, output)
}

#[test]
fn strict_special_search_covers_every_width() {
    let table = lenient_decode_table(None);
    for (ignored_bytes, expected) in [
        (b"".as_slice(), 0),
        (b"!".as_slice(), 1),
        (b"!?".as_slice(), 2),
        (b"!?~".as_slice(), 3),
        (b"!?~%".as_slice(), 4),
    ] {
        let mut ignored = [false; 256];
        for &byte in ignored_bytes {
            ignored[usize::from(byte)] = true;
        }
        let specials = StrictSpecials::new(&table, &ignored, true);
        assert!(matches!(
            (expected, specials),
            (0, StrictSpecials::Empty)
                | (1, StrictSpecials::One(_))
                | (2, StrictSpecials::Two(_, _))
                | (3, StrictSpecials::Three(_, _, _))
                | (4, StrictSpecials::Many)
        ));
    }
    assert_eq!(StrictSpecials::Empty.find(b"abc"), None);
    assert_eq!(StrictSpecials::One(b'!').find(b"a!c"), Some(1));
    assert_eq!(StrictSpecials::Two(b'!', b'?').find(b"a?c"), Some(1));
    assert_eq!(StrictSpecials::Three(b'!', b'?', b'~').find(b"a~c"), Some(1));

    let alphabet = standard_alphabet();
    for disabled in 0..=4 {
        let mut table = lenient_decode_table(None);
        for &byte in &alphabet[..disabled] {
            table[usize::from(byte)] = 64;
        }
        let forbidden = StrictSpecials::forbidden(&table, &[false; 256]);
        assert!(matches!(
            (disabled, forbidden),
            (0, StrictSpecials::Empty)
                | (1, StrictSpecials::One(_))
                | (2, StrictSpecials::Two(_, _))
                | (3, StrictSpecials::Three(_, _, _))
                | (4, StrictSpecials::Many)
        ));
    }
}

#[test]
fn translation_and_staging_helpers_cover_full_and_partial_buffers() {
    let table = lenient_decode_table(None);
    assert!(Translation::new(&table, KernelTier::Scalar).is_none());
    let mut translated_table = table;
    translated_table[usize::from(b'@')] = 62;
    let translation = Translation::new(&translated_table, KernelTier::Sse2).expect("one translated byte");
    let mut translated = b"A@A@".to_vec();
    translation.apply(&mut translated);
    assert_eq!(&translated, b"A+A+");

    let decoder = advanced_decoder(b"", true, false, false);
    let symbols = vec![b'A'; STAGING * 2];
    let (written, output) = checked(&decoder, &symbols, false);
    assert_eq!(written, Some(STAGING / 4 * 3 * 2));
    assert!(output[..STAGING / 4 * 3 * 2].iter().all(|&byte| byte == 0));
    // One symbol short of a full staging buffer, then the value 0 as its
    // last symbol: the buffer finishes at three bytes per four symbols.
    let mut almost_full = vec![b'A'; STAGING - 1];
    almost_full.push(standard_alphabet()[0]);
    let (written, output) = checked(&decoder, &almost_full, false);
    assert_eq!(written, Some(STAGING / 4 * 3));
    assert_eq!(written, Some(3072));
    assert!(output[..3072].iter().all(|&byte| byte == 0));
    assert_eq!(checked(&decoder, b"", false).0, Some(0));
    assert_eq!(checked(&decoder, b"A", false).0, None);
    assert_eq!(decoder.decoded_len(b"AAA", false), Some(2));
    assert_eq!(decoder.decoded_len(b"A", false), None);
    assert_eq!(decoder.decoded_len(b"AA?", false), None);
}

#[test]
fn advanced_strict_decoder_covers_generic_validation_and_decode_errors() {
    let decoder = advanced_decoder(b"!?#$", true, true, false);
    for (input, expected) in [(b"AAAA".as_slice(), 3), (b"AA==".as_slice(), 1), (b"AAA=".as_slice(), 2)] {
        assert_eq!(decoder.decoded_len(input, false), Some(expected));
        assert_eq!(checked(&decoder, input, false).0, Some(expected));
    }
    for input in [b"AA==A".as_slice(), b"AA~=".as_slice(), b"A===".as_slice(), b"AA=".as_slice()] {
        assert_eq!(decoder.decoded_len(input, false), None);
        assert_eq!(checked(&decoder, input, false).0, None);
    }

    let unpadded = advanced_decoder(b"!?#$", true, false, false);
    assert_eq!(unpadded.decoded_len(b"AA==", false), None);
    assert_eq!(checked(&unpadded, b"AA==", false).0, None);

    let canonical = advanced_decoder(b"!?#$", true, true, true);
    assert_eq!(canonical.decoded_len(b"AB==", false), None);
    assert_eq!(checked(&canonical, b"AB==", false).0, None);
    assert_eq!(canonical.decoded_len(b"AAB=", false), None);
    assert_eq!(checked(&canonical, b"AAB=", false).0, None);
}

#[test]
fn advanced_strict_specials_cover_padding_and_staging_errors() {
    let decoder = advanced_decoder(b"!", true, true, false);
    assert_eq!(decoder.decoded_len(b"AA!!==", false), Some(1));
    let (written, output) = checked(&decoder, b"AA!!==", false);
    assert_eq!(written, Some(1));
    assert_eq!(output[0], 0);

    for input in [b"A".as_slice(), b"AA=".as_slice(), b"AA==A".as_slice()] {
        assert_eq!(decoder.decoded_len(input, false), None);
        assert_eq!(checked(&decoder, input, false).0, None);
    }

    let canonical = advanced_decoder(b"!", true, true, true);
    for input in [b"AB==".as_slice(), b"AAB=".as_slice()] {
        assert_eq!(canonical.decoded_len(input, false), None);
        assert_eq!(checked(&canonical, input, false).0, None);
    }

    let mut forbidden = advanced_decoder(b"!", true, true, false);
    forbidden.table[usize::from(b'A')] = 64;
    forbidden.strict_forbidden = StrictSpecials::forbidden(&forbidden.table, &forbidden.ignored);
    assert_eq!(forbidden.decoded_len(b"AAAA", false), None);
    assert_eq!(checked(&forbidden, b"AAAA", false).0, None);

    let symbols = vec![b'A'; STAGING];
    let expected = STAGING / 4 * 3;
    assert_eq!(decoder.decoded_len(&symbols, false), Some(expected));
    assert_eq!(checked(&decoder, &symbols, false).0, Some(expected));
    let mut output = vec![0xa5; STAGING];
    assert_eq!(decoder.decode_validated(&symbols, &mut output, true), expected);
}

#[test]
fn advanced_strict_into_snapshots_aliases_and_preserves_transactional_errors() {
    let policy = PreparedPolicy {
        altchars: Some(*b"@#"),
        validation: Validation::Strict,
        padding: Padding::Padded,
        ignorechars_specified: false,
        ignored: None,
        canonical: false,
    };
    let decoder = ConfiguredDecoder::new(&policy, FEATURES);
    let mut shared = b"@#8=".to_vec();
    let input = shared.clone();
    assert_eq!(decode_configured_slice_into(&input, &mut shared, &decoder, false), Ok(2));
    assert_eq!(&shared[..2], b"\xfb\xff");

    let unpadded = ConfiguredDecoder::new(&PreparedPolicy { padding: Padding::Unpadded, ..policy }, FEATURES);
    let mut output = vec![0xa5; 2];
    assert_eq!(
        decode_configured_slice_into(b"AA=", &mut output, &unpadded, false),
        Err(Base64Error::InvalidInput)
    );
    assert_eq!(output, [0xa5; 2]);

    let mut output = vec![0xa5; 1];
    assert_eq!(
        decode_configured_slice_into(b"@#8=", &mut output, &decoder, false),
        Err(Base64Error::OutputTooSmall { required: 2, provided: 1 })
    );
    assert_eq!(output, [0xa5]);
}

#[test]
fn advanced_lenient_decoder_covers_dispatch_and_canonical_errors() {
    let decoder = advanced_decoder(b"!", false, true, false);
    assert_eq!(decoder.decoded_len(b"Y!Q==", false), Some(1));
    let (written, output) = checked(&decoder, b"Y!Q==", false);
    assert_eq!(written, Some(1));
    assert_eq!(output[0], b'a');
    let mut output = vec![0xa5; 4];
    assert_eq!(decoder.decode_validated(b"Y!Q==", &mut output, false), 1);

    let canonical = advanced_decoder(b"!", false, true, true);
    for input in [b"AB==".as_slice(), b"AAB=".as_slice()] {
        assert_eq!(canonical.decoded_len(input, true), None);
        assert_eq!(checked(&canonical, input, true).0, None);
    }

    let symbols = vec![b'A'; STAGING * 2];
    let expected = STAGING / 4 * 3 * 2;
    assert_eq!(decoder.decoded_len(&symbols, true), Some(expected));
    assert_eq!(checked(&decoder, &symbols, true).0, Some(expected));

    let mut remapped = advanced_decoder(b"!", false, false, false);
    remapped.table[usize::from(b'A')] = 1;
    assert!(!remapped.preserves_alphanumeric());
    assert_eq!(remapped.decoded_len(b"AAAA", true), Some(3));
    assert_eq!(checked(&remapped, b"AAAA", true).0, Some(3));
    assert!(decoder.preserves_alphanumeric());
}

#[test]
fn configured_tables_follow_custom_alphabets() {
    let standard = configured_decode_table(None, false);
    assert_eq!(standard, lenient_decode_table(None));
    let custom = configured_decode_table(Some(*b"@#"), true);
    assert_eq!(custom[usize::from(b'@')], 62);
    assert_eq!(custom[usize::from(b'#')], 63);
    assert_eq!(custom[usize::from(b'+')], 64);
    assert_eq!(custom[usize::from(b'/')], 64);
    let equals = configured_decode_table(Some(*b"=_"), true);
    assert_eq!(equals[usize::from(b'=')], 64);
    assert_eq!(equals[usize::from(b'_')], 63);
    let mixed = configured_decode_table(Some(*b"-_"), false);
    assert_eq!(mixed[usize::from(b'+')], 62);
    assert_eq!(mixed[usize::from(b'-')], 62);
}

#[test]
fn configured_decoding_discards_named_bytes_and_checks_canonical_bits() {
    let policy = PreparedPolicy {
        altchars: None,
        validation: Validation::Strict,
        padding: Padding::Padded,
        ignorechars_specified: true,
        ignored: Some(ignored_bytes_from(b" \n")),
        canonical: true,
    };
    let decoder = ConfiguredDecoder::new(&policy, FEATURES);
    assert_eq!(decode_configured(b"YW Jj\nYQ==", &decoder, true), Some(b"abca".to_vec()));
    assert_eq!(decode_configured(b"YR==", &decoder, true), None);
    assert_eq!(decode_configured(b"YW!j", &decoder, true), None);
    let lenient = ConfiguredDecoder::new(
        &PreparedPolicy { validation: Validation::Lenient, canonical: false, ..policy },
        FEATURES,
    );
    assert_eq!(decode_configured(b"YW!Jj", &lenient, true), Some(b"abc".to_vec()));
    assert_eq!(decode_configured(b"YR==", &lenient, true), Some(b"a".to_vec()));
    assert_eq!(decode_configured(b"YQ==YQ==", &lenient, false), Some(b"a".to_vec()));
}

#[test]
fn strict_unpadded_discarded_equals_depends_on_how_many_bytes_are_discarded() {
    // Up to three discarded bytes: the special-byte scanner skips the `=`.
    for ignored in [b"=".as_slice(), b"=!".as_slice(), b"=!#".as_slice()] {
        let decoder = advanced_decoder(ignored, true, false, false);
        assert_eq!(decode_configured(b"YQ=", &decoder, false), Some(b"a".to_vec()));
    }
    // Four or more: the byte-by-byte scanner rejects the same `=`.
    for ignored in [b"=!#$".as_slice(), b"=!#$%".as_slice()] {
        let decoder = advanced_decoder(ignored, true, false, false);
        assert_eq!(decode_configured(b"YQ=", &decoder, false), None);
    }
}

#[test]
fn checked_decoding_needs_room_only_for_the_decoded_bytes() {
    let decoder = advanced_decoder(b" ", true, true, false);
    let mut output = vec![0xa5; 6];
    assert_eq!(decoder.decode_checked(b"YWJjZGVm", &mut output, false), Some(6));
    assert_eq!(output, b"abcdef".to_vec());
    let mut short = vec![0xa5; 3];
    assert_eq!(decoder.decode_checked(b"YQ==", &mut short, false), Some(1));
    assert_eq!(short[0], b'a');
}

#[test]
fn non_strict_configured_decoding_is_the_lenient_decoder() {
    let table = lenient_decode_table(None);
    let inputs: [&[u8]; 8] = [b"YQ==", b"Y Q", b"YWJj", b"Y!W=Jj", b"YQ==YQ==", b"YQ=", b"Y", b"YW=Jj=="];
    for padded in [true, false] {
        for cap in [false, true] {
            let decoder = advanced_decoder(b" ", false, padded, false);
            for input in inputs {
                assert_eq!(
                    decode_configured(input, &decoder, cap),
                    hashcodecs::lenient::try_decode_lenient(input, &table, padded, cap)
                );
            }
        }
    }
}

#[test]
fn strict_decoding_counts_symbols_and_padding() {
    let decoder = advanced_decoder(b" ", true, true, false);
    assert_eq!(decode_configured(b"YQ==", &decoder, false), Some(b"a".to_vec()));
    assert_eq!(decode_configured(b"YW J=", &decoder, false), Some(b"ab".to_vec()));
    assert_eq!(decode_configured(b"YQ=", &decoder, false), None);
    assert_eq!(decode_configured(b"YQ==Y", &decoder, false), None);
    assert_eq!(decode_configured(b"Y", &decoder, false), None);
    assert_eq!(decode_configured(b"YQ!=", &decoder, false), None);
    let unpadded = advanced_decoder(b" ", true, false, false);
    assert_eq!(decode_configured(b"YW J", &unpadded, false), Some(b"ab".to_vec()));
    assert_eq!(decode_configured(b"YQ==", &unpadded, false), None);
}
