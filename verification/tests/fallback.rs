use hashcodecs::execution::{
    canonical_unpadded_input, standard_canonical, DecodeFailure, PreparedDecoder,
};
use hashcodecs::fallback::{
    is_mime_whitespace_input, normalize_mime_whitespace, canonical_padding, decode_advanced_legacy, first_equals, legacy_altchars_warning,
    legacy_badchar, strict_base64_310, translate_altchars, LegacyDecodeError,
    binascii_request, BinasciiKeywords, BinasciiRefusal,
};
use hashcodecs::compat::{BinasciiApi, PythonSemantics};
use hashcodecs::policy::DecodePolicy;
use hashcodecs::symbols::{CpuFeatures, TargetArch};

const FEATURES: CpuFeatures = CpuFeatures { arch: TargetArch::X86, avx2: true, sse2: false };

#[test]
fn altchars_translate_into_the_standard_alphabet() {
    assert_eq!(translate_altchars(b"abc", *b"-_"), None);
    assert_eq!(translate_altchars(b"a-b_c", *b"-_"), Some(b"a+b/c".to_vec()));
    assert_eq!(translate_altchars(b"==", *b"=="), Some(b"//".to_vec()));
}

#[test]
fn canonical_checks_read_the_last_symbol() {
    assert!(canonical_padding(b""));
    assert!(canonical_padding(b"YQ"));
    assert!(!canonical_padding(b"YR"));
    assert!(canonical_padding(b"YWI"));
    assert!(!canonical_padding(b"YWJ"));
    assert!(canonical_padding(b"YWJj"));
    assert!(standard_canonical(b"YQ=="));
    assert!(!standard_canonical(b"YR=="));
    assert!(standard_canonical(b"YR!="));
    assert!(standard_canonical(b""));
    assert!(canonical_unpadded_input(b"YQ", None));
    assert!(!canonical_unpadded_input(b"YR", None));
    assert!(canonical_unpadded_input(b"YWJj", None));
    assert!(!canonical_unpadded_input(b"YWJjY", None));
    assert!(canonical_unpadded_input(b"Y@", Some(*b"@#")) == false);
    assert!(!canonical_unpadded_input(b"Y!", None));
}

#[test]
fn python_310_strict_check_allows_trailing_padding_only() {
    assert!(strict_base64_310(b"YWJj"));
    assert!(strict_base64_310(b"YQ=="));
    assert!(!strict_base64_310(b"YQ==="));
    assert!(!strict_base64_310(b"Y!=="));
    assert!(!strict_base64_310(b"YQ=a"));
    assert_eq!(first_equals(b"ab=c="), 2);
    assert_eq!(first_equals(b"abc"), 3);
}

#[test]
fn legacy_normalization_reports_each_binascii_error() {
    assert_eq!(decode_advanced_legacy(b"YQ", None, false, false, None, false), Ok(b"YQ==".to_vec()));
    assert_eq!(decode_advanced_legacy(b"Y Q", None, false, false, None, false), Ok(b"YQ==".to_vec()));
    assert_eq!(
        decode_advanced_legacy(b"Y Q", None, true, true, None, false),
        Err(LegacyDecodeError::OnlyBase64)
    );
    assert_eq!(
        decode_advanced_legacy(b"Y Q==", None, true, true, Some(b" "), false),
        Ok(b"YQ==".to_vec())
    );
    assert_eq!(
        decode_advanced_legacy(b"YQ==", None, true, false, None, false),
        Err(LegacyDecodeError::PaddingNotAllowed)
    );
    assert_eq!(
        decode_advanced_legacy(b"YWJjY", None, false, true, None, false),
        Err(LegacyDecodeError::IncorrectPadding)
    );
    assert_eq!(
        decode_advanced_legacy(b"YR==", None, false, true, None, true),
        Err(LegacyDecodeError::NonZeroPaddingBits)
    );
    assert_eq!(
        decode_advanced_legacy(b"-_8", Some(*b"-_"), false, false, None, false),
        Ok(b"+/8=".to_vec())
    );
    assert_eq!(
        decode_advanced_legacy(b"YQ=", None, false, false, None, false),
        Ok(b"YQ==".to_vec())
    );
}

#[test]
fn legacy_altchars_warning_names_the_replaced_character() {
    assert_eq!(legacy_badchar(b"ab+c", *b"-_"), Some(b'+'));
    assert_eq!(legacy_badchar(b"ab/c", *b"-_"), Some(b'/'));
    assert_eq!(legacy_badchar(b"ab+c", *b"+_"), None);
    assert_eq!(legacy_altchars_warning(b"a+", Some(*b"-_"), false, true), Some(b'+'));
    assert_eq!(legacy_altchars_warning(b"a+", Some(*b"-_"), true, true), None);
    assert_eq!(legacy_altchars_warning(b"a+", Some(*b"-_"), false, false), None);
    assert_eq!(legacy_altchars_warning(b"a+", None, false, true), None);
}

fn prepared(policy: &DecodePolicy, version: (u8, u8, u8)) -> PreparedDecoder {
    PreparedDecoder::new(policy, PythonSemantics::from_version(version), FEATURES)
}

#[test]
fn prepared_decoders_try_each_route_in_order() {
    let standard = prepared(&DecodePolicy::standard(), (3, 14, 4));
    assert_eq!(standard.decode_allocating(b"YWJj"), Ok(Some(b"abc".to_vec())));
    assert_eq!(standard.decode_allocating(b"YW Jj"), Ok(Some(b"abc".to_vec())));
    assert_eq!(standard.decode_allocating(b"YWJ"), Ok(None));

    let strict = prepared(&DecodePolicy::new(None, Some(true), true, None, false, false), (3, 14, 4));
    assert_eq!(strict.decode_allocating(b"YWJj"), Ok(Some(b"abc".to_vec())));
    assert_eq!(strict.decode_allocating(b"YW Jj"), Ok(None));

    let urlsafe = prepared(&DecodePolicy::urlsafe(true), (3, 15, 0));
    assert_eq!(urlsafe.decode_allocating(b"-_8="), Ok(Some(vec![0xfb, 0xff])));
    assert_eq!(urlsafe.decode_allocating(b"+/8="), Ok(Some(vec![0xfb, 0xff])));

    let canonical = prepared(&DecodePolicy::new(None, None, true, None, false, true), (3, 15, 0));
    assert_eq!(canonical.decode_allocating(b"YQ=="), Ok(Some(b"a".to_vec())));
    assert_eq!(canonical.decode_allocating(b"YR=="), Err(DecodeFailure::NonZeroPaddingBits));

    let ignoring = prepared(&DecodePolicy::new(None, None, true, Some(b" ".to_vec()), false, false), (3, 15, 0));
    assert_eq!(ignoring.decode_allocating(b"YW Jj"), Ok(Some(b"abc".to_vec())));
    assert_eq!(ignoring.decode_allocating(b"YW!Jj"), Err(DecodeFailure::IncorrectPadding));
}

#[test]
fn prepared_decoders_write_into_destinations() {
    let standard = prepared(&DecodePolicy::standard(), (3, 14, 4));
    let mut output = vec![0xa5; 4];
    assert_eq!(standard.decode_into(b"YWJj", &mut output), Ok(Some(3)));
    assert_eq!(output, [b'a', b'b', b'c', 0xa5]);
    let mut small = vec![0xa5; 2];
    assert_eq!(
        standard.decode_into(b"YWJj", &mut small),
        Err(DecodeFailure::OutputTooSmall { required: 3, provided: 2 })
    );
    assert_eq!(small, [0xa5; 2]);

    let strict = prepared(&DecodePolicy::new(None, Some(true), true, None, false, false), (3, 14, 4));
    let mut small = vec![0xa5; 2];
    assert_eq!(
        strict.decode_into(b"YWJj", &mut small),
        Err(DecodeFailure::OutputTooSmall { required: 3, provided: 2 })
    );
    assert_eq!(small, [0xa5; 2]);
    let mut output = vec![0xa5; 4];
    assert_eq!(strict.decode_into(b"YW Jj", &mut output), Ok(None));

    let ignoring = prepared(&DecodePolicy::new(None, None, true, Some(b" ".to_vec()), false, false), (3, 15, 0));
    let mut output = vec![0xa5; 3];
    assert_eq!(ignoring.decode_into(b"YW Jj", &mut output), Ok(Some(3)));
    assert_eq!(output, *b"abc");
    let mut output = vec![0xa5; 3];
    assert_eq!(ignoring.decode_into(b"YW!Jj", &mut output), Err(DecodeFailure::IncorrectPadding));
    assert_eq!(output, [0xa5; 3]);
}

#[test]
fn mime_whitespace_is_recognized_and_removed() {
    assert!(is_mime_whitespace_input(b"YWJj\r\nYQ==", false));
    assert!(!is_mime_whitespace_input(b"YWJjYQ==", false));
    assert!(!is_mime_whitespace_input(b"YW-j\n", false));
    assert!(is_mime_whitespace_input(b"YW-j\n", true));
    assert!(!is_mime_whitespace_input(b"YW!j\n", true));
    assert_eq!(normalize_mime_whitespace(b"YWJj"), None);
    assert_eq!(normalize_mime_whitespace(b"YW Jj\r\nYQ=="), Some(b"YWJjYQ==".to_vec()));
}

#[test]
fn binascii_request_checks_strict_mode_itself_before_python_3_11() {
    let call = binascii_request(b"YWJj", BinasciiApi::Legacy, None, true, true, None, false).unwrap();
    assert_eq!(call.data, b"YWJj".to_vec());
    assert!(matches!(call.keywords, BinasciiKeywords::Plain));
    assert!(matches!(
        binascii_request(b"YW=j", BinasciiApi::Legacy, None, true, true, None, false),
        Err(BinasciiRefusal::NonBase64Digit)
    ));
    assert!(matches!(
        binascii_request(b"YWJj===", BinasciiApi::Legacy, None, true, true, None, false),
        Err(BinasciiRefusal::NonBase64Digit)
    ));
    let lenient = binascii_request(b"YW=j", BinasciiApi::Legacy, None, false, true, None, false).unwrap();
    assert_eq!(lenient.data, b"YW=j".to_vec());
}

#[test]
fn binascii_request_rewrites_alternative_characters() {
    let call = binascii_request(b"ab-_", BinasciiApi::StrictMode, Some(*b"-_"), true, true, None, false).unwrap();
    assert_eq!(call.data, b"ab+/".to_vec());
    assert!(matches!(call.keywords, BinasciiKeywords::StrictMode { strict_mode: true }));
}

#[test]
fn binascii_request_passes_a_custom_alphabet_to_python_3_15() {
    let call = binascii_request(b"ab-_", BinasciiApi::Padding, Some(*b"-_"), false, false, Some(b" "), true).unwrap();
    assert_eq!(call.data, b"ab-_".to_vec());
    match call.keywords {
        BinasciiKeywords::Full { strict_mode, padded, canonical, pass_ignorechars, alphabet } => {
            assert!(!strict_mode);
            assert!(!padded);
            assert!(canonical);
            assert!(pass_ignorechars);
            let table = alphabet.unwrap();
            assert_eq!(&table[..62], &b"ABCDEFGHIJKLMNOPQRSTUVWXYZabcdefghijklmnopqrstuvwxyz0123456789"[..]);
            assert_eq!(table[62], b'-');
            assert_eq!(table[63], b'_');
        }
        _ => panic!("expected the Python 3.15 keywords"),
    }
    let plain = binascii_request(b"ab-_", BinasciiApi::Padding, Some(*b"-_"), true, true, None, false).unwrap();
    assert_eq!(plain.data, b"ab+/".to_vec());
    assert!(matches!(plain.keywords, BinasciiKeywords::Full { alphabet: None, pass_ignorechars: false, .. }));
}

#[test]
fn binascii_request_normalizes_for_older_python_versions() {
    let call = binascii_request(b"YQ", BinasciiApi::StrictMode, None, true, false, None, false).unwrap();
    assert_eq!(call.data, b"YQ==".to_vec());
    assert!(matches!(call.keywords, BinasciiKeywords::StrictMode { strict_mode: true }));
    let ignored = binascii_request(b"Y Q==", BinasciiApi::Legacy, None, true, true, Some(b" "), false).unwrap();
    assert_eq!(ignored.data, b"YQ==".to_vec());
    assert!(matches!(ignored.keywords, BinasciiKeywords::Plain));
    assert!(matches!(
        binascii_request(b"Y*Q==", BinasciiApi::Legacy, None, true, true, Some(b" "), false),
        Err(BinasciiRefusal::Legacy(LegacyDecodeError::OnlyBase64))
    ));
    assert!(matches!(
        binascii_request(b"YR", BinasciiApi::StrictMode, None, false, false, None, true),
        Err(BinasciiRefusal::Legacy(LegacyDecodeError::NonZeroPaddingBits))
    ));
}
