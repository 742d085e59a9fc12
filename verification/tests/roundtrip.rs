use hashcodecs::compat::PythonSemantics;
use hashcodecs::encode::encode;
use hashcodecs::execution::{DecodeFailure, PreparedDecoder};
use hashcodecs::plan::{DecodeConfiguration, DecodeStrategy};
use hashcodecs::policy::{
    select_route, ConfiguredShortcut, DecodePolicy, DecodeRoute, Padding, PreparedPolicy, Validation,
};
use hashcodecs::symbols::{CpuFeatures, TargetArch};

const FEATURES: CpuFeatures = CpuFeatures { arch: TargetArch::X86, avx2: true, sse2: true };

fn sample(len: usize) -> Vec<u8> {
    (0..len).map(|i| (i * 73 + 11) as u8).collect()
}

#[test]
fn decoding_an_encoding_gives_the_bytes_back() {
    for version in [(3, 10, 0), (3, 13, 13), (3, 14, 4), (3, 15, 0)] {
        let semantics = PythonSemantics::from_version(version);
        for altchars in [None, Some(*b"-_"), Some(*b"*!")] {
            for padded in [true, false] {
                for validate in [None, Some(false), Some(true)] {
                    for canonical in [false, true] {
                        let policy = DecodePolicy::new(altchars, validate, padded, None, false, canonical);
                        let decoder = PreparedDecoder::new(&policy, semantics, FEATURES);
                        for len in 0..20 {
                            let input = sample(len);
                            let encoded = encode(&input, altchars, padded, None);
                            assert_eq!(decoder.decode_allocating(&encoded), Ok(Some(input)));
                        }
                    }
                }
            }
        }
    }
}

#[test]
fn canonical_decoding_accepts_less_and_gives_the_same_bytes() {
    let semantics = PythonSemantics::from_version((3, 15, 0));
    let loose = DecodePolicy::new(None, Some(true), true, Some(b" ".to_vec()), false, false);
    let canonical = DecodePolicy::new(None, Some(true), true, Some(b" ".to_vec()), false, true);
    let loose = PreparedDecoder::new(&loose, semantics, FEATURES);
    let canonical = PreparedDecoder::new(&canonical, semantics, FEATURES);
    assert_eq!(loose.decode_allocating(b"YQ=="), Ok(Some(b"a".to_vec())));
    assert_eq!(canonical.decode_allocating(b"YQ=="), Ok(Some(b"a".to_vec())));
    assert_eq!(loose.decode_allocating(b"YR=="), Ok(Some(b"a".to_vec())));
    assert_eq!(canonical.decode_allocating(b"YR=="), Err(DecodeFailure::IncorrectPadding));
    let standard = DecodePolicy::new(None, None, true, None, false, true);
    let standard = PreparedDecoder::new(&standard, semantics, FEATURES);
    assert_eq!(standard.decode_allocating(b"YR=="), Err(DecodeFailure::NonZeroPaddingBits));
    assert_eq!(standard.decode_allocating(b"YQ=="), Ok(Some(b"a".to_vec())));
}

#[test]
fn plan_strategies_and_decoder_routes_agree() {
    for python_315 in [false, true] {
        let semantics = PythonSemantics::from_version(if python_315 { (3, 15, 0) } else { (3, 14, 4) });
        for altchars in [None, Some(*b"-_"), Some(*b"*!")] {
            for padded in [true, false] {
                for strict_mode in [true, false] {
                    for (ignorechars_specified, canonical) in [(false, false), (true, false), (false, true)] {
                        let configuration = DecodeConfiguration {
                            altchars,
                            padded,
                            strict_mode,
                            ignorechars_specified,
                            empty_ignorechars: false,
                            canonical,
                            python_315: python_315
                                && !ignorechars_specified
                                && !canonical
                                && altchars == Some(*b"-_"),
                        };
                        let policy = PreparedPolicy {
                            altchars,
                            validation: if strict_mode { Validation::Strict } else { Validation::Lenient },
                            padding: Padding::new(padded),
                            ignorechars_specified,
                            ignored: None,
                            canonical,
                        };
                        let route = select_route(&policy, false, semantics);
                        let expected = match DecodeStrategy::from_configuration(configuration) {
                            DecodeStrategy::Advanced => DecodeRoute::Configured(ConfiguredShortcut::Plain),
                            DecodeStrategy::StandardStrictThenAdvanced => {
                                DecodeRoute::Configured(ConfiguredShortcut::StandardStrict)
                            }
                            DecodeStrategy::CanonicalUnpaddedThenAdvanced => {
                                DecodeRoute::Configured(ConfiguredShortcut::CanonicalUnpadded)
                            }
                            DecodeStrategy::StrictPadded | DecodeStrategy::StrictUnpadded => {
                                DecodeRoute::Strict { urlsafe_315: false }
                            }
                            DecodeStrategy::Urlsafe315StrictPadded
                            | DecodeStrategy::Urlsafe315StrictUnpadded => {
                                DecodeRoute::Strict { urlsafe_315: true }
                            }
                            DecodeStrategy::LenientDirectPadded
                            | DecodeStrategy::LenientDirectUnpadded => {
                                DecodeRoute::LenientDirect { urlsafe_315: false }
                            }
                            DecodeStrategy::Urlsafe315LenientDirectPadded
                            | DecodeStrategy::Urlsafe315LenientDirectUnpadded => {
                                DecodeRoute::LenientDirect { urlsafe_315: true }
                            }
                            DecodeStrategy::LenientCustomPadded
                            | DecodeStrategy::LenientCustomUnpadded => DecodeRoute::LenientCustom,
                        };
                        assert_eq!(route, expected);
                    }
                }
            }
        }
    }
}

#[test]
fn destinations_receive_what_allocating_decoding_returns() {
    let semantics = PythonSemantics::from_version((3, 15, 0));
    for altchars in [None, Some(*b"-_")] {
        for padded in [true, false] {
            for validate in [Some(false), Some(true)] {
                let policy = DecodePolicy::new(altchars, validate, padded, None, false, false);
                let decoder = PreparedDecoder::new(&policy, semantics, FEATURES);
                for len in 0..12 {
                    let input = sample(len);
                    let mut encoded = encode(&input, altchars, padded, None);
                    if validate == Some(false) {
                        encoded.insert(0, b'!');
                    }
                    let allocated = decoder.decode_allocating(&encoded).unwrap().unwrap();
                    let mut output = vec![0xee; allocated.len() + 2];
                    assert_eq!(decoder.decode_into(&encoded, &mut output), Ok(Some(allocated.len())));
                    assert_eq!(&output[..allocated.len()], &allocated[..]);
                    assert_eq!(&output[allocated.len()..], &[0xee, 0xee]);
                }
            }
        }
    }
}

#[test]
fn line_broken_input_is_decided_by_the_configured_decoder() {
    let semantics = PythonSemantics::from_version((3, 14, 4));
    for altchars in [None, Some(*b"-_")] {
        let policy = DecodePolicy::new(altchars, Some(false), true, None, false, false);
        let decoder = PreparedDecoder::new(&policy, semantics, FEATURES);
        assert_eq!(decoder.decode_allocating(b"YWJj\nZGVm"), Ok(Some(b"abcdef".to_vec())));
        assert_eq!(decoder.decode_allocating(b"YWJj\r\nZA=="), Ok(Some(b"abcd".to_vec())));
        assert_eq!(decoder.decode_allocating(b"YWJj\nZA"), Err(DecodeFailure::IncorrectPadding));
        assert_eq!(decoder.decode_allocating(b"YWJj\nZ"), Err(DecodeFailure::IncorrectPadding));
        let mut output = vec![0xee; 8];
        assert_eq!(decoder.decode_into(b"YWJj\nZA", &mut output), Err(DecodeFailure::IncorrectPadding));
        assert_eq!(output, vec![0xee; 8]);
        assert_eq!(decoder.decode_into(b"YWJj ZGVm", &mut output), Ok(Some(6)));
        assert_eq!(&output[..6], b"abcdef");
    }
    // Without line breaks the same incomplete input is left to binascii.
    let policy = DecodePolicy::new(None, Some(false), true, None, false, false);
    let decoder = PreparedDecoder::new(&policy, semantics, FEATURES);
    assert_eq!(decoder.decode_allocating(b"YWJjZA"), Ok(None));
}
