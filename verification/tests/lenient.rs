use hashcodecs::alphabet::{decoded_symbol_len, lenient_decode_table};
use hashcodecs::lenient::{
    decode_lenient_slice_into, decode_lenient_to_buffer, lenient_decoded_len, try_decode_lenient,
    version_continues_after_padding, LenientDecodeError, OutputTooSmall,
};
use hashcodecs::symbols::{CpuFeatures, TargetArch};

const SCALAR: CpuFeatures = CpuFeatures { arch: TargetArch::Other, avx2: false, sse2: false };
const X86: CpuFeatures = CpuFeatures { arch: TargetArch::X86, avx2: true, sse2: true };

fn check_legacy_sizing() {
    for features in [SCALAR, X86] {
        assert_eq!(
            lenient_decoded_len(b"A", None, false, false, features),
            Err(LenientDecodeError::InvalidInput)
        );
        assert_eq!(
            lenient_decoded_len(b"AA", None, true, false, features),
            Err(LenientDecodeError::InvalidInput)
        );
    }
}

#[test]
fn state_machine_legacy_lenient_sizing_rejects_incomplete_input() {
    check_legacy_sizing();
}

#[test]
fn lenient_legacy_lenient_sizing_rejects_incomplete_input() {
    check_legacy_sizing();
}

#[test]
fn lenient_lengths_cover_padding_policies_and_invalid_tails() {
    assert_eq!(decoded_symbol_len(0), 0);
    assert_eq!(decoded_symbol_len(2), 1);
    assert_eq!(decoded_symbol_len(3), 2);
    assert_eq!(decoded_symbol_len(4), 3);

    for features in [SCALAR, X86] {
        assert_eq!(lenient_decoded_len(b"AAAAAAAA", None, true, false, features), Ok(6));
        assert_eq!(lenient_decoded_len(b"AA==AAAA", None, true, false, features), Ok(1));
        assert_eq!(lenient_decoded_len(b"!!!!!!!!", None, true, false, features), Ok(0));
        assert_eq!(
            lenient_decoded_len(b"AA==AAAA", None, true, true, features),
            Err(LenientDecodeError::InvalidInput)
        );
        assert_eq!(lenient_decoded_len(b"AA==", None, true, true, features), Ok(1));
        assert_eq!(
            lenient_decoded_len(b"A", None, false, true, features),
            Err(LenientDecodeError::InvalidInput)
        );
        assert_eq!(
            lenient_decoded_len(b"AA", None, true, true, features),
            Err(LenientDecodeError::InvalidInput)
        );
        assert_eq!(lenient_decoded_len(b"====", Some(*b"=_"), true, true, features), Ok(3));
    }

    assert!(!version_continues_after_padding(3, 13, 12));
    assert!(version_continues_after_padding(3, 13, 13));
    assert!(!version_continues_after_padding(3, 14, 3));
    assert!(version_continues_after_padding(3, 14, 4));
    assert!(!version_continues_after_padding(3, 12, 99));
    assert!(version_continues_after_padding(3, 15, 0));
    assert!(version_continues_after_padding(4, 0, 0));
}

#[test]
fn lenient_decoder_reports_each_output_boundary_transactionally() {
    let table = lenient_decode_table(None);
    let mut output = vec![0xa5; 8];
    let provided = output.len();
    assert_eq!(
        decode_lenient_to_buffer(b"YWJj", &mut output, provided, &table, true, true, true),
        Ok(3)
    );
    assert_eq!(&output[..3], b"abc");

    output.fill(0xa5);
    assert_eq!(
        decode_lenient_to_buffer(b"YWJj", &mut output, provided, &table, true, true, false),
        Ok(3)
    );
    assert_eq!(output, [0xa5; 8]);

    for (input, provided) in [
        (b"YWJj".as_slice(), 2),
        (b"Y!W".as_slice(), 0),
        (b"YW!J".as_slice(), 1),
        (b"YWJ!j".as_slice(), 2),
    ] {
        assert_eq!(
            decode_lenient_to_buffer(input, &mut output, provided, &table, true, true, true),
            Err(LenientDecodeError::OutputTooSmall)
        );
    }
    assert_eq!(
        decode_lenient_to_buffer(b"YQ==AAAA", &mut output, provided, &table, true, false, true),
        Ok(1)
    );
    assert_eq!(
        decode_lenient_to_buffer(b"A", &mut output, provided, &table, true, true, true),
        Err(LenientDecodeError::InvalidInput)
    );
}

#[test]
fn lenient_decoding_discards_invalid_bytes_and_stops_at_padding() {
    let table = lenient_decode_table(None);
    assert_eq!(try_decode_lenient(b"Y W\nJ!j", &table, true, true), Some(b"abc".to_vec()));
    assert_eq!(try_decode_lenient(b"YQ==YQ==", &table, true, false), Some(b"a".to_vec()));
    assert_eq!(try_decode_lenient(b"YQ==YQ==", &table, true, true), Some(vec![97, 6, 16]));
    assert_eq!(try_decode_lenient(b"YQ", &table, true, true), None);
    assert_eq!(try_decode_lenient(b"YQ", &table, false, true), Some(b"a".to_vec()));
    assert_eq!(try_decode_lenient(b"Y", &table, false, true), None);
    let urlsafe = lenient_decode_table(Some(*b"-_"));
    assert_eq!(try_decode_lenient(b"-_-_", &urlsafe, true, true), Some(vec![0xfb, 0xff, 0xbf]));
}

#[test]
fn lenient_slice_into_is_transactional_for_undersized_destinations() {
    let table = lenient_decode_table(None);
    let mut output = vec![0xa5; 2];
    assert_eq!(
        decode_lenient_slice_into(b"YWJj", &mut output, &table, None, true, true, SCALAR),
        Err(OutputTooSmall { required: 3, provided: 2 })
    );
    assert_eq!(output, [0xa5, 0xa5]);
    assert_eq!(
        decode_lenient_slice_into(b"YW", &mut output, &table, None, true, true, SCALAR),
        Ok(None)
    );
    assert_eq!(output, [0xa5, 0xa5]);
    let mut output = vec![0xa5; 4];
    assert_eq!(
        decode_lenient_slice_into(b"YWJj", &mut output, &table, None, true, true, X86),
        Ok(Some(3))
    );
    assert_eq!(output, [b'a', b'b', b'c', 0xa5]);
    let mut exact = vec![0; 1];
    assert_eq!(
        decode_lenient_slice_into(b"YQ==", &mut exact, &table, None, true, true, X86),
        Ok(Some(1))
    );
    assert_eq!(exact, b"a");
}

#[test]
fn sizing_agrees_with_decoding_on_sample_inputs() {
    let table = lenient_decode_table(None);
    for input in [
        b"".as_slice(),
        b"YWJj".as_slice(),
        b"YQ==".as_slice(),
        b"YQ=".as_slice(),
        b"Y!Q=!=".as_slice(),
        b"YQ==YWJj".as_slice(),
        b"A".as_slice(),
    ] {
        for cap in [false, true] {
            let sized = lenient_decoded_len(input, None, true, cap, SCALAR);
            let mut output = vec![0; input.len()];
            let provided = output.len();
            let decoded = decode_lenient_to_buffer(input, &mut output, provided, &table, true, cap, true);
            assert_eq!(sized, decoded);
        }
    }
}

#[test]
fn lenient_decoding_reads_wrapped_encodings_back() {
    let input = b"hello world!!";
    for width in [4usize, 8, 76] {
        for altchars in [None, Some(*b"-_")] {
            let encoded = hashcodecs::encode::encode(input, altchars, true, Some(width));
            let table = lenient_decode_table(altchars);
            for continue_after_padding in [false, true] {
                assert_eq!(
                    try_decode_lenient(&encoded, &table, true, continue_after_padding),
                    Some(input.to_vec())
                );
            }
        }
    }
    let wrapped = hashcodecs::encode::encode(input, None, true, Some(4));
    assert_eq!(wrapped, b"aGVs\nbG8g\nd29y\nbGQh\nIQ==".to_vec());
}

#[test]
fn lenient_output_packs_the_symbols_before_the_completing_padding() {
    let table = lenient_decode_table(None);
    assert_eq!(try_decode_lenient(b"YQ==YQ==", &table, true, false), Some(b"a".to_vec()));
    assert_eq!(try_decode_lenient(b"YQ==YQ==", &table, true, true), Some(vec![97, 6, 16]));
    assert_eq!(try_decode_lenient(b"Y=Q=YQ", &table, true, false), Some(vec![97, 6, 16]));
    assert_eq!(try_decode_lenient(b"YW=J=j", &table, true, false), Some(b"ab".to_vec()));
    assert_eq!(try_decode_lenient(b"YW=J=j", &table, true, true), Some(b"abc".to_vec()));
}
