use hashcodecs::alphabet::is_lenient_symbol;
use hashcodecs::symbols::{
    alphanumeric_prefix_avx2, alphanumeric_prefix_scalar, alphanumeric_prefix_sse2,
    lenient_symbol_count, select_alphanumeric_prefix_for_x86, select_symbol_prefix,
    select_symbol_prefix_for_x86, select_translate_bytes_for_x86, symbol_count_avx2,
    symbol_count_scalar, symbol_count_sse2, translate_avx2, translate_scalar, translate_sse2,
    CpuFeatures, KernelTier, TargetArch,
};

fn all_features() -> Vec<CpuFeatures> {
    let mut features = Vec::new();
    for arch in [TargetArch::X86, TargetArch::Aarch64, TargetArch::Other] {
        for avx2 in [false, true] {
            for sse2 in [false, true] {
                features.push(CpuFeatures { arch, avx2, sse2 });
            }
        }
    }
    features
}

fn check_x86_selectors() {
    for (avx2, sse2, expected) in [
        (true, true, KernelTier::Avx2),
        (false, true, KernelTier::Sse2),
        (false, false, KernelTier::Scalar),
    ] {
        assert_eq!(select_alphanumeric_prefix_for_x86(avx2, sse2), expected);
        assert_eq!(select_translate_bytes_for_x86(avx2, sse2), expected);
        assert_eq!(select_symbol_prefix_for_x86(avx2, sse2), expected);
    }
}

#[test]
fn symbols_x86_backend_selectors_cover_each_dispatch_tier() {
    check_x86_selectors();
}

#[test]
fn lenient_x86_backend_selectors_cover_each_dispatch_tier() {
    check_x86_selectors();
}

#[test]
fn mod_x86_backend_selectors_cover_each_dispatch_tier() {
    check_x86_selectors();
}

#[test]
fn scan_x86_backend_selectors_cover_each_dispatch_tier() {
    check_x86_selectors();
    let features = CpuFeatures { arch: TargetArch::X86, avx2: true, sse2: true };
    assert_eq!(select_symbol_prefix(features), KernelTier::Avx2);
    let features = CpuFeatures { arch: TargetArch::Other, avx2: true, sse2: true };
    assert_eq!(select_symbol_prefix(features), KernelTier::Scalar);
}

#[test]
fn simd_lenient_symbol_count_matches_scalar_for_all_bytes_and_alignments() {
    let input: Vec<u8> = (0_u8..=u8::MAX).cycle().take(1024).collect();
    for altchars in [None, Some(*b"-_"), Some(*b"@#"), Some(*b"=_")] {
        for offset in 0..32 {
            for tail in 0..32 {
                let input = &input[offset..input.len() - tail];
                let expected = input
                    .iter()
                    .filter(|&&byte| is_lenient_symbol(byte, altchars))
                    .count();
                for features in all_features() {
                    assert_eq!(lenient_symbol_count(input, altchars, features), expected);
                }
            }
        }
    }
}

#[test]
fn scalar_prefix_and_translation_cover_boundaries() {
    assert_eq!(alphanumeric_prefix_scalar(b""), 0);
    assert_eq!(alphanumeric_prefix_scalar(b"abcXYZ09"), 8);
    assert_eq!(alphanumeric_prefix_scalar(b"abc!XYZ"), 3);

    let mut input = b"@a#b@#".to_vec();
    translate_scalar(&mut input, b'@', b'+', b'#', b'/');
    assert_eq!(&input, b"+a/b+/");
}

#[test]
fn x86_prefix_and_translation_kernels_match_scalar() {
    let valid = vec![b'A'; 97];
    assert_eq!(alphanumeric_prefix_sse2(&valid), 97);
    let mut interrupted = valid.clone();
    interrupted[47] = b'!';
    assert_eq!(alphanumeric_prefix_sse2(&interrupted), 47);
    assert_eq!(
        symbol_count_sse2(&interrupted, Some(*b"@#")),
        interrupted
            .iter()
            .filter(|&&byte| is_lenient_symbol(byte, Some(*b"@#")))
            .count()
    );

    let original: Vec<u8> = b"@#ab".iter().copied().cycle().take(67).collect();
    let mut expected = original.clone();
    translate_scalar(&mut expected, b'@', b'+', b'#', b'/');
    let mut translated = original;
    translate_sse2(&mut translated, b'@', b'+', b'#', b'/');
    assert_eq!(translated, expected);

    assert_eq!(alphanumeric_prefix_avx2(&interrupted), 47);
    assert_eq!(
        symbol_count_avx2(&interrupted, Some(*b"@#")),
        interrupted
            .iter()
            .filter(|&&byte| is_lenient_symbol(byte, Some(*b"@#")))
            .count()
    );
    let mut translated: Vec<u8> = b"@#ab".iter().copied().cycle().take(99).collect();
    let mut expected = translated.clone();
    translate_scalar(&mut expected, b'@', b'+', b'#', b'/');
    translate_avx2(&mut translated, b'@', b'+', b'#', b'/');
    assert_eq!(translated, expected);
}

#[test]
fn symbol_count_scalar_counts_alternative_characters() {
    assert_eq!(symbol_count_scalar(b"AB+/-_", None), 4);
    assert_eq!(symbol_count_scalar(b"AB+/-_", Some(*b"-_")), 6);
    assert_eq!(symbol_count_scalar(b"!!==", Some(*b"=_")), 2);
}

#[test]
fn validity_kernels_take_extra_symbols_lane_by_lane() {
    let mut bytes = [b'!'; 32];
    bytes[0] = b'A';
    bytes[1] = b'+';
    bytes[2] = b'-';
    bytes[3] = b'-';
    bytes[4] = b'_';
    let mut first = [b'A'; 32];
    let second = [b'A'; 32];
    first[2] = b'-';
    first[4] = b'_';
    let lanes = hashcodecs::symbols::valid_avx2(&bytes, &first, &second);
    let set: Vec<usize> = (0..32).filter(|&i| lanes[i] == 0xff).collect();
    assert_eq!(set, vec![0, 1, 2, 4]);
    assert!(lanes.iter().all(|&lane| lane == 0xff || lane == 0));
    let mut short = [0u8; 16];
    short.copy_from_slice(&bytes[..16]);
    let mut first16 = [0u8; 16];
    first16.copy_from_slice(&first[..16]);
    let lanes = hashcodecs::symbols::valid_sse2(&short, &first16, &[b'A'; 16]);
    let set: Vec<usize> = (0..16).filter(|&i| lanes[i] == 0xff).collect();
    assert_eq!(set, vec![0, 1, 2, 4]);
}
