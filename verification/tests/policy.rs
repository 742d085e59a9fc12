use hashcodecs::compat::{altchars_from_bytes, BinasciiApi, InvalidAltchars, PythonSemantics};
use hashcodecs::error::Base64Error;
use hashcodecs::plan::{DecodeAttempt as PlanAttempt, DecodeConfiguration, DecodeOptions, DecodeStrategy, strict_attempts};
use hashcodecs::policy::{
    ignored_bytes_from, select_route, ConfiguredShortcut, DecodeAttempt, DecodePolicy, DecodeRoute,
    ErrorWrites, IgnoredBytes, Padding, PreparedPolicy, StoreBounds, Validation,
};

fn prepared_policy(
    altchars: Option<[u8; 2]>,
    validation: Validation,
    padding: Padding,
    ignorechars_specified: bool,
    canonical: bool,
) -> PreparedPolicy {
    PreparedPolicy { altchars, validation, padding, ignorechars_specified, ignored: None, canonical }
}

#[test]
fn policy_route_selection_covers_decode_policies() {
    let old = PythonSemantics::from_version((3, 14, 4));
    let new = PythonSemantics::from_version((3, 15, 0));
    assert_eq!(
        select_route(&prepared_policy(None, Validation::Strict, Padding::Padded, false, false), false, old),
        DecodeRoute::Strict { urlsafe_315: false }
    );
    assert_eq!(
        select_route(
            &prepared_policy(Some(*b"-_"), Validation::Strict, Padding::Unpadded, false, false),
            false,
            new,
        ),
        DecodeRoute::Strict { urlsafe_315: true }
    );
    assert_eq!(
        select_route(&prepared_policy(None, Validation::Lenient, Padding::Padded, false, false), false, old),
        DecodeRoute::LenientDirect { urlsafe_315: false }
    );
    assert_eq!(
        select_route(
            &prepared_policy(Some(*b"@#"), Validation::Lenient, Padding::Unpadded, false, false),
            false,
            old,
        ),
        DecodeRoute::LenientCustom
    );
    assert_eq!(
        select_route(&prepared_policy(None, Validation::Lenient, Padding::Padded, false, true), false, old),
        DecodeRoute::Configured(ConfiguredShortcut::StandardStrict)
    );
    assert_eq!(
        select_route(&prepared_policy(None, Validation::Lenient, Padding::Unpadded, false, true), false, old),
        DecodeRoute::Configured(ConfiguredShortcut::CanonicalUnpadded)
    );
    assert_eq!(
        select_route(
            &prepared_policy(Some(*b"@#"), Validation::Strict, Padding::Padded, true, false),
            false,
            old,
        ),
        DecodeRoute::Configured(ConfiguredShortcut::Plain)
    );
}

#[test]
fn policy_enums_expose_write_and_bound_semantics() {
    let lenient = prepared_policy(None, Validation::Lenient, Padding::Padded, false, false);
    let strict = prepared_policy(None, Validation::Strict, Padding::Padded, false, false);
    assert_eq!(lenient.error_writes(), ErrorWrites::PreserveOutput);
    assert_eq!(lenient.store_bounds(), StoreBounds::DeferToFallback);
    assert_eq!(strict.error_writes(), ErrorWrites::MayWrite);
    assert_eq!(strict.store_bounds(), StoreBounds::ReportImmediately);
    assert!(ErrorWrites::PreserveOutput.transactional());
    assert!(!ErrorWrites::MayWrite.transactional());
}

#[test]
fn attempts_bound_probe_writes_and_report_strict_capacity_errors() {
    let small = Base64Error::OutputTooSmall { required: 3, provided: 2 };
    assert_eq!(DecodeAttempt::Probe.error_writes(), ErrorWrites::ValidatedPrefix);
    assert_eq!(DecodeAttempt::Strict.error_writes(), ErrorWrites::MayWrite);
    assert!(ErrorWrites::ValidatedPrefix.validated_prefix_only());
    assert_eq!(DecodeAttempt::Probe.accept::<usize>(Err(small)), Ok(None));
    assert_eq!(DecodeAttempt::Strict.accept::<usize>(Err(small)), Err(small));
    for attempt in [DecodeAttempt::Probe, DecodeAttempt::Strict] {
        assert_eq!(attempt.accept::<usize>(Err(Base64Error::InvalidInput)), Ok(None));
        assert_eq!(attempt.accept(Ok(3)), Ok(Some(3)));
    }
}

#[test]
fn ignored_byte_sets_hold_exactly_their_bytes() {
    let mut set = IgnoredBytes::new();
    for byte in 0..=255u8 {
        assert!(!set.contains(byte));
    }
    set.insert(0);
    set.insert(63);
    set.insert(64);
    set.insert(255);
    for byte in 0..=255u8 {
        assert_eq!(set.contains(byte), matches!(byte, 0 | 63 | 64 | 255));
    }
    let flags = ignored_bytes_from(b" \n\t").to_flags();
    for byte in 0..=255u8 {
        assert_eq!(flags[usize::from(byte)], matches!(byte, b' ' | b'\n' | b'\t'));
    }
}

#[test]
fn prepared_policies_default_validation_to_named_ignorechars() {
    let named = DecodePolicy::new(None, None, true, Some(b"".to_vec()), true, false);
    let (prepared, empty_exact) = PreparedPolicy::prepare(&named);
    assert_eq!(prepared.validation, Validation::Strict);
    assert!(prepared.ignorechars_specified);
    assert!(empty_exact);
    let standard = DecodePolicy::standard();
    let (prepared, empty_exact) = PreparedPolicy::prepare(&standard);
    assert_eq!(prepared.validation, Validation::Lenient);
    assert!(!empty_exact);
    assert!(prepared.ignored.is_none());
    let urlsafe = DecodePolicy::urlsafe(false);
    assert_eq!(urlsafe.altchars, Some(*b"-_"));
    assert_eq!(urlsafe.padding, Padding::Unpadded);
    let custom = PreparedPolicy::prepare(&DecodePolicy::new(Some(*b"@#"), Some(true), true, None, false, true)).0;
    let strict_custom = custom.strict_custom();
    assert!(!strict_custom.canonical);
    assert_eq!(strict_custom.altchars, Some(*b"@#"));
}

#[test]
fn python_versions_choose_binascii_features() {
    let legacy = PythonSemantics::from_version((3, 10, 9));
    assert_eq!(legacy.binascii_api, BinasciiApi::Legacy);
    assert!(!legacy.binascii_accepts_strict_mode());
    let strict = PythonSemantics::from_version((3, 11, 0));
    assert!(strict.binascii_accepts_strict_mode());
    assert!(!strict.binascii_accepts_padding());
    let new = PythonSemantics::from_version((3, 15, 0));
    assert!(new.binascii_accepts_padding());
    assert!(new.urlsafe_exclusive_alphabet);
    assert!(new.warns_legacy_altchars);
    assert!(new.continues_after_padding);
    assert!(new.at_least((3, 15)));
    assert!(!strict.at_least((3, 12)));
    assert!(PythonSemantics::from_version((3, 13, 13)).continues_after_padding);
    assert!(!PythonSemantics::from_version((3, 13, 12)).continues_after_padding);
}

#[test]
fn altchars_must_be_two_bytes() {
    assert_eq!(altchars_from_bytes(b"-_"), Ok(Some(*b"-_")));
    assert_eq!(altchars_from_bytes(b"+/"), Ok(None));
    assert_eq!(altchars_from_bytes(b"-"), Err(InvalidAltchars { len: 1 }));
    assert_eq!(altchars_from_bytes(b"-_!"), Err(InvalidAltchars { len: 3 }));
}

#[test]
fn decode_options_preserve_validation_sentinel() {
    let implicit = DecodeOptions::new(None, None, true, None, false, false);
    let lenient = DecodeOptions::new(None, Some(false), true, None, false, false);
    let strict = DecodeOptions::new(None, Some(true), true, None, false, false);

    assert!(!implicit.strict_mode());
    assert!(!lenient.strict_mode());
    assert!(strict.strict_mode());
    assert_eq!(implicit.validate, None);
}

#[test]
fn fixed_decode_options_match_public_helpers() {
    let standard = DecodeOptions::standard();
    let urlsafe = DecodeOptions::urlsafe(false);

    assert_eq!(standard.altchars, None);
    assert!(standard.padded);
    assert_eq!(urlsafe.altchars, Some(*b"-_"));
    assert!(!urlsafe.padded);
}

#[test]
fn strategy_selection_covers_each_ordered_router() {
    let attempts = |c: DecodeConfiguration| DecodeStrategy::from_configuration(c).attempts();
    let strict = DecodeConfiguration { padded: true, strict_mode: true, ..DecodeConfiguration::default() };
    assert_eq!(attempts(strict), vec![PlanAttempt::Strict, PlanAttempt::Binascii]);

    let strict_urlsafe = DecodeConfiguration {
        altchars: Some(*b"-_"),
        strict_mode: true,
        python_315: true,
        ..DecodeConfiguration::default()
    };
    assert_eq!(
        attempts(strict_urlsafe),
        vec![PlanAttempt::Urlsafe315, PlanAttempt::Unpadded, PlanAttempt::Binascii]
    );

    let lenient = DecodeConfiguration { padded: true, ..DecodeConfiguration::default() };
    assert_eq!(
        attempts(lenient),
        vec![PlanAttempt::StrictProbe, PlanAttempt::MimeWhitespace, PlanAttempt::Lenient, PlanAttempt::Binascii]
    );

    let lenient_urlsafe = DecodeConfiguration {
        altchars: Some(*b"-_"),
        padded: true,
        python_315: true,
        ..DecodeConfiguration::default()
    };
    assert_eq!(
        attempts(lenient_urlsafe),
        vec![
            PlanAttempt::Urlsafe315,
            PlanAttempt::StrictProbe,
            PlanAttempt::MimeWhitespace,
            PlanAttempt::Lenient,
            PlanAttempt::Binascii,
        ]
    );

    let custom_unpadded = DecodeConfiguration { altchars: Some(*b"@#"), ..DecodeConfiguration::default() };
    assert_eq!(
        attempts(custom_unpadded),
        vec![PlanAttempt::Unpadded, PlanAttempt::Lenient, PlanAttempt::Binascii]
    );

    let canonical_padded = DecodeConfiguration {
        padded: true,
        strict_mode: true,
        canonical: true,
        python_315: true,
        ..DecodeConfiguration::default()
    };
    assert_eq!(attempts(canonical_padded), vec![PlanAttempt::StandardStrict, PlanAttempt::Advanced]);

    let canonical_unpadded = DecodeConfiguration {
        strict_mode: true,
        canonical: true,
        python_315: true,
        ..DecodeConfiguration::default()
    };
    assert_eq!(attempts(canonical_unpadded), vec![PlanAttempt::CanonicalUnpadded, PlanAttempt::Advanced]);

    let empty_ignorechars = DecodeConfiguration {
        padded: true,
        strict_mode: true,
        ignorechars_specified: true,
        empty_ignorechars: true,
        python_315: true,
        ..DecodeConfiguration::default()
    };
    assert_eq!(attempts(empty_ignorechars), vec![PlanAttempt::StandardStrict, PlanAttempt::Advanced]);

    let advanced = DecodeConfiguration {
        altchars: Some(*b"@#"),
        padded: true,
        ignorechars_specified: true,
        python_315: true,
        ..DecodeConfiguration::default()
    };
    assert_eq!(attempts(advanced), vec![PlanAttempt::Advanced]);
}

#[test]
fn strict_options_try_the_strict_decoders_then_binascii() {
    let urlsafe = DecodeOptions::new(Some(*b"-_"), Some(true), true, None, false, false);
    assert_eq!(
        strict_attempts(&urlsafe, true),
        vec![PlanAttempt::Urlsafe315, PlanAttempt::Strict, PlanAttempt::Binascii]
    );
    assert_eq!(strict_attempts(&urlsafe, false), vec![PlanAttempt::Strict, PlanAttempt::Binascii]);
    let unpadded = DecodeOptions::new(None, Some(true), false, None, false, false);
    assert_eq!(strict_attempts(&unpadded, true), vec![PlanAttempt::Unpadded, PlanAttempt::Binascii]);
    let lenient = DecodeOptions::standard();
    assert!(strict_attempts(&lenient, true).is_empty());
    let selected = DecodeStrategy::select(&urlsafe, true);
    assert_eq!(selected, DecodeStrategy::Urlsafe315StrictPadded);
}
