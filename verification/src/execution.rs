//! Running a prepared decode: the decoders a route tries, in order, and what
//! their results make of the whole decode.

use vstd::prelude::*;

use crate::alphabet::{
    is_std_char, lenient_decode_table, lenient_table, std_value, lemma_std_value_char,
};
use crate::compat::PythonSemantics;
use crate::configured::{
    configured_into_outcome, configured_table, decode_configured, decode_configured_slice_into, lemma_scan_bounds,
    scan_finish, scan_outcome, scan_run, scan_step, specials_of, ConfiguredDecoder, ScanRules,
    StrictSpecials, EQUALS,
};
use crate::error::Base64Error;
use crate::fallback::{
    canonical_padding, canonical_padding_spec, is_mime_whitespace_input, mime_whitespace_input,
};
use crate::lenient::{
    decode_lenient_slice_into, lenient_incomplete, lenient_run, try_decode_lenient,
    OutputTooSmall,
};
use crate::policy::{
    accept_spec, is_urlsafe_altchars, route_spec, select_route, ConfiguredShortcut, DecodeAttempt, DecodePolicy,
    DecodeRoute, Padding, PreparedPolicy, Validation,
};
use crate::symbols::CpuFeatures;

verus! {

/// The rules of a strict decoder for the alphabet of `altchars`, without
/// discarded bytes or canonical checks.
pub open spec fn strict_rules(altchars: Option<[u8; 2]>, custom: bool, padded: bool) -> ScanRules {
    ScanRules {
        table: configured_table(altchars, custom),
        ignored: Seq::new(256, |i: int| false),
        strict: true,
        padded,
        canonical: false,
        continue_after_padding: false,
        skip_unpadded_equals: false,
    }
}

/// What strict decoding with the alphabet of `altchars` makes of `input`.
pub open spec fn strict_outcome(
    altchars: Option<[u8; 2]>,
    custom: bool,
    padded: bool,
    input: Seq<u8>,
) -> Option<Seq<u8>> {
    scan_outcome(strict_rules(altchars, custom, padded), input)
}

/// The discarded-byte flags of a prepared policy.
pub open spec fn policy_ignored(policy: PreparedPolicy) -> Seq<bool> {
    Seq::new(
        256,
        |i: int|
            match policy.ignored {
                Some(set) => set.has(i as u8),
                None => false,
            },
    )
}

/// The rules of the configured decoder of a prepared policy.
pub open spec fn policy_rules(policy: PreparedPolicy, continue_after_padding: bool) -> ScanRules {
    let table = configured_table(
        policy.altchars,
        policy.altchars is Some && policy.ignorechars_specified,
    );
    let ignored = policy_ignored(policy);
    let padded = policy.padding == Padding::Padded;
    let strict = policy.validation == Validation::Strict;
    ScanRules {
        table,
        ignored,
        strict,
        padded,
        canonical: policy.canonical,
        continue_after_padding,
        skip_unpadded_equals: strict && !(specials_of(
            StrictSpecials::discarded_upto(table, ignored, padded, 256),
        ) is Many) && !(specials_of(StrictSpecials::forbidden_upto(table, ignored, 64)) is Many),
    }
}

/// Strict runs agree on two rule sets that differ only where strict
/// decoding does not look: the end of non-strict decoding, and the skipping
/// of `=` when `=` is not discarded.
pub proof fn lemma_strict_rules_agree(r1: ScanRules, r2: ScanRules, input: Seq<u8>)
    requires
        r1.table == r2.table,
        r1.ignored == r2.ignored,
        r1.strict,
        r2.strict,
        r1.padded == r2.padded,
        r1.canonical == r2.canonical,
        !r1.ignored[EQUALS as int],
    ensures
        scan_run(r1, input) == scan_run(r2, input),
        scan_outcome(r1, input) == scan_outcome(r2, input),
    decreases input.len(),
{
    if input.len() > 0 {
        lemma_strict_rules_agree(r1, r2, input.drop_last());
    }
}

/// Why a decode failed, with the error each becomes.
#[derive(Clone, Copy, Debug, PartialEq, Eq, Structural)]
pub enum DecodeFailure {
    /// binascii's "Incorrect padding".
    IncorrectPadding,
    /// binascii's "Non-zero padding bits".
    NonZeroPaddingBits,
    /// The destination is too small.
    OutputTooSmall { required: usize, provided: usize },
}

/// The failure a native decoder's error becomes.
pub open spec fn native_failure(error: Base64Error) -> DecodeFailure {
    match error {
        Base64Error::InvalidInput => DecodeFailure::IncorrectPadding,
        Base64Error::OutputTooSmall { required, provided } => DecodeFailure::OutputTooSmall {
            required,
            provided,
        },
    }
}

/// The failure a native decoder's error becomes.
pub fn native_error(error: Base64Error) -> (failure: DecodeFailure)
    ensures
        failure == native_failure(error),
{
    match error {
        Base64Error::InvalidInput => DecodeFailure::IncorrectPadding,
        Base64Error::OutputTooSmall { required, provided } => DecodeFailure::OutputTooSmall {
            required,
            provided,
        },
    }
}

/// Whether padded standard input ends in a canonical last symbol: the data
/// before its one or two final `=` ends in a non-standard byte or leaves no
/// set bits.
pub open spec fn standard_canonical_spec(input: Seq<u8>) -> bool {
    let n = input.len() as int;
    let one = n >= 1 && input[n - 1] == EQUALS;
    let two = n >= 2 && input[n - 2] == EQUALS && input[n - 1] == EQUALS;
    let padding = (if one {
        1int
    } else {
        0int
    }) + (if two {
        1int
    } else {
        0int
    });
    let data = input.take(n - padding);
    data.len() == 0 || !is_std_char(data.last()) || canonical_padding_spec(data)
}

/// Whether padded standard input ends in a canonical last symbol.
pub fn standard_canonical(input: &[u8]) -> (canonical: bool)
    ensures
        canonical == standard_canonical_spec(input@),
{
    let n = input.len();
    let one = n >= 1 && input[n - 1] == EQUALS;
    let two = n >= 2 && input[n - 2] == EQUALS && input[n - 1] == EQUALS;
    let padding: usize = (if one {
        1
    } else {
        0
    }) + (if two {
        1
    } else {
        0
    });
    let data = vstd::slice::slice_subrange(input, 0, n - padding);
    assert(data@ =~= input@.take(n - padding));
    if data.len() == 0 {
        return true;
    }
    let last = data[data.len() - 1];
    if !((65 <= last && last <= 90) || (97 <= last && last <= 122) || (48 <= last && last <= 57)
        || last == 43 || last == 47) {
        return true;
    }
    canonical_padding(data)
}

/// The value of the last byte of unpadded input, by the alternative
/// characters and then the standard alphabet.
pub open spec fn unpadded_last_value(last: u8, altchars: Option<[u8; 2]>) -> Option<u8> {
    match altchars {
        Some(pair) if last == pair[1] => Some(63u8),
        Some(pair) if last == pair[0] => Some(62u8),
        _ => if is_std_char(last) {
            Some(std_value(last))
        } else {
            None
        },
    }
}

/// Whether unpadded input has complete groups, or a final group whose last
/// symbol leaves no set bits.
pub open spec fn canonical_unpadded_spec(input: Seq<u8>, altchars: Option<[u8; 2]>) -> bool {
    let rem = input.len() % 4;
    if rem != 2 && rem != 3 {
        rem == 0
    } else {
        match unpadded_last_value(input.last(), altchars) {
            Some(value) => if rem == 2 {
                value & 0x0f == 0
            } else {
                value & 0x03 == 0
            },
            None => false,
        }
    }
}

/// Whether unpadded input has complete groups, or a final group whose last
/// symbol leaves no set bits.
pub fn canonical_unpadded_input(input: &[u8], altchars: Option<[u8; 2]>) -> (canonical: bool)
    ensures
        canonical == canonical_unpadded_spec(input@, altchars),
{
    let rem = input.len() % 4;
    if rem != 2 && rem != 3 {
        return rem == 0;
    }
    let last = input[input.len() - 1];
    let value: u8 = match altchars {
        Some(pair) if last == pair[1] => 63,
        Some(pair) if last == pair[0] => 62,
        _ => {
            if (65 <= last && last <= 90) || (97 <= last && last <= 122) || (48 <= last && last
                <= 57) || last == 43 || last == 47 {
                if 65 <= last && last <= 90 {
                    last - 65
                } else if 97 <= last && last <= 122 {
                    last - 97 + 26
                } else if 48 <= last && last <= 57 {
                    last - 48 + 52
                } else if last == 43 {
                    62
                } else {
                    63
                }
            } else {
                return false;
            }
        },
    };
    if rem == 2 {
        value & 0x0f == 0
    } else {
        value & 0x03 == 0
    }
}

/// A decode prepared once for one policy and one Python version.
#[derive(Clone, Copy, Debug)]
pub struct PreparedDecoder {
    pub semantics: PythonSemantics,
    pub policy: PreparedPolicy,
    pub route: DecodeRoute,
    pub attempt: DecodeAttempt,
    pub features: CpuFeatures,
}

/// What the first decoder that succeeds gives, `None` when none does.
pub open spec fn first_some(a: Option<Seq<u8>>, b: Option<Seq<u8>>) -> Option<Seq<u8>> {
    if a is Some {
        a
    } else {
        b
    }
}

impl PreparedDecoder {
    /// Prepare a decode: collect the policy and choose its route; strict
    /// policies report an undersized destination, others probe.
    pub fn new(policy: &DecodePolicy, semantics: PythonSemantics, features: CpuFeatures) -> (decoder:
        Self)
        ensures
            decoder.semantics == semantics,
            decoder.features == features,
            decoder.route == route_spec(decoder.policy, policy.ignorechars matches Some(bytes)
                && policy.ignorechars_exact_bytes && bytes@.len() == 0, semantics),
            decoder.attempt == (if decoder.policy.validation == Validation::Strict {
                DecodeAttempt::Strict
            } else {
                DecodeAttempt::Probe
            }),
            decoder.policy.altchars == policy.altchars,
            decoder.policy.padding == policy.padding,
            decoder.policy.canonical == policy.canonical,
            decoder.policy.ignorechars_specified == policy.ignorechars is Some,
    {
        let (prepared, empty_exact) = PreparedPolicy::prepare(policy);
        let route = select_route(&prepared, empty_exact, semantics);
        let attempt = if prepared.strict_mode() {
            DecodeAttempt::Strict
        } else {
            DecodeAttempt::Probe
        };
        PreparedDecoder { semantics, policy: prepared, route, attempt, features }
    }

    /// Whether the alternative characters are the URL-safe `-_`, whose
    /// direct alphabet also reads `+` and `/`.
    fn mixed_alphabet(&self) -> (mixed: bool)
        ensures
            mixed == (self.policy.altchars == Some([45u8, 95u8])),
    {
        match self.policy.altchars {
            Some(pair) => {
                let mixed = pair[0] == 45 && pair[1] == 95;
                assert(mixed ==> pair =~= [45u8, 95u8]);
                mixed
            },
            None => false,
        }
    }

    /// The configured decoder of the policy.
    pub fn configured(&self) -> (decoder: ConfiguredDecoder)
        ensures
            decoder.well_formed(),
            forall|cap: bool| #[trigger] decoder.rules(cap) == policy_rules(self.policy, cap),
    {
        let decoder = ConfiguredDecoder::new(&self.policy, self.features);
        proof {
            assert(decoder.ignored@ =~= policy_ignored(self.policy));
        }
        decoder
    }

    /// The strict decoder of the policy's alphabet.
    pub fn strict_custom(&self) -> (decoder: ConfiguredDecoder)
        ensures
            decoder.well_formed(),
            forall|input: Seq<u8>, cap: bool| #[trigger]
                decoder.outcome(input, cap) == strict_outcome(
                    self.policy.altchars,
                    false,
                    self.policy.padding == Padding::Padded,
                    input,
                ),
    {
        let decoder = ConfiguredDecoder::strict(
            self.policy.altchars,
            false,
            self.policy.padding,
            self.features,
        );
        proof {
            assert forall|input: Seq<u8>, cap: bool| #[trigger]
                decoder.outcome(input, cap) == strict_outcome(
                    self.policy.altchars,
                    false,
                    self.policy.padding == Padding::Padded,
                    input,
                ) by {
                assert(decoder.ignored@ =~= Seq::new(256, |i: int| false));
                lemma_strict_rules_agree(
                    decoder.rules(cap),
                    strict_rules(
                        self.policy.altchars,
                        false,
                        self.policy.padding == Padding::Padded,
                    ),
                    input,
                );
            }
        }
        decoder
    }

    /// The table of the non-strict decoder.
    pub fn lenient_table(&self) -> (table: [u8; 256])
        ensures
            table@ == lenient_table(self.policy.altchars),
    {
        lenient_decode_table(self.policy.altchars)
    }

    /// What the strict decoder of the policy's alphabet gives with `padded`.
    pub open spec fn strict_decoder_spec(self, padded: bool, input: Seq<u8>) -> Option<Seq<u8>> {
        strict_outcome(self.policy.altchars, false, padded, input)
    }

    /// What the exclusive URL-safe alphabet of Python 3.15 gives.
    pub open spec fn urlsafe_spec(padded: bool, input: Seq<u8>) -> Option<Seq<u8>> {
        strict_outcome(Some([45u8, 95u8]), true, padded, input)
    }

    /// What non-strict decoding gives.
    pub open spec fn lenient_spec(self, input: Seq<u8>) -> Option<Seq<u8>> {
        let padded = self.policy.padding == Padding::Padded;
        let s = lenient_run(
            input,
            lenient_table(self.policy.altchars),
            padded,
            self.semantics.continues_after_padding,
        );
        if lenient_incomplete(s, padded) {
            None
        } else {
            Some(s.out)
        }
    }

    /// Whether padded input of the direct alphabets that the strict probe
    /// refused is Base64 broken into lines, which the configured decoder of
    /// the policy then decides alone: its bytes, or "Incorrect padding".
    pub open spec fn mime_step(self, input: Seq<u8>) -> bool {
        &&& self.route is LenientDirect
        &&& self.policy.padding == Padding::Padded
        &&& mime_whitespace_input(input, self.policy.altchars == Some([45u8, 95u8]))
    }

    /// What a decode into a new buffer gives: the decoded bytes, `None` when
    /// binascii must decide, or the failure.
    pub open spec fn allocating_spec(self, input: Seq<u8>) -> Result<
        Option<Seq<u8>>,
        DecodeFailure,
    > {
        let padded = self.policy.padding == Padding::Padded;
        let cap = self.semantics.continues_after_padding;
        match self.route {
            DecodeRoute::Configured(shortcut) => {
                let standard = if shortcut == ConfiguredShortcut::StandardStrict {
                    strict_outcome(None, false, true, input)
                } else {
                    None
                };
                let unpadded = if shortcut == ConfiguredShortcut::CanonicalUnpadded
                    && canonical_unpadded_spec(input, self.policy.altchars) {
                    self.strict_decoder_spec(false, input)
                } else {
                    None
                };
                if standard is Some {
                    if !self.policy.canonical || standard_canonical_spec(input) {
                        Ok(standard)
                    } else {
                        Err(DecodeFailure::NonZeroPaddingBits)
                    }
                } else if unpadded is Some {
                    Ok(unpadded)
                } else {
                    match scan_outcome(policy_rules(self.policy, cap), input) {
                        Some(out) => Ok(Some(out)),
                        None => Err(DecodeFailure::IncorrectPadding),
                    }
                }
            },
            _ => {
                let (urlsafe_315, direct, strict) = match self.route {
                    DecodeRoute::Strict { urlsafe_315 } => (urlsafe_315, false, true),
                    DecodeRoute::LenientDirect { urlsafe_315 } => (urlsafe_315, true, false),
                    _ => (false, false, false),
                };
                let urlsafe_padded = if urlsafe_315 && (padded || !strict) {
                    Self::urlsafe_spec(true, input)
                } else {
                    None
                };
                let urlsafe_unpadded = if urlsafe_315 && !padded {
                    Self::urlsafe_spec(false, input)
                } else {
                    None
                };
                let probe = if direct {
                    self.strict_decoder_spec(true, input)
                } else {
                    None
                };
                let native = if strict {
                    Ok(self.strict_decoder_spec(padded, input))
                } else if probe is Some {
                    Ok(probe)
                } else if self.mime_step(input) {
                    match scan_outcome(policy_rules(self.policy, cap), input) {
                        Some(out) => Ok(Some(out)),
                        None => Err(DecodeFailure::IncorrectPadding),
                    }
                } else {
                    Ok(
                        first_some(
                            if !padded {
                                self.strict_decoder_spec(false, input)
                            } else {
                                None
                            },
                            self.lenient_spec(input),
                        ),
                    )
                };
                match first_some(urlsafe_padded, urlsafe_unpadded) {
                    Some(out) => Ok(Some(out)),
                    None => native,
                }
            },
        }
    }
}


/// Strict decoding into a new buffer with the alphabet of `altchars`.
pub fn decode_strict_alphabet(
    input: &[u8],
    altchars: Option<[u8; 2]>,
    custom: bool,
    padded: bool,
    features: CpuFeatures,
) -> (decoded: Option<Vec<u8>>)
    ensures
        match decoded {
            Some(bytes) => strict_outcome(altchars, custom, padded, input@) == Some(bytes@),
            None => strict_outcome(altchars, custom, padded, input@) is None,
        },
{
    let padding = Padding::new(padded);
    let decoder = ConfiguredDecoder::strict(altchars, custom, padding, features);
    proof {
        assert(decoder.ignored@ =~= Seq::new(256, |i: int| false));
        lemma_strict_rules_agree(decoder.rules(false), strict_rules(altchars, custom, padded), input@);
    }
    decode_configured(input, &decoder, false)
}

/// The bytes of an optional buffer.
pub open spec fn view_option(value: Option<Vec<u8>>) -> Option<Seq<u8>> {
    match value {
        Some(bytes) => Some(bytes@),
        None => None,
    }
}

/// The view of a decode into a new buffer.
pub open spec fn view_allocating(result: Result<Option<Vec<u8>>, DecodeFailure>) -> Result<
    Option<Seq<u8>>,
    DecodeFailure,
> {
    match result {
        Ok(value) => Ok(view_option(value)),
        Err(failure) => Err(failure),
    }
}

impl PreparedDecoder {
    fn strict_decoder(&self, padded: bool, input: &[u8]) -> (decoded: Option<Vec<u8>>)
        ensures
            view_option(decoded) == self.strict_decoder_spec(padded, input@),
    {
        decode_strict_alphabet(input, self.policy.altchars, false, padded, self.features)
    }

    fn lenient(&self, input: &[u8]) -> (decoded: Option<Vec<u8>>)
        ensures
            view_option(decoded) == self.lenient_spec(input@),
    {
        let table = self.lenient_table();
        try_decode_lenient(
            input,
            &table,
            self.policy.padding.is_padded(),
            self.semantics.continues_after_padding,
        )
    }

    fn configured_allocating(&self, input: &[u8], shortcut: ConfiguredShortcut) -> (result: Result<
        Option<Vec<u8>>,
        DecodeFailure,
    >)
        requires
            self.route == DecodeRoute::Configured(shortcut),
        ensures
            view_allocating(result) == self.allocating_spec(input@),
    {
        if matches!(shortcut, ConfiguredShortcut::StandardStrict) {
            let canonical = !self.policy.canonical || standard_canonical(input);
            match decode_strict_alphabet(input, None, false, true, self.features) {
                Some(decoded) => {
                    if canonical {
                        return Ok(Some(decoded));
                    }
                    return Err(DecodeFailure::NonZeroPaddingBits);
                },
                None => {},
            }
        }
        if matches!(shortcut, ConfiguredShortcut::CanonicalUnpadded) && canonical_unpadded_input(
            input,
            self.policy.altchars,
        ) {
            match self.strict_decoder(false, input) {
                Some(decoded) => {
                    return Ok(Some(decoded));
                },
                None => {},
            }
        }
        let decoder = self.configured();
        match decode_configured(input, &decoder, self.semantics.continues_after_padding) {
            Some(decoded) => Ok(Some(decoded)),
            None => Err(DecodeFailure::IncorrectPadding),
        }
    }

    /// Decode into a new buffer by the route: the first decoder that accepts
    /// the input gives the bytes; `Ok(None)` leaves the input to binascii.
    pub fn decode_allocating(&self, input: &[u8]) -> (result: Result<
        Option<Vec<u8>>,
        DecodeFailure,
    >)
        ensures
            view_allocating(result) == self.allocating_spec(input@),
    {
        let (urlsafe_315, direct, strict) = match self.route {
            DecodeRoute::Configured(shortcut) => {
                return self.configured_allocating(input, shortcut);
            },
            DecodeRoute::Strict { urlsafe_315 } => (urlsafe_315, false, true),
            DecodeRoute::LenientDirect { urlsafe_315 } => (urlsafe_315, true, false),
            DecodeRoute::LenientCustom => (false, false, false),
        };
        let padded = self.policy.padding.is_padded();
        if urlsafe_315 {
            if padded || !strict {
                match decode_strict_alphabet(input, Some([45u8, 95u8]), true, true, self.features) {
                    Some(decoded) => {
                        return Ok(Some(decoded));
                    },
                    None => {},
                }
            }
            if !padded {
                match decode_strict_alphabet(input, Some([45u8, 95u8]), true, false, self.features) {
                    Some(decoded) => {
                        return Ok(Some(decoded));
                    },
                    None => {},
                }
            }
        }
        if strict {
            return Ok(self.strict_decoder(padded, input));
        }
        if direct {
            match self.strict_decoder(true, input) {
                Some(decoded) => {
                    return Ok(Some(decoded));
                },
                None => {},
            }
            if padded && is_mime_whitespace_input(input, self.mixed_alphabet()) {
                let decoder = self.configured();
                return match decode_configured(input, &decoder, self.semantics.continues_after_padding) {
                    Some(decoded) => Ok(Some(decoded)),
                    None => Err(DecodeFailure::IncorrectPadding),
                };
            }
        }
        if !padded {
            match self.strict_decoder(false, input) {
                Some(decoded) => {
                    return Ok(Some(decoded));
                },
                None => {},
            }
        }
        Ok(self.lenient(input))
    }
}


/// What one decoder gives into a destination of `provided` bytes: nothing
/// when it rejects the input; when its output does not fit, an error for a
/// strict attempt and nothing for a probe; else its output.
pub open spec fn attempt_into(attempt: DecodeAttempt, out: Option<Seq<u8>>, provided: int) -> Result<
    Option<Seq<u8>>,
    DecodeFailure,
> {
    match out {
        None => Ok(None),
        Some(bytes) => if provided < bytes.len() {
            if attempt == DecodeAttempt::Strict {
                Err(
                    DecodeFailure::OutputTooSmall {
                        required: bytes.len() as usize,
                        provided: provided as usize,
                    },
                )
            } else {
                Ok(None)
            }
        } else {
            Ok(Some(bytes))
        },
    }
}

/// What the configured decoder gives into a destination: its errors are
/// final.
pub open spec fn configured_into(out: Option<Seq<u8>>, provided: int) -> Result<
    Option<Seq<u8>>,
    DecodeFailure,
> {
    match out {
        None => Err(DecodeFailure::IncorrectPadding),
        Some(bytes) => if provided < bytes.len() {
            Err(
                DecodeFailure::OutputTooSmall {
                    required: bytes.len() as usize,
                    provided: provided as usize,
                },
            )
        } else {
            Ok(Some(bytes))
        },
    }
}

/// The next decoder decides only when the first gave nothing.
pub open spec fn chain(
    first: Result<Option<Seq<u8>>, DecodeFailure>,
    next: Result<Option<Seq<u8>>, DecodeFailure>,
) -> Result<Option<Seq<u8>>, DecodeFailure> {
    match first {
        Ok(None) => next,
        _ => first,
    }
}

/// The size view of a decode into a destination.
pub open spec fn view_into(result: Result<Option<Seq<u8>>, DecodeFailure>) -> Result<
    Option<usize>,
    DecodeFailure,
> {
    match result {
        Ok(Some(bytes)) => Ok(Some(bytes.len() as usize)),
        Ok(None) => Ok(None),
        Err(failure) => Err(failure),
    }
}

/// Strict decoding with the alphabet of `altchars` into all of `output`,
/// leaving it untouched on failure.
pub fn decode_strict_alphabet_into(
    input: &[u8],
    output: &mut Vec<u8>,
    altchars: Option<[u8; 2]>,
    custom: bool,
    padded: bool,
    features: CpuFeatures,
) -> (result: Result<usize, Base64Error>)
    ensures
        result == configured_into_outcome(
            strict_outcome(altchars, custom, padded, input@),
            old(output)@.len() as int,
        ),
        final(output)@.len() == old(output)@.len(),
        result is Err ==> final(output)@ == old(output)@,
        result matches Ok(n) ==> final(output)@ == strict_outcome(
            altchars,
            custom,
            padded,
            input@,
        )->Some_0 + old(output)@.skip(n as int),
{
    let padding = Padding::new(padded);
    let decoder = ConfiguredDecoder::strict(altchars, custom, padding, features);
    proof {
        assert(decoder.ignored@ =~= Seq::new(256, |i: int| false));
        lemma_strict_rules_agree(decoder.rules(false), strict_rules(altchars, custom, padded), input@);
    }
    decode_configured_slice_into(input, output, &decoder, false)
}

/// Whether a destination holds a decode's result as the view says.
pub open spec fn into_holds(
    spec: Result<Option<Seq<u8>>, DecodeFailure>,
    result: Result<Option<usize>, DecodeFailure>,
    output: Seq<u8>,
    old_output: Seq<u8>,
) -> bool {
    &&& result == view_into(spec)
    &&& output.len() == old_output.len()
    &&& spec matches Ok(Some(bytes)) ==> output == bytes + old_output.skip(bytes.len() as int)
    &&& spec is Err ==> output == old_output
}

impl PreparedDecoder {
    /// Run one strict-alphabet decoder as `attempt` into `output`.
    fn try_strict_into(
        &self,
        input: &[u8],
        output: &mut Vec<u8>,
        altchars: Option<[u8; 2]>,
        custom: bool,
        padded: bool,
        attempt: DecodeAttempt,
    ) -> (result: Result<Option<usize>, DecodeFailure>)
        ensures
            into_holds(
                attempt_into(
                    attempt,
                    strict_outcome(altchars, custom, padded, input@),
                    old(output)@.len() as int,
                ),
                result,
                final(output)@,
                old(output)@,
            ),
            result is Ok && result->Ok_0 is None ==> final(output)@ == old(output)@,
    {
        proof {
            let r = strict_rules(altchars, custom, padded);
            lemma_scan_bounds(r, input@);
            assert(input@.len() == input.len());
        }
        let decoded = decode_strict_alphabet_into(input, output, altchars, custom, padded, self.features);
        match attempt.accept(decoded) {
            Ok(value) => Ok(value),
            Err(error) => Err(native_error(error)),
        }
    }

    /// What a decode into a destination of `provided` bytes gives.
    pub open spec fn into_spec(self, input: Seq<u8>, provided: int) -> Result<
        Option<Seq<u8>>,
        DecodeFailure,
    > {
        let padded = self.policy.padding == Padding::Padded;
        let cap = self.semantics.continues_after_padding;
        match self.route {
            DecodeRoute::Configured(shortcut) => {
                let standard = if shortcut == ConfiguredShortcut::StandardStrict && (
                !self.policy.canonical || standard_canonical_spec(input)) {
                    attempt_into(
                        DecodeAttempt::Probe,
                        strict_outcome(None, false, true, input),
                        provided,
                    )
                } else {
                    Ok(None)
                };
                let unpadded = if shortcut == ConfiguredShortcut::CanonicalUnpadded
                    && canonical_unpadded_spec(input, self.policy.altchars) {
                    attempt_into(
                        DecodeAttempt::Probe,
                        self.strict_decoder_spec(false, input),
                        provided,
                    )
                } else {
                    Ok(None)
                };
                chain(
                    standard,
                    chain(
                        unpadded,
                        configured_into(scan_outcome(policy_rules(self.policy, cap), input), provided),
                    ),
                )
            },
            _ => {
                let (urlsafe_315, direct, strict) = match self.route {
                    DecodeRoute::Strict { urlsafe_315 } => (urlsafe_315, false, true),
                    DecodeRoute::LenientDirect { urlsafe_315 } => (urlsafe_315, true, false),
                    _ => (false, false, false),
                };
                let urlsafe_padded = if urlsafe_315 && (padded || !strict) {
                    attempt_into(self.attempt, Self::urlsafe_spec(true, input), provided)
                } else {
                    Ok(None)
                };
                let urlsafe_unpadded = if urlsafe_315 && !padded {
                    attempt_into(self.attempt, Self::urlsafe_spec(false, input), provided)
                } else {
                    Ok(None)
                };
                let native = if strict {
                    attempt_into(self.attempt, self.strict_decoder_spec(padded, input), provided)
                } else {
                    chain(
                        if direct {
                            attempt_into(
                                DecodeAttempt::Probe,
                                self.strict_decoder_spec(true, input),
                                provided,
                            )
                        } else {
                            Ok(None)
                        },
                        if self.mime_step(input) {
                            configured_into(scan_outcome(policy_rules(self.policy, cap), input), provided)
                        } else {
                            chain(
                                if !padded {
                                    attempt_into(
                                        self.attempt,
                                        self.strict_decoder_spec(false, input),
                                        provided,
                                    )
                                } else {
                                    Ok(None)
                                },
                                attempt_into(DecodeAttempt::Strict, self.lenient_spec(input), provided),
                            )
                        },
                    )
                };
                chain(urlsafe_padded, chain(urlsafe_unpadded, native))
            },
        }
    }

    /// A destination that holds what a decode into a new buffer returns
    /// receives exactly those bytes: every decoder that gave nothing gives
    /// nothing there too, and the one that decides fits.
    pub proof fn lemma_into_agrees_with_allocating(self, input: Seq<u8>, provided: int)
        requires
            self.allocating_spec(input) matches Ok(Some(bytes)) && bytes.len() <= provided,
        ensures
            self.into_spec(input, provided) == self.allocating_spec(input),
    {
    }

    fn configured_into(
        &self,
        input: &[u8],
        output: &mut Vec<u8>,
        shortcut: ConfiguredShortcut,
    ) -> (result: Result<Option<usize>, DecodeFailure>)
        requires
            self.route == DecodeRoute::Configured(shortcut),
        ensures
            into_holds(
                self.into_spec(input@, old(output)@.len() as int),
                result,
                final(output)@,
                old(output)@,
            ),
    {
        let ghost provided = output@.len() as int;
        if matches!(shortcut, ConfiguredShortcut::StandardStrict) && (!self.policy.canonical
            || standard_canonical(input)) {
            let tried = self.try_strict_into(input, output, None, false, true, DecodeAttempt::Probe);
            if !matches!(tried, Ok(None)) {
                return tried;
            }
        }
        if matches!(shortcut, ConfiguredShortcut::CanonicalUnpadded) && canonical_unpadded_input(
            input,
            self.policy.altchars,
        ) {
            let tried = self.try_strict_into(
                input,
                output,
                self.policy.altchars,
                false,
                false,
                DecodeAttempt::Probe,
            );
            if !matches!(tried, Ok(None)) {
                return tried;
            }
        }
        let decoder = self.configured();
        proof {
            lemma_scan_bounds(policy_rules(self.policy, self.semantics.continues_after_padding), input@);
            assert(input@.len() == input.len());
        }
        match decode_configured_slice_into(
            input,
            output,
            &decoder,
            self.semantics.continues_after_padding,
        ) {
            Ok(written) => Ok(Some(written)),
            Err(error) => Err(native_error(error)),
        }
    }

    /// Decode into all of `output` by the route: the first decoder that
    /// accepts the input writes its bytes to the front; `Ok(None)` leaves the
    /// input to binascii. Every failure leaves the destination untouched.
    pub fn decode_into(&self, input: &[u8], output: &mut Vec<u8>) -> (result: Result<
        Option<usize>,
        DecodeFailure,
    >)
        ensures
            into_holds(
                self.into_spec(input@, old(output)@.len() as int),
                result,
                final(output)@,
                old(output)@,
            ),
    {
        let (urlsafe_315, direct, strict) = match self.route {
            DecodeRoute::Configured(shortcut) => {
                return self.configured_into(input, output, shortcut);
            },
            DecodeRoute::Strict { urlsafe_315 } => (urlsafe_315, false, true),
            DecodeRoute::LenientDirect { urlsafe_315 } => (urlsafe_315, true, false),
            DecodeRoute::LenientCustom => (false, false, false),
        };
        let padded = self.policy.padding.is_padded();
        if urlsafe_315 {
            if padded || !strict {
                let tried = self.try_strict_into(
                    input,
                    output,
                    Some([45u8, 95u8]),
                    true,
                    true,
                    self.attempt,
                );
                if !matches!(tried, Ok(None)) {
                    return tried;
                }
            }
            if !padded {
                let tried = self.try_strict_into(
                    input,
                    output,
                    Some([45u8, 95u8]),
                    true,
                    false,
                    self.attempt,
                );
                if !matches!(tried, Ok(None)) {
                    return tried;
                }
            }
        }
        if strict {
            return self.try_strict_into(
                input,
                output,
                self.policy.altchars,
                false,
                padded,
                self.attempt,
            );
        }
        if direct {
            let tried = self.try_strict_into(
                input,
                output,
                self.policy.altchars,
                false,
                true,
                DecodeAttempt::Probe,
            );
            if !matches!(tried, Ok(None)) {
                return tried;
            }
            if padded && is_mime_whitespace_input(input, self.mixed_alphabet()) {
                let decoder = self.configured();
                proof {
                    lemma_scan_bounds(
                        policy_rules(self.policy, self.semantics.continues_after_padding),
                        input@,
                    );
                    assert(input@.len() == input.len());
                }
                return match decode_configured_slice_into(
                    input,
                    output,
                    &decoder,
                    self.semantics.continues_after_padding,
                ) {
                    Ok(written) => Ok(Some(written)),
                    Err(error) => Err(native_error(error)),
                };
            }
        }
        if !padded {
            let tried = self.try_strict_into(
                input,
                output,
                self.policy.altchars,
                false,
                false,
                self.attempt,
            );
            if !matches!(tried, Ok(None)) {
                return tried;
            }
        }
        let table = self.lenient_table();
        proof {
            crate::lenient::lemma_run_output_bound(
                input@,
                table@,
                padded,
                self.semantics.continues_after_padding,
            );
        }
        match decode_lenient_slice_into(
            input,
            output,
            &table,
            self.policy.altchars,
            padded,
            self.semantics.continues_after_padding,
            self.features,
        ) {
            Ok(Some(written)) => Ok(Some(written)),
            Ok(None) => Ok(None),
            Err(OutputTooSmall { required, provided }) => Err(
                DecodeFailure::OutputTooSmall { required, provided },
            ),
        }
    }
}

} // verus!
