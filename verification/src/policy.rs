//! Decode policies: what the caller asked for, and the route that serves it.

use vstd::prelude::*;

use crate::compat::PythonSemantics;
use crate::error::Base64Error;

verus! {

/// Whether complete input ends in `=` padding.
#[derive(Clone, Copy, Debug, PartialEq, Eq, Structural)]
pub enum Padding {
    Padded,
    Unpadded,
}

impl Padding {
    pub fn new(padded: bool) -> (padding: Self)
        ensures
            padding == (if padded {
                Padding::Padded
            } else {
                Padding::Unpadded
            }),
    {
        if padded {
            Padding::Padded
        } else {
            Padding::Unpadded
        }
    }

    pub fn is_padded(self) -> (padded: bool)
        ensures
            padded == (self == Padding::Padded),
    {
        matches!(self, Padding::Padded)
    }
}

/// Whether bytes outside the alphabet are discarded or rejected.
#[derive(Clone, Copy, Debug, PartialEq, Eq, Structural)]
pub enum Validation {
    Lenient,
    Strict,
}

impl Validation {
    pub fn is_strict(self) -> (strict: bool)
        ensures
            strict == (self == Validation::Strict),
    {
        matches!(self, Validation::Strict)
    }
}

/// What a failed decode may leave in a caller's destination.
#[derive(Clone, Copy, Debug, PartialEq, Eq, Structural)]
pub enum ErrorWrites {
    /// The destination is left as it was.
    PreserveOutput,
    /// Complete validated blocks may be written; the rest stays untouched,
    /// so a lenient retry can produce a shorter result.
    ValidatedPrefix,
    /// A strict attempt may also write within the failing block.
    MayWrite,
}

impl ErrorWrites {
    pub fn transactional(self) -> (transactional: bool)
        ensures
            transactional == (self == ErrorWrites::PreserveOutput),
    {
        matches!(self, ErrorWrites::PreserveOutput)
    }

    pub fn validated_prefix_only(self) -> (prefix_only: bool)
        ensures
            prefix_only == (self == ErrorWrites::ValidatedPrefix),
    {
        matches!(self, ErrorWrites::ValidatedPrefix)
    }
}

/// Whether an undersized destination is reported at once or left to the
/// fallback decoder.
#[derive(Clone, Copy, Debug, PartialEq, Eq, Structural)]
pub enum StoreBounds {
    DeferToFallback,
    ReportImmediately,
}

/// Probes defer capacity failures to the next decoder; strict attempts
/// report them.
#[derive(Clone, Copy, Debug, PartialEq, Eq, Structural)]
pub enum DecodeAttempt {
    Probe,
    Strict,
}

/// What an attempt makes of a decoder's result.
pub open spec fn accept_spec<T>(attempt: DecodeAttempt, result: Result<T, Base64Error>) -> Result<
    Option<T>,
    Base64Error,
> {
    match result {
        Ok(value) => Ok(Some(value)),
        Err(error) => if attempt == DecodeAttempt::Strict && error is OutputTooSmall {
            Err(error)
        } else {
            Ok(None)
        },
    }
}

impl DecodeAttempt {
    pub fn error_writes(self) -> (writes: ErrorWrites)
        ensures
            writes == (match self {
                DecodeAttempt::Probe => ErrorWrites::ValidatedPrefix,
                DecodeAttempt::Strict => ErrorWrites::MayWrite,
            }),
    {
        match self {
            DecodeAttempt::Probe => ErrorWrites::ValidatedPrefix,
            DecodeAttempt::Strict => ErrorWrites::MayWrite,
        }
    }

    /// A value is kept; an undersized destination is an error for a strict
    /// attempt; every other failure passes the input on to the next decoder.
    pub fn accept<T>(self, result: Result<T, Base64Error>) -> (accepted: Result<
        Option<T>,
        Base64Error,
    >)
        ensures
            accepted == accept_spec(self, result),
    {
        match result {
            Ok(value) => Ok(Some(value)),
            Err(error) => {
                if matches!(self, DecodeAttempt::Strict) && matches!(
                    error,
                    Base64Error::OutputTooSmall { .. }
                ) {
                    Err(error)
                } else {
                    Ok(None)
                }
            },
        }
    }
}

/// A set of bytes, one bit per byte value.
#[derive(Clone, Copy, Debug)]
pub struct IgnoredBytes {
    pub words: [u64; 4],
}

/// Whether bit `bit` of `word` is set.
pub open spec fn word_bit(word: u64, bit: u64) -> bool {
    (word >> bit) & 1 == 1
}

proof fn lemma_set_bit(word: u64, bit: u64, other: u64)
    requires
        bit < 64,
        other < 64,
    ensures
        word_bit(word | (1u64 << bit), other) == (other == bit || word_bit(word, other)),
        (word & (1u64 << bit) != 0) == word_bit(word, bit),
{
    assert(word_bit(word | (1u64 << bit), other) == (other == bit || word_bit(word, other)))
        by (bit_vector)
        requires
            bit < 64,
            other < 64,
    ;
    assert((word & (1u64 << bit) != 0) == word_bit(word, bit)) by (bit_vector)
        requires
            bit < 64,
    ;
}

proof fn lemma_zero_word(bit: u64)
    requires
        bit < 64,
    ensures
        !word_bit(0, bit),
{
    assert(!word_bit(0, bit)) by (bit_vector);
}

impl IgnoredBytes {
    /// Whether `byte` is in the set.
    pub open spec fn has(self, byte: u8) -> bool {
        word_bit(self.words[(byte / 64) as int], (byte % 64) as u64)
    }

    /// The empty set.
    pub fn new() -> (set: Self)
        ensures
            forall|byte: u8| !set.has(byte),
    {
        let set = IgnoredBytes { words: [0u64; 4] };
        proof {
            assert forall|byte: u8| !set.has(byte) by {
                lemma_zero_word((byte % 64) as u64);
            }
        }
        set
    }

    /// Add `byte`; every other byte keeps its membership.
    pub fn insert(&mut self, byte: u8)
        ensures
            forall|other: u8| #[trigger]
                final(self).has(other) == (other == byte || old(self).has(other)),
    {
        let index = (byte / 64) as usize;
        let bit = (byte % 64) as u64;
        self.words[index] = self.words[index] | (1u64 << bit);
        proof {
            assert forall|other: u8| #[trigger]
                self.has(other) == (other == byte || old(self).has(other)) by {
                lemma_set_bit(old(self).words[index as int], bit, (other % 64) as u64);
                if other / 64 == byte / 64 && other % 64 == bit {
                    assert(other == byte);
                }
            }
        }
    }

    /// Whether `byte` is in the set.
    pub fn contains(self, byte: u8) -> (present: bool)
        ensures
            present == self.has(byte),
    {
        let bit = (byte % 64) as u64;
        proof {
            lemma_set_bit(self.words[(byte / 64) as int], bit, bit);
        }
        self.words[(byte / 64) as usize] & (1u64 << bit) != 0
    }

    /// The set as one flag per byte value.
    pub fn to_flags(self) -> (flags: [bool; 256])
        ensures
            forall|i: int| 0 <= i < 256 ==> flags@[i] == self.has(i as u8),
    {
        let mut flags = [false; 256];
        let mut i: usize = 0;
        while i < 256
            invariant
                i <= 256,
                flags@.len() == 256,
                forall|j: int| 0 <= j < i ==> flags@[j] == self.has(j as u8),
            decreases 256 - i,
        {
            flags[i] = self.contains(i as u8);
            i = i + 1;
        }
        flags
    }
}

/// The set of the bytes of `bytes`.
pub fn ignored_bytes_from(bytes: &[u8]) -> (set: IgnoredBytes)
    ensures
        forall|byte: u8| set.has(byte) <==> bytes@.contains(byte),
{
    let mut set = IgnoredBytes::new();
    let mut i: usize = 0;
    while i < bytes.len()
        invariant
            i <= bytes@.len(),
            bytes@.len() == bytes.len(),
            forall|byte: u8| set.has(byte) <==> bytes@.take(i as int).contains(byte),
        decreases bytes@.len() - i,
    {
        set.insert(bytes[i]);
        proof {
            let a = bytes@.take(i as int);
            let b = bytes@.take(i + 1);
            assert(b =~= a.push(bytes@[i as int]));
            assert forall|byte: u8| set.has(byte) <==> b.contains(byte) by {
                if a.contains(byte) {
                    let k = choose|k: int| 0 <= k < a.len() && #[trigger] a[k] == byte;
                    assert(b[k] == byte);
                }
                if b.contains(byte) && byte != bytes@[i as int] {
                    let k = choose|k: int| 0 <= k < b.len() && #[trigger] b[k] == byte;
                    assert(a[k] == byte);
                }
                if byte == bytes@[i as int] {
                    assert(b[i as int] == byte);
                }
            }
        }
        i = i + 1;
    }
    proof {
        assert(bytes@.take(bytes@.len() as int) =~= bytes@);
    }
    set
}

/// What the caller asked of a decoder.
pub struct DecodePolicy {
    pub altchars: Option<[u8; 2]>,
    pub validate: Option<bool>,
    pub padding: Padding,
    /// The bytes to discard, when the caller named any.
    pub ignorechars: Option<Vec<u8>>,
    /// The bytes to discard were given as an exact `bytes` object.
    pub ignorechars_exact_bytes: bool,
    pub canonical: bool,
}

/// The validation a policy asks for: strict when asked, and by default
/// whenever bytes to discard are named.
pub open spec fn validation_spec(validate: Option<bool>, ignorechars_specified: bool) -> Validation {
    let strict = match validate {
        Some(v) => v,
        None => ignorechars_specified,
    };
    if strict {
        Validation::Strict
    } else {
        Validation::Lenient
    }
}

impl DecodePolicy {
    pub fn new(
        altchars: Option<[u8; 2]>,
        validate: Option<bool>,
        padded: bool,
        ignorechars: Option<Vec<u8>>,
        ignorechars_exact_bytes: bool,
        canonical: bool,
    ) -> (policy: Self)
        ensures
            policy.altchars == altchars,
            policy.validate == validate,
            policy.padding == (if padded {
                Padding::Padded
            } else {
                Padding::Unpadded
            }),
            policy.ignorechars == ignorechars,
            policy.ignorechars_exact_bytes == ignorechars_exact_bytes,
            policy.canonical == canonical,
    {
        DecodePolicy {
            altchars,
            validate,
            padding: Padding::new(padded),
            ignorechars,
            ignorechars_exact_bytes,
            canonical,
        }
    }

    /// Standard Base64 with padding and non-strict validation.
    pub fn standard() -> (policy: Self)
        ensures
            policy.altchars is None,
            policy.validate == Some(false),
            policy.padding == Padding::Padded,
            policy.ignorechars is None,
            !policy.canonical,
    {
        DecodePolicy::new(None, Some(false), true, None, false, false)
    }

    /// URL-safe Base64 with non-strict validation.
    pub fn urlsafe(padded: bool) -> (policy: Self)
        ensures
            policy.altchars == Some([45u8, 95u8]),
            policy.validate == Some(false),
            policy.padding == (if padded {
                Padding::Padded
            } else {
                Padding::Unpadded
            }),
            policy.ignorechars is None,
            !policy.canonical,
    {
        DecodePolicy::new(Some([45u8, 95u8]), Some(false), padded, None, false, false)
    }

    pub fn validation(&self) -> (validation: Validation)
        ensures
            validation == validation_spec(self.validate, self.ignorechars is Some),
    {
        let strict = match self.validate {
            Some(v) => v,
            None => self.ignorechars.is_some(),
        };
        if strict {
            Validation::Strict
        } else {
            Validation::Lenient
        }
    }
}

/// A policy with its discarded bytes collected into a set.
#[derive(Clone, Copy, Debug)]
pub struct PreparedPolicy {
    pub altchars: Option<[u8; 2]>,
    pub validation: Validation,
    pub padding: Padding,
    pub ignorechars_specified: bool,
    pub ignored: Option<IgnoredBytes>,
    pub canonical: bool,
}

impl PreparedPolicy {
    /// Collect the policy, and say whether its discarded bytes were an empty
    /// exact `bytes` object.
    pub fn prepare(policy: &DecodePolicy) -> (prepared: (Self, bool))
        ensures
            prepared.0.altchars == policy.altchars,
            prepared.0.validation == validation_spec(policy.validate, policy.ignorechars is Some),
            prepared.0.padding == policy.padding,
            prepared.0.ignorechars_specified == policy.ignorechars is Some,
            prepared.0.canonical == policy.canonical,
            match policy.ignorechars {
                Some(bytes) => prepared.0.ignored matches Some(set) && forall|byte: u8|
                    set.has(byte) <==> bytes@.contains(byte),
                None => prepared.0.ignored is None,
            },
            prepared.1 == (policy.ignorechars matches Some(bytes) && policy.ignorechars_exact_bytes
                && bytes@.len() == 0),
    {
        let ignored = match &policy.ignorechars {
            Some(bytes) => Some(ignored_bytes_from(bytes.as_slice())),
            None => None,
        };
        let empty_exact = match &policy.ignorechars {
            Some(bytes) => policy.ignorechars_exact_bytes && bytes.len() == 0,
            None => false,
        };
        (
            PreparedPolicy {
                altchars: policy.altchars,
                validation: policy.validation(),
                padding: policy.padding,
                ignorechars_specified: policy.ignorechars.is_some(),
                ignored,
                canonical: policy.canonical,
            },
            empty_exact,
        )
    }

    pub fn strict_mode(&self) -> (strict: bool)
        ensures
            strict == (self.validation == Validation::Strict),
    {
        self.validation.is_strict()
    }

    /// Strict decoding may write before it fails; non-strict decoding leaves
    /// the destination for the fallback.
    pub fn error_writes(&self) -> (writes: ErrorWrites)
        ensures
            writes == (if self.validation == Validation::Strict {
                ErrorWrites::MayWrite
            } else {
                ErrorWrites::PreserveOutput
            }),
    {
        if self.strict_mode() {
            ErrorWrites::MayWrite
        } else {
            ErrorWrites::PreserveOutput
        }
    }

    pub fn store_bounds(&self) -> (bounds: StoreBounds)
        ensures
            bounds == (if self.validation == Validation::Strict {
                StoreBounds::ReportImmediately
            } else {
                StoreBounds::DeferToFallback
            }),
    {
        if self.strict_mode() {
            StoreBounds::ReportImmediately
        } else {
            StoreBounds::DeferToFallback
        }
    }

    /// The same alphabet and padding, strictly validated, without discarded
    /// bytes or canonical checks.
    pub fn strict_custom(&self) -> (policy: Self)
        ensures
            policy == (PreparedPolicy {
                altchars: self.altchars,
                validation: Validation::Strict,
                padding: self.padding,
                ignorechars_specified: false,
                ignored: None,
                canonical: false,
            }),
    {
        PreparedPolicy {
            altchars: self.altchars,
            validation: Validation::Strict,
            padding: self.padding,
            ignorechars_specified: false,
            ignored: None,
            canonical: false,
        }
    }
}

/// A faster decoder that a configured route may try first.
#[derive(Clone, Copy, Debug, PartialEq, Eq, Structural)]
pub enum ConfiguredShortcut {
    /// No shortcut: the configured decoder alone.
    Plain,
    StandardStrict,
    CanonicalUnpadded,
}

/// The decoder that serves a policy.
#[derive(Clone, Copy, Debug, PartialEq, Eq, Structural)]
pub enum DecodeRoute {
    Configured(ConfiguredShortcut),
    Strict { urlsafe_315: bool },
    LenientDirect { urlsafe_315: bool },
    LenientCustom,
}

/// Whether the alternative characters are the URL-safe `-_`.
pub open spec fn is_urlsafe_altchars(altchars: Option<[u8; 2]>) -> bool {
    altchars matches Some(pair) && pair[0] == 45 && pair[1] == 95
}

/// The route for a prepared policy.
pub open spec fn route_spec(
    policy: PreparedPolicy,
    empty_exact_ignorechars: bool,
    semantics: PythonSemantics,
) -> DecodeRoute {
    let padded = policy.padding == Padding::Padded;
    let standard_strict = policy.altchars is None && padded && (!policy.ignorechars_specified
        || empty_exact_ignorechars) && (policy.canonical || empty_exact_ignorechars);
    let urlsafe_315 = semantics.urlsafe_exclusive_alphabet && is_urlsafe_altchars(
        policy.altchars,
    );
    if policy.ignorechars_specified || policy.canonical {
        DecodeRoute::Configured(
            if standard_strict {
                ConfiguredShortcut::StandardStrict
            } else if !policy.ignorechars_specified && policy.canonical && !padded {
                ConfiguredShortcut::CanonicalUnpadded
            } else {
                ConfiguredShortcut::Plain
            },
        )
    } else if policy.validation == Validation::Strict {
        DecodeRoute::Strict { urlsafe_315 }
    } else if policy.altchars is None || is_urlsafe_altchars(policy.altchars) {
        DecodeRoute::LenientDirect { urlsafe_315 }
    } else {
        DecodeRoute::LenientCustom
    }
}

fn is_urlsafe_pair(altchars: Option<[u8; 2]>) -> (urlsafe: bool)
    ensures
        urlsafe == is_urlsafe_altchars(altchars),
{
    match altchars {
        Some(pair) => pair[0] == 45 && pair[1] == 95,
        None => false,
    }
}

/// Choose the decoder for a prepared policy: discarded bytes or canonical
/// checks need the configured decoder, with a shortcut where one applies;
/// otherwise strict policies take the strict decoder and the standard and
/// URL-safe alphabets the direct non-strict one.
pub fn select_route(
    policy: &PreparedPolicy,
    empty_exact_ignorechars: bool,
    semantics: PythonSemantics,
) -> (route: DecodeRoute)
    ensures
        route == route_spec(*policy, empty_exact_ignorechars, semantics),
{
    let padded = policy.padding.is_padded();
    let standard_strict = policy.altchars.is_none() && padded && (!policy.ignorechars_specified
        || empty_exact_ignorechars) && (policy.canonical || empty_exact_ignorechars);
    if policy.ignorechars_specified || policy.canonical {
        let shortcut = if standard_strict {
            ConfiguredShortcut::StandardStrict
        } else if !policy.ignorechars_specified && policy.canonical && !padded {
            ConfiguredShortcut::CanonicalUnpadded
        } else {
            ConfiguredShortcut::Plain
        };
        return DecodeRoute::Configured(shortcut);
    }
    let urlsafe = is_urlsafe_pair(policy.altchars);
    let urlsafe_315 = semantics.urlsafe_exclusive_alphabet && urlsafe;
    if policy.strict_mode() {
        return DecodeRoute::Strict { urlsafe_315 };
    }
    if policy.altchars.is_none() || urlsafe {
        DecodeRoute::LenientDirect { urlsafe_315 }
    } else {
        DecodeRoute::LenientCustom
    }
}

} // verus!
