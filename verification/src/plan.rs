//! Decode plans: the ordered decoders that a set of options tries.

use vstd::prelude::*;

use crate::compat::PythonSemantics;
use crate::policy::{
    is_urlsafe_altchars, route_spec, ConfiguredShortcut, DecodeRoute, Padding, PreparedPolicy,
    Validation,
};

verus! {

/// What the caller asked of a decode.
pub struct DecodeOptions {
    pub altchars: Option<[u8; 2]>,
    pub validate: Option<bool>,
    pub padded: bool,
    /// The bytes to discard, when the caller named any.
    pub ignorechars: Option<Vec<u8>>,
    /// The bytes to discard were given as an exact `bytes` object.
    pub ignorechars_exact_bytes: bool,
    pub canonical: bool,
}

impl DecodeOptions {
    pub fn new(
        altchars: Option<[u8; 2]>,
        validate: Option<bool>,
        padded: bool,
        ignorechars: Option<Vec<u8>>,
        ignorechars_exact_bytes: bool,
        canonical: bool,
    ) -> (options: Self)
        ensures
            options.altchars == altchars,
            options.validate == validate,
            options.padded == padded,
            options.ignorechars == ignorechars,
            options.ignorechars_exact_bytes == ignorechars_exact_bytes,
            options.canonical == canonical,
    {
        DecodeOptions { altchars, validate, padded, ignorechars, ignorechars_exact_bytes, canonical }
    }

    /// Standard Base64 with padding and non-strict validation.
    pub fn standard() -> (options: Self)
        ensures
            options.altchars is None,
            options.validate == Some(false),
            options.padded,
            options.ignorechars is None,
            !options.canonical,
    {
        DecodeOptions::new(None, Some(false), true, None, false, false)
    }

    /// URL-safe Base64 with non-strict validation.
    pub fn urlsafe(padded: bool) -> (options: Self)
        ensures
            options.altchars == Some([45u8, 95u8]),
            options.validate == Some(false),
            options.padded == padded,
            options.ignorechars is None,
            !options.canonical,
    {
        DecodeOptions::new(Some([45u8, 95u8]), Some(false), padded, None, false, false)
    }

    /// Strict when asked, and by default whenever bytes to discard are named.
    pub open spec fn strict_mode_spec(&self) -> bool {
        match self.validate {
            Some(v) => v,
            None => self.ignorechars is Some,
        }
    }

    pub fn strict_mode(&self) -> (strict: bool)
        ensures
            strict == self.strict_mode_spec(),
    {
        match self.validate {
            Some(v) => v,
            None => self.ignorechars.is_some(),
        }
    }
}

/// One decoder that a plan may try.
#[derive(Clone, Copy, Debug, PartialEq, Eq, Structural)]
pub enum DecodeAttempt {
    Urlsafe315,
    StandardStrict,
    Strict,
    StrictProbe,
    MimeWhitespace,
    Unpadded,
    Lenient,
    CanonicalUnpadded,
    Advanced,
    Binascii,
}

/// An ordered list of decoders.
#[derive(Clone, Copy, Debug, PartialEq, Eq, Structural)]
pub enum DecodeStrategy {
    Advanced,
    StandardStrictThenAdvanced,
    CanonicalUnpaddedThenAdvanced,
    StrictPadded,
    StrictUnpadded,
    Urlsafe315StrictPadded,
    Urlsafe315StrictUnpadded,
    LenientDirectPadded,
    LenientDirectUnpadded,
    Urlsafe315LenientDirectPadded,
    Urlsafe315LenientDirectUnpadded,
    LenientCustomPadded,
    LenientCustomUnpadded,
}

/// The facts about a decode that choose its strategy.
#[derive(Clone, Copy, Debug)]
pub struct DecodeConfiguration {
    pub altchars: Option<[u8; 2]>,
    pub padded: bool,
    pub strict_mode: bool,
    pub ignorechars_specified: bool,
    pub empty_ignorechars: bool,
    pub canonical: bool,
    pub python_315: bool,
}

impl Default for DecodeConfiguration {
    fn default() -> (configuration: Self)
        ensures
            configuration.altchars is None,
            !configuration.padded,
            !configuration.strict_mode,
            !configuration.ignorechars_specified,
            !configuration.empty_ignorechars,
            !configuration.canonical,
            !configuration.python_315,
    {
        DecodeConfiguration {
            altchars: None,
            padded: false,
            strict_mode: false,
            ignorechars_specified: false,
            empty_ignorechars: false,
            canonical: false,
            python_315: false,
        }
    }
}

/// The strategy for a configuration: discarded bytes or canonical checks
/// need the advanced decoder, after a shortcut where one applies; strict
/// decoding tries the strict decoder, then binascii; non-strict decoding
/// probes strictly first when the alphabet allows it. Python 3.15's
/// URL-safe decoding first tries its exclusive alphabet.
pub open spec fn strategy_spec(c: DecodeConfiguration) -> DecodeStrategy {
    let standard_strict = c.altchars is None && c.padded && (!c.ignorechars_specified
        || c.empty_ignorechars) && (c.canonical || c.empty_ignorechars);
    let urlsafe = is_urlsafe_altchars(c.altchars);
    let urlsafe_315 = c.python_315 && urlsafe;
    let direct = c.altchars is None || urlsafe;
    if c.ignorechars_specified || c.canonical {
        if standard_strict {
            DecodeStrategy::StandardStrictThenAdvanced
        } else if !c.ignorechars_specified && c.canonical && !c.padded {
            DecodeStrategy::CanonicalUnpaddedThenAdvanced
        } else {
            DecodeStrategy::Advanced
        }
    } else if c.strict_mode {
        if urlsafe_315 {
            if c.padded {
                DecodeStrategy::Urlsafe315StrictPadded
            } else {
                DecodeStrategy::Urlsafe315StrictUnpadded
            }
        } else if c.padded {
            DecodeStrategy::StrictPadded
        } else {
            DecodeStrategy::StrictUnpadded
        }
    } else if urlsafe_315 {
        if c.padded {
            DecodeStrategy::Urlsafe315LenientDirectPadded
        } else {
            DecodeStrategy::Urlsafe315LenientDirectUnpadded
        }
    } else if direct {
        if c.padded {
            DecodeStrategy::LenientDirectPadded
        } else {
            DecodeStrategy::LenientDirectUnpadded
        }
    } else if c.padded {
        DecodeStrategy::LenientCustomPadded
    } else {
        DecodeStrategy::LenientCustomUnpadded
    }
}

/// The decoders that a strategy tries, in order.
pub open spec fn attempts_spec(strategy: DecodeStrategy) -> Seq<DecodeAttempt> {
    match strategy {
        DecodeStrategy::Advanced => seq![DecodeAttempt::Advanced],
        DecodeStrategy::StandardStrictThenAdvanced => seq![
            DecodeAttempt::StandardStrict,
            DecodeAttempt::Advanced,
        ],
        DecodeStrategy::CanonicalUnpaddedThenAdvanced => seq![
            DecodeAttempt::CanonicalUnpadded,
            DecodeAttempt::Advanced,
        ],
        DecodeStrategy::StrictPadded => seq![DecodeAttempt::Strict, DecodeAttempt::Binascii],
        DecodeStrategy::StrictUnpadded => seq![DecodeAttempt::Unpadded, DecodeAttempt::Binascii],
        DecodeStrategy::Urlsafe315StrictPadded => seq![
            DecodeAttempt::Urlsafe315,
            DecodeAttempt::Strict,
            DecodeAttempt::Binascii,
        ],
        DecodeStrategy::Urlsafe315StrictUnpadded => seq![
            DecodeAttempt::Urlsafe315,
            DecodeAttempt::Unpadded,
            DecodeAttempt::Binascii,
        ],
        DecodeStrategy::LenientDirectPadded => seq![
            DecodeAttempt::StrictProbe,
            DecodeAttempt::MimeWhitespace,
            DecodeAttempt::Lenient,
            DecodeAttempt::Binascii,
        ],
        DecodeStrategy::LenientDirectUnpadded => seq![
            DecodeAttempt::StrictProbe,
            DecodeAttempt::Unpadded,
            DecodeAttempt::Lenient,
            DecodeAttempt::Binascii,
        ],
        DecodeStrategy::Urlsafe315LenientDirectPadded => seq![
            DecodeAttempt::Urlsafe315,
            DecodeAttempt::StrictProbe,
            DecodeAttempt::MimeWhitespace,
            DecodeAttempt::Lenient,
            DecodeAttempt::Binascii,
        ],
        DecodeStrategy::Urlsafe315LenientDirectUnpadded => seq![
            DecodeAttempt::Urlsafe315,
            DecodeAttempt::StrictProbe,
            DecodeAttempt::Unpadded,
            DecodeAttempt::Lenient,
            DecodeAttempt::Binascii,
        ],
        DecodeStrategy::LenientCustomPadded => seq![DecodeAttempt::Lenient, DecodeAttempt::Binascii],
        DecodeStrategy::LenientCustomUnpadded => seq![
            DecodeAttempt::Unpadded,
            DecodeAttempt::Lenient,
            DecodeAttempt::Binascii,
        ],
    }
}

fn urlsafe_pair(altchars: Option<[u8; 2]>) -> (urlsafe: bool)
    ensures
        urlsafe == is_urlsafe_altchars(altchars),
{
    match altchars {
        Some(pair) => pair[0] == 45 && pair[1] == 95,
        None => false,
    }
}

impl DecodeConfiguration {
    /// The configuration of a set of options; `python_at_least_315` tells
    /// whether the running Python is 3.15 or later.
    pub fn from_options(options: &DecodeOptions, python_at_least_315: bool) -> (configuration:
        Self)
        ensures
            configuration.altchars == options.altchars,
            configuration.padded == options.padded,
            configuration.strict_mode == options.strict_mode_spec(),
            configuration.ignorechars_specified == options.ignorechars is Some,
            configuration.empty_ignorechars == (options.ignorechars matches Some(bytes)
                && options.ignorechars_exact_bytes && bytes@.len() == 0),
            configuration.canonical == options.canonical,
            configuration.python_315 == (options.ignorechars is None && !options.canonical
                && is_urlsafe_altchars(options.altchars) && python_at_least_315),
    {
        let empty_ignorechars = match &options.ignorechars {
            Some(bytes) => options.ignorechars_exact_bytes && bytes.len() == 0,
            None => false,
        };
        DecodeConfiguration {
            altchars: options.altchars,
            padded: options.padded,
            strict_mode: options.strict_mode(),
            ignorechars_specified: options.ignorechars.is_some(),
            empty_ignorechars,
            canonical: options.canonical,
            python_315: options.ignorechars.is_none() && !options.canonical && urlsafe_pair(
                options.altchars,
            ) && python_at_least_315,
        }
    }
}

impl DecodeStrategy {
    /// The strategy for a set of options.
    pub fn select(options: &DecodeOptions, python_at_least_315: bool) -> (strategy: Self)
        ensures
            strategy == strategy_spec(
                DecodeConfiguration {
                    altchars: options.altchars,
                    padded: options.padded,
                    strict_mode: options.strict_mode_spec(),
                    ignorechars_specified: options.ignorechars is Some,
                    empty_ignorechars: options.ignorechars matches Some(bytes)
                        && options.ignorechars_exact_bytes && bytes@.len() == 0,
                    canonical: options.canonical,
                    python_315: options.ignorechars is None && !options.canonical
                        && is_urlsafe_altchars(options.altchars) && python_at_least_315,
                },
            ),
    {
        DecodeStrategy::from_configuration(
            DecodeConfiguration::from_options(options, python_at_least_315),
        )
    }

    /// The strategy for a configuration.
    pub fn from_configuration(c: DecodeConfiguration) -> (strategy: Self)
        ensures
            strategy == strategy_spec(c),
    {
        let standard_strict = c.altchars.is_none() && c.padded && (!c.ignorechars_specified
            || c.empty_ignorechars) && (c.canonical || c.empty_ignorechars);
        let urlsafe = urlsafe_pair(c.altchars);
        let urlsafe_315 = c.python_315 && urlsafe;
        let direct = c.altchars.is_none() || urlsafe;
        if c.ignorechars_specified || c.canonical {
            if standard_strict {
                DecodeStrategy::StandardStrictThenAdvanced
            } else if !c.ignorechars_specified && c.canonical && !c.padded {
                DecodeStrategy::CanonicalUnpaddedThenAdvanced
            } else {
                DecodeStrategy::Advanced
            }
        } else if c.strict_mode {
            if urlsafe_315 {
                if c.padded {
                    DecodeStrategy::Urlsafe315StrictPadded
                } else {
                    DecodeStrategy::Urlsafe315StrictUnpadded
                }
            } else if c.padded {
                DecodeStrategy::StrictPadded
            } else {
                DecodeStrategy::StrictUnpadded
            }
        } else if urlsafe_315 {
            if c.padded {
                DecodeStrategy::Urlsafe315LenientDirectPadded
            } else {
                DecodeStrategy::Urlsafe315LenientDirectUnpadded
            }
        } else if direct {
            if c.padded {
                DecodeStrategy::LenientDirectPadded
            } else {
                DecodeStrategy::LenientDirectUnpadded
            }
        } else if c.padded {
            DecodeStrategy::LenientCustomPadded
        } else {
            DecodeStrategy::LenientCustomUnpadded
        }
    }

    /// The decoders that the strategy tries, in order.
    pub fn attempts(self) -> (attempts: Vec<DecodeAttempt>)
        ensures
            attempts@ == attempts_spec(self),
    {
        let attempts = match self {
            DecodeStrategy::Advanced => vec![DecodeAttempt::Advanced],
            DecodeStrategy::StandardStrictThenAdvanced => vec![
                DecodeAttempt::StandardStrict,
                DecodeAttempt::Advanced,
            ],
            DecodeStrategy::CanonicalUnpaddedThenAdvanced => vec![
                DecodeAttempt::CanonicalUnpadded,
                DecodeAttempt::Advanced,
            ],
            DecodeStrategy::StrictPadded => vec![DecodeAttempt::Strict, DecodeAttempt::Binascii],
            DecodeStrategy::StrictUnpadded => vec![
                DecodeAttempt::Unpadded,
                DecodeAttempt::Binascii,
            ],
            DecodeStrategy::Urlsafe315StrictPadded => vec![
                DecodeAttempt::Urlsafe315,
                DecodeAttempt::Strict,
                DecodeAttempt::Binascii,
            ],
            DecodeStrategy::Urlsafe315StrictUnpadded => vec![
                DecodeAttempt::Urlsafe315,
                DecodeAttempt::Unpadded,
                DecodeAttempt::Binascii,
            ],
            DecodeStrategy::LenientDirectPadded => vec![
                DecodeAttempt::StrictProbe,
                DecodeAttempt::MimeWhitespace,
                DecodeAttempt::Lenient,
                DecodeAttempt::Binascii,
            ],
            DecodeStrategy::LenientDirectUnpadded => vec![
                DecodeAttempt::StrictProbe,
                DecodeAttempt::Unpadded,
                DecodeAttempt::Lenient,
                DecodeAttempt::Binascii,
            ],
            DecodeStrategy::Urlsafe315LenientDirectPadded => vec![
                DecodeAttempt::Urlsafe315,
                DecodeAttempt::StrictProbe,
                DecodeAttempt::MimeWhitespace,
                DecodeAttempt::Lenient,
                DecodeAttempt::Binascii,
            ],
            DecodeStrategy::Urlsafe315LenientDirectUnpadded => vec![
                DecodeAttempt::Urlsafe315,
                DecodeAttempt::StrictProbe,
                DecodeAttempt::Unpadded,
                DecodeAttempt::Lenient,
                DecodeAttempt::Binascii,
            ],
            DecodeStrategy::LenientCustomPadded => vec![
                DecodeAttempt::Lenient,
                DecodeAttempt::Binascii,
            ],
            DecodeStrategy::LenientCustomUnpadded => vec![
                DecodeAttempt::Unpadded,
                DecodeAttempt::Lenient,
                DecodeAttempt::Binascii,
            ],
        };
        assert(attempts@ =~= attempts_spec(self));
        attempts
    }
}

/// The decoders that plain strict options try: none unless the options are
/// strict without discarded bytes or canonical checks; then Python 3.15's
/// exclusive URL-safe alphabet where it applies, the padded or unpadded
/// strict decoder, and binascii.
pub open spec fn strict_attempts_spec(options: &DecodeOptions, python_at_least_315: bool) -> Seq<
    DecodeAttempt,
> {
    if options.ignorechars is None && !options.canonical && options.strict_mode_spec() {
        (if is_urlsafe_altchars(options.altchars) && python_at_least_315 {
            seq![DecodeAttempt::Urlsafe315]
        } else {
            Seq::empty()
        }) + seq![
            if options.padded {
                DecodeAttempt::Strict
            } else {
                DecodeAttempt::Unpadded
            },
            DecodeAttempt::Binascii,
        ]
    } else {
        Seq::empty()
    }
}

/// The decoders that plain strict options try, in order.
pub fn strict_attempts(options: &DecodeOptions, python_at_least_315: bool) -> (attempts: Vec<
    DecodeAttempt,
>)
    ensures
        attempts@ == strict_attempts_spec(options, python_at_least_315),
{
    let mut attempts: Vec<DecodeAttempt> = Vec::new();
    if options.ignorechars.is_none() && !options.canonical && options.strict_mode() {
        if urlsafe_pair(options.altchars) && python_at_least_315 {
            attempts.push(DecodeAttempt::Urlsafe315);
        }
        if options.padded {
            attempts.push(DecodeAttempt::Strict);
        } else {
            attempts.push(DecodeAttempt::Unpadded);
        }
        attempts.push(DecodeAttempt::Binascii);
    }
    assert(attempts@ =~= strict_attempts_spec(options, python_at_least_315));
    attempts
}

/// The route of the prepared decoder that carries out a strategy.
pub open spec fn strategy_route(strategy: DecodeStrategy) -> DecodeRoute {
    match strategy {
        DecodeStrategy::Advanced => DecodeRoute::Configured(ConfiguredShortcut::Plain),
        DecodeStrategy::StandardStrictThenAdvanced => DecodeRoute::Configured(
            ConfiguredShortcut::StandardStrict,
        ),
        DecodeStrategy::CanonicalUnpaddedThenAdvanced => DecodeRoute::Configured(
            ConfiguredShortcut::CanonicalUnpadded,
        ),
        DecodeStrategy::StrictPadded | DecodeStrategy::StrictUnpadded => DecodeRoute::Strict {
            urlsafe_315: false,
        },
        DecodeStrategy::Urlsafe315StrictPadded
        | DecodeStrategy::Urlsafe315StrictUnpadded => DecodeRoute::Strict { urlsafe_315: true },
        DecodeStrategy::LenientDirectPadded
        | DecodeStrategy::LenientDirectUnpadded => DecodeRoute::LenientDirect { urlsafe_315: false },
        DecodeStrategy::Urlsafe315LenientDirectPadded
        | DecodeStrategy::Urlsafe315LenientDirectUnpadded => DecodeRoute::LenientDirect {
            urlsafe_315: true,
        },
        DecodeStrategy::LenientCustomPadded
        | DecodeStrategy::LenientCustomUnpadded => DecodeRoute::LenientCustom,
    }
}

/// The two routers agree: for the same options and Python version, the
/// strategy of a plan is carried out by the route that the prepared decoder
/// chooses.
pub proof fn lemma_strategy_matches_route(
    c: DecodeConfiguration,
    policy: PreparedPolicy,
    semantics: PythonSemantics,
)
    requires
        c.altchars == policy.altchars,
        c.padded == (policy.padding == Padding::Padded),
        c.strict_mode == (policy.validation == Validation::Strict),
        c.ignorechars_specified == policy.ignorechars_specified,
        c.canonical == policy.canonical,
        c.python_315 == (!c.ignorechars_specified && !c.canonical && is_urlsafe_altchars(
            c.altchars,
        ) && semantics.urlsafe_exclusive_alphabet),
    ensures
        strategy_route(strategy_spec(c)) == route_spec(policy, c.empty_ignorechars, semantics),
{
}

} // verus!
