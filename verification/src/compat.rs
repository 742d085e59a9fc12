//! The CPython versions whose Base64 rules differ, and the rules each follows.

use vstd::prelude::*;

use crate::lenient::{continues_after_padding_spec, version_continues_after_padding};

verus! {

/// The binascii keyword arguments that a CPython version accepts.
#[derive(Clone, Copy, Debug, PartialEq, Eq, Structural)]
pub enum BinasciiApi {
    /// Neither `strict_mode` nor `padded`.
    Legacy,
    /// `strict_mode`, from 3.11.
    StrictMode,
    /// `strict_mode` and `padded`, from 3.15.
    Padding,
}

/// The decoding and warning rules of one CPython version.
#[derive(Clone, Copy, Debug, PartialEq, Eq, Structural)]
pub struct PythonSemantics {
    pub major: u8,
    pub minor: u8,
    pub patch: u8,
    pub binascii_api: BinasciiApi,
    /// The URL-safe decoder rejects the standard `+` and `/`.
    pub urlsafe_exclusive_alphabet: bool,
    /// Alternative characters other than two bytes are warned about.
    pub warns_legacy_altchars: bool,
    /// Non-strict decoding continues after a complete padding sequence.
    pub continues_after_padding: bool,
}

/// Whether the release `(major, minor)` is at least `(at_major, at_minor)`.
pub open spec fn minor_at_least(major: u8, minor: u8, at_major: u8, at_minor: u8) -> bool {
    major > at_major || (major == at_major && minor >= at_minor)
}

/// The binascii API of a release.
pub open spec fn binascii_api_spec(major: u8, minor: u8) -> BinasciiApi {
    if minor_at_least(major, minor, 3, 15) {
        BinasciiApi::Padding
    } else if minor_at_least(major, minor, 3, 11) {
        BinasciiApi::StrictMode
    } else {
        BinasciiApi::Legacy
    }
}

fn release_at_least(major: u8, minor: u8, at_major: u8, at_minor: u8) -> (at_least: bool)
    ensures
        at_least == minor_at_least(major, minor, at_major, at_minor),
{
    major > at_major || (major == at_major && minor >= at_minor)
}

impl PythonSemantics {
    /// The rules of the CPython version `(major, minor, patch)`.
    pub fn from_version(version: (u8, u8, u8)) -> (semantics: Self)
        ensures
            semantics.major == version.0,
            semantics.minor == version.1,
            semantics.patch == version.2,
            semantics.binascii_api == binascii_api_spec(version.0, version.1),
            semantics.urlsafe_exclusive_alphabet == minor_at_least(version.0, version.1, 3, 15),
            semantics.warns_legacy_altchars == minor_at_least(version.0, version.1, 3, 15),
            semantics.continues_after_padding == continues_after_padding_spec(
                version.0,
                version.1,
                version.2,
            ),
    {
        let (major, minor, patch) = version;
        let binascii_api = if release_at_least(major, minor, 3, 15) {
            BinasciiApi::Padding
        } else if release_at_least(major, minor, 3, 11) {
            BinasciiApi::StrictMode
        } else {
            BinasciiApi::Legacy
        };
        let urlsafe_315 = release_at_least(major, minor, 3, 15);
        PythonSemantics {
            major,
            minor,
            patch,
            binascii_api,
            urlsafe_exclusive_alphabet: urlsafe_315,
            warns_legacy_altchars: urlsafe_315,
            continues_after_padding: version_continues_after_padding(major, minor, patch),
        }
    }

    /// Whether this version is at least the release `version`.
    pub fn at_least(self, version: (u8, u8)) -> (at_least: bool)
        ensures
            at_least == minor_at_least(self.major, self.minor, version.0, version.1),
    {
        release_at_least(self.major, self.minor, version.0, version.1)
    }

    /// Whether binascii takes `strict_mode`.
    pub fn binascii_accepts_strict_mode(self) -> (accepts: bool)
        ensures
            accepts == (self.binascii_api != BinasciiApi::Legacy),
    {
        !matches!(self.binascii_api, BinasciiApi::Legacy)
    }

    /// Whether binascii takes `padded`.
    pub fn binascii_accepts_padding(self) -> (accepts: bool)
        ensures
            accepts == (self.binascii_api == BinasciiApi::Padding),
    {
        matches!(self.binascii_api, BinasciiApi::Padding)
    }
}

/// Alternative characters that are not exactly two bytes long.
#[derive(Clone, Copy, Debug, PartialEq, Eq, Structural)]
pub struct InvalidAltchars {
    pub len: usize,
}

/// The alternative characters that `bytes` gives: exactly two bytes, where
/// the standard pair `+/` means no alternative at all.
pub fn altchars_from_bytes(bytes: &[u8]) -> (altchars: Result<Option<[u8; 2]>, InvalidAltchars>)
    ensures
        bytes@.len() != 2 <==> altchars is Err,
        altchars matches Err(e) ==> e.len == bytes@.len(),
        altchars matches Ok(pair) ==> if bytes@[0] == 43 && bytes@[1] == 47 {
            pair is None
        } else {
            pair matches Some(p) && p@ == bytes@
        },
{
    if bytes.len() != 2 {
        return Err(InvalidAltchars { len: bytes.len() });
    }
    if bytes[0] == 43 && bytes[1] == 47 {
        Ok(None)
    } else {
        let pair = [bytes[0], bytes[1]];
        assert(pair@ =~= bytes@);
        Ok(Some(pair))
    }
}

/// The oldest CPython release that the bindings support.
pub const SUPPORTED_SINCE: (u8, u8) = (3, 10);

/// Whether a binding available since `since` exists in the release
/// `version`.
pub fn available_in(since: (u8, u8), version: (u8, u8)) -> (available: bool)
    ensures
        available == minor_at_least(version.0, version.1, since.0, since.1),
{
    release_at_least(version.0, version.1, since.0, since.1)
}

/// The text that a release shows: its own from Python 3.15 when there is
/// one, the default otherwise.
pub fn select_for_version<T: Copy>(version: (u8, u8), default: T, python_315: Option<T>) -> (selected: T)
    ensures
        selected == if minor_at_least(version.0, version.1, 3, 15) && python_315 is Some {
            python_315.unwrap()
        } else {
            default
        },
{
    if release_at_least(version.0, version.1, 3, 15) {
        match python_315 {
            Some(text) => text,
            None => default,
        }
    } else {
        default
    }
}

} // verus!
