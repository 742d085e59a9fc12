//! What decoding gives back of an encoding.

use vstd::prelude::*;

use crate::alphabet::{
    is_alphanumeric, lemma_std_char_value, lemma_std_value_char, lenient_table, lenient_table_value,
    std_alphabet, std_char,
};
use crate::configured::{
    configured_table, configured_value, push_symbol, scan_initial, scan_outcome, scan_run,
    scan_step, ScanRules, ScanState, EQUALS,
};
use crate::encode::{
    altchars_alphabet, encode_group, encode_groups, encode_spec, lemma_encode_groups_len, encode_tail, wrap_spec, NEWLINE,
    PAD_BYTE,
};
use crate::compat::PythonSemantics;
use crate::execution::{
    first_some, policy_rules, standard_canonical_spec, strict_outcome, strict_rules, PreparedDecoder,
};
use crate::lenient::{lenient_incomplete, lenient_run, lenient_step, LenientState};
use crate::policy::{is_urlsafe_altchars, route_spec, DecodeAttempt, DecodeRoute, Padding, PreparedPolicy, Validation};
use crate::symbols::CpuFeatures;

verus! {

/// Alternative characters that a decoder can tell apart from the rest of
/// the alphabet and from padding: two distinct bytes, neither a letter, a
/// digit nor `=`.
pub open spec fn distinct_altchars(altchars: Option<[u8; 2]>) -> bool {
    match altchars {
        Some(pair) => pair[0] != pair[1] && !is_alphanumeric(pair[0]) && !is_alphanumeric(pair[1])
            && pair[0] != EQUALS && pair[1] != EQUALS,
        None => true,
    }
}

/// The encoding alphabet of alternative characters.
pub open spec fn alphabet_of(altchars: Option<[u8; 2]>) -> Seq<u8> {
    match altchars {
        Some(pair) => altchars_alphabet(pair),
        None => std_alphabet(),
    }
}

proof fn lemma_sextets_invert(a: u8, b: u8, c: u8)
    ensures
        (((a >> 2u8) << 2u8) | ((((a & 3u8) << 4u8) | (b >> 4u8)) >> 4u8)) as u8 == a,
        ((((((a & 3u8) << 4u8) | (b >> 4u8)) & 0x0fu8) << 4u8) | ((((b & 15u8) << 2u8) | (c
            >> 6u8)) >> 2u8)) as u8 == b,
        ((((((b & 15u8) << 2u8) | (c >> 6u8)) & 0x03u8) << 6u8) | (c & 63u8)) as u8 == c,
        (((a >> 2u8) << 2u8) | (((a & 3u8) << 4u8) >> 4u8)) as u8 == a,
        (((a & 3u8) << 4u8) & 0x0fu8) == 0,
        ((((((a & 3u8) << 4u8) | (b >> 4u8)) & 0x0fu8) << 4u8) | (((b & 15u8) << 2u8) >> 2u8))
            as u8 == b,
        (((b & 15u8) << 2u8) & 0x03u8) == 0,
        a >> 2u8 < 64,
        ((a & 3u8) << 4u8) | (b >> 4u8) < 64,
        ((b & 15u8) << 2u8) | (c >> 6u8) < 64,
        c & 63u8 < 64,
        (a & 3u8) << 4u8 < 64,
        (b & 15u8) << 2u8 < 64,
{
    assert((((a >> 2u8) << 2u8) | ((((a & 3u8) << 4u8) | (b >> 4u8)) >> 4u8)) as u8 == a)
        by (bit_vector);
    assert(((((((a & 3u8) << 4u8) | (b >> 4u8)) & 0x0fu8) << 4u8) | ((((b & 15u8) << 2u8) | (c
        >> 6u8)) >> 2u8)) as u8 == b) by (bit_vector);
    assert(((((((b & 15u8) << 2u8) | (c >> 6u8)) & 0x03u8) << 6u8) | (c & 63u8)) as u8 == c)
        by (bit_vector);
    assert((((a >> 2u8) << 2u8) | (((a & 3u8) << 4u8) >> 4u8)) as u8 == a) by (bit_vector);
    assert((((a & 3u8) << 4u8) & 0x0fu8) == 0) by (bit_vector);
    assert(((((((a & 3u8) << 4u8) | (b >> 4u8)) & 0x0fu8) << 4u8) | (((b & 15u8) << 2u8)
        >> 2u8)) as u8 == b) by (bit_vector);
    assert((((b & 15u8) << 2u8) & 0x03u8) == 0) by (bit_vector);
    assert(a >> 2u8 < 64) by (bit_vector);
    assert(((a & 3u8) << 4u8) | (b >> 4u8) < 64) by (bit_vector);
    assert(((b & 15u8) << 2u8) | (c >> 6u8) < 64) by (bit_vector);
    assert(c & 63u8 < 64) by (bit_vector);
    assert((a & 3u8) << 4u8 < 64) by (bit_vector);
    assert((b & 15u8) << 2u8 < 64) by (bit_vector);
}

/// The decode table of distinct alternative characters reads every
/// character of their alphabet as its value, and `=` as no symbol.
pub proof fn lemma_table_inverts_alphabet(altchars: Option<[u8; 2]>, custom: bool, value: int)
    requires
        distinct_altchars(altchars),
        custom ==> altchars is Some,
        0 <= value < 64,
    ensures
        alphabet_of(altchars).len() == 64,
        configured_table(altchars, custom)[alphabet_of(altchars)[value] as int] == value,
        configured_table(altchars, custom)[EQUALS as int] >= 64,
{
    lemma_std_char_value(value);
    let c = alphabet_of(altchars)[value];
    assert(configured_table(altchars, custom)[EQUALS as int] == configured_value(
        altchars,
        custom,
        EQUALS,
    ));
    assert(configured_table(altchars, custom)[c as int] == configured_value(altchars, custom, c));
    if value < 62 {
        lemma_std_value_char(std_char(value));
    }
}

/// The non-strict decode table of distinct alternative characters reads
/// every character of their alphabet as its value, and `=` as no symbol.
pub proof fn lemma_lenient_table_inverts_alphabet(altchars: Option<[u8; 2]>, value: int)
    requires
        distinct_altchars(altchars),
        0 <= value < 64,
    ensures
        alphabet_of(altchars).len() == 64,
        lenient_table(altchars)[alphabet_of(altchars)[value] as int] == value,
        lenient_table(altchars)[EQUALS as int] >= 64,
        alphabet_of(altchars)[value] != EQUALS,
{
    lemma_std_char_value(value);
    let c = alphabet_of(altchars)[value];
    assert(lenient_table(altchars)[EQUALS as int] == lenient_table_value(altchars, EQUALS));
    assert(lenient_table(altchars)[c as int] == lenient_table_value(altchars, c));
    if value < 62 {
        lemma_std_value_char(std_char(value));
    }
}

/// The state after one more byte.
proof fn lemma_scan_push(r: ScanRules, prefix: Seq<u8>, byte: u8)
    ensures
        scan_run(r, prefix.push(byte)) == scan_step(r, scan_run(r, prefix), byte),
{
    assert(prefix.push(byte).drop_last() =~= prefix);
}

/// Whether a state is at a group boundary with `out` decoded and nothing
/// else seen.
pub open spec fn clean_boundary(s: ScanState, out: Seq<u8>) -> bool {
    &&& !s.failed
    &&& !s.done
    &&& !s.saw_padding
    &&& s.quad == 0
    &&& s.leftchar == 0
    &&& s.pads == 0
    &&& s.out == out
}

/// Configured decoding, strict or not, reads the complete groups of an
/// encoding back into the bytes that were encoded.
pub proof fn lemma_decode_groups(
    r: ScanRules,
    altchars: Option<[u8; 2]>,
    custom: bool,
    input: Seq<u8>,
)
    requires
        distinct_altchars(altchars),
        custom ==> altchars is Some,
        r.table == configured_table(altchars, custom),
        input.len() % 3 == 0,
    ensures
        clean_boundary(scan_run(r, encode_groups(alphabet_of(altchars), input)), input),
    decreases input.len(),
{
    let alphabet = alphabet_of(altchars);
    if input.len() >= 3 {
        let n = input.len() as int;
        let rest = input.take(n - 3);
        lemma_decode_groups(r, altchars, custom, rest);
        let a = input[n - 3];
        let b = input[n - 2];
        let c = input[n - 1];
        lemma_sextets_invert(a, b, c);
        let v0 = a >> 2u8;
        let v1 = ((a & 3u8) << 4u8) | (b >> 4u8);
        let v2 = ((b & 15u8) << 2u8) | (c >> 6u8);
        let v3 = c & 63u8;
        lemma_table_inverts_alphabet(altchars, custom, v0 as int);
        lemma_table_inverts_alphabet(altchars, custom, v1 as int);
        lemma_table_inverts_alphabet(altchars, custom, v2 as int);
        lemma_table_inverts_alphabet(altchars, custom, v3 as int);
        let e = encode_groups(alphabet, rest);
        let g = encode_group(alphabet, a, b, c);
        assert(encode_groups(alphabet, input) == e + g);
        let p1 = e.push(g[0]);
        let p2 = p1.push(g[1]);
        let p3 = p2.push(g[2]);
        let p4 = p3.push(g[3]);
        assert(p4 =~= e + g);
        lemma_scan_push(r, e, g[0]);
        lemma_scan_push(r, p1, g[1]);
        lemma_scan_push(r, p2, g[2]);
        lemma_scan_push(r, p3, g[3]);
        assert(rest.push(a).push(b).push(c) =~= input);
        let s4 = scan_run(r, p4);
        assert(s4.out =~= input);
    } else {
        assert(input.len() == 0);
        assert(input =~= Seq::<u8>::empty());
    }
}

/// Decoding an encoding gives back the encoded bytes: strict decoding with
/// the same distinct alternative characters accepts the padded or unpadded
/// encoding of any input and yields that input.
#[verifier::rlimit(50)]
pub proof fn lemma_decode_encode(
    r: ScanRules,
    altchars: Option<[u8; 2]>,
    custom: bool,
    padded: bool,
    input: Seq<u8>,
)
    requires
        distinct_altchars(altchars),
        custom ==> altchars is Some,
        r.table == configured_table(altchars, custom),
        r.padded == padded,
    ensures
        scan_outcome(r, encode_spec(alphabet_of(altchars), input, padded)) == Some(input),
{
    let alphabet = alphabet_of(altchars);
    let complete = input.len() / 3 * 3;
    let head = input.take(complete as int);
    let tail = input.skip(complete as int);
    assert(head.len() % 3 == 0);
    lemma_decode_groups(r, altchars, custom, head);
    let e = encode_groups(alphabet, head);
    let t = encode_tail(alphabet, tail, padded);
    lemma_table_inverts_alphabet(altchars, custom, 0);
    if tail.len() == 0 {
        assert(t =~= Seq::<u8>::empty());
        assert(e + t =~= e);
        assert(head =~= input);
    } else if tail.len() == 1 {
        let a = tail[0];
        lemma_sextets_invert(a, 0, 0);
        assert(((a & 3u8) << 4u8) & 0x0fu8 == 0) by (bit_vector);
        lemma_table_inverts_alphabet(altchars, custom, (a >> 2u8) as int);
        lemma_table_inverts_alphabet(altchars, custom, ((a & 3u8) << 4u8) as int);
        let p1 = e.push(t[0]);
        let p2 = p1.push(t[1]);
        lemma_scan_push(r, e, t[0]);
        lemma_scan_push(r, p1, t[1]);
        assert(head.push(a) =~= input);
        if padded {
            let p3 = p2.push(PAD_BYTE);
            let p4 = p3.push(PAD_BYTE);
            lemma_scan_push(r, p2, PAD_BYTE);
            lemma_scan_push(r, p3, PAD_BYTE);
            assert(p4 =~= e + t);
            assert(scan_run(r, p4).out =~= input);
        } else {
            assert(p2 =~= e + t);
            assert(scan_run(r, p2).out =~= input);
        }
    } else {
        let a = tail[0];
        let b = tail[1];
        lemma_sextets_invert(a, b, 0);
        assert(((b & 15u8) << 2u8) & 0x03u8 == 0) by (bit_vector);
        lemma_table_inverts_alphabet(altchars, custom, (a >> 2u8) as int);
        lemma_table_inverts_alphabet(altchars, custom, (((a & 3u8) << 4u8) | (b >> 4u8)) as int);
        lemma_table_inverts_alphabet(altchars, custom, ((b & 15u8) << 2u8) as int);
        let p1 = e.push(t[0]);
        let p2 = p1.push(t[1]);
        let p3 = p2.push(t[2]);
        lemma_scan_push(r, e, t[0]);
        lemma_scan_push(r, p1, t[1]);
        lemma_scan_push(r, p2, t[2]);
        assert(head.push(a).push(b) =~= input);
        if padded {
            let p4 = p3.push(PAD_BYTE);
            lemma_scan_push(r, p3, PAD_BYTE);
            assert(p4 =~= e + t);
            assert(scan_run(r, p4).out =~= input);
        } else {
            assert(p3 =~= e + t);
            assert(scan_run(r, p3).out =~= input);
        }
    }
}


/// The non-strict state after one more byte.
proof fn lemma_lenient_push(
    table: Seq<u8>,
    padded: bool,
    continue_after_padding: bool,
    prefix: Seq<u8>,
    byte: u8,
)
    ensures
        lenient_run(prefix.push(byte), table, padded, continue_after_padding) == lenient_step(
            lenient_run(prefix, table, padded, continue_after_padding),
            byte,
            table,
            padded,
            continue_after_padding,
        ),
{
    assert(prefix.push(byte).drop_last() =~= prefix);
}

/// Whether a non-strict state is at a group boundary with `out` decoded.
pub open spec fn lenient_boundary(s: LenientState, out: Seq<u8>) -> bool {
    &&& !s.stopped
    &&& s.quad == 0
    &&& s.leftchar == 0
    &&& s.pads == 0
    &&& s.out == out
}

/// Non-strict decoding reads the complete groups of an encoding back into
/// the bytes that were encoded.
pub proof fn lemma_lenient_decode_groups(
    altchars: Option<[u8; 2]>,
    padded: bool,
    continue_after_padding: bool,
    input: Seq<u8>,
)
    requires
        distinct_altchars(altchars),
        input.len() % 3 == 0,
    ensures
        lenient_boundary(
            lenient_run(
                encode_groups(alphabet_of(altchars), input),
                lenient_table(altchars),
                padded,
                continue_after_padding,
            ),
            input,
        ),
    decreases input.len(),
{
    let table = lenient_table(altchars);
    let alphabet = alphabet_of(altchars);
    if input.len() >= 3 {
        let n = input.len() as int;
        let rest = input.take(n - 3);
        lemma_lenient_decode_groups(altchars, padded, continue_after_padding, rest);
        let a = input[n - 3];
        let b = input[n - 2];
        let c = input[n - 1];
        lemma_sextets_invert(a, b, c);
        lemma_lenient_table_inverts_alphabet(altchars, (a >> 2u8) as int);
        lemma_lenient_table_inverts_alphabet(altchars, (((a & 3u8) << 4u8) | (b >> 4u8)) as int);
        lemma_lenient_table_inverts_alphabet(altchars, (((b & 15u8) << 2u8) | (c >> 6u8)) as int);
        lemma_lenient_table_inverts_alphabet(altchars, (c & 63u8) as int);
        let e = encode_groups(alphabet, rest);
        let g = encode_group(alphabet, a, b, c);
        assert(encode_groups(alphabet, input) == e + g);
        let p1 = e.push(g[0]);
        let p2 = p1.push(g[1]);
        let p3 = p2.push(g[2]);
        let p4 = p3.push(g[3]);
        assert(p4 =~= e + g);
        lemma_lenient_push(table, padded, continue_after_padding, e, g[0]);
        lemma_lenient_push(table, padded, continue_after_padding, p1, g[1]);
        lemma_lenient_push(table, padded, continue_after_padding, p2, g[2]);
        lemma_lenient_push(table, padded, continue_after_padding, p3, g[3]);
        assert(rest.push(a).push(b).push(c) =~= input);
        let s4 = lenient_run(p4, table, padded, continue_after_padding);
        assert(s4.out =~= input);
    } else {
        assert(input =~= Seq::<u8>::empty());
    }
}

/// Non-strict decoding of an encoding gives back the encoded bytes, whether
/// or not decoding continues after padding.
#[verifier::rlimit(50)]
pub proof fn lemma_lenient_decode_encode(
    altchars: Option<[u8; 2]>,
    padded: bool,
    continue_after_padding: bool,
    input: Seq<u8>,
)
    requires
        distinct_altchars(altchars),
    ensures
        ({
            let s = lenient_run(
                encode_spec(alphabet_of(altchars), input, padded),
                lenient_table(altchars),
                padded,
                continue_after_padding,
            );
            !lenient_incomplete(s, padded) && s.out == input
        }),
{
    let table = lenient_table(altchars);
    let alphabet = alphabet_of(altchars);
    let complete = input.len() / 3 * 3;
    let head = input.take(complete as int);
    let tail = input.skip(complete as int);
    lemma_lenient_decode_groups(altchars, padded, continue_after_padding, head);
    let e = encode_groups(alphabet, head);
    let t = encode_tail(alphabet, tail, padded);
    lemma_lenient_table_inverts_alphabet(altchars, 0);
    if tail.len() == 0 {
        assert(e + t =~= e);
        assert(head =~= input);
    } else if tail.len() == 1 {
        let a = tail[0];
        lemma_sextets_invert(a, 0, 0);
        lemma_lenient_table_inverts_alphabet(altchars, (a >> 2u8) as int);
        lemma_lenient_table_inverts_alphabet(altchars, ((a & 3u8) << 4u8) as int);
        let p1 = e.push(t[0]);
        let p2 = p1.push(t[1]);
        lemma_lenient_push(table, padded, continue_after_padding, e, t[0]);
        lemma_lenient_push(table, padded, continue_after_padding, p1, t[1]);
        assert(head.push(a) =~= input);
        if padded {
            let p3 = p2.push(PAD_BYTE);
            let p4 = p3.push(PAD_BYTE);
            lemma_lenient_push(table, padded, continue_after_padding, p2, PAD_BYTE);
            lemma_lenient_push(table, padded, continue_after_padding, p3, PAD_BYTE);
            assert(p4 =~= e + t);
            assert(lenient_run(p4, table, padded, continue_after_padding).out =~= input);
        } else {
            assert(p2 =~= e + t);
            assert(lenient_run(p2, table, padded, continue_after_padding).out =~= input);
        }
    } else {
        let a = tail[0];
        let b = tail[1];
        lemma_sextets_invert(a, b, 0);
        lemma_lenient_table_inverts_alphabet(altchars, (a >> 2u8) as int);
        lemma_lenient_table_inverts_alphabet(altchars, (((a & 3u8) << 4u8) | (b >> 4u8)) as int);
        lemma_lenient_table_inverts_alphabet(altchars, ((b & 15u8) << 2u8) as int);
        let p1 = e.push(t[0]);
        let p2 = p1.push(t[1]);
        let p3 = p2.push(t[2]);
        lemma_lenient_push(table, padded, continue_after_padding, e, t[0]);
        lemma_lenient_push(table, padded, continue_after_padding, p1, t[1]);
        lemma_lenient_push(table, padded, continue_after_padding, p2, t[2]);
        assert(head.push(a).push(b) =~= input);
        if padded {
            let p4 = p3.push(PAD_BYTE);
            lemma_lenient_push(table, padded, continue_after_padding, p3, PAD_BYTE);
            assert(p4 =~= e + t);
            assert(lenient_run(p4, table, padded, continue_after_padding).out =~= input);
        } else {
            assert(p3 =~= e + t);
            assert(lenient_run(p3, table, padded, continue_after_padding).out =~= input);
        }
    }
}

/// Strict padded decoding of an unpadded encoding either rejects it, when
/// its last group is partial, or gives back the encoded bytes.
#[verifier::rlimit(50)]
pub proof fn lemma_padded_decode_of_unpadded(
    altchars: Option<[u8; 2]>,
    custom: bool,
    input: Seq<u8>,
)
    requires
        distinct_altchars(altchars),
        custom ==> altchars is Some,
    ensures
        ({
            let out = strict_outcome(
                altchars,
                custom,
                true,
                encode_spec(alphabet_of(altchars), input, false),
            );
            out is None || out == Some(input)
        }),
{
    let r = strict_rules(altchars, custom, true);
    let alphabet = alphabet_of(altchars);
    let complete = input.len() / 3 * 3;
    let head = input.take(complete as int);
    let tail = input.skip(complete as int);
    lemma_decode_groups(r, altchars, custom, head);
    let e = encode_groups(alphabet, head);
    let t = encode_tail(alphabet, tail, false);
    lemma_table_inverts_alphabet(altchars, custom, 0);
    if tail.len() == 0 {
        lemma_decode_encode(r, altchars, custom, true, input);
        assert(encode_spec(alphabet, input, false) =~= encode_spec(alphabet, input, true));
    } else if tail.len() == 1 {
        let a = tail[0];
        lemma_sextets_invert(a, 0, 0);
        lemma_table_inverts_alphabet(altchars, custom, (a >> 2u8) as int);
        lemma_table_inverts_alphabet(altchars, custom, ((a & 3u8) << 4u8) as int);
        let p1 = e.push(t[0]);
        let p2 = p1.push(t[1]);
        lemma_scan_push(r, e, t[0]);
        lemma_scan_push(r, p1, t[1]);
        assert(p2 =~= e + t);
    } else {
        let a = tail[0];
        let b = tail[1];
        lemma_sextets_invert(a, b, 0);
        lemma_table_inverts_alphabet(altchars, custom, (a >> 2u8) as int);
        lemma_table_inverts_alphabet(altchars, custom, (((a & 3u8) << 4u8) | (b >> 4u8)) as int);
        lemma_table_inverts_alphabet(altchars, custom, ((b & 15u8) << 2u8) as int);
        let p1 = e.push(t[0]);
        let p2 = p1.push(t[1]);
        let p3 = p2.push(t[2]);
        lemma_scan_push(r, e, t[0]);
        lemma_scan_push(r, p1, t[1]);
        lemma_scan_push(r, p2, t[2]);
        assert(p3 =~= e + t);
    }
}

/// The decoder that `PreparedDecoder::new` prepares for a policy without
/// named bytes to discard.
pub open spec fn prepared_for(
    policy: PreparedPolicy,
    semantics: PythonSemantics,
    features: CpuFeatures,
) -> PreparedDecoder {
    PreparedDecoder {
        semantics,
        policy,
        route: route_spec(policy, false, semantics),
        attempt: if policy.validation == Validation::Strict {
            DecodeAttempt::Strict
        } else {
            DecodeAttempt::Probe
        },
        features,
    }
}

/// The encoder leaves the bits after the last complete byte zero: a padded
/// standard encoding passes the canonical check.
pub proof fn lemma_standard_encoding_canonical(input: Seq<u8>)
    ensures
        standard_canonical_spec(encode_spec(std_alphabet(), input, true)),
{
    let alphabet = std_alphabet();
    let complete = input.len() / 3 * 3;
    let head = input.take(complete as int);
    let tail = input.skip(complete as int);
    lemma_encode_groups_len(alphabet, head);
    let e = encode_groups(alphabet, head);
    let t = encode_tail(alphabet, tail, true);
    let encoded = encode_spec(alphabet, input, true);
    assert(encoded == e + t);
    let n = encoded.len() as int;
    if tail.len() == 0 {
        assert(t =~= Seq::<u8>::empty());
        if n > 0 {
            let g = head.take(head.len() - 3);
            let a = head[head.len() - 3];
            let b = head[head.len() - 2];
            let c = head[head.len() - 1];
            assert(e == encode_groups(alphabet, g) + encode_group(alphabet, a, b, c));
            assert(encoded[n - 1] == alphabet[(c & 63u8) as int]);
            assert((c & 63u8) < 64) by (bit_vector);
            lemma_std_char_value((c & 63u8) as int);
            assert(encoded.take(n) =~= encoded);
        }
    } else if tail.len() == 1 {
        let a = tail[0];
        let v = ((a & 3u8) << 4u8);
        assert(((a & 3u8) << 4u8) < 64 && ((a & 3u8) << 4u8) & 0x0fu8 == 0) by (bit_vector);
        assert((a >> 2u8) < 64) by (bit_vector);
        lemma_std_char_value(v as int);
        lemma_std_char_value((a >> 2u8) as int);
        assert(encoded[n - 1] == EQUALS && encoded[n - 2] == EQUALS);
        let data = encoded.take(n - 2);
        assert(data.last() == alphabet[v as int]);
        assert(data.len() % 4 == 2);
    } else {
        let a = tail[0];
        let b = tail[1];
        let v = ((b & 15u8) << 2u8);
        assert(((b & 15u8) << 2u8) < 64 && ((b & 15u8) << 2u8) & 0x03u8 == 0) by (bit_vector);
        lemma_std_char_value(v as int);
        assert(encoded[n - 1] == EQUALS);
        assert(encoded[n - 2] == alphabet[v as int]);
        let data = encoded.take(n - 1);
        assert(data.last() == alphabet[v as int]);
        assert(data.len() % 4 == 3);
    }
}

/// Decoding gives back what encoding wrote: for every Python version and
/// either validation, with or without canonical checks, a decode with
/// distinct alternative characters and no bytes to discard turns the
/// encoding of any input with the same characters and padding back into
/// that input.
pub proof fn lemma_prepared_decode_encode(
    policy: PreparedPolicy,
    semantics: PythonSemantics,
    features: CpuFeatures,
    input: Seq<u8>,
)
    requires
        !policy.ignorechars_specified,
        distinct_altchars(policy.altchars),
    ensures
        prepared_for(policy, semantics, features).allocating_spec(
            encode_spec(alphabet_of(policy.altchars), input, policy.padding == Padding::Padded),
        ) == Ok::<Option<Seq<u8>>, crate::execution::DecodeFailure>(Some(input)),
{
    let padded = policy.padding == Padding::Padded;
    let altchars = policy.altchars;
    let encoded = encode_spec(alphabet_of(altchars), input, padded);
    lemma_decode_encode(strict_rules(altchars, false, padded), altchars, false, padded, input);
    lemma_padded_decode_of_unpadded(altchars, false, input);
    lemma_lenient_decode_encode(altchars, padded, semantics.continues_after_padding, input);
    if policy.canonical {
        let cap = semantics.continues_after_padding;
        lemma_decode_encode(policy_rules(policy, cap), altchars, false, padded, input);
        if altchars is None && padded {
            lemma_decode_encode(strict_rules(None, false, true), None, false, true, input);
            lemma_standard_encoding_canonical(input);
            assert(alphabet_of(altchars) == std_alphabet());
        }
    }
    if is_urlsafe_altchars(altchars) {
        let pair = altchars->Some_0;
        assert(configured_table(Some([45u8, 95u8]), true) =~= configured_table(altchars, true));
        assert(alphabet_of(Some([45u8, 95u8])) =~= alphabet_of(altchars));
        lemma_decode_encode(strict_rules(altchars, true, padded), altchars, true, padded, input);
        lemma_padded_decode_of_unpadded(altchars, true, input);
        lemma_decode_encode(strict_rules(altchars, true, true), altchars, true, true, input);
    }
}

/// The non-strict decoder discards the line breaks of wrapped output: it
/// ends in the same state on wrapped data as on the data itself, when a
/// line break is no symbol of its table.
pub proof fn lemma_lenient_run_unwraps(
    data: Seq<u8>,
    width: int,
    table: Seq<u8>,
    padded: bool,
    continue_after_padding: bool,
)
    requires
        width > 0,
        table.len() == 256,
        table[NEWLINE as int] >= 64,
    ensures
        lenient_run(wrap_spec(data, width), table, padded, continue_after_padding) == lenient_run(
            data,
            table,
            padded,
            continue_after_padding,
        ),
    decreases data.len(),
{
    if data.len() > 0 {
        lemma_lenient_run_unwraps(data.drop_last(), width, table, padded, continue_after_padding);
        let shorter = wrap_spec(data.drop_last(), width);
        let n = data.len() - 1;
        let last = data.last();
        if n > 0 && n % width == 0 {
            let with_break = shorter.push(NEWLINE);
            assert(wrap_spec(data, width) =~= with_break.push(last));
            assert(with_break.push(last).drop_last() =~= with_break);
            assert(with_break.drop_last() =~= shorter);
            let before = lenient_run(shorter, table, padded, continue_after_padding);
            assert(lenient_run(with_break, table, padded, continue_after_padding) == lenient_step(
                before,
                NEWLINE,
                table,
                padded,
                continue_after_padding,
            ));
            assert(lenient_step(before, NEWLINE, table, padded, continue_after_padding) == before);
            assert(data.drop_last().push(last) =~= data);
        } else {
            assert(wrap_spec(data, width) =~= shorter.push(last));
            assert(shorter.push(last).drop_last() =~= shorter);
        }
        assert(lenient_run(data, table, padded, continue_after_padding) == lenient_step(
            lenient_run(data.drop_last(), table, padded, continue_after_padding),
            last,
            table,
            padded,
            continue_after_padding,
        ));
    }
}

/// Non-strict decoding of an encoding broken into lines gives back the
/// encoded bytes, whatever the line width, when the alternative characters
/// are no line break.
pub proof fn lemma_lenient_decode_wrapped_encode(
    altchars: Option<[u8; 2]>,
    padded: bool,
    continue_after_padding: bool,
    input: Seq<u8>,
    width: int,
)
    requires
        distinct_altchars(altchars),
        width > 0,
        !(altchars matches Some(pair) && (pair[0] == NEWLINE || pair[1] == NEWLINE)),
    ensures
        ({
            let s = lenient_run(
                wrap_spec(encode_spec(alphabet_of(altchars), input, padded), width),
                lenient_table(altchars),
                padded,
                continue_after_padding,
            );
            !lenient_incomplete(s, padded) && s.out == input
        }),
{
    let table = lenient_table(altchars);
    assert(table[NEWLINE as int] == lenient_table_value(altchars, NEWLINE));
    lemma_lenient_run_unwraps(
        encode_spec(alphabet_of(altchars), input, padded),
        width,
        table,
        padded,
        continue_after_padding,
    );
    lemma_lenient_decode_encode(altchars, padded, continue_after_padding, input);
}

/// The character that stands for a standard character with the
/// alternative characters `pair`: `+` becomes the first, `/` the second.
pub open spec fn substitute_altchars(byte: u8, pair: [u8; 2]) -> u8 {
    if byte == 43 {
        pair[0]
    } else if byte == 47 {
        pair[1]
    } else {
        byte
    }
}

proof fn lemma_alphabet_substitutes(pair: [u8; 2], value: int)
    requires
        0 <= value < 64,
    ensures
        altchars_alphabet(pair)[value] == substitute_altchars(std_alphabet()[value], pair),
        std_alphabet()[value] != PAD_BYTE,
{
    lemma_std_char_value(value);
}

proof fn lemma_groups_substitute(pair: [u8; 2], input: Seq<u8>)
    requires
        input.len() % 3 == 0,
    ensures
        encode_groups(altchars_alphabet(pair), input) == encode_groups(std_alphabet(), input).map_values(
            |b: u8| substitute_altchars(b, pair),
        ),
    decreases input.len(),
{
    if input.len() >= 3 {
        let n = input.len() as int;
        let rest = input.take(n - 3);
        lemma_groups_substitute(pair, rest);
        let a = input[n - 3];
        let b = input[n - 2];
        let c = input[n - 1];
        lemma_sextets_invert(a, b, c);
        lemma_alphabet_substitutes(pair, (a >> 2u8) as int);
        lemma_alphabet_substitutes(pair, (((a & 3u8) << 4u8) | (b >> 4u8)) as int);
        lemma_alphabet_substitutes(pair, (((b & 15u8) << 2u8) | (c >> 6u8)) as int);
        lemma_alphabet_substitutes(pair, (c & 63u8) as int);
        let f = |x: u8| substitute_altchars(x, pair);
        let e = encode_groups(std_alphabet(), rest);
        let g = encode_group(std_alphabet(), a, b, c);
        assert((e + g).map_values(f) =~= e.map_values(f) + g.map_values(f));
        assert(encode_group(altchars_alphabet(pair), a, b, c) =~= g.map_values(f));
    } else {
        assert(encode_groups(std_alphabet(), input).map_values(|b: u8| substitute_altchars(b, pair))
            =~= Seq::<u8>::empty());
    }
}

/// An encoding with alternative characters is the standard encoding with
/// `+` and `/` replaced by them, and nothing else changed.
pub proof fn lemma_altchars_encoding_substitutes(pair: [u8; 2], input: Seq<u8>, padded: bool)
    ensures
        encode_spec(altchars_alphabet(pair), input, padded) == encode_spec(
            std_alphabet(),
            input,
            padded,
        ).map_values(|b: u8| substitute_altchars(b, pair)),
{
    let f = |x: u8| substitute_altchars(x, pair);
    let complete = input.len() / 3 * 3;
    let head = input.take(complete as int);
    let tail = input.skip(complete as int);
    lemma_groups_substitute(pair, head);
    let e = encode_groups(std_alphabet(), head);
    let t = encode_tail(std_alphabet(), tail, padded);
    assert((e + t).map_values(f) =~= e.map_values(f) + t.map_values(f));
    if tail.len() == 1 {
        let a = tail[0];
        lemma_sextets_invert(a, 0, 0);
        lemma_alphabet_substitutes(pair, (a >> 2u8) as int);
        lemma_alphabet_substitutes(pair, ((a & 3u8) << 4u8) as int);
        assert(encode_tail(altchars_alphabet(pair), tail, padded) =~= t.map_values(f));
    } else if tail.len() == 2 {
        let a = tail[0];
        let b = tail[1];
        lemma_sextets_invert(a, b, 0);
        lemma_alphabet_substitutes(pair, (a >> 2u8) as int);
        lemma_alphabet_substitutes(pair, (((a & 3u8) << 4u8) | (b >> 4u8)) as int);
        lemma_alphabet_substitutes(pair, ((b & 15u8) << 2u8) as int);
        assert(encode_tail(altchars_alphabet(pair), tail, padded) =~= t.map_values(f));
    } else {
        assert(encode_tail(altchars_alphabet(pair), tail, padded) =~= t.map_values(f));
    }
}

} // verus!
