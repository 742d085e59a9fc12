//! What configured decoding returns: the packing of the values of the
//! symbols it reads; and what canonical decoding accepts: exactly the Base64
//! symbols of the bytes it returns, with no bits set after the last complete
//! byte.

use vstd::prelude::*;

use crate::alphabet::{is_std_char, std_value};
use crate::configured::{
    configured_table, equals_pads, lemma_canonical_run, lemma_lenient_run_agrees,
    lemma_scan_bounds, lemma_scan_extends, lemma_scan_full, lemma_scan_take, scan_outcome,
    scan_run, scan_step, ScanRules, EQUALS,
};
use crate::encode::{encode_group, encode_groups, encode_spec, encode_tail};
use crate::execution::{
    canonical_unpadded_spec, policy_rules, standard_canonical_spec, strict_outcome, strict_rules,
    unpadded_last_value, DecodeFailure, PreparedDecoder,
};
use crate::fallback::canonical_padding_spec;
use crate::lenient::{
    lemma_lenient_output_packs, lemma_lenient_stops_at_first_completion, lemma_run_counts,
    lemma_stop_prefix, pack_values,
    padding_completes, pending_bits, symbol_values, table_symbol,
};
use crate::policy::{route_spec, ConfiguredShortcut, DecodeRoute};

verus! {

/// The alphabet that writes each 6-bit value as itself.
pub open spec fn value_alphabet() -> Seq<u8> {
    Seq::new(64, |i: int| i as u8)
}

/// The 6-bit values of the unpadded Base64 encoding of `bytes`.
pub open spec fn sextets(bytes: Seq<u8>) -> Seq<u8> {
    encode_spec(value_alphabet(), bytes, false)
}

/// Whether every value is a 6-bit value.
pub open spec fn six_bit(values: Seq<u8>) -> bool {
    forall|i: int| 0 <= i < values.len() ==> #[trigger] values[i] < 64
}

proof fn lemma_group_bits(a: u8, b: u8, c: u8, d: u8)
    requires
        a < 64,
        b < 64,
        c < 64,
        d < 64,
    ensures
        ({
            let x = ((a << 2u8) | (b >> 4u8)) as u8;
            let y = (((b & 0x0fu8) << 4u8) | (c >> 2u8)) as u8;
            let z = (((c & 0x03u8) << 6u8) | d) as u8;
            &&& x >> 2u8 == a
            &&& ((x & 3u8) << 4u8) | (y >> 4u8) == b
            &&& ((y & 15u8) << 2u8) | (z >> 6u8) == c
            &&& z & 63u8 == d
            &&& (b & 0x0fu8 == 0 ==> (x & 3u8) << 4u8 == b)
            &&& (c & 0x03u8 == 0 ==> (y & 15u8) << 2u8 == c)
        }),
{
    assert((((a << 2u8) | (b >> 4u8)) as u8) >> 2u8 == a) by (bit_vector)
        requires
            a < 64,
            b < 64,
    ;
    assert((((((a << 2u8) | (b >> 4u8)) as u8) & 3u8) << 4u8) | (((((b & 0x0fu8) << 4u8) | (c
        >> 2u8)) as u8) >> 4u8) == b) by (bit_vector)
        requires
            a < 64,
            b < 64,
            c < 64,
    ;
    assert((((((b & 0x0fu8) << 4u8) | (c >> 2u8)) as u8) & 15u8) << 2u8 | (((((c & 0x03u8)
        << 6u8) | d) as u8) >> 6u8) == c) by (bit_vector)
        requires
            b < 64,
            c < 64,
            d < 64,
    ;
    assert(((((c & 0x03u8) << 6u8) | d) as u8) & 63u8 == d) by (bit_vector)
        requires
            c < 64,
            d < 64,
    ;
    assert(b & 0x0fu8 == 0 ==> (((((a << 2u8) | (b >> 4u8)) as u8) & 3u8) << 4u8) == b)
        by (bit_vector)
        requires
            a < 64,
            b < 64,
    ;
    assert(c & 0x03u8 == 0 ==> (((((b & 0x0fu8) << 4u8) | (c >> 2u8)) as u8) & 15u8) << 2u8
        == c) by (bit_vector)
        requires
            b < 64,
            c < 64,
    ;
}

/// Packing complete groups: the last four values make the last three bytes.
proof fn lemma_pack_group(v: Seq<u8>)
    requires
        v.len() >= 4,
        v.len() % 4 == 0,
    ensures
        ({
            let n = v.len() as int;
            pack_values(v) == pack_values(v.take(n - 4)) + seq![
                ((v[n - 4] << 2u8) | (v[n - 3] >> 4u8)) as u8,
                (((v[n - 3] & 0x0fu8) << 4u8) | (v[n - 2] >> 2u8)) as u8,
                (((v[n - 2] & 0x03u8) << 6u8) | v[n - 1]) as u8,
            ]
        }),
{
    let n = v.len() as int;
    let v1 = v.drop_last();
    let v2 = v1.drop_last();
    let v3 = v2.drop_last();
    assert(v1.len() % 4 == 3 && v2.len() % 4 == 2 && v3.len() % 4 == 1);
    assert(v3.drop_last() =~= v.take(n - 4));
    assert(pack_values(v3) == pack_values(v3.drop_last()));
    assert(v2[v2.len() - 2] == v[n - 4] && v2[v2.len() - 1] == v[n - 3]);
    assert(v1[v1.len() - 2] == v[n - 3] && v1[v1.len() - 1] == v[n - 2]);
    let x = ((v[n - 4] << 2u8) | (v[n - 3] >> 4u8)) as u8;
    let y = (((v[n - 3] & 0x0fu8) << 4u8) | (v[n - 2] >> 2u8)) as u8;
    let z = (((v[n - 2] & 0x03u8) << 6u8) | v[n - 1]) as u8;
    assert(pack_values(v2) == pack_values(v3).push(x));
    assert(pack_values(v1) == pack_values(v2).push(y));
    assert(pack_values(v) == pack_values(v1).push(z));
    assert(pack_values(v) =~= pack_values(v.take(n - 4)) + seq![
        ((v[n - 4] << 2u8) | (v[n - 3] >> 4u8)) as u8,
        (((v[n - 3] & 0x0fu8) << 4u8) | (v[n - 2] >> 2u8)) as u8,
        (((v[n - 2] & 0x03u8) << 6u8) | v[n - 1]) as u8,
    ]);
}

proof fn lemma_pack_len(v: Seq<u8>)
    ensures
        pack_values(v).len() == v.len() / 4 * 3 + if v.len() % 4 == 2 {
            1int
        } else if v.len() % 4 == 3 {
            2int
        } else {
            0int
        },
    decreases v.len(),
{
    if v.len() > 0 {
        lemma_pack_len(v.drop_last());
    }
}

/// Encoding the packing of complete groups gives the groups back.
proof fn lemma_groups_read_back(v: Seq<u8>)
    requires
        v.len() % 4 == 0,
        six_bit(v),
    ensures
        encode_groups(value_alphabet(), pack_values(v)) == v,
    decreases v.len(),
{
    if v.len() > 0 {
        let n = v.len() as int;
        let w = v.take(n - 4);
        lemma_pack_group(v);
        lemma_pack_len(v);
        lemma_pack_len(w);
        lemma_groups_read_back(w);
        let (a, b, c, d) = (v[n - 4], v[n - 3], v[n - 2], v[n - 1]);
        lemma_group_bits(a, b, c, d);
        let p = pack_values(v);
        let m = p.len() as int;
        assert(p.take(m - 3) =~= pack_values(w));
        let x = p[m - 3];
        let y = p[m - 2];
        let z = p[m - 1];
        assert(encode_group(value_alphabet(), x, y, z) =~= seq![a, b, c, d]);
        assert(encode_groups(value_alphabet(), p) == encode_groups(value_alphabet(), p.take(m - 3))
            + encode_group(value_alphabet(), x, y, z));
        assert(w + seq![a, b, c, d] =~= v);
    } else {
        assert(pack_values(v) =~= Seq::<u8>::empty());
        assert(v =~= Seq::<u8>::empty());
    }
}

/// Packing is undone by encoding: 6-bit values that leave no lone value in
/// the last group and no set bits after the last complete byte are the
/// Base64 values of their packing.
pub proof fn lemma_pack_reads_back(v: Seq<u8>)
    requires
        six_bit(v),
        v.len() % 4 != 1,
        pending_bits(v) == 0,
    ensures
        sextets(pack_values(v)) == v,
{
    let n = v.len() as int;
    let full = n / 4 * 4;
    let w = v.take(full);
    assert(six_bit(w));
    lemma_groups_read_back(w);
    lemma_pack_len(v);
    lemma_pack_len(w);
    let p = pack_values(v);
    let complete = (p.len() / 3 * 3) as int;
    if n % 4 == 0 {
        assert(w =~= v);
        assert(p.take(complete) =~= p);
        assert(encode_tail(value_alphabet(), p.skip(complete), false) =~= Seq::<u8>::empty());
        assert(p.take(complete) + Seq::<u8>::empty() =~= p.take(complete));
    } else if n % 4 == 2 {
        let (a, b) = (v[n - 2], v[n - 1]);
        lemma_group_bits(a, b, 0, 0);
        assert(v.drop_last().drop_last() =~= w);
        assert(v.drop_last().len() % 4 == 1);
        assert(pack_values(v.drop_last()) == pack_values(w));
        assert(p.take(complete) =~= pack_values(w));
        assert(p.skip(complete) =~= seq![((a << 2u8) | (b >> 4u8)) as u8]);
        assert(encode_tail(value_alphabet(), p.skip(complete), false) =~= seq![a, b]);
        assert(w + seq![a, b] =~= v);
    } else {
        let (a, b, c) = (v[n - 3], v[n - 2], v[n - 1]);
        lemma_group_bits(a, b, c, 0);
        let v1 = v.drop_last();
        let v2 = v1.drop_last();
        assert(v2.drop_last() =~= w);
        assert(v2.len() % 4 == 1);
        assert(pack_values(v2) == pack_values(w));
        assert(v1[v1.len() - 2] == a && v1[v1.len() - 1] == b);
        assert(pack_values(v1) == pack_values(v2).push(((a << 2u8) | (b >> 4u8)) as u8));
        assert(pack_values(v) == pack_values(v1).push(
            (((b & 0x0fu8) << 4u8) | (c >> 2u8)) as u8,
        ));
        assert(p.take(complete) =~= pack_values(w));
        assert(p.skip(complete) =~= seq![
            ((a << 2u8) | (b >> 4u8)) as u8,
            (((b & 0x0fu8) << 4u8) | (c >> 2u8)) as u8,
        ]);
        assert(encode_tail(value_alphabet(), p.skip(complete), false) =~= seq![a, b, c]);
        assert(w + seq![a, b, c] =~= v);
    }
}


/// The values of the symbols of any input are 6-bit values.
pub proof fn lemma_symbol_values_six_bit(input: Seq<u8>, table: Seq<u8>)
    ensures
        six_bit(symbol_values(input, table)),
    decreases input.len(),
{
    if input.len() > 0 {
        lemma_symbol_values_six_bit(input.drop_last(), table);
        let v = symbol_values(input.drop_last(), table);
        if table_symbol(table, input.last()) {
            let w = v.push(table[input.last() as int]);
            assert forall|i: int| 0 <= i < w.len() implies #[trigger] w[i] < 64 by {
                if i < v.len() {
                    assert(w[i] == v[i]);
                }
            }
        }
    }
}

/// Until a configured scan fails or ends, its output is the packing of the
/// values of the symbols it read, and its group position and pending bits
/// are those of that packing.
pub proof fn lemma_scan_packs(r: ScanRules, input: Seq<u8>)
    requires
        r.table.len() == 256,
    ensures
        ({
            let s = scan_run(r, input);
            let v = symbol_values(input, r.table);
            !s.failed && !s.done ==> {
                &&& s.out == pack_values(v)
                &&& s.quad == v.len() % 4
                &&& s.leftchar == pending_bits(v)
            }
        }),
    decreases input.len(),
{
    if input.len() > 0 {
        let p = input.drop_last();
        let b = input.last();
        lemma_scan_packs(r, p);
        lemma_scan_bounds(r, p);
        let v = symbol_values(p, r.table);
        if table_symbol(r.table, b) {
            let w = v.push(r.table[b as int]);
            assert(w.drop_last() =~= v);
            if v.len() > 0 {
                assert(w[w.len() - 2] == v[v.len() - 1]);
            }
        }
    }
}

/// A scan that never ends early: strict, or continuing after padding.
proof fn lemma_scan_no_end(r: ScanRules, input: Seq<u8>)
    requires
        r.strict || r.continue_after_padding,
    ensures
        !scan_run(r, input).done,
    decreases input.len(),
{
    if input.len() > 0 {
        lemma_scan_no_end(r, input.drop_last());
    }
}

/// A scan that neither failed nor ended, and whose final state is accepted,
/// read canonical input.
proof fn lemma_finished_reads_back(r: ScanRules, input: Seq<u8>)
    requires
        r.canonical,
        r.table.len() == 256,
        scan_outcome(r, input) is Some,
        !scan_run(r, input).done,
    ensures
        sextets(scan_outcome(r, input)->Some_0) == symbol_values(input, r.table),
{
    let s = scan_run(r, input);
    let v = symbol_values(input, r.table);
    lemma_scan_packs(r, input);
    lemma_scan_bounds(r, input);
    lemma_symbol_values_six_bit(input, r.table);
    assert(v.len() % 4 != 1);
    assert(pending_bits(v) == 0);
    lemma_pack_reads_back(v);
}

/// Canonical decoding accepts only canonical input: whatever a scan with
/// canonical checks returns, its Base64 values are exactly the values of
/// the symbols it read, so no set bits follow the last complete byte,
/// padded or not. It read all of the input, unless non-strict decoding ends
/// at padding that completes a group; then it read the symbols before the
/// first such padding byte.
pub proof fn lemma_canonical_scan_reads_back(r: ScanRules, input: Seq<u8>)
    requires
        r.canonical,
        r.table.len() == 256,
    ensures
        scan_outcome(r, input) is Some && (r.strict || r.continue_after_padding || forall|k: int|
            0 <= k < input.len() ==> !#[trigger] padding_completes(input, r.table, r.padded, k))
            ==> sextets(scan_outcome(r, input)->Some_0) == symbol_values(input, r.table),
        forall|k: int|
            #![trigger padding_completes(input, r.table, r.padded, k)]
            scan_outcome(r, input) is Some && !r.strict && !r.continue_after_padding
                && padding_completes(input, r.table, r.padded, k) && (forall|j: int|
                0 <= j < k ==> !padding_completes(input, r.table, r.padded, j)) ==> sextets(
                scan_outcome(r, input)->Some_0,
            ) == symbol_values(input.take(k), r.table),
{
    let plain = ScanRules { canonical: false, ..r };
    if scan_outcome(r, input) is Some {
        if r.strict || r.continue_after_padding {
            lemma_scan_no_end(r, input);
            lemma_finished_reads_back(r, input);
        } else {
            lemma_canonical_run(r, input);
            lemma_lenient_run_agrees(plain, input);
            lemma_lenient_stops_at_first_completion(input, r.table, r.padded);
            lemma_run_counts(input, r.table, r.padded, true);
            if forall|k: int|
                0 <= k < input.len() ==> !#[trigger] padding_completes(input, r.table, r.padded, k) {
                lemma_finished_reads_back(r, input);
            }
            assert forall|k: int|
                #![trigger padding_completes(input, r.table, r.padded, k)]
                padding_completes(input, r.table, r.padded, k) && (forall|j: int|
                    0 <= j < k ==> !padding_completes(input, r.table, r.padded, j)) implies sextets(
                scan_outcome(r, input)->Some_0,
            ) == symbol_values(input.take(k), r.table) by {
                lemma_stopped_reads_back(r, input, k);
            }
        }
    }
}

/// Non-strict canonical decoding that ends at the first padding byte `k`
/// that completes a group read the canonical encoding of what it returns.
proof fn lemma_stopped_reads_back(r: ScanRules, input: Seq<u8>, k: int)
    requires
        r.canonical,
        r.table.len() == 256,
        !r.strict,
        !r.continue_after_padding,
        scan_outcome(r, input) is Some,
        padding_completes(input, r.table, r.padded, k),
        forall|j: int| 0 <= j < k ==> !padding_completes(input, r.table, r.padded, j),
    ensures
        sextets(scan_outcome(r, input)->Some_0) == symbol_values(input.take(k), r.table),
{
    let plain = ScanRules { canonical: false, ..r };
    let n = input.len() as int;
    let prefix = input.take(k);
    let sk = scan_run(r, prefix);
    lemma_scan_full(r, input);
    lemma_scan_extends(r, input, k, n);
    lemma_scan_extends(r, input, k + 1, n);
    assert(!sk.failed);
    lemma_canonical_run(r, prefix);
    lemma_lenient_run_agrees(plain, prefix);
    lemma_stop_prefix(input, r.table, r.padded, k);
    assert(!sk.done);
    lemma_scan_packs(r, prefix);
    lemma_run_counts(prefix, r.table, r.padded, false);
    lemma_scan_take(r, input, k);
    assert(input.take(k + 1).drop_last() =~= prefix);
    assert(input.take(k + 1).last() == input[k]);
    let v = symbol_values(prefix, r.table);
    lemma_symbol_values_six_bit(prefix, r.table);
    assert(sk.leftchar == 0);
    lemma_pack_reads_back(v);
}

/// Strict decoding that discards no byte reads symbols and then only the
/// padding it counts: every byte before the last `pads` is a symbol, and
/// those are `=`. Unpadded, it reads symbols alone.
proof fn lemma_strict_shape(r: ScanRules, input: Seq<u8>)
    requires
        r.strict,
        r.table.len() == 256,
        r.ignored.len() == 256,
        forall|i: int| 0 <= i < 256 ==> !#[trigger] r.ignored[i],
    ensures
        ({
            let s = scan_run(r, input);
            let n = input.len() as int;
            let v = symbol_values(input, r.table);
            !s.failed ==> {
                &&& 0 <= s.pads <= n
                &&& s.saw_padding == (s.pads > 0)
                &&& (!r.padded ==> s.pads == 0)
                &&& forall|i: int| 0 <= i < n - s.pads ==> #[trigger] table_symbol(r.table, input[i])
                &&& forall|i: int| n - s.pads <= i < n ==> #[trigger] input[i] == EQUALS
                &&& v.len() == n - s.pads
                &&& n - s.pads > 0 ==> v.last() == r.table[input[n - s.pads - 1] as int]
            }
        }),
    decreases input.len(),
{
    if input.len() > 0 {
        let p = input.drop_last();
        let b = input.last();
        let n = input.len() as int;
        lemma_strict_shape(r, p);
        assert(r.ignored[b as int] == false);
        assert(r.ignored[EQUALS as int] == false);
        assert forall|i: int| 0 <= i < n - 1 implies input[i] == p[i] by {}
        assert(input[n - 1] == b);
        let s = scan_run(r, input);
        let sp = scan_run(r, p);
        lemma_scan_bounds(r, p);
        assert(s == scan_step(r, sp, b));
        if !s.failed {
            assert(!sp.failed);
            if table_symbol(r.table, b) {
                assert(!sp.saw_padding);
                assert(s.pads == 0);
            } else {
                assert(equals_pads(r, b) && r.padded);
                assert(b == EQUALS);
                assert(s.pads == sp.pads + 1);
            }
            assert forall|i: int| 0 <= i < n - s.pads implies #[trigger] table_symbol(
                r.table,
                input[i],
            ) by {
                if i < n - 1 {
                    assert(input[i] == p[i]);
                }
            }
            assert forall|i: int| n - s.pads <= i < n implies #[trigger] input[i] == EQUALS by {
                if i < n - 1 {
                    assert(input[i] == p[i]);
                }
            }
            if table_symbol(r.table, b) {
                let v = symbol_values(p, r.table);
                assert(symbol_values(input, r.table) == v.push(r.table[b as int]));
            }
        }
    }
}

/// The values of the symbols of an input whose bytes from `k` on are no
/// symbols are those of its first `k` bytes.
proof fn lemma_symbol_values_prefix(input: Seq<u8>, table: Seq<u8>, k: int)
    requires
        0 <= k <= input.len(),
        forall|i: int| k <= i < input.len() ==> !#[trigger] table_symbol(table, input[i]),
    ensures
        symbol_values(input.take(k), table) == symbol_values(input, table),
    decreases input.len() - k,
{
    if k < input.len() {
        let p = input.drop_last();
        assert forall|i: int| k <= i < p.len() implies !#[trigger] table_symbol(table, p[i]) by {
            assert(p[i] == input[i]);
        }
        assert(!table_symbol(table, input[input.len() - 1]));
        lemma_symbol_values_prefix(p, table, k);
        assert(p.take(k) =~= input.take(k));
    } else {
        assert(input.take(k) =~= input);
    }
}

/// A symbol of the standard table is a standard character, read by its
/// standard value; `=` is no symbol there.
proof fn lemma_standard_table(byte: u8)
    ensures
        configured_table(None, false).len() == 256,
        table_symbol(configured_table(None, false), byte) ==> is_std_char(byte) && std_value(byte)
            == configured_table(None, false)[byte as int],
        !table_symbol(configured_table(None, false), EQUALS),
{
}

/// A symbol of the strict table of `altchars` is read by the value that the
/// canonical check of unpadded input gives its last byte.
proof fn lemma_unpadded_table(altchars: Option<[u8; 2]>, byte: u8)
    ensures
        configured_table(altchars, false).len() == 256,
        table_symbol(configured_table(altchars, false), byte) ==> unpadded_last_value(
            byte,
            altchars,
        ) == Some(configured_table(altchars, false)[byte as int]),
{
}

/// Padded standard input that strict decoding accepts and the canonical
/// check passes is the canonical encoding of the decoded bytes; past its
/// first byte that is no symbol, it holds no symbol.
pub proof fn lemma_standard_shortcut_reads_back(input: Seq<u8>)
    requires
        strict_outcome(None, false, true, input) is Some,
        standard_canonical_spec(input),
    ensures
        sextets(strict_outcome(None, false, true, input)->Some_0) == symbol_values(
            input,
            configured_table(None, false),
        ),
        forall|k: int|
            0 <= k < input.len() && !#[trigger] table_symbol(configured_table(None, false), input[k])
                ==> symbol_values(input.take(k), configured_table(None, false)) == symbol_values(
                input,
                configured_table(None, false),
            ),
{
    let r = strict_rules(None, false, true);
    let t = r.table;
    let s = scan_run(r, input);
    let n = input.len() as int;
    let v = symbol_values(input, t);
    lemma_standard_table(EQUALS);
    lemma_strict_shape(r, input);
    lemma_scan_packs(r, input);
    lemma_scan_bounds(r, input);
    lemma_symbol_values_six_bit(input, t);
    assert(s.quad != 1 && s.pads == crate::configured::expected_padding(s.quad));
    if s.quad == 2 || s.quad == 3 {
        let last = input[n - s.pads - 1];
        assert(table_symbol(t, last));
        lemma_standard_table(last);
        assert(input[n - 1] == EQUALS);
        if s.quad == 2 {
            assert(input[n - 2] == EQUALS);
        } else {
            assert(table_symbol(t, input[n - 2]));
        }
        let data = input.take(n - s.pads);
        assert(data.last() == last);
        assert(canonical_padding_spec(data));
    }
    lemma_pack_reads_back(v);
    assert forall|k: int|
        0 <= k < input.len() && !#[trigger] table_symbol(t, input[k]) implies symbol_values(
        input.take(k),
        t,
    ) == v by {
        assert forall|i: int| k <= i < n implies !#[trigger] table_symbol(t, input[i]) by {
            if i >= n - s.pads {
                assert(input[i] == EQUALS);
            }
        }
        lemma_symbol_values_prefix(input, t, k);
    }
}

/// Unpadded input that strict decoding accepts and the canonical check of
/// unpadded input passes is the canonical encoding of the decoded bytes.
pub proof fn lemma_unpadded_shortcut_reads_back(input: Seq<u8>, altchars: Option<[u8; 2]>)
    requires
        strict_outcome(altchars, false, false, input) is Some,
        canonical_unpadded_spec(input, altchars),
    ensures
        sextets(strict_outcome(altchars, false, false, input)->Some_0) == symbol_values(
            input,
            configured_table(altchars, false),
        ),
{
    let r = strict_rules(altchars, false, false);
    let t = r.table;
    let s = scan_run(r, input);
    let n = input.len() as int;
    let v = symbol_values(input, t);
    lemma_unpadded_table(altchars, 0);
    lemma_strict_shape(r, input);
    lemma_scan_packs(r, input);
    lemma_scan_bounds(r, input);
    lemma_symbol_values_six_bit(input, t);
    if s.quad == 2 || s.quad == 3 {
        assert(table_symbol(t, input[n - 1]));
        lemma_unpadded_table(altchars, input[n - 1]);
        assert(input.last() == input[n - 1]);
    }
    lemma_pack_reads_back(v);
}

/// Decoding with canonical checks returns bytes only for canonical input,
/// whichever decoder the prepared route tries: the Base64 values of the
/// returned bytes are exactly the values of the symbols read, so a final
/// group of two or three symbols whose last one leaves set bits, padded or
/// not, is never decoded. All of the input is read unless non-strict
/// decoding ends at padding that completes a group; then the symbols before
/// the first such padding byte are.
pub proof fn lemma_canonical_decode_reads_back(
    d: PreparedDecoder,
    empty_exact: bool,
    input: Seq<u8>,
)
    requires
        d.policy.canonical,
        d.route == route_spec(d.policy, empty_exact, d.semantics),
    ensures
        ({
            let r = policy_rules(d.policy, d.semantics.continues_after_padding);
            let result = d.allocating_spec(input);
            result is Ok && result->Ok_0 is Some && (r.strict || r.continue_after_padding
                || forall|k: int|
                0 <= k < input.len() ==> !#[trigger] padding_completes(input, r.table, r.padded, k))
                ==> sextets(result->Ok_0->Some_0) == symbol_values(input, r.table)
        }),
        ({
            let r = policy_rules(d.policy, d.semantics.continues_after_padding);
            let result = d.allocating_spec(input);
            forall|k: int|
                #![trigger padding_completes(input, r.table, r.padded, k)]
                result is Ok && result->Ok_0 is Some && !r.strict && !r.continue_after_padding
                    && padding_completes(input, r.table, r.padded, k) && (forall|j: int|
                    0 <= j < k ==> !padding_completes(input, r.table, r.padded, j)) ==> sextets(
                    result->Ok_0->Some_0,
                ) == symbol_values(input.take(k), r.table)
        }),
{
    let r = policy_rules(d.policy, d.semantics.continues_after_padding);
    lemma_canonical_scan_reads_back(r, input);
    if let DecodeRoute::Configured(shortcut) = d.route {
        if shortcut == ConfiguredShortcut::StandardStrict && strict_outcome(None, false, true, input)
            is Some {
            if standard_canonical_spec(input) {
                lemma_standard_shortcut_reads_back(input);
                assert(r.table == configured_table(None, false));
            }
        } else if shortcut == ConfiguredShortcut::CanonicalUnpadded && canonical_unpadded_spec(
            input,
            d.policy.altchars,
        ) && strict_outcome(d.policy.altchars, false, false, input) is Some {
            lemma_unpadded_shortcut_reads_back(input, d.policy.altchars);
            assert(r.table == configured_table(d.policy.altchars, false));
        }
    }
}

/// Padded standard input that strict decoding accepts but whose last symbol
/// leaves set bits is refused by canonical decoding of Python 3.15 with
/// "Non-zero padding bits", not decoded.
pub proof fn lemma_standard_noncanonical_refused(d: PreparedDecoder, input: Seq<u8>)
    requires
        d.policy.canonical,
        d.route == DecodeRoute::Configured(ConfiguredShortcut::StandardStrict),
    ensures
        strict_outcome(None, false, true, input) is Some && sextets(
            strict_outcome(None, false, true, input)->Some_0,
        ) != symbol_values(input, configured_table(None, false)) ==> d.allocating_spec(input)
            == Err::<Option<Seq<u8>>, DecodeFailure>(DecodeFailure::NonZeroPaddingBits),
{
    if strict_outcome(None, false, true, input) is Some && standard_canonical_spec(input) {
        lemma_standard_shortcut_reads_back(input);
    }
}

/// Configured decoding, with or without strict or canonical checks and
/// whatever bytes it discards, returns the big-endian packing of the values
/// of the symbols it read: all of the input, unless non-strict decoding
/// ends at padding that completes a group; then the symbols before the
/// first such padding byte.
pub proof fn lemma_configured_decodes_symbols(r: ScanRules, input: Seq<u8>)
    requires
        r.table.len() == 256,
    ensures
        scan_outcome(r, input) is Some && (r.strict || r.continue_after_padding || forall|k: int|
            0 <= k < input.len() ==> !#[trigger] padding_completes(input, r.table, r.padded, k))
            ==> scan_outcome(r, input)->Some_0 == pack_values(symbol_values(input, r.table)),
        forall|k: int|
            #![trigger padding_completes(input, r.table, r.padded, k)]
            scan_outcome(r, input) is Some && !r.strict && !r.continue_after_padding
                && padding_completes(input, r.table, r.padded, k) && (forall|j: int|
                0 <= j < k ==> !padding_completes(input, r.table, r.padded, j))
                ==> scan_outcome(r, input)->Some_0 == pack_values(
                symbol_values(input.take(k), r.table),
            ),
{
    let plain = ScanRules { canonical: false, ..r };
    lemma_scan_packs(r, input);
    if scan_outcome(r, input) is Some {
        if r.strict || r.continue_after_padding {
            lemma_scan_no_end(r, input);
        } else {
            if r.canonical {
                lemma_canonical_run(r, input);
            }
            assert(plain == r || scan_run(r, input) == scan_run(plain, input));
            lemma_lenient_run_agrees(plain, input);
            lemma_lenient_stops_at_first_completion(input, r.table, r.padded);
            lemma_lenient_output_packs(input, r.table, r.padded);
            lemma_run_counts(input, r.table, r.padded, true);
        }
    }
}

} // verus!
