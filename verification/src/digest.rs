//! Hash digests as bytes and hexadecimal text, and the layout of packed
//! batch output.

use vstd::prelude::*;

verus! {

/// The little-endian bytes of a 32-bit word.
pub open spec fn le_u32(word: u32) -> Seq<u8> {
    seq![word as u8, (word >> 8u32) as u8, (word >> 16u32) as u8, (word >> 24u32) as u8]
}

/// The little-endian bytes of a 64-bit word.
pub open spec fn le_u64(word: u64) -> Seq<u8> {
    seq![
        word as u8,
        (word >> 8u64) as u8,
        (word >> 16u64) as u8,
        (word >> 24u64) as u8,
        (word >> 32u64) as u8,
        (word >> 40u64) as u8,
        (word >> 48u64) as u8,
        (word >> 56u64) as u8,
    ]
}

fn put_u32(digest: &mut [u8; 16], at: usize, word: u32)
    requires
        at + 4 <= 16,
    ensures
        forall|i: int|
            0 <= i < 16 ==> #[trigger] final(digest)@[i] == if at <= i < at + 4 {
                le_u32(word)[i - at]
            } else {
                old(digest)@[i]
            },
{
    digest[at] = word as u8;
    digest[at + 1] = (word >> 8u32) as u8;
    digest[at + 2] = (word >> 16u32) as u8;
    digest[at + 3] = (word >> 24u32) as u8;
}

fn put_u64(digest: &mut [u8; 16], at: usize, word: u64)
    requires
        at + 8 <= 16,
    ensures
        forall|i: int|
            0 <= i < 16 ==> #[trigger] final(digest)@[i] == if at <= i < at + 8 {
                le_u64(word)[i - at]
            } else {
                old(digest)@[i]
            },
{
    digest[at] = word as u8;
    digest[at + 1] = (word >> 8u64) as u8;
    digest[at + 2] = (word >> 16u64) as u8;
    digest[at + 3] = (word >> 24u64) as u8;
    digest[at + 4] = (word >> 32u64) as u8;
    digest[at + 5] = (word >> 40u64) as u8;
    digest[at + 6] = (word >> 48u64) as u8;
    digest[at + 7] = (word >> 56u64) as u8;
}

/// The 128-bit digest of four 32-bit words, each little-endian, in order.
pub fn x86_128_digest(words: [u32; 4]) -> (digest: [u8; 16])
    ensures
        digest@ == le_u32(words[0]) + le_u32(words[1]) + le_u32(words[2]) + le_u32(words[3]),
{
    let mut digest = [0u8; 16];
    put_u32(&mut digest, 0, words[0]);
    put_u32(&mut digest, 4, words[1]);
    put_u32(&mut digest, 8, words[2]);
    put_u32(&mut digest, 12, words[3]);
    assert(digest@ =~= le_u32(words[0]) + le_u32(words[1]) + le_u32(words[2]) + le_u32(words[3]));
    digest
}

/// The 128-bit digest of two 64-bit words, each little-endian, in order.
pub fn x64_128_digest(words: [u64; 2]) -> (digest: [u8; 16])
    ensures
        digest@ == le_u64(words[0]) + le_u64(words[1]),
{
    let mut digest = [0u8; 16];
    put_u64(&mut digest, 0, words[0]);
    put_u64(&mut digest, 8, words[1]);
    assert(digest@ =~= le_u64(words[0]) + le_u64(words[1]));
    digest
}

/// The lowercase hexadecimal digit of a nibble.
pub open spec fn hex_char(nibble: int) -> u8 {
    if nibble < 10 {
        (48 + nibble) as u8
    } else {
        (87 + nibble) as u8
    }
}

fn hex_digit(nibble: u8) -> (digit: u8)
    requires
        nibble < 16,
    ensures
        digit == hex_char(nibble as int),
{
    if nibble < 10 {
        48 + nibble
    } else {
        87 + nibble
    }
}

/// The lowercase hexadecimal text of a digest of at most 128 bits: two
/// digits per byte, the high nibble first.
pub fn hex_digest(bytes: &[u8]) -> (text: Vec<u8>)
    requires
        bytes@.len() <= 16,
    ensures
        text@.len() == 2 * bytes@.len(),
        forall|i: int|
            0 <= i < bytes@.len() ==> #[trigger] text@[2 * i] == hex_char((bytes@[i] >> 4u8) as int)
                && text@[2 * i + 1] == hex_char((bytes@[i] & 15u8) as int),
{
    let mut text: Vec<u8> = Vec::new();
    let mut i: usize = 0;
    while i < bytes.len()
        invariant
            i <= bytes@.len() <= 16,
            bytes@.len() == bytes.len(),
            text@.len() == 2 * i,
            forall|j: int|
                0 <= j < i ==> #[trigger] text@[2 * j] == hex_char((bytes@[j] >> 4u8) as int)
                    && text@[2 * j + 1] == hex_char((bytes@[j] & 15u8) as int),
        decreases bytes@.len() - i,
    {
        let byte = bytes[i];
        assert(byte >> 4u8 < 16) by (bit_vector);
        assert(byte & 15u8 < 16) by (bit_vector);
        let ghost before = text@;
        text.push(hex_digit(byte >> 4u8));
        text.push(hex_digit(byte & 15u8));
        proof {
            assert forall|j: int| 0 <= j < i + 1 implies #[trigger] text@[2 * j] == hex_char(
                (bytes@[j] >> 4u8) as int,
            ) && text@[2 * j + 1] == hex_char((bytes@[j] & 15u8) as int) by {
                if j < i {
                    assert(text@[2 * j] == before[2 * j]);
                    assert(text@[2 * j + 1] == before[2 * j + 1]);
                }
            }
        }
        i = i + 1;
    }
    text
}

/// Why a packed batch output cannot be written.
#[derive(Clone, Copy, Debug, PartialEq, Eq, Structural)]
pub enum PackedOutputError {
    /// The packed size overflows a machine integer.
    TooLarge,
    /// The destination holds fewer bytes than the packed size.
    TooSmall { required: usize, provided: usize },
}

/// The size of `items` packed digests of `digest_size` bytes, checked
/// against a destination of `provided` bytes.
pub fn packed_output_len(items: usize, digest_size: usize, provided: usize) -> (len: Result<
    usize,
    PackedOutputError,
>)
    ensures
        items * digest_size > usize::MAX <==> len == Err::<usize, PackedOutputError>(
            PackedOutputError::TooLarge,
        ),
        items * digest_size <= usize::MAX && provided < items * digest_size <==> len == Err::<
            usize,
            PackedOutputError,
        >(
            PackedOutputError::TooSmall {
                required: (items * digest_size) as usize,
                provided,
            },
        ),
        items * digest_size <= provided <==> len == Ok::<usize, PackedOutputError>(
            (items * digest_size) as usize,
        ),
{
    match items.checked_mul(digest_size) {
        None => Err(PackedOutputError::TooLarge),
        Some(required) => {
            if provided < required {
                Err(PackedOutputError::TooSmall { required, provided })
            } else {
                Ok(required)
            }
        },
    }
}

/// `output` with `bytes` written at `at`.
pub open spec fn written_at(output: Seq<u8>, at: int, bytes: Seq<u8>) -> Seq<u8> {
    output.take(at) + bytes + output.skip(at + bytes.len())
}

/// Write the little-endian bytes of the 64-bit hash of item `index`.
pub fn write_packed_64_at(output: &mut Vec<u8>, index: usize, hash: u64)
    requires
        index * 8 + 8 <= old(output)@.len(),
    ensures
        final(output)@ == written_at(old(output)@, index * 8, le_u64(hash)),
{
    assert(output@.len() == output.len());
    let at = index * 8;
    let ghost before = output@;
    output.set(at, hash as u8);
    output.set(at + 1, (hash >> 8u64) as u8);
    output.set(at + 2, (hash >> 16u64) as u8);
    output.set(at + 3, (hash >> 24u64) as u8);
    output.set(at + 4, (hash >> 32u64) as u8);
    output.set(at + 5, (hash >> 40u64) as u8);
    output.set(at + 6, (hash >> 48u64) as u8);
    output.set(at + 7, (hash >> 56u64) as u8);
    assert(output@ =~= written_at(before, at as int, le_u64(hash)));
}

/// Write the little-endian low and then high words of the 128-bit hash of
/// item `index`.
pub fn write_packed_128_at(output: &mut Vec<u8>, index: usize, words: [u64; 2])
    requires
        index * 16 + 16 <= old(output)@.len(),
    ensures
        final(output)@ == written_at(old(output)@, index * 16, le_u64(words[0]) + le_u64(words[1])),
{
    let ghost before = output@;
    assert(output@.len() == output.len());
    write_packed_64_at(output, index * 2, words[0]);
    write_packed_64_at(output, index * 2 + 1, words[1]);
    assert(output@ =~= written_at(before, index * 16, le_u64(words[0]) + le_u64(words[1])));
}

/// Whether two address ranges share a byte, with ends that saturate at the
/// top of the address space; empty ranges share none.
pub open spec fn ranges_overlap_spec(
    first_start: int,
    first_len: int,
    second_start: int,
    second_len: int,
) -> bool {
    let first_end = if first_start + first_len > usize::MAX {
        usize::MAX as int
    } else {
        first_start + first_len
    };
    let second_end = if second_start + second_len > usize::MAX {
        usize::MAX as int
    } else {
        second_start + second_len
    };
    first_len != 0 && second_len != 0 && first_start < second_end && second_start < first_end
}

/// Whether two address ranges share a byte.
pub fn ranges_overlap(first_start: usize, first_len: usize, second_start: usize, second_len: usize) -> (overlap:
    bool)
    ensures
        overlap == ranges_overlap_spec(
            first_start as int,
            first_len as int,
            second_start as int,
            second_len as int,
        ),
{
    if first_len == 0 || second_len == 0 {
        return false;
    }
    let first_end = first_start.saturating_add(first_len);
    let second_end = second_start.saturating_add(second_len);
    first_start < second_end && second_start < first_end
}

/// The total of `lengths`, saturating at the largest machine integer.
pub open spec fn saturating_total(lengths: Seq<usize>) -> int
    decreases lengths.len(),
{
    if lengths.len() == 0 {
        0
    } else {
        let total = saturating_total(lengths.drop_last()) + lengths.last();
        if total > usize::MAX {
            usize::MAX as int
        } else {
            total
        }
    }
}

/// Whether a batch may run without the interpreter lock: every input may be
/// read without it, and together they reach the threshold.
pub fn batch_detach_safe(lengths: &[usize], detach_safe: &[bool], threshold: usize) -> (safe: bool)
    requires
        lengths@.len() == detach_safe@.len(),
    ensures
        safe == ((forall|i: int| 0 <= i < detach_safe@.len() ==> #[trigger] detach_safe@[i])
            && saturating_total(lengths@) >= threshold),
{
    let mut total: usize = 0;
    let mut all_safe = true;
    let mut i: usize = 0;
    proof {
        assert(lengths@.take(0) =~= Seq::<usize>::empty());
    }
    while i < lengths.len()
        invariant
            i <= lengths@.len(),
            lengths@.len() == lengths.len(),
            detach_safe@.len() == lengths@.len(),
            total == saturating_total(lengths@.take(i as int)),
            all_safe == forall|j: int| 0 <= j < i ==> #[trigger] detach_safe@[j],
        decreases lengths@.len() - i,
    {
        proof {
            assert(lengths@.take(i + 1).drop_last() =~= lengths@.take(i as int));
        }
        total = total.saturating_add(lengths[i]);
        all_safe = all_safe && detach_safe[i];
        i = i + 1;
    }
    proof {
        assert(lengths@.take(lengths@.len() as int) =~= lengths@);
    }
    all_safe && total >= threshold
}

/// The total length of a list whose items are all exact `bytes` objects
/// (`Some` of each length), saturating; `None` as soon as an item is not.
pub fn exact_bytes_total(lengths: &[Option<usize>]) -> (total: Option<usize>)
    ensures
        (forall|i: int| 0 <= i < lengths@.len() ==> #[trigger] lengths@[i] is Some) ==> total
            == Some(saturating_total(lengths@.map_values(|l: Option<usize>| l.unwrap())) as usize),
        !(forall|i: int| 0 <= i < lengths@.len() ==> #[trigger] lengths@[i] is Some) ==> total
            is None,
{
    let ghost unwrapped = lengths@.map_values(|l: Option<usize>| l.unwrap());
    let mut total: usize = 0;
    let mut i: usize = 0;
    proof {
        assert(unwrapped.take(0) =~= Seq::<usize>::empty());
    }
    while i < lengths.len()
        invariant
            i <= lengths@.len(),
            lengths@.len() == lengths.len(),
            unwrapped == lengths@.map_values(|l: Option<usize>| l.unwrap()),
            forall|j: int| 0 <= j < i ==> #[trigger] lengths@[j] is Some,
            total == saturating_total(unwrapped.take(i as int)),
        decreases lengths@.len() - i,
    {
        match lengths[i] {
            None => {
                return None;
            },
            Some(length) => {
                proof {
                    assert(unwrapped.take(i + 1).drop_last() =~= unwrapped.take(i as int));
                }
                total = total.saturating_add(length);
            },
        }
        i = i + 1;
    }
    proof {
        assert(unwrapped.take(lengths@.len() as int) =~= unwrapped);
    }
    Some(total)
}

/// How a hash batch reads its inputs.
#[derive(Clone, Copy, Debug, PartialEq, Eq, Structural)]
pub enum HashBatchRoute {
    /// Exact bytes, few and small: borrowed into a stack array, results in
    /// the scratch buffer, with the interpreter lock held.
    StackBorrowed,
    /// Exact bytes below the threshold: borrowed, with the lock held.
    Borrowed,
    /// Exact bytes at or above the threshold: retained, then hashed without
    /// the lock.
    RetainedDetached,
    /// Any other list: every item parsed as a bytes-like object.
    Parsed,
}

/// The route of a hash batch of `len` items, by the total length of its
/// exact `bytes` items (`None` when some item is not exact `bytes`).
pub fn hash_batch_route(exact_total: Option<usize>, len: usize, scratch_len: usize, threshold: usize) -> (route:
    HashBatchRoute)
    ensures
        route == match exact_total {
            None => HashBatchRoute::Parsed,
            Some(total) => if len <= scratch_len && total < threshold {
                HashBatchRoute::StackBorrowed
            } else if total < threshold {
                HashBatchRoute::Borrowed
            } else {
                HashBatchRoute::RetainedDetached
            },
        },
{
    match exact_total {
        None => HashBatchRoute::Parsed,
        Some(total) => {
            if len <= scratch_len && total < threshold {
                HashBatchRoute::StackBorrowed
            } else if total < threshold {
                HashBatchRoute::Borrowed
            } else {
                HashBatchRoute::RetainedDetached
            }
        },
    }
}

/// Whether the results of `count` hashes fit the scratch buffer of
/// `scratch_len` results, so that no result list is allocated.
pub fn fits_scratch(count: usize, scratch_len: usize) -> (fits: bool)
    ensures
        fits == (count <= scratch_len),
{
    count <= scratch_len
}

/// Whether a batch may write packed hashes straight into its destination:
/// it keeps the interpreter lock, and no input overlaps the destination or
/// can run Python code when its buffer is released.
pub fn direct_output_safe(detach: bool, overlaps: &[bool], release_may_reenter: &[bool]) -> (safe:
    bool)
    requires
        overlaps@.len() == release_may_reenter@.len(),
    ensures
        safe == (!detach && forall|i: int|
            0 <= i < overlaps@.len() ==> !(#[trigger] overlaps@[i]) && !release_may_reenter@[i]),
{
    if detach {
        return false;
    }
    let mut i: usize = 0;
    while i < overlaps.len()
        invariant
            i <= overlaps@.len(),
            overlaps@.len() == overlaps.len(),
            overlaps@.len() == release_may_reenter@.len(),
            forall|j: int| 0 <= j < i ==> !(#[trigger] overlaps@[j]),
            forall|j: int| 0 <= j < i ==> !(#[trigger] release_may_reenter@[j]),
        decreases overlaps@.len() - i,
    {
        if overlaps[i] || release_may_reenter[i] {
            return false;
        }
        assert(!overlaps@[i as int] && !release_may_reenter@[i as int]);
        i = i + 1;
    }
    true
}

} // verus!
