use hashcodecs::digest::{
    batch_detach_safe, direct_output_safe, exact_bytes_total, fits_scratch, hash_batch_route,
    hex_digest, HashBatchRoute, packed_output_len, ranges_overlap, write_packed_128_at,
    write_packed_64_at, x64_128_digest, x86_128_digest, PackedOutputError,
};

#[test]
fn digests_store_words_little_endian() {
    let digest = x86_128_digest([0x04030201, 0x08070605, 0x0c0b0a09, 0x100f0e0d]);
    assert_eq!(digest, [1, 2, 3, 4, 5, 6, 7, 8, 9, 10, 11, 12, 13, 14, 15, 16]);
    let digest = x64_128_digest([0x0807060504030201, 0x100f0e0d0c0b0a09]);
    assert_eq!(digest, [1, 2, 3, 4, 5, 6, 7, 8, 9, 10, 11, 12, 13, 14, 15, 16]);
    assert_eq!(hex_digest(&[0x00, 0x9f, 0xa5, 0xff]), b"009fa5ff");
    assert_eq!(hex_digest(&[]), b"");
}

#[test]
fn packed_outputs_check_their_size_and_layout() {
    assert_eq!(packed_output_len(3, 8, 24), Ok(24));
    assert_eq!(
        packed_output_len(3, 8, 23),
        Err(PackedOutputError::TooSmall { required: 24, provided: 23 })
    );
    assert_eq!(packed_output_len(usize::MAX, 2, 0), Err(PackedOutputError::TooLarge));
    let mut output = vec![0xa5; 17];
    write_packed_64_at(&mut output, 1, 0x0807060504030201);
    assert_eq!(&output[8..16], &[1, 2, 3, 4, 5, 6, 7, 8]);
    assert_eq!(output[16], 0xa5);
    assert_eq!(&output[..8], &[0xa5; 8]);
    let mut output = vec![0; 32];
    write_packed_128_at(&mut output, 1, [1, 2]);
    assert_eq!(output[16], 1);
    assert_eq!(output[24], 2);
    assert_eq!(&output[..16], &[0; 16]);
}

#[test]
fn ranges_overlap_only_when_they_share_a_byte() {
    assert!(ranges_overlap(0, 4, 3, 4));
    assert!(!ranges_overlap(0, 4, 4, 4));
    assert!(!ranges_overlap(0, 0, 0, 4));
    assert!(ranges_overlap(usize::MAX - 1, 8, usize::MAX - 2, 2));
    assert!(batch_detach_safe(&[10, 20], &[true, true], 30));
    assert!(!batch_detach_safe(&[10, 20], &[true, false], 30));
    assert!(!batch_detach_safe(&[10, 19], &[true, true], 30));
    assert!(batch_detach_safe(&[usize::MAX, 5], &[true, true], usize::MAX));
}

#[test]
fn exact_bytes_total_saturates_and_stops_at_other_items() {
    assert_eq!(exact_bytes_total(&[Some(3), Some(4)]), Some(7));
    assert_eq!(exact_bytes_total(&[]), Some(0));
    assert_eq!(exact_bytes_total(&[Some(usize::MAX), Some(4)]), Some(usize::MAX));
    assert_eq!(exact_bytes_total(&[Some(3), None, Some(4)]), None);
}

#[test]
fn hash_batches_choose_their_route_by_size() {
    assert_eq!(hash_batch_route(None, 2, 32, 1000), HashBatchRoute::Parsed);
    assert_eq!(hash_batch_route(Some(10), 2, 32, 1000), HashBatchRoute::StackBorrowed);
    assert_eq!(hash_batch_route(Some(10), 40, 32, 1000), HashBatchRoute::Borrowed);
    assert_eq!(hash_batch_route(Some(1000), 2, 32, 1000), HashBatchRoute::RetainedDetached);
    assert!(fits_scratch(32, 32));
    assert!(!fits_scratch(33, 32));
}

#[test]
fn direct_output_needs_the_lock_and_no_overlap() {
    assert!(direct_output_safe(false, &[false, false], &[false, false]));
    assert!(!direct_output_safe(true, &[false], &[false]));
    assert!(!direct_output_safe(false, &[false, true], &[false, false]));
    assert!(!direct_output_safe(false, &[false], &[true]));
}
