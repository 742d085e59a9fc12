use hashcodecs::batch::{
    aliases_output, batch_outputs, exact_bytes_up_to, release_snapshot_needed, snapshot_alias_needed, snapshot_plan,
    snapshot_policy, sort_spans, BatchInputKind, BatchItem, BatchOutputsError, BufferSpan, ItemKind,
    SnapshotPolicy,
};

#[test]
fn snapshot_policy_keeps_immutable_values_on_the_single_pass_path() {
    assert_eq!(snapshot_policy(ItemKind::ExactBytes, BatchInputKind::Contiguous, false), None);
    assert_eq!(snapshot_policy(ItemKind::ExactStr, BatchInputKind::AsciiOrBytes, false), None);
    assert_eq!(
        snapshot_policy(ItemKind::StrSubclass, BatchInputKind::AsciiOrBytes, false),
        Some(SnapshotPolicy::ReleaseBeforeWrite)
    );
    assert_eq!(
        snapshot_policy(ItemKind::ExactStr, BatchInputKind::Contiguous, false),
        Some(SnapshotPolicy::ReleaseBeforeWrite)
    );
    assert_eq!(snapshot_policy(ItemKind::ExactByteArray, BatchInputKind::Contiguous, false), None);
    assert_eq!(
        snapshot_policy(ItemKind::ExactByteArray, BatchInputKind::Contiguous, true),
        Some(SnapshotPolicy::AliasesOnly)
    );
    assert_eq!(
        snapshot_policy(ItemKind::ExactMemoryView, BatchInputKind::AsciiOrBytes, false),
        Some(SnapshotPolicy::AliasesOnly)
    );
    assert_eq!(
        snapshot_policy(ItemKind::Other, BatchInputKind::Contiguous, false),
        Some(SnapshotPolicy::ReleaseBeforeWrite)
    );
}

#[test]
fn release_snapshots_cover_reentrant_exporters_and_borrowed_buffers() {
    assert!(release_snapshot_needed(SnapshotPolicy::AliasesOnly, true, false));
    assert!(!release_snapshot_needed(SnapshotPolicy::AliasesOnly, false, true));
    assert!(release_snapshot_needed(SnapshotPolicy::ReleaseBeforeWrite, false, true));
    assert!(!release_snapshot_needed(SnapshotPolicy::ReleaseBeforeWrite, false, false));
}

#[test]
fn batch_outputs_reports_the_first_problem() {
    assert!(matches!(batch_outputs(2, &[Some(1)]), Err(BatchOutputsError::LengthMismatch)));
    assert!(matches!(
        batch_outputs(3, &[Some(1), None, Some(1)]),
        Err(BatchOutputsError::NotByteArray { index: 1 })
    ));
    assert!(matches!(
        batch_outputs(3, &[Some(1), Some(2), Some(1)]),
        Err(BatchOutputsError::Repeated { index: 2 })
    ));
    let outputs = batch_outputs(2, &[Some(7), Some(9)]).unwrap();
    assert!(outputs.contains(7));
    assert!(outputs.contains(9));
    assert!(!outputs.contains(8));
}

#[test]
fn snapshot_plan_lists_the_items_to_stabilize_in_order() {
    let outputs = batch_outputs(4, &[Some(100), Some(101), Some(102), Some(103)]).unwrap();
    let items = [
        BatchItem { kind: ItemKind::ExactBytes, identity: 1 },
        BatchItem { kind: ItemKind::ExactByteArray, identity: 101 },
        BatchItem { kind: ItemKind::ExactByteArray, identity: 5 },
        BatchItem { kind: ItemKind::ExactMemoryView, identity: 6 },
    ];
    let plan = snapshot_plan(&items, BatchInputKind::Contiguous, &outputs);
    assert_eq!(plan, vec![(1, SnapshotPolicy::AliasesOnly), (3, SnapshotPolicy::AliasesOnly)]);
    let immutable = [BatchItem { kind: ItemKind::ExactBytes, identity: 1 }];
    assert!(snapshot_plan(&immutable, BatchInputKind::Contiguous, &outputs).is_empty());
}

#[test]
fn buffer_spans_saturate_and_overlap_by_shared_bytes() {
    assert_eq!(BufferSpan::new(10, 0), None);
    assert_eq!(BufferSpan::new(10, 5), Some(BufferSpan { start: 10, end: 15 }));
    assert_eq!(BufferSpan::new(usize::MAX - 1, 5), Some(BufferSpan { start: usize::MAX - 1, end: usize::MAX }));
    let a = BufferSpan { start: 10, end: 15 };
    assert!(a.overlaps(BufferSpan { start: 14, end: 20 }));
    assert!(!a.overlaps(BufferSpan { start: 15, end: 20 }));
    assert!(!a.overlaps(BufferSpan { start: 0, end: 10 }));
}

#[test]
fn alias_checks_find_the_destination_an_input_overlaps() {
    let sorted = sort_spans(vec![
        BufferSpan { start: 300, end: 400 },
        BufferSpan { start: 100, end: 200 },
        BufferSpan { start: 500, end: 600 },
    ]);
    assert_eq!(
        sorted,
        vec![
            BufferSpan { start: 100, end: 200 },
            BufferSpan { start: 300, end: 400 },
            BufferSpan { start: 500, end: 600 },
        ]
    );
    assert!(aliases_output(&sorted, BufferSpan { start: 350, end: 360 }));
    assert!(aliases_output(&sorted, BufferSpan { start: 150, end: 310 }));
    assert!(!aliases_output(&sorted, BufferSpan { start: 200, end: 300 }));
    assert!(!aliases_output(&sorted, BufferSpan { start: 0, end: 100 }));
    assert!(!aliases_output(&[], BufferSpan { start: 0, end: 100 }));

    let outputs = batch_outputs(1, &[Some(42)]).unwrap();
    assert!(snapshot_alias_needed(&outputs, &sorted, Some(42), None));
    assert!(!snapshot_alias_needed(&outputs, &sorted, Some(43), None));
    assert!(snapshot_alias_needed(&outputs, &sorted, None, Some(BufferSpan { start: 590, end: 700 })));
    assert!(!snapshot_alias_needed(&outputs, &sorted, None, Some(BufferSpan { start: 600, end: 700 })));
}

#[test]
fn short_batches_hold_only_small_exact_bytes() {
    assert!(exact_bytes_up_to(&[Some(3), Some(256)], 256));
    assert!(exact_bytes_up_to(&[], 256));
    assert!(!exact_bytes_up_to(&[Some(3), Some(257)], 256));
    assert!(!exact_bytes_up_to(&[Some(3), None], 256));
}
