//! Batch decisions: which destinations a batch writes, which inputs must be
//! copied before the first write, and whether an input shares memory with a
//! destination.
use std::collections::HashSet;
use vstd::prelude::*;

verus! {

/// What a batch item is, by its exact Python type.
#[derive(Clone, Copy, Debug, PartialEq, Eq, Structural)]
pub enum ItemKind {
    /// Exactly `bytes`: immutable, never copied.
    ExactBytes,
    /// Exactly `str`.
    ExactStr,
    /// A subclass of `str`, whose encoding can run Python code.
    StrSubclass,
    /// Exactly `bytearray`.
    ExactByteArray,
    /// Exactly `memoryview`.
    ExactMemoryView,
    /// Any other buffer exporter, whose release can run Python code.
    Other,
}

/// What the batch accepts as items.
#[derive(Clone, Copy, Debug, PartialEq, Eq, Structural)]
pub enum BatchInputKind {
    /// Contiguous bytes-like objects.
    Contiguous,
    /// ASCII strings or bytes-like objects.
    AsciiOrBytes,
}

/// Why an input may have to be copied before the first write.
#[derive(Clone, Copy, Debug, PartialEq, Eq, Structural)]
pub enum SnapshotPolicy {
    /// Copy it only where it shares memory with a destination.
    AliasesOnly,
    /// Copy it before its buffer is released, and where it aliases.
    ReleaseBeforeWrite,
}

/// The snapshot policy of one item; `None` for items that stay on the
/// single-pass path.
pub open spec fn snapshot_policy_spec(item: ItemKind, kind: BatchInputKind, is_output: bool) -> Option<
    SnapshotPolicy,
> {
    match item {
        ItemKind::ExactBytes => None,
        ItemKind::ExactStr if kind == BatchInputKind::AsciiOrBytes => None,
        ItemKind::StrSubclass if kind == BatchInputKind::AsciiOrBytes => Some(
            SnapshotPolicy::ReleaseBeforeWrite,
        ),
        ItemKind::ExactByteArray => if is_output {
            Some(SnapshotPolicy::AliasesOnly)
        } else {
            None
        },
        ItemKind::ExactMemoryView => Some(SnapshotPolicy::AliasesOnly),
        _ => Some(SnapshotPolicy::ReleaseBeforeWrite),
    }
}

/// The snapshot policy of one item. `is_output` says whether the item is
/// itself one of the destinations.
pub fn snapshot_policy(item: ItemKind, kind: BatchInputKind, is_output: bool) -> (policy: Option<
    SnapshotPolicy,
>)
    ensures
        policy == snapshot_policy_spec(item, kind, is_output),
{
    match item {
        ItemKind::ExactBytes => None,
        ItemKind::ExactStr if kind == BatchInputKind::AsciiOrBytes => None,
        ItemKind::StrSubclass if kind == BatchInputKind::AsciiOrBytes => Some(
            SnapshotPolicy::ReleaseBeforeWrite,
        ),
        ItemKind::ExactByteArray => if is_output {
            Some(SnapshotPolicy::AliasesOnly)
        } else {
            None
        },
        ItemKind::ExactMemoryView => Some(SnapshotPolicy::AliasesOnly),
        _ => Some(SnapshotPolicy::ReleaseBeforeWrite),
    }
}

/// Whether an acquired input must be copied before its buffer is released:
/// its release may run Python code, or it borrows a buffer that only the
/// acquisition keeps alive.
pub fn release_snapshot_needed(
    policy: SnapshotPolicy,
    release_may_reenter: bool,
    has_borrowed_buffer: bool,
) -> (needed: bool)
    ensures
        needed == (release_may_reenter || (policy == SnapshotPolicy::ReleaseBeforeWrite
            && has_borrowed_buffer)),
{
    release_may_reenter || (policy == SnapshotPolicy::ReleaseBeforeWrite && has_borrowed_buffer)
}

/// One item of a batch: its type, and its object identity.
#[derive(Clone, Copy, Debug)]
pub struct BatchItem {
    pub kind: ItemKind,
    pub identity: usize,
}

/// The identities of a batch's destinations, each once.
pub struct OutputIdentities {
    identities: HashSet<usize>,
}

impl View for OutputIdentities {
    type V = Set<usize>;

    closed spec fn view(&self) -> Set<usize> {
        self.identities@
    }
}

impl OutputIdentities {
    /// Whether `identity` is one of the destinations.
    pub fn contains(&self, identity: usize) -> (found: bool)
        ensures
            found == self@.contains(identity),
    {
        broadcast use vstd::std_specs::hash::group_hash_axioms;

        self.identities.contains(&identity)
    }
}

/// Why the destinations of a batch were refused.
#[derive(Clone, Copy, Debug, PartialEq, Eq, Structural)]
pub enum BatchOutputsError {
    /// "items and outputs must have the same length"
    LengthMismatch,
    /// "outputs[i] must be a bytearray"
    NotByteArray { index: usize },
    /// "outputs must contain distinct bytearrays"
    Repeated { index: usize },
}

/// The first problem among the first `upto` destinations: one that is no
/// bytearray (`None`), or one that repeats an earlier destination.
pub open spec fn first_output_problem(outputs: Seq<Option<usize>>, upto: int) -> Option<
    BatchOutputsError,
>
    decreases upto,
{
    if upto <= 0 {
        None
    } else {
        match first_output_problem(outputs, upto - 1) {
            Some(e) => Some(e),
            None => match outputs[upto - 1] {
                None => Some(BatchOutputsError::NotByteArray { index: (upto - 1) as usize }),
                Some(id) => if exists|j: int| 0 <= j < upto - 1 && outputs[j] == Some(id) {
                    Some(BatchOutputsError::Repeated { index: (upto - 1) as usize })
                } else {
                    None
                },
            },
        }
    }
}

/// Once a problem is found, it stays the first.
proof fn lemma_output_problem_persists(outputs: Seq<Option<usize>>, upto: int, later: int)
    requires
        upto <= later,
        first_output_problem(outputs, upto) is Some,
    ensures
        first_output_problem(outputs, later) == first_output_problem(outputs, upto),
    decreases later - upto,
{
    if upto < later {
        lemma_output_problem_persists(outputs, upto, later - 1);
    }
}

/// The identities of the bytearrays among `outputs`.
pub open spec fn output_set(outputs: Seq<Option<usize>>) -> Set<usize> {
    Set::new(|id: usize| exists|j: int| 0 <= j < outputs.len() && outputs[j] == Some(id))
}

/// Check the destinations of a batch of `items_len` items: as many as the
/// items, each a bytearray (`Some` of its identity), no two the same. The
/// first problem in order is reported.
pub fn batch_outputs(items_len: usize, outputs: &[Option<usize>]) -> (checked: Result<
    OutputIdentities,
    BatchOutputsError,
>)
    ensures
        outputs@.len() != items_len ==> checked == Err::<OutputIdentities, BatchOutputsError>(
            BatchOutputsError::LengthMismatch,
        ),
        outputs@.len() == items_len ==> match first_output_problem(outputs@, outputs@.len() as int) {
            Some(e) => checked == Err::<OutputIdentities, BatchOutputsError>(e),
            None => checked matches Ok(ids) && ids@ == output_set(outputs@),
        },
{
    broadcast use vstd::std_specs::hash::group_hash_axioms;

    if outputs.len() != items_len {
        return Err(BatchOutputsError::LengthMismatch);
    }
    let mut identities: HashSet<usize> = HashSet::new();
    let mut i: usize = 0;
    while i < outputs.len()
        invariant
            i <= outputs@.len(),
            outputs@.len() == outputs.len(),
            outputs@.len() == items_len,
            first_output_problem(outputs@, i as int) is None,
            identities@ == output_set(outputs@.take(i as int)),
        decreases outputs@.len() - i,
    {
        let ghost before = outputs@.take(i as int);
        match outputs[i] {
            None => {
                proof {
                    lemma_output_problem_persists(outputs@, i + 1, outputs@.len() as int);
                }
                return Err(BatchOutputsError::NotByteArray { index: i });
            },
            Some(id) => {
                let fresh = identities.insert(id);
                if !fresh {
                    proof {
                        assert(output_set(before).contains(id));
                        let j = choose|j: int| 0 <= j < before.len() && before[j] == Some(id);
                        assert(outputs@[j] == Some(id));
                        lemma_output_problem_persists(outputs@, i + 1, outputs@.len() as int);
                    }
                    return Err(BatchOutputsError::Repeated { index: i });
                }
                proof {
                    assert forall|j: int| 0 <= j < i implies outputs@[j] != Some(id) by {
                        if outputs@[j] == Some(id) {
                            assert(before[j] == Some(id));
                            assert(output_set(before).contains(id));
                        }
                    }
                    let after = outputs@.take(i + 1);
                    assert(identities@ =~= output_set(after)) by {
                        assert forall|x: usize| output_set(after).contains(x) implies identities@.contains(
                            x,
                        ) by {
                            let j = choose|j: int| 0 <= j < after.len() && after[j] == Some(x);
                            if j < i {
                                assert(before[j] == Some(x));
                            }
                        }
                        assert forall|x: usize| identities@.contains(x) implies output_set(
                            after,
                        ).contains(x) by {
                            if x == id {
                                assert(after[i as int] == Some(x));
                            } else {
                                let j = choose|j: int| 0 <= j < before.len() && before[j] == Some(x);
                                assert(after[j] == Some(x));
                            }
                        }
                    }
                }
            },
        }
        i = i + 1;
    }
    proof {
        assert(outputs@.take(outputs@.len() as int) =~= outputs@);
    }
    Ok(OutputIdentities { identities })
}

/// The items to prepare before any destination is written, in order, each
/// with its snapshot policy.
pub open spec fn snapshot_plan_spec(
    items: Seq<BatchItem>,
    kind: BatchInputKind,
    outputs: Set<usize>,
) -> Seq<(usize, SnapshotPolicy)>
    decreases items.len(),
{
    if items.len() == 0 {
        Seq::empty()
    } else {
        let earlier = snapshot_plan_spec(items.drop_last(), kind, outputs);
        let item = items.last();
        match snapshot_policy_spec(item.kind, kind, outputs.contains(item.identity)) {
            Some(policy) => earlier.push(((items.len() - 1) as usize, policy)),
            None => earlier,
        }
    }
}

/// The items of a batch that must be acquired and stabilized before the
/// first destination write: every item with a snapshot policy, by index.
/// An empty plan keeps the whole batch on the single-pass path.
pub fn snapshot_plan(items: &[BatchItem], kind: BatchInputKind, outputs: &OutputIdentities) -> (plan:
    Vec<(usize, SnapshotPolicy)>)
    ensures
        plan@ == snapshot_plan_spec(items@, kind, outputs@),
{
    let mut plan: Vec<(usize, SnapshotPolicy)> = Vec::new();
    let mut i: usize = 0;
    while i < items.len()
        invariant
            i <= items@.len(),
            items@.len() == items.len(),
            plan@ == snapshot_plan_spec(items@.take(i as int), kind, outputs@),
        decreases items@.len() - i,
    {
        let item = items[i];
        let is_output = outputs.contains(item.identity);
        proof {
            assert(items@.take(i + 1).drop_last() =~= items@.take(i as int));
        }
        match snapshot_policy(item.kind, kind, is_output) {
            Some(policy) => plan.push((i, policy)),
            None => {},
        }
        i = i + 1;
    }
    proof {
        assert(items@.take(items@.len() as int) =~= items@);
    }
    plan
}

/// The bytes `[start, end)` of a buffer in memory.
#[derive(Clone, Copy, Debug, PartialEq, Eq, Structural)]
pub struct BufferSpan {
    pub start: usize,
    pub end: usize,
}

/// Whether two spans share a byte.
pub open spec fn spans_overlap(a: BufferSpan, b: BufferSpan) -> bool {
    a.start < b.end && b.start < a.end
}

impl BufferSpan {
    /// The span of `length` bytes at `start`, its end saturating at the top
    /// of the address space; `None` for an empty buffer.
    pub fn new(start: usize, length: usize) -> (span: Option<BufferSpan>)
        ensures
            length == 0 ==> span is None,
            length != 0 ==> span == Some(
                BufferSpan {
                    start,
                    end: if start + length > usize::MAX {
                        usize::MAX
                    } else {
                        (start + length) as usize
                    },
                },
            ),
    {
        if length == 0 {
            return None;
        }
        Some(BufferSpan { start, end: start.saturating_add(length) })
    }

    /// Whether the two spans share a byte.
    pub fn overlaps(self, other: BufferSpan) -> (overlap: bool)
        ensures
            overlap == spans_overlap(self, other),
    {
        self.start < other.end && other.start < self.end
    }
}

/// Whether `spans` are ordered by their start.
pub open spec fn sorted_by_start(spans: Seq<BufferSpan>) -> bool {
    forall|i: int, j: int| 0 <= i < j < spans.len() ==> spans[i].start <= spans[j].start
}

/// Order the destinations' spans by their start.
pub fn sort_spans(spans: Vec<BufferSpan>) -> (sorted: Vec<BufferSpan>)
    ensures
        sorted_by_start(sorted@),
        sorted@.to_multiset() == spans@.to_multiset(),
{
    broadcast use vstd::seq_lib::group_to_multiset_ensures;

    let mut sorted: Vec<BufferSpan> = Vec::new();
    let mut i: usize = 0;
    proof {
        assert(spans@.take(0) =~= Seq::<BufferSpan>::empty());
    }
    while i < spans.len()
        invariant
            i <= spans@.len(),
            spans@.len() == spans.len(),
            sorted_by_start(sorted@),
            sorted@.to_multiset() == spans@.take(i as int).to_multiset(),
        decreases spans@.len() - i,
    {
        let span = spans[i];
        let mut p: usize = 0;
        while p < sorted.len() && sorted[p].start <= span.start
            invariant
                p <= sorted@.len(),
                sorted_by_start(sorted@),
                forall|k: int| 0 <= k < p ==> sorted@[k].start <= span.start,
            decreases sorted@.len() - p,
        {
            p = p + 1;
        }
        let ghost old_sorted = sorted@;
        sorted.insert(p, span);
        proof {
            vstd::seq_lib::to_multiset_insert(old_sorted, p as int, span);
            assert(sorted@ == old_sorted.insert(p as int, span));
            assert(spans@.take(i + 1) =~= spans@.take(i as int).push(span));
            vstd::seq_lib::to_multiset_build(spans@.take(i as int), span);
            assert forall|a: int, b: int| 0 <= a < b < sorted@.len() implies sorted@[a].start
                <= sorted@[b].start by {
                if b < p {
                    assert(sorted@[a] == old_sorted[a] && sorted@[b] == old_sorted[b]);
                } else if b == p {
                    assert(sorted@[a] == old_sorted[a]);
                } else if a == p {
                    assert(sorted@[b] == old_sorted[b - 1]);
                    if p < old_sorted.len() {
                        assert(!(old_sorted[p as int].start <= span.start));
                    }
                } else if a < p {
                    assert(sorted@[a] == old_sorted[a] && sorted@[b] == old_sorted[b - 1]);
                } else {
                    assert(sorted@[a] == old_sorted[a - 1] && sorted@[b] == old_sorted[b - 1]);
                }
            }
        }
        i = i + 1;
    }
    proof {
        assert(spans@.take(spans@.len() as int) =~= spans@);
    }
    sorted
}

/// The number of destinations that start before `end`, in spans sorted by
/// their start.
pub open spec fn starts_before(spans: Seq<BufferSpan>, end: usize, index: int) -> bool {
    &&& 0 <= index <= spans.len()
    &&& forall|k: int| 0 <= k < index ==> #[trigger] spans[k].start < end
    &&& forall|k: int| index <= k < spans.len() ==> !(#[trigger] spans[k].start < end)
}

/// Whether `input` shares memory with a destination, by the one destination
/// that can: the last one that starts before `input` ends.
pub fn aliases_output(sorted: &[BufferSpan], input: BufferSpan) -> (aliases: bool)
    requires
        sorted_by_start(sorted@),
    ensures
        exists|index: int|
            starts_before(sorted@, input.end, index) && aliases == (index != 0 && spans_overlap(
                sorted@[index - 1],
                input,
            )),
{
    let mut low: usize = 0;
    let mut high: usize = sorted.len();
    while low < high
        invariant
            low <= high <= sorted@.len(),
            sorted@.len() == sorted.len(),
            sorted_by_start(sorted@),
            forall|k: int| 0 <= k < low ==> #[trigger] sorted@[k].start < input.end,
            forall|k: int| high <= k < sorted@.len() ==> !(#[trigger] sorted@[k].start < input.end),
        decreases high - low,
    {
        let middle = low + (high - low) / 2;
        if sorted[middle].start < input.end {
            low = middle + 1;
        } else {
            high = middle;
        }
    }
    assert(starts_before(sorted@, input.end, low as int));
    low != 0 && sorted[low - 1].overlaps(input)
}

/// Whether no two of `spans` share a byte, and none is empty.
pub open spec fn disjoint_nonempty(spans: Seq<BufferSpan>) -> bool {
    &&& forall|k: int| 0 <= k < spans.len() ==> #[trigger] spans[k].start < spans[k].end
    &&& forall|a: int, b: int|
        0 <= a < b < spans.len() ==> !spans_overlap(#[trigger] spans[a], #[trigger] spans[b])
}

/// Over destinations that are sorted, disjoint and not empty, checking the
/// last destination that starts before the input ends finds every alias:
/// the input shares memory with some destination exactly when it shares
/// memory with that one.
pub proof fn lemma_alias_check_complete(sorted: Seq<BufferSpan>, input: BufferSpan, index: int)
    requires
        sorted_by_start(sorted),
        disjoint_nonempty(sorted),
        starts_before(sorted, input.end, index),
    ensures
        (index != 0 && spans_overlap(sorted[index - 1], input)) <==> exists|k: int|
            0 <= k < sorted.len() && spans_overlap(#[trigger] sorted[k], input),
{
    if exists|k: int| 0 <= k < sorted.len() && spans_overlap(#[trigger] sorted[k], input) {
        let k = choose|k: int| 0 <= k < sorted.len() && spans_overlap(#[trigger] sorted[k], input);
        assert(sorted[k].start < input.end);
        assert(k < index);
        let last = index - 1;
        if k < last {
            assert(!spans_overlap(sorted[k], sorted[last]));
            assert(sorted[k].start <= sorted[last].start);
            assert(sorted[last].start < sorted[last].end);
            assert(sorted[k].end <= sorted[last].start);
            assert(sorted[last].start < input.end);
        }
    }
}

/// Whether an input must be copied before any destination is written: it
/// is itself a destination, or its buffer shares memory with one.
pub fn snapshot_alias_needed(
    outputs: &OutputIdentities,
    sorted: &[BufferSpan],
    input_identity: Option<usize>,
    input_span: Option<BufferSpan>,
) -> (needed: bool)
    requires
        sorted_by_start(sorted@),
    ensures
        (input_identity matches Some(id) && outputs@.contains(id)) ==> needed,
        !(input_identity matches Some(id) && outputs@.contains(id)) ==> match input_span {
            None => !needed,
            Some(span) => exists|index: int|
                starts_before(sorted@, span.end, index) && needed == (index != 0 && spans_overlap(
                    sorted@[index - 1],
                    span,
                )),
        },
{
    match input_identity {
        Some(id) => {
            if outputs.contains(id) {
                return true;
            }
        },
        None => {},
    }
    match input_span {
        None => false,
        Some(span) => aliases_output(sorted, span),
    }
}

/// Whether every item of a list is an exact `bytes` object (`Some` of its
/// length) of at most `max_length` bytes: such a batch takes the short path
/// that retains the items before any result is allocated.
pub fn exact_bytes_up_to(lengths: &[Option<usize>], max_length: usize) -> (short: bool)
    ensures
        short == forall|i: int|
            0 <= i < lengths@.len() ==> (#[trigger] lengths@[i] matches Some(l) && l <= max_length),
{
    let mut i: usize = 0;
    while i < lengths.len()
        invariant
            i <= lengths@.len(),
            lengths@.len() == lengths.len(),
            forall|j: int| 0 <= j < i ==> (#[trigger] lengths@[j] matches Some(l) && l <= max_length),
        decreases lengths@.len() - i,
    {
        match lengths[i] {
            Some(length) => {
                if length > max_length {
                    return false;
                }
            },
            None => {
                return false;
            },
        }
        i = i + 1;
    }
    true
}

} // verus!
