//! Samples: one weighted stretch of file bytes each, and what it means for
//! samples to account for every byte of a range exactly once.

use crate::error::ProfileError;
use crate::sink::{
    add_sample, extends, grows, interned_labels, interned_stacks, interned_strings,
    lemma_extends_stack_at, lemma_grows_refl, recorded_samples, samples_of, stack_at,
    stack_known, thread_known,
};
use fxprof_processed_profile::{CategoryHandle, Profile, StackHandle, ThreadHandle};
use vstd::prelude::*;

verus! {

/// The heaviest sample that a profile holds.
pub const MAX_WEIGHT: u64 = 0x7fff_ffff;

/// How many nanoseconds of the profile's time axis stand for one byte: a
/// byte is one millisecond.
pub const NANOS_PER_BYTE: u64 = 1_000_000;

/// A sample as the library means it: `weight` bytes of the file from
/// `offset` on, attributed to the stack that is reached from the root stack
/// through `labels`.
pub struct Sample {
    pub offset: int,
    pub weight: int,
    pub labels: Seq<Seq<char>>,
}

/// The time at which the byte at `offset` stands on the profile's time axis.
/// Offsets beyond the axis stand at its end.
pub open spec fn sink_time(offset: int) -> u64 {
    if offset * NANOS_PER_BYTE <= u64::MAX {
        (offset * NANOS_PER_BYTE) as u64
    } else {
        u64::MAX
    }
}

/// What the profile holds for `sample`, where offsets count from
/// `timestamp_offset` and labels descend from `root`.
pub open spec fn record(
    profile: Profile,
    thread: ThreadHandle,
    category: CategoryHandle,
    root: StackHandle,
    timestamp_offset: int,
    sample: Sample,
) -> (u64, Option<StackHandle>, i32) {
    (
        sink_time(timestamp_offset + sample.offset),
        stack_at(profile, thread, category, root, sample.labels),
        sample.weight as i32,
    )
}

/// What the profile holds for each of `samples`.
pub open spec fn records(
    profile: Profile,
    thread: ThreadHandle,
    category: CategoryHandle,
    root: StackHandle,
    timestamp_offset: int,
    samples: Seq<Sample>,
) -> Seq<(u64, Option<StackHandle>, i32)> {
    samples.map_values(|s: Sample| record(profile, thread, category, root, timestamp_offset, s))
}

/// The profile has the stack of each of `samples`.
pub open spec fn resolved(
    profile: Profile,
    thread: ThreadHandle,
    category: CategoryHandle,
    root: StackHandle,
    samples: Seq<Sample>,
) -> bool {
    forall|i: int|
        0 <= i < samples.len() ==> stack_at(
            profile,
            thread,
            category,
            root,
            (#[trigger] samples[i]).labels,
        ).is_some()
}

/// Every one of `samples` fits into one sample of the profile.
pub open spec fn weights_fit(samples: Seq<Sample>) -> bool {
    forall|i: int| 0 <= i < samples.len() ==> 0 <= (#[trigger] samples[i]).weight <= MAX_WEIGHT
}

/// The weights of `samples`, added up.
pub open spec fn total_weight(samples: Seq<Sample>) -> int
    decreases samples.len(),
{
    if samples.len() == 0 {
        0
    } else {
        total_weight(samples.drop_last()) + samples.last().weight
    }
}

/// `samples` lie end to end from `from` to `to`: the first starts at `from`,
/// each starts where the one before it ends, and the last ends at `to`.
pub open spec fn contiguous(samples: Seq<Sample>, from: int, to: int) -> bool
    decreases samples.len(),
{
    if samples.len() == 0 {
        from == to
    } else {
        &&& samples.last().weight >= 0
        &&& samples.last().offset + samples.last().weight == to
        &&& contiguous(samples.drop_last(), from, samples.last().offset)
    }
}

/// The byte at file offset `byte` lies in the sample at `index`.
pub open spec fn covers(samples: Seq<Sample>, index: int, byte: int) -> bool {
    0 <= index < samples.len() && samples[index].offset <= byte < samples[index].offset
        + samples[index].weight
}

/// Samples that lie end to end and samples that go on from where they end
/// lie end to end together.
pub proof fn lemma_contiguous_concat(
    first: Seq<Sample>,
    second: Seq<Sample>,
    from: int,
    middle: int,
    to: int,
)
    requires
        contiguous(first, from, middle),
        contiguous(second, middle, to),
    ensures
        contiguous(first + second, from, to),
    decreases second.len(),
{
    if second.len() == 0 {
        assert(first + second =~= first);
    } else {
        lemma_contiguous_concat(first, second.drop_last(), from, middle, second.last().offset);
        assert((first + second).drop_last() =~= first + second.drop_last());
        assert((first + second).last() == second.last());
    }
}

/// Samples that lie end to end start nowhere before `from`, end nowhere
/// after `to`, and `from` is not beyond `to`.
pub proof fn lemma_contiguous_bounds(samples: Seq<Sample>, from: int, to: int)
    requires
        contiguous(samples, from, to),
    ensures
        from <= to,
        forall|i: int|
            0 <= i < samples.len() ==> from <= (#[trigger] samples[i]).offset && samples[i].offset
                + samples[i].weight <= to && samples[i].weight >= 0,
    decreases samples.len(),
{
    if samples.len() > 0 {
        let init = samples.drop_last();
        lemma_contiguous_bounds(init, from, samples.last().offset);
        assert forall|i: int| 0 <= i < samples.len() implies from <= (#[trigger] samples[i]).offset
            && samples[i].offset + samples[i].weight <= to && samples[i].weight >= 0 by {
            if i < init.len() {
                assert(samples[i] == init[i]);
            }
        }
    }
}

/// Byte conservation: samples that lie end to end from `from` to `to` weigh
/// `to - from` together.
pub proof fn lemma_byte_conservation(samples: Seq<Sample>, from: int, to: int)
    requires
        contiguous(samples, from, to),
    ensures
        total_weight(samples) == to - from,
    decreases samples.len(),
{
    if samples.len() > 0 {
        lemma_byte_conservation(samples.drop_last(), from, samples.last().offset);
    }
}

/// Monotonic timestamps: of samples that lie end to end, none starts before
/// one that was emitted earlier, and none starts before an earlier one ends.
pub proof fn lemma_offsets_monotonic(samples: Seq<Sample>, from: int, to: int)
    requires
        contiguous(samples, from, to),
    ensures
        forall|i: int, j: int|
            0 <= i < j < samples.len() ==> (#[trigger] samples[i]).offset <= samples[i].offset
                + samples[i].weight <= (#[trigger] samples[j]).offset,
    decreases samples.len(),
{
    if samples.len() > 0 {
        let init = samples.drop_last();
        lemma_offsets_monotonic(init, from, samples.last().offset);
        lemma_contiguous_bounds(init, from, samples.last().offset);
        assert forall|i: int, j: int| 0 <= i < j < samples.len() implies (
        #[trigger] samples[i]).offset <= samples[i].offset + samples[i].weight <= (
        #[trigger] samples[j]).offset by {
            assert(samples[i] == init[i]);
            if j < init.len() {
                assert(samples[j] == init[j]);
            }
        }
    }
}

/// No gaps: every byte between `from` and `to` lies in one of the samples
/// that lie end to end from `from` to `to`.
pub proof fn lemma_every_byte_covered(samples: Seq<Sample>, from: int, to: int, byte: int)
    requires
        contiguous(samples, from, to),
        from <= byte < to,
    ensures
        exists|i: int|
            0 <= i < samples.len() && (#[trigger] samples[i]).offset <= byte < samples[i].offset
                + samples[i].weight,
    decreases samples.len(),
{
    if samples.len() > 0 {
        let init = samples.drop_last();
        if byte >= samples.last().offset {
            assert(samples[samples.len() - 1] == samples.last());
        } else {
            lemma_every_byte_covered(init, from, samples.last().offset, byte);
            let i = choose|i: int|
                0 <= i < init.len() && (#[trigger] init[i]).offset <= byte < init[i].offset
                    + init[i].weight;
            assert(samples[i] == init[i]);
        }
    }
}

/// No overlap: no byte lies in two of the samples that lie end to end.
pub proof fn lemma_no_byte_twice(
    samples: Seq<Sample>,
    from: int,
    to: int,
    byte: int,
    i: int,
    j: int,
)
    requires
        contiguous(samples, from, to),
        0 <= i < samples.len(),
        0 <= j < samples.len(),
        samples[i].offset <= byte < samples[i].offset + samples[i].weight,
        samples[j].offset <= byte < samples[j].offset + samples[j].weight,
    ensures
        i == j,
{
    lemma_offsets_monotonic(samples, from, to);
}

/// What a profile holds for samples stays what it is in every profile that
/// extends it.
pub proof fn lemma_extends_records(
    a: Profile,
    b: Profile,
    thread: ThreadHandle,
    category: CategoryHandle,
    root: StackHandle,
    timestamp_offset: int,
    samples: Seq<Sample>,
)
    requires
        extends(a, b),
        resolved(a, thread, category, root, samples),
    ensures
        resolved(b, thread, category, root, samples),
        records(b, thread, category, root, timestamp_offset, samples) == records(
            a,
            thread,
            category,
            root,
            timestamp_offset,
            samples,
        ),
{
    assert forall|i: int| 0 <= i < samples.len() implies stack_at(
        b,
        thread,
        category,
        root,
        (#[trigger] samples[i]).labels,
    ) == stack_at(a, thread, category, root, samples[i].labels) by {
        lemma_extends_stack_at(a, b, thread, category, root, samples[i].labels);
    }
    assert(records(b, thread, category, root, timestamp_offset, samples) =~= records(
        a,
        thread,
        category,
        root,
        timestamp_offset,
        samples,
    ));
}

/// What a profile holds for two lists of samples in a row is what it holds
/// for the first and then what it holds for the second.
pub proof fn lemma_records_concat(
    profile: Profile,
    thread: ThreadHandle,
    category: CategoryHandle,
    root: StackHandle,
    timestamp_offset: int,
    first: Seq<Sample>,
    second: Seq<Sample>,
)
    ensures
        records(profile, thread, category, root, timestamp_offset, first + second) == records(
            profile,
            thread,
            category,
            root,
            timestamp_offset,
            first,
        ) + records(profile, thread, category, root, timestamp_offset, second),
        resolved(profile, thread, category, root, first + second) <==> resolved(
            profile,
            thread,
            category,
            root,
            first,
        ) && resolved(profile, thread, category, root, second),
{
    let both = first + second;
    assert(records(profile, thread, category, root, timestamp_offset, both) =~= records(
        profile,
        thread,
        category,
        root,
        timestamp_offset,
        first,
    ) + records(profile, thread, category, root, timestamp_offset, second));
    if resolved(profile, thread, category, root, both) {
        assert forall|i: int| 0 <= i < first.len() implies stack_at(
            profile,
            thread,
            category,
            root,
            (#[trigger] first[i]).labels,
        ).is_some() by {
            assert(both[i] == first[i]);
        }
        assert forall|i: int| 0 <= i < second.len() implies stack_at(
            profile,
            thread,
            category,
            root,
            (#[trigger] second[i]).labels,
        ).is_some() by {
            assert(both[first.len() + i] == second[i]);
        }
    }
    if resolved(profile, thread, category, root, first) && resolved(
        profile,
        thread,
        category,
        root,
        second,
    ) {
        assert forall|i: int| 0 <= i < both.len() implies stack_at(
            profile,
            thread,
            category,
            root,
            (#[trigger] both[i]).labels,
        ).is_some() by {
            if i < first.len() {
                assert(both[i] == first[i]);
            } else {
                assert(both[i] == second[i - first.len()]);
            }
        }
    }
}

/// Two lists of samples in a row fit where both of them do.
pub proof fn lemma_weights_concat(first: Seq<Sample>, second: Seq<Sample>)
    ensures
        weights_fit(first + second) <==> weights_fit(first) && weights_fit(second),
{
    let both = first + second;
    if weights_fit(both) {
        assert forall|i: int| 0 <= i < first.len() implies 0 <= (#[trigger] first[i]).weight
            <= MAX_WEIGHT by {
            assert(both[i] == first[i]);
        }
        assert forall|i: int| 0 <= i < second.len() implies 0 <= (#[trigger] second[i]).weight
            <= MAX_WEIGHT by {
            assert(both[first.len() + i] == second[i]);
        }
    }
    if weights_fit(first) && weights_fit(second) {
        assert forall|i: int| 0 <= i < both.len() implies 0 <= (#[trigger] both[i]).weight
            <= MAX_WEIGHT by {
            if i < first.len() {
                assert(both[i] == first[i]);
            } else {
                assert(both[i] == second[i - first.len()]);
            }
        }
    }
}

/// Where a thread held `base` and then `first`, and a later profile holds
/// all of that and then `second`, the later profile holds `base` and then
/// `first` and `second` in a row.
pub proof fn lemma_appended(
    a: Profile,
    b: Profile,
    thread: ThreadHandle,
    category: CategoryHandle,
    root: StackHandle,
    timestamp_offset: int,
    base: Seq<(u64, Option<StackHandle>, i32)>,
    first: Seq<Sample>,
    second: Seq<Sample>,
)
    requires
        extends(a, b),
        resolved(a, thread, category, root, first),
        resolved(b, thread, category, root, second),
        samples_of(a, thread) == base + records(a, thread, category, root, timestamp_offset, first),
        samples_of(b, thread) == samples_of(a, thread) + records(
            b,
            thread,
            category,
            root,
            timestamp_offset,
            second,
        ),
    ensures
        resolved(b, thread, category, root, first + second),
        samples_of(b, thread) == base + records(
            b,
            thread,
            category,
            root,
            timestamp_offset,
            first + second,
        ),
{
    lemma_extends_records(a, b, thread, category, root, timestamp_offset, first);
    lemma_records_concat(b, thread, category, root, timestamp_offset, first, second);
    assert(samples_of(b, thread) =~= base + records(
        b,
        thread,
        category,
        root,
        timestamp_offset,
        first + second,
    ));
}

/// Where a thread held `base` and then `earlier`, and a later profile holds
/// all of that and then `sample`, the later profile holds `base` and then
/// `earlier` with `sample` at its end.
pub proof fn lemma_one_more_sample(
    a: Profile,
    b: Profile,
    thread: ThreadHandle,
    category: CategoryHandle,
    root: StackHandle,
    timestamp_offset: int,
    base: Seq<(u64, Option<StackHandle>, i32)>,
    earlier: Seq<Sample>,
    sample: Sample,
)
    requires
        extends(a, b),
        resolved(a, thread, category, root, earlier),
        weights_fit(earlier),
        samples_of(a, thread) == base + records(
            a,
            thread,
            category,
            root,
            timestamp_offset,
            earlier,
        ),
        resolved(b, thread, category, root, seq![sample]),
        0 <= sample.weight <= MAX_WEIGHT,
        samples_of(b, thread) == samples_of(a, thread).push(
            record(b, thread, category, root, timestamp_offset, sample),
        ),
    ensures
        resolved(b, thread, category, root, earlier.push(sample)),
        weights_fit(earlier.push(sample)),
        samples_of(b, thread) == base + records(
            b,
            thread,
            category,
            root,
            timestamp_offset,
            earlier.push(sample),
        ),
{
    let one = seq![sample];
    assert(one[0] == sample);
    assert(earlier.push(sample) =~= earlier + one);
    assert(records(b, thread, category, root, timestamp_offset, one) =~= seq![
        record(b, thread, category, root, timestamp_offset, sample),
    ]);
    assert(samples_of(b, thread) =~= samples_of(a, thread) + records(
        b,
        thread,
        category,
        root,
        timestamp_offset,
        one,
    ));
    lemma_appended(a, b, thread, category, root, timestamp_offset, base, earlier, one);
    lemma_weights_concat(earlier, one);
}

/// The time at which the byte at `offset` stands on the profile's time axis.
pub fn time_of(offset: u64) -> (nanos: u64)
    ensures
        nanos == sink_time(offset as int),
{
    match offset.checked_mul(NANOS_PER_BYTE) {
        Some(nanos) => nanos,
        None => u64::MAX,
    }
}

/// Adds one sample of `weight` bytes at `time_offset` with `stack` to the
/// samples of `thread`, unless it weighs more than a sample can.
pub fn emit_sample(
    profile: &mut Profile,
    thread: ThreadHandle,
    stack: StackHandle,
    time_offset: u64,
    weight: u64,
) -> (done: Result<(), ProfileError>)
    requires
        thread_known(*old(profile), thread),
        stack_known(*old(profile), thread, stack),
    ensures
        weight <= MAX_WEIGHT ==> done.is_ok() && samples_of(*final(profile), thread) == samples_of(
            *old(profile),
            thread,
        ).push((sink_time(time_offset as int), Some(stack), weight as i32)),
        weight > MAX_WEIGHT ==> done == Err::<(), ProfileError>(ProfileError::WeightOverflow)
            && samples_of(*final(profile), thread) == samples_of(*old(profile), thread),
        grows(*old(profile), *final(profile), thread),
        interned_strings(*final(profile)) == interned_strings(*old(profile)),
        interned_labels(*final(profile)) == interned_labels(*old(profile)),
        interned_stacks(*final(profile)) == interned_stacks(*old(profile)),
{
    if weight > MAX_WEIGHT {
        proof {
            lemma_grows_refl(*profile, thread);
        }
        return Err(ProfileError::WeightOverflow);
    }
    add_sample(profile, thread, time_of(time_offset), stack, weight as i32);
    proof {
        assert(recorded_samples(*profile).dom() =~= recorded_samples(*old(profile)).dom());
        assert(recorded_samples(*profile) =~= recorded_samples(*old(profile)).insert(
            thread,
            samples_of(*profile, thread),
        ));
    }
    Ok(())
}

} // verus!
