//! One binary from its first byte to its last: the sections in file order,
//! the padding between and after them.

use crate::emitter::{
    SectionScan, address_at, emit_summary, flushes, lemma_flushed_are_runs,
    lemma_section_samples_contiguous, lookup_views, pending_sample, process_section,
    section_samples, start_address, summary_sample,
};
use crate::error::ProfileError;
use crate::library::{LibraryIdentity, LibraryInfo, first_missing, identifies, identify_library};
use crate::samples::{
    MAX_WEIGHT, NANOS_PER_BYTE, Sample, contiguous, covers, emit_sample, lemma_appended,
    lemma_byte_conservation, lemma_contiguous_bounds, lemma_contiguous_concat,
    lemma_every_byte_covered, lemma_no_byte_twice, lemma_extends_records,
    lemma_offsets_monotonic, lemma_records_concat, lemma_weights_concat, records, resolved,
    sink_time, total_weight, weights_fit,
};
use crate::sections::{
    Section, SectionView, disjoint, first_overlap, first_overlap_at, overlaps_at, section_views,
};
use crate::sink::{
    grows, lemma_extends_known, lemma_grows_refl, lemma_grows_trans, samples_of, stack_known,
    thread_known,
};
use crate::symbols::{AddressInfo, AddressInfoView, lookup_of};
use fxprof_processed_profile::{CategoryHandle, Profile, StackHandle, ThreadHandle};
use vstd::prelude::*;

verus! {

/// Where the last of `sections` ends: at the start of the file where there
/// is none.
pub open spec fn end_of(sections: Seq<SectionView>) -> int {
    if sections.len() == 0 {
        0
    } else {
        sections.last().end()
    }
}

/// The sections lie in the file one after the other without overlap, and
/// the last of them ends within the binary.
pub open spec fn layout_ok(sections: Seq<SectionView>, binary_file_size: int) -> bool {
    &&& disjoint(sections)
    &&& end_of(sections) <= binary_file_size
}

/// `error` is what is wrong with the layout of the sections: the first
/// section that overlaps the one before it, or, where none does, that the
/// last section ends beyond the binary.
pub open spec fn is_layout_error(
    sections: Seq<SectionView>,
    binary_file_size: int,
    error: ProfileError,
) -> bool {
    match error {
        ProfileError::OverlappingSections { index } => first_overlap_at(sections, index as int),
        ProfileError::TruncatedSection => disjoint(sections) && end_of(sections)
            > binary_file_size,
        _ => false,
    }
}

/// The bytes from `from` to `to` that belong to no section: one sample at
/// the root where there are any, none where there are not.
pub open spec fn padding(from: int, to: int) -> Seq<Sample> {
    if to > from {
        seq![Sample { offset: from, weight: to - from, labels: Seq::empty() }]
    } else {
        Seq::empty()
    }
}

/// The samples of the sections, each after the padding that lies before it.
/// `lookups` holds for each section one lookup result per byte; those of
/// sections that hold no code are not looked at.
pub open spec fn sections_samples(
    sections: Seq<SectionView>,
    base_addr: u64,
    lookups: Seq<Seq<Option<AddressInfoView>>>,
) -> Seq<Sample>
    decreases sections.len(),
{
    if sections.len() == 0 || lookups.len() != sections.len() {
        Seq::empty()
    } else {
        sections_samples(sections.drop_last(), base_addr, lookups.drop_last()) + padding(
            end_of(sections.drop_last()),
            sections.last().file_offset as int,
        ) + section_samples(sections.last(), base_addr, lookups.last())
    }
}

/// The samples of a binary: those of its sections with the padding between
/// them, and the padding from the last section to the end of the binary.
pub open spec fn binary_samples(
    sections: Seq<SectionView>,
    base_addr: u64,
    lookups: Seq<Seq<Option<AddressInfoView>>>,
    binary_file_size: int,
) -> Seq<Sample> {
    sections_samples(sections, base_addr, lookups) + padding(end_of(sections), binary_file_size)
}

/// There is one list of lookup results per section, and that of a section
/// that holds code has one result per byte.
pub open spec fn lookups_fit(
    sections: Seq<SectionView>,
    lookups: Seq<Seq<Option<AddressInfoView>>>,
) -> bool {
    &&& lookups.len() == sections.len()
    &&& forall|i: int|
        0 <= i < sections.len() && (#[trigger] sections[i]).is_text() ==> lookups[i].len()
            == sections[i].size
}

/// The lookup results of the sections of a binary, as values.
pub open spec fn lookup_lists(lookups: Seq<Vec<Option<AddressInfo>>>) -> Seq<
    Seq<Option<AddressInfoView>>,
> {
    lookups.map_values(|list: Vec<Option<AddressInfo>>| lookup_views(list@))
}

/// Checks that the sections lie in the file one after the other and within
/// the binary.
pub fn check_layout(sections: &Vec<Section>, binary_file_size: u64) -> (done: Result<
    (),
    ProfileError,
>)
    ensures
        done.is_ok() <==> layout_ok(section_views(sections@), binary_file_size as int),
        done matches Err(error) ==> is_layout_error(
            section_views(sections@),
            binary_file_size as int,
            error,
        ),
{
    let ghost views = section_views(sections@);
    if let Some(index) = first_overlap(sections) {
        return Err(ProfileError::OverlappingSections { index });
    }
    if sections.len() > 0 {
        let last = &sections[sections.len() - 1];
        assert(views.last() == last@);
        if last.file_offset as u128 + last.size as u128 > binary_file_size as u128 {
            return Err(ProfileError::TruncatedSection);
        }
    }
    Ok(())
}

/// Emits the sample of the bytes from `from` to `to` that belong to no
/// section, where there are any.
pub fn emit_padding(
    profile: &mut Profile,
    thread: ThreadHandle,
    root_stack: StackHandle,
    category: CategoryHandle,
    timestamp_offset: u64,
    from: u64,
    to: u64,
) -> (done: Result<(), ProfileError>)
    requires
        thread_known(*old(profile), thread),
        stack_known(*old(profile), thread, root_stack),
        timestamp_offset + from <= u64::MAX,
    ensures
        grows(*old(profile), *final(profile), thread),
        done.is_ok() <==> weights_fit(padding(from as int, to as int)),
        done.is_ok() <==> to - from <= MAX_WEIGHT,
        done.is_err() ==> done == Err::<(), ProfileError>(ProfileError::WeightOverflow),
        resolved(*final(profile), thread, category, root_stack, padding(from as int, to as int)),
        done.is_ok() ==> samples_of(*final(profile), thread) == samples_of(*old(profile), thread)
            + records(
            *final(profile),
            thread,
            category,
            root_stack,
            timestamp_offset as int,
            padding(from as int, to as int),
        ),
{
    let ghost samples = padding(from as int, to as int);
    if to > from {
        let done = emit_sample(profile, thread, root_stack, timestamp_offset + from, to - from);
        proof {
            assert(samples[0].weight == to - from);
            assert(samples_of(*old(profile), thread) + records(
                *profile,
                thread,
                category,
                root_stack,
                timestamp_offset as int,
                samples,
            ) =~= samples_of(*old(profile), thread).push(
                (sink_time(timestamp_offset + from), Some(root_stack), (to - from) as i32),
            ));
        }
        done
    } else {
        proof {
            lemma_grows_refl(*profile, thread);
            assert(samples_of(*profile, thread) =~= samples_of(*profile, thread) + records(
                *profile,
                thread,
                category,
                root_stack,
                timestamp_offset as int,
                samples,
            ));
        }
        Ok(())
    }
}

/// Where the samples of all sections fit, so do those of the first `count`.
pub proof fn lemma_sections_samples_fit(
    sections: Seq<SectionView>,
    base_addr: u64,
    lookups: Seq<Seq<Option<AddressInfoView>>>,
    count: int,
)
    requires
        lookups.len() == sections.len(),
        0 <= count <= sections.len(),
        weights_fit(sections_samples(sections, base_addr, lookups)),
    ensures
        weights_fit(sections_samples(sections.take(count), base_addr, lookups.take(count))),
    decreases sections.len(),
{
    if count == sections.len() {
        assert(sections.take(count) =~= sections);
        assert(lookups.take(count) =~= lookups);
    } else {
        let first = sections_samples(sections.drop_last(), base_addr, lookups.drop_last());
        let second = padding(end_of(sections.drop_last()), sections.last().file_offset as int);
        let third = section_samples(sections.last(), base_addr, lookups.last());
        lemma_weights_concat(first + second, third);
        lemma_weights_concat(first, second);
        lemma_sections_samples_fit(sections.drop_last(), base_addr, lookups.drop_last(), count);
        assert(sections.drop_last().take(count) =~= sections.take(count));
        assert(lookups.drop_last().take(count) =~= lookups.take(count));
    }
}

/// The samples of a binary whose library is `lib_info`, emitted to `profile`
/// below `root_stack`: those of its sections in file order, with the padding
/// between them and from the last of them to the end of the binary. Nothing
/// is emitted for a library that lacks a field that identifies it.
pub fn process_binary(
    profile: &mut Profile,
    thread: ThreadHandle,
    root_stack: StackHandle,
    sections: &Vec<Section>,
    lib_info: LibraryInfo,
    lookups: Vec<Vec<Option<AddressInfo>>>,
    base_addr: u64,
    category: CategoryHandle,
    timestamp_offset: u64,
    binary_file_size: u64,
) -> (done: Result<LibraryIdentity, ProfileError>)
    requires
        thread_known(*old(profile), thread),
        stack_known(*old(profile), thread, root_stack),
        timestamp_offset + binary_file_size <= u64::MAX,
        lookups_fit(section_views(sections@), lookup_lists(lookups@)),
    ensures
        grows(*old(profile), *final(profile), thread),
        first_missing(lib_info) matches Some(field) ==> done == Err::<
            LibraryIdentity,
            ProfileError,
        >(ProfileError::MissingLibraryInfo { field }),
        first_missing(lib_info).is_some() ==> samples_of(*final(profile), thread) == samples_of(
            *old(profile),
            thread,
        ),
        done.is_ok() <==> first_missing(lib_info).is_none() && layout_ok(
            section_views(sections@),
            binary_file_size as int,
        ) && weights_fit(
            binary_samples(
                section_views(sections@),
                base_addr,
                lookup_lists(lookups@),
                binary_file_size as int,
            ),
        ),
        done matches Ok(identity) ==> identifies(identity, lib_info),
        done matches Err(error) ==> first_missing(lib_info).is_none() ==> if layout_ok(
            section_views(sections@),
            binary_file_size as int,
        ) {
            error == ProfileError::WeightOverflow
        } else {
            is_layout_error(section_views(sections@), binary_file_size as int, error)
                && samples_of(*final(profile), thread) == samples_of(*old(profile), thread)
        },
        done.is_ok() ==> resolved(
            *final(profile),
            thread,
            category,
            root_stack,
            binary_samples(
                section_views(sections@),
                base_addr,
                lookup_lists(lookups@),
                binary_file_size as int,
            ),
        ) && samples_of(*final(profile), thread) == samples_of(*old(profile), thread) + records(
            *final(profile),
            thread,
            category,
            root_stack,
            timestamp_offset as int,
            binary_samples(
                section_views(sections@),
                base_addr,
                lookup_lists(lookups@),
                binary_file_size as int,
            ),
        ),
{
    let identity = match identify_library(lib_info) {
        Ok(identity) => identity,
        Err(error) => {
            proof {
                lemma_grows_refl(*profile, thread);
            }
            return Err(error);
        },
    };
    match emit_binary(
        profile,
        thread,
        root_stack,
        sections,
        lookups,
        base_addr,
        category,
        timestamp_offset,
        binary_file_size,
    ) {
        Ok(()) => Ok(identity),
        Err(error) => Err(error),
    }
}

/// The samples of a binary, emitted to `profile` below `root_stack`: those
/// of its sections in file order, with the padding between them and from
/// the last of them to the end of the binary.
#[verifier::rlimit(50)]
pub fn emit_binary(
    profile: &mut Profile,
    thread: ThreadHandle,
    root_stack: StackHandle,
    sections: &Vec<Section>,
    lookups: Vec<Vec<Option<AddressInfo>>>,
    base_addr: u64,
    category: CategoryHandle,
    timestamp_offset: u64,
    binary_file_size: u64,
) -> (done: Result<(), ProfileError>)
    requires
        thread_known(*old(profile), thread),
        stack_known(*old(profile), thread, root_stack),
        timestamp_offset + binary_file_size <= u64::MAX,
        lookups_fit(section_views(sections@), lookup_lists(lookups@)),
    ensures
        grows(*old(profile), *final(profile), thread),
        done.is_ok() <==> layout_ok(section_views(sections@), binary_file_size as int)
            && weights_fit(
            binary_samples(
                section_views(sections@),
                base_addr,
                lookup_lists(lookups@),
                binary_file_size as int,
            ),
        ),
        done matches Err(error) ==> if layout_ok(
            section_views(sections@),
            binary_file_size as int,
        ) {
            error == ProfileError::WeightOverflow
        } else {
            is_layout_error(section_views(sections@), binary_file_size as int, error)
                && samples_of(*final(profile), thread) == samples_of(*old(profile), thread)
        },
        done.is_ok() ==> resolved(
            *final(profile),
            thread,
            category,
            root_stack,
            binary_samples(
                section_views(sections@),
                base_addr,
                lookup_lists(lookups@),
                binary_file_size as int,
            ),
        ) && samples_of(*final(profile), thread) == samples_of(*old(profile), thread) + records(
            *final(profile),
            thread,
            category,
            root_stack,
            timestamp_offset as int,
            binary_samples(
                section_views(sections@),
                base_addr,
                lookup_lists(lookups@),
                binary_file_size as int,
            ),
        ),
{
    let ghost views = section_views(sections@);
    let ghost lists = lookup_lists(lookups@);
    let ghost base = samples_of(*profile, thread);
    let ghost ts = timestamp_offset as int;
    let checked = check_layout(sections, binary_file_size);
    if checked.is_err() {
        proof {
            lemma_grows_refl(*profile, thread);
        }
        return checked;
    }
    let mut previous_section_end: u64 = 0;
    let mut index: usize = 0;
    proof {
        lemma_grows_refl(*profile, thread);
        assert(views.take(0) =~= Seq::<SectionView>::empty());
        assert(sections_samples(views.take(0), base_addr, lists.take(0)) =~= Seq::<
            Sample,
        >::empty());
        assert(base =~= base + records(
            *profile,
            thread,
            category,
            root_stack,
            ts,
            Seq::<Sample>::empty(),
        ));
    }
    for section_lookups in it: lookups
        invariant
            it.seq() == lookups@,
            index == it.index(),
            views == section_views(sections@),
            lists == lookup_lists(lookups@),
            lookups_fit(views, lists),
            layout_ok(views, binary_file_size as int),
            ts == timestamp_offset as int,
            timestamp_offset + binary_file_size <= u64::MAX,
            thread_known(*profile, thread),
            stack_known(*profile, thread, root_stack),
            grows(*old(profile), *profile, thread),
            base == samples_of(*old(profile), thread),
            previous_section_end == end_of(views.take(it.index() as int)),
            previous_section_end <= binary_file_size,
            weights_fit(
                sections_samples(
                    views.take(it.index() as int),
                    base_addr,
                    lists.take(it.index() as int),
                ),
            ),
            resolved(
                *profile,
                thread,
                category,
                root_stack,
                sections_samples(
                    views.take(it.index() as int),
                    base_addr,
                    lists.take(it.index() as int),
                ),
            ),
            samples_of(*profile, thread) == base + records(
                *profile,
                thread,
                category,
                root_stack,
                ts,
                sections_samples(
                    views.take(it.index() as int),
                    base_addr,
                    lists.take(it.index() as int),
                ),
            ),
    {
        let ghost count = it.index() as int;
        let section = &sections[index];
        let ghost earlier = sections_samples(views.take(count), base_addr, lists.take(count));
        let ghost gap = padding(previous_section_end as int, section.file_offset as int);
        let ghost body = section_samples(section@, base_addr, lookup_views(section_lookups@));
        let ghost later = sections_samples(
            views.take(count + 1),
            base_addr,
            lists.take(count + 1),
        );
        let ghost all = binary_samples(views, base_addr, lists, binary_file_size as int);
        proof {
            assert(views[count] == section@);
            assert(lists[count] == lookup_views(section_lookups@));
            assert(views.take(count + 1).drop_last() =~= views.take(count));
            assert(lists.take(count + 1).drop_last() =~= lists.take(count));
            assert(views.take(count + 1).last() == section@);
            assert(lists.take(count + 1).last() == lookup_views(section_lookups@));
            assert(later == earlier + gap + body);
            lemma_layout_within(views, binary_file_size as int, count);
            if weights_fit(all) {
                lemma_weights_concat(
                    sections_samples(views, base_addr, lists),
                    padding(end_of(views), binary_file_size as int),
                );
                lemma_sections_samples_fit(views, base_addr, lists, count + 1);
                lemma_weights_concat(earlier + gap, body);
                lemma_weights_concat(earlier, gap);
            }
        }
        let ghost start = *profile;
        let padded = emit_padding(
            profile,
            thread,
            root_stack,
            category,
            timestamp_offset,
            previous_section_end,
            section.file_offset,
        );
        proof {
            lemma_grows_trans(*old(profile), start, *profile, thread);
            lemma_extends_known(start, *profile, thread);
        }
        if padded.is_err() {
            return padded;
        }
        let ghost middle = *profile;
        proof {
            lemma_appended(start, middle, thread, category, root_stack, ts, base, earlier, gap);
        }
        let done = process_section(
            profile,
            thread,
            root_stack,
            section,
            section_lookups,
            base_addr,
            category,
            timestamp_offset,
        );
        proof {
            lemma_grows_trans(*old(profile), middle, *profile, thread);
            lemma_extends_known(middle, *profile, thread);
        }
        if done.is_err() {
            return done;
        }
        proof {
            lemma_appended(
                middle,
                *profile,
                thread,
                category,
                root_stack,
                ts,
                base,
                earlier + gap,
                body,
            );
            lemma_weights_concat(earlier, gap);
            lemma_weights_concat(earlier + gap, body);
        }
        previous_section_end = section.file_offset + section.size;
        assert(index < sections.len());
        index += 1;
    }
    let ghost scanned = *profile;
    let ghost inner = sections_samples(views, base_addr, lists);
    let ghost tail = padding(end_of(views), binary_file_size as int);
    proof {
        assert(views.take(lookups.len() as int) =~= views);
        assert(lists.take(lookups.len() as int) =~= lists);
        lemma_weights_concat(inner, tail);
    }
    let done = emit_padding(
        profile,
        thread,
        root_stack,
        category,
        timestamp_offset,
        previous_section_end,
        binary_file_size,
    );
    proof {
        lemma_grows_trans(*old(profile), scanned, *profile, thread);
        if done.is_ok() {
            lemma_appended(scanned, *profile, thread, category, root_stack, ts, base, inner, tail);
        }
    }
    done
}

/// In a layout that is in order, every section ends within the binary, at
/// or before the start of the next, and at or after its own start.
pub proof fn lemma_layout_within(sections: Seq<SectionView>, binary_file_size: int, index: int)
    requires
        layout_ok(sections, binary_file_size),
        0 <= index < sections.len(),
    ensures
        end_of(sections.take(index)) <= sections[index].file_offset,
        sections[index].end() <= binary_file_size,
        end_of(sections.take(index + 1)) == sections[index].end(),
    decreases sections.len() - index,
{
    if index > 0 {
        assert(!overlaps_at(sections, index));
        assert(sections.take(index).last() == sections[index - 1]);
    }
    assert(sections.take(index + 1).last() == sections[index]);
    if index + 1 < sections.len() {
        lemma_layout_within(sections, binary_file_size, index + 1);
        assert(!overlaps_at(sections, index + 1));
    }
}

/// The samples of the sections of a binary lie end to end from the start
/// of the file to the end of the last section.
pub proof fn lemma_sections_contiguous(
    sections: Seq<SectionView>,
    base_addr: u64,
    lookups: Seq<Seq<Option<AddressInfoView>>>,
    binary_file_size: int,
)
    requires
        layout_ok(sections, binary_file_size),
        lookups_fit(sections, lookups),
    ensures
        contiguous(sections_samples(sections, base_addr, lookups), 0, end_of(sections)),
    decreases sections.len(),
{
    if sections.len() > 0 {
        let init = sections.drop_last();
        let last = sections.last();
        assert forall|i: int| 0 < i < init.len() implies !overlaps_at(init, i) by {
            assert(!overlaps_at(sections, i));
        }
        lemma_layout_within(sections, binary_file_size, sections.len() - 1);
        assert(sections.take(sections.len() - 1) =~= init);
        assert(lookups_fit(init, lookups.drop_last())) by {
            assert forall|i: int| 0 <= i < init.len() && (#[trigger] init[i]).is_text() implies
                lookups.drop_last()[i].len() == init[i].size by {
                assert(sections[i] == init[i]);
            }
        }
        lemma_sections_contiguous(init, base_addr, lookups.drop_last(), last.file_offset as int);
        lemma_padding_contiguous(end_of(init), last.file_offset as int);
        lemma_section_samples_contiguous(last, base_addr, lookups.last());
        lemma_contiguous_concat(
            sections_samples(init, base_addr, lookups.drop_last()),
            padding(end_of(init), last.file_offset as int),
            0,
            end_of(init),
            last.file_offset as int,
        );
        lemma_contiguous_concat(
            sections_samples(init, base_addr, lookups.drop_last()) + padding(
                end_of(init),
                last.file_offset as int,
            ),
            section_samples(last, base_addr, lookups.last()),
            0,
            last.file_offset as int,
            last.end(),
        );
    }
}

/// Padding lies end to end from where it starts to where it ends.
pub proof fn lemma_padding_contiguous(from: int, to: int)
    requires
        from <= to,
    ensures
        contiguous(padding(from, to), from, to),
{
    if to > from {
        let only = padding(from, to);
        assert(only.drop_last() =~= Seq::<Sample>::empty());
        assert(only.last() == Sample { offset: from, weight: to - from, labels: Seq::empty() });
        assert(contiguous(only.drop_last(), from, from));
    }
}

/// The samples of a binary lie end to end from its first byte to its last:
/// each starts where the one before it ends.
pub proof fn lemma_binary_contiguous(
    sections: Seq<SectionView>,
    base_addr: u64,
    lookups: Seq<Seq<Option<AddressInfoView>>>,
    binary_file_size: int,
)
    requires
        layout_ok(sections, binary_file_size),
        lookups_fit(sections, lookups),
    ensures
        contiguous(
            binary_samples(sections, base_addr, lookups, binary_file_size),
            0,
            binary_file_size,
        ),
{
    lemma_sections_contiguous(sections, base_addr, lookups, binary_file_size);
    lemma_padding_contiguous(end_of(sections), binary_file_size);
    lemma_contiguous_concat(
        sections_samples(sections, base_addr, lookups),
        padding(end_of(sections), binary_file_size),
        0,
        end_of(sections),
        binary_file_size,
    );
}

/// A binary without sections has one sample, at the root, which weighs as
/// much as the binary has bytes.
pub proof fn lemma_no_sections(base_addr: u64, binary_file_size: int)
    requires
        binary_file_size > 0,
    ensures
        binary_samples(Seq::empty(), base_addr, Seq::empty(), binary_file_size) == seq![
            Sample { offset: 0, weight: binary_file_size, labels: Seq::empty() },
        ],
{
    assert(binary_samples(Seq::empty(), base_addr, Seq::empty(), binary_file_size) =~= seq![
        Sample { offset: 0, weight: binary_file_size, labels: Seq::empty() },
    ]);
}

/// Byte conservation: the samples of a binary weigh as much as the binary
/// has bytes.
pub proof fn lemma_binary_byte_conservation(
    sections: Seq<SectionView>,
    base_addr: u64,
    lookups: Seq<Seq<Option<AddressInfoView>>>,
    binary_file_size: int,
)
    requires
        layout_ok(sections, binary_file_size),
        lookups_fit(sections, lookups),
    ensures
        total_weight(binary_samples(sections, base_addr, lookups, binary_file_size))
            == binary_file_size,
{
    lemma_binary_contiguous(sections, base_addr, lookups, binary_file_size);
    lemma_byte_conservation(
        binary_samples(sections, base_addr, lookups, binary_file_size),
        0,
        binary_file_size,
    );
}

/// Monotonic timestamps: no sample of a binary starts before one that was
/// emitted before it.
pub proof fn lemma_binary_timestamps_monotonic(
    sections: Seq<SectionView>,
    base_addr: u64,
    lookups: Seq<Seq<Option<AddressInfoView>>>,
    binary_file_size: int,
    i: int,
    j: int,
)
    requires
        layout_ok(sections, binary_file_size),
        lookups_fit(sections, lookups),
        0 <= i <= j < binary_samples(sections, base_addr, lookups, binary_file_size).len(),
    ensures
        binary_samples(sections, base_addr, lookups, binary_file_size)[i].offset <= binary_samples(
            sections,
            base_addr,
            lookups,
            binary_file_size,
        )[j].offset,
        sink_time(binary_samples(sections, base_addr, lookups, binary_file_size)[i].offset)
            <= sink_time(binary_samples(sections, base_addr, lookups, binary_file_size)[j].offset),
{
    lemma_binary_contiguous(sections, base_addr, lookups, binary_file_size);
    lemma_offsets_monotonic(
        binary_samples(sections, base_addr, lookups, binary_file_size),
        0,
        binary_file_size,
    );
    lemma_contiguous_bounds(
        binary_samples(sections, base_addr, lookups, binary_file_size),
        0,
        binary_file_size,
    );
    let a = binary_samples(sections, base_addr, lookups, binary_file_size)[i].offset;
    let b = binary_samples(sections, base_addr, lookups, binary_file_size)[j].offset;
    assert(0 <= a <= b);
    assert(0 <= a * NANOS_PER_BYTE <= b * NANOS_PER_BYTE) by (nonlinear_arith)
        requires
            0 <= a <= b,
            NANOS_PER_BYTE > 0,
    ;
}

/// No gaps: every byte of a binary lies in one sample, and in one only.
pub proof fn lemma_binary_no_gaps(
    sections: Seq<SectionView>,
    base_addr: u64,
    lookups: Seq<Seq<Option<AddressInfoView>>>,
    binary_file_size: int,
    byte: int,
)
    requires
        layout_ok(sections, binary_file_size),
        lookups_fit(sections, lookups),
        0 <= byte < binary_file_size,
    ensures
        exists|i: int| #[trigger]
            covers(binary_samples(sections, base_addr, lookups, binary_file_size), i, byte),
        forall|i: int, j: int|
            covers(binary_samples(sections, base_addr, lookups, binary_file_size), i, byte)
                && covers(binary_samples(sections, base_addr, lookups, binary_file_size), j, byte)
                ==> i == j,
{
    let samples = binary_samples(sections, base_addr, lookups, binary_file_size);
    lemma_binary_contiguous(sections, base_addr, lookups, binary_file_size);
    lemma_every_byte_covered(samples, 0, binary_file_size, byte);
    let i = choose|i: int|
        0 <= i < samples.len() && (#[trigger] samples[i]).offset <= byte < samples[i].offset
            + samples[i].weight;
    assert(covers(samples, i, byte));
    assert forall|i: int, j: int| covers(samples, i, byte) && covers(samples, j, byte) implies i
        == j by {
        lemma_no_byte_twice(samples, 0, binary_file_size, byte, i, j);
    }
}

/// The scan of one binary, for a caller that looks the addresses up one by
/// one: it says which address it needs next, takes the result in, and emits
/// the samples as they become due.
pub struct BinaryScan {
    pub thread: ThreadHandle,
    pub category: CategoryHandle,
    pub root_stack: StackHandle,
    pub base_addr: u64,
    pub timestamp_offset: u64,
    pub binary_file_size: u64,
    pub sections: Vec<Section>,
    /// How many sections are done.
    pub index: usize,
    /// The scan of the section at `index`, where that is under way.
    pub current: Option<SectionScan>,
    pub previous_section_end: u64,
    /// Whether the padding after the last section was emitted.
    pub finished: bool,
    /// The lookup results that were taken in, section by section, for the
    /// sections that are done.
    pub lookups: Ghost<Seq<Seq<Option<AddressInfoView>>>>,
    /// The samples that the thread had when the scan began.
    pub before: Ghost<Seq<(u64, Option<StackHandle>, i32)>>,
}

impl BinaryScan {
    /// The sections of the binary.
    pub open spec fn views(&self) -> Seq<SectionView> {
        section_views(self.sections@)
    }

    /// The samples of the sections that are done, and of the padding after
    /// the last of them once that was emitted.
    pub open spec fn done_samples(&self) -> Seq<Sample> {
        let inner = sections_samples(
            self.views().take(self.index as int),
            self.base_addr,
            self.lookups@,
        );
        if self.finished {
            inner + padding(end_of(self.views()), self.binary_file_size as int)
        } else {
            inner
        }
    }

    /// The samples that were emitted before the section under way began: those
    /// of the sections that are done, and the padding before it.
    pub open spec fn samples_before_current(&self) -> Seq<Sample> {
        self.done_samples() + padding(
            self.previous_section_end as int,
            self.views()[self.index as int].file_offset as int,
        )
    }

    /// The scan is in step with `profile`.
    pub open spec fn wf(&self, profile: Profile) -> bool {
        &&& layout_ok(self.views(), self.binary_file_size as int)
        &&& self.timestamp_offset + self.binary_file_size <= u64::MAX
        &&& self.index <= self.sections.len()
        &&& lookups_fit(self.views().take(self.index as int), self.lookups@)
        &&& thread_known(profile, self.thread)
        &&& stack_known(profile, self.thread, self.root_stack)
        &&& self.previous_section_end == end_of(self.views().take(self.index as int))
        &&& self.finished ==> self.current.is_none() && self.index == self.sections.len()
        &&& match self.current {
            None => {
                &&& resolved(
                    profile,
                    self.thread,
                    self.category,
                    self.root_stack,
                    self.done_samples(),
                )
                &&& samples_of(profile, self.thread) == self.before@ + records(
                    profile,
                    self.thread,
                    self.category,
                    self.root_stack,
                    self.timestamp_offset as int,
                    self.done_samples(),
                )
            },
            Some(scan) => {
                &&& self.index < self.sections.len()
                &&& self.views()[self.index as int].is_text()
                &&& scan.wf(profile)
                &&& scan.thread == self.thread
                &&& scan.category == self.category
                &&& scan.root_stack == self.root_stack
                &&& scan.timestamp_offset == self.timestamp_offset
                &&& scan.file_offset == self.views()[self.index as int].file_offset
                &&& scan.size == self.views()[self.index as int].size
                &&& scan.name@ == self.views()[self.index as int].name
                &&& scan.start_address == start_address(
                    self.views()[self.index as int].svma,
                    self.base_addr,
                )
                &&& resolved(
                    profile,
                    self.thread,
                    self.category,
                    self.root_stack,
                    self.samples_before_current(),
                )
                &&& scan.before@ == self.before@ + records(
                    profile,
                    self.thread,
                    self.category,
                    self.root_stack,
                    self.timestamp_offset as int,
                    self.samples_before_current(),
                )
            },
        }
    }

    /// The same scan of the same binary, whatever its progress.
    pub open spec fn same_scan(&self, other: &BinaryScan) -> bool {
        &&& self.thread == other.thread
        &&& self.category == other.category
        &&& self.root_stack == other.root_stack
        &&& self.base_addr == other.base_addr
        &&& self.timestamp_offset == other.timestamp_offset
        &&& self.binary_file_size == other.binary_file_size
        &&& self.sections@ == other.sections@
        &&& self.before@ == other.before@
    }

    /// The scan is over: every section is done and the padding after the last
    /// was emitted.
    pub open spec fn complete(&self) -> bool {
        self.finished
    }

    /// Begins the scan of a binary whose sections are `sections`, in file
    /// order. Nothing is emitted yet.
    pub fn begin(
        profile: &Profile,
        thread: ThreadHandle,
        root_stack: StackHandle,
        sections: Vec<Section>,
        base_addr: u64,
        category: CategoryHandle,
        timestamp_offset: u64,
        binary_file_size: u64,
    ) -> (began: Result<BinaryScan, ProfileError>)
        requires
            thread_known(*profile, thread),
            stack_known(*profile, thread, root_stack),
            timestamp_offset + binary_file_size <= u64::MAX,
        ensures
            began.is_ok() <==> layout_ok(section_views(sections@), binary_file_size as int),
            began matches Err(error) ==> is_layout_error(
                section_views(sections@),
                binary_file_size as int,
                error,
            ),
            began matches Ok(scan) ==> {
                &&& scan.wf(*profile)
                &&& scan.thread == thread
                &&& scan.category == category
                &&& scan.root_stack == root_stack
                &&& scan.base_addr == base_addr
                &&& scan.timestamp_offset == timestamp_offset
                &&& scan.binary_file_size == binary_file_size
                &&& scan.sections@ == sections@
                &&& scan.before@ == samples_of(*profile, thread)
                &&& scan.fed().len() == 0
                &&& !scan.complete()
            },
    {
        match check_layout(&sections, binary_file_size) {
            Err(error) => Err(error),
            Ok(()) => {
                let scan = BinaryScan {
                    thread,
                    category,
                    root_stack,
                    base_addr,
                    timestamp_offset,
                    binary_file_size,
                    sections,
                    index: 0,
                    current: None,
                    previous_section_end: 0,
                    finished: false,
                    lookups: Ghost(Seq::empty()),
                    before: Ghost(samples_of(*profile, thread)),
                };
                proof {
                    assert(scan.views().take(0) =~= Seq::<SectionView>::empty());
                    assert(scan.done_samples() =~= Seq::<Sample>::empty());
                    assert(samples_of(*profile, thread) =~= scan.before@ + records(
                        *profile,
                        thread,
                        category,
                        root_stack,
                        timestamp_offset as int,
                        scan.done_samples(),
                    ));
                }
                Ok(scan)
            },
        }
    }
}

/// The samples of the sections up to and including the one at `index` are
/// those of the sections before it, the padding before it, and its own.
pub proof fn lemma_sections_samples_step(
    sections: Seq<SectionView>,
    base_addr: u64,
    lookups: Seq<Seq<Option<AddressInfoView>>>,
    index: int,
    infos: Seq<Option<AddressInfoView>>,
)
    requires
        0 <= index < sections.len(),
        lookups.len() == index,
    ensures
        sections_samples(sections.take(index + 1), base_addr, lookups.push(infos))
            == sections_samples(sections.take(index), base_addr, lookups) + padding(
            end_of(sections.take(index)),
            sections[index].file_offset as int,
        ) + section_samples(sections[index], base_addr, infos),
{
    assert(sections.take(index + 1).drop_last() =~= sections.take(index));
    assert(lookups.push(infos).drop_last() =~= lookups);
    assert(sections.take(index + 1).last() == sections[index]);
}

/// The lookups of the sections that are done still fit once one more
/// section is done.
pub proof fn lemma_lookups_fit_step(
    sections: Seq<SectionView>,
    lookups: Seq<Seq<Option<AddressInfoView>>>,
    index: int,
    infos: Seq<Option<AddressInfoView>>,
)
    requires
        0 <= index < sections.len(),
        lookups_fit(sections.take(index), lookups),
        sections[index].is_text() ==> infos.len() == sections[index].size,
    ensures
        lookups_fit(sections.take(index + 1), lookups.push(infos)),
{
    let more = sections.take(index + 1);
    assert forall|i: int| 0 <= i < more.len() && (#[trigger] more[i]).is_text() implies
        lookups.push(infos)[i].len() == more[i].size by {
        if i < index {
            assert(sections.take(index)[i] == more[i]);
        }
    }
}

/// The samples that are due from the end of one section on until a lookup
/// is needed or the binary is done: the padding before the section at
/// `index`, its samples where it needs no lookup, and so on; at last the
/// padding up to the end of the binary.
pub open spec fn due_from(
    sections: Seq<SectionView>,
    base_addr: u64,
    index: int,
    previous_end: int,
    binary_file_size: int,
) -> Seq<Sample>
    decreases sections.len() - index,
{
    if index < 0 || index >= sections.len() {
        padding(previous_end, binary_file_size)
    } else if sections[index].is_text() && sections[index].size > 0 {
        padding(previous_end, sections[index].file_offset as int)
    } else {
        padding(previous_end, sections[index].file_offset as int) + section_samples(
            sections[index],
            base_addr,
            Seq::empty(),
        ) + due_from(sections, base_addr, index + 1, sections[index].end(), binary_file_size)
    }
}

/// The lookup results `fed` with one more for the section under way, which
/// is the last.
pub open spec fn fed_one_more(
    fed: Seq<Seq<Option<AddressInfoView>>>,
    info: Option<AddressInfoView>,
) -> Seq<Seq<Option<AddressInfoView>>> {
    fed.drop_last().push(fed.last().push(info))
}

/// `after` holds the lookup results that `before` holds, and then, for each
/// section that was entered since, none yet.
pub open spec fn went_on(
    before: Seq<Seq<Option<AddressInfoView>>>,
    after: Seq<Seq<Option<AddressInfoView>>>,
) -> bool {
    &&& before.is_prefix_of(after)
    &&& forall|i: int| before.len() <= i < after.len() ==> (#[trigger] after[i]).len() == 0
}

impl BinaryScan {
    /// The lookup results that were taken in, section by section: those of
    /// the sections that are done, and those of the section under way.
    pub open spec fn fed(&self) -> Seq<Seq<Option<AddressInfoView>>> {
        match self.current {
            Some(scan) => self.lookups@.push(scan.infos@),
            None => self.lookups@,
        }
    }

    /// The samples that `advance` is to emit: none while a lookup is awaited
    /// or once the binary is done; else those of the bytes that are pending
    /// in a section that was scanned to its end, and what is due from there.
    pub open spec fn due(&self) -> Seq<Sample> {
        match self.current {
            Some(scan) => if scan.scanned < scan.size {
                Seq::empty()
            } else {
                seq![pending_sample(scan.name@, scan.state@)] + due_from(
                    self.views(),
                    self.base_addr,
                    self.index + 1,
                    scan.file_offset + scan.size,
                    self.binary_file_size as int,
                )
            },
            None => if self.finished {
                Seq::empty()
            } else {
                due_from(
                    self.views(),
                    self.base_addr,
                    self.index as int,
                    self.previous_section_end as int,
                    self.binary_file_size as int,
                )
            },
        }
    }

    /// The relative address that the scan needs looked up next, where a
    /// section is under way and has bytes left.
    pub fn pending_address(&self) -> (next: Option<u32>)
        requires
            self.current matches Some(scan) ==> scan.scanned <= scan.size,
        ensures
            next.is_some() <==> self.awaits_lookup(),
            next matches Some(address) ==> self.pending_address_is(address),
    {
        match &self.current {
            Some(scan) => scan.next_address(),
            None => None,
        }
    }

    /// A section is under way and has bytes left: the scan waits for the
    /// lookup result of the next of them.
    pub open spec fn awaits_lookup(&self) -> bool {
        self.current matches Some(scan) && scan.scanned < scan.size
    }

    /// How much is left to do, for termination.
    pub open spec fn remaining(&self) -> int {
        2 * (self.sections.len() - self.index) + if self.current.is_none() {
            1int
        } else {
            0int
        } + if self.finished {
            0int
        } else {
            1int
        }
    }

    /// Ends the section under way, of which every byte was taken in.
    #[verifier::rlimit(50)]
    fn finish_section(&mut self, profile: &mut Profile) -> (done: Result<(), ProfileError>)
        requires
            old(self).wf(*old(profile)),
            old(self).current.is_some(),
            !old(self).awaits_lookup(),
        ensures
            grows(*old(profile), *final(profile), old(self).thread),
            final(self).same_scan(old(self)),
            done.is_ok() ==> final(self).fed() == old(self).fed(),
            done.is_err() ==> !weights_fit(old(self).due()),
            done.is_ok() ==> (weights_fit(old(self).due()) <==> weights_fit(final(self).due())),
            done.is_err() ==> done == Err::<(), ProfileError>(ProfileError::WeightOverflow),
            done.is_ok() ==> {
                &&& final(self).wf(*final(profile))
                &&& final(self).remaining() < old(self).remaining()
                &&& !final(self).finished
            },
    {
        let ghost views = self.views();
        let ghost index = self.index as int;
        let ghost section = views[index];
        let ghost earlier = self.samples_before_current();
        let scan = self.current.take().unwrap();
        let ghost infos = scan.infos@;
        let ghost body = scan.emitted().push(
            pending_sample(scan.name@, scan.state@),
        );
        proof {
            lemma_flushed_are_runs(section, self.base_addr, infos);
            lemma_layout_within(views, self.binary_file_size as int, index);
            assert(body == section_samples(section, self.base_addr, infos));
        }
        let end = scan.file_offset + scan.size;
        let ghost pending = seq![pending_sample(scan.name@, scan.state@)];
        let ghost rest = due_from(
            views,
            self.base_addr,
            index + 1,
            end as int,
            self.binary_file_size as int,
        );
        proof {
            assert(old(self).due() == pending + rest);
            assert(pending[0].weight == scan.state.pending_bytes);
            lemma_weights_concat(pending, rest);
        }
        let done = scan.finish(profile);
        if done.is_ok() {
            proof {
                lemma_extends_records(
                    *old(profile),
                    *profile,
                    self.thread,
                    self.category,
                    self.root_stack,
                    self.timestamp_offset as int,
                    earlier,
                );
                lemma_records_concat(
                    *profile,
                    self.thread,
                    self.category,
                    self.root_stack,
                    self.timestamp_offset as int,
                    earlier,
                    body,
                );
                lemma_sections_samples_step(views, self.base_addr, self.lookups@, index, infos);
                lemma_lookups_fit_step(views, self.lookups@, index, infos);
                lemma_extends_known(*old(profile), *profile, self.thread);
            }
            self.lookups = Ghost(self.lookups@.push(infos));
            self.index += 1;
            self.previous_section_end = end;
            proof {
                assert(self.done_samples() == earlier + body);
                assert(samples_of(*profile, self.thread) =~= self.before@ + records(
                    *profile,
                    self.thread,
                    self.category,
                    self.root_stack,
                    self.timestamp_offset as int,
                    self.done_samples(),
                ));
            }
        }
        done
    }

    /// Enters the next section: emits the padding before it, and either
    /// begins its scan, where it holds code, or emits its one sample.
    #[verifier::rlimit(50)]
    fn enter_section(&mut self, profile: &mut Profile) -> (done: Result<(), ProfileError>)
        requires
            old(self).wf(*old(profile)),
            old(self).current.is_none(),
            old(self).index < old(self).sections.len(),
        ensures
            grows(*old(profile), *final(profile), old(self).thread),
            final(self).same_scan(old(self)),
            done.is_ok() ==> final(self).fed() == old(self).fed().push(Seq::empty()),
            done.is_err() ==> !weights_fit(old(self).due()),
            done.is_ok() ==> (weights_fit(old(self).due()) <==> weights_fit(final(self).due())),
            done.is_err() ==> done == Err::<(), ProfileError>(ProfileError::WeightOverflow),
            done.is_ok() ==> {
                &&& final(self).wf(*final(profile))
                &&& final(self).remaining() < old(self).remaining()
                &&& !final(self).finished
            },
    {
        let ghost views = self.views();
        let ghost index = self.index as int;
        let ghost earlier = self.done_samples();
        let ghost ts = self.timestamp_offset as int;
        let section = &self.sections[self.index];
        let ghost gap = padding(self.previous_section_end as int, section.file_offset as int);
        proof {
            assert(views[index] == section@);
            lemma_layout_within(views, self.binary_file_size as int, index);
        }
        let padded = emit_padding(
            profile,
            self.thread,
            self.root_stack,
            self.category,
            self.timestamp_offset,
            self.previous_section_end,
            section.file_offset,
        );
        let ghost body = section_samples(section@, self.base_addr, Seq::empty());
        let ghost rest = due_from(
            views,
            self.base_addr,
            index + 1,
            section@.end(),
            self.binary_file_size as int,
        );
        proof {
            if section@.is_text() && section.size > 0 {
                assert(old(self).due() == gap);
            } else {
                assert(old(self).due() == gap + body + rest);
                lemma_weights_concat(gap + body, rest);
                lemma_weights_concat(gap, body);
            }
        }
        if padded.is_err() {
            return padded;
        }
        let ghost middle = *profile;
        proof {
            lemma_appended(
                *old(profile),
                middle,
                self.thread,
                self.category,
                self.root_stack,
                ts,
                self.before@,
                earlier,
                gap,
            );
            lemma_extends_known(*old(profile), middle, self.thread);
        }
        if section.is_text() {
            let scan = SectionScan::begin(
                profile,
                self.thread,
                self.root_stack,
                section,
                self.base_addr,
                self.category,
                self.timestamp_offset,
            );
            proof {
                lemma_grows_trans(*old(profile), middle, *profile, self.thread);
                lemma_extends_known(middle, *profile, self.thread);
                lemma_extends_records(
                    middle,
                    *profile,
                    self.thread,
                    self.category,
                    self.root_stack,
                    ts,
                    earlier + gap,
                );
            }
            proof {
                assert(scan.infos@ =~= Seq::<Option<AddressInfoView>>::empty());
                if section.size == 0 {
                    assert(body =~= seq![pending_sample(scan.name@, scan.state@)]);
                    lemma_weights_concat(body, rest);
                    assert(gap + body + rest =~= gap + (body + rest));
                    lemma_weights_concat(gap, body + rest);
                }
            }
            self.current = Some(scan);
            assert(self.due() == if section.size == 0 {
                body + rest
            } else {
                Seq::<Sample>::empty()
            });
            Ok(())
        } else {
            let summarized = emit_summary(
                profile,
                self.thread,
                self.root_stack,
                section,
                self.category,
                self.timestamp_offset,
            );
            let end = section.file_offset + section.size;
            proof {
                lemma_grows_trans(*old(profile), middle, *profile, self.thread);
            }
            proof {
                assert(body[0] == summary_sample(section@));
            }
            if summarized.is_err() {
                return summarized;
            }
            proof {
                let infos = Seq::<Option<AddressInfoView>>::empty();
                let body = section_samples(views[index], self.base_addr, infos);
                lemma_appended(
                    middle,
                    *profile,
                    self.thread,
                    self.category,
                    self.root_stack,
                    ts,
                    self.before@,
                    earlier + gap,
                    body,
                );
                lemma_sections_samples_step(views, self.base_addr, self.lookups@, index, infos);
                lemma_lookups_fit_step(views, self.lookups@, index, infos);
                lemma_extends_known(middle, *profile, self.thread);
            }
            self.lookups = Ghost(self.lookups@.push(Seq::empty()));
            self.index += 1;
            self.previous_section_end = end;
            assert(self.due() == rest);
            Ok(())
        }
    }

    /// Ends the binary after its last section: emits the padding up to the
    /// end of the binary.
    fn finish_binary(&mut self, profile: &mut Profile) -> (done: Result<(), ProfileError>)
        requires
            old(self).wf(*old(profile)),
            old(self).current.is_none(),
            old(self).index == old(self).sections.len(),
            !old(self).finished,
        ensures
            grows(*old(profile), *final(profile), old(self).thread),
            final(self).same_scan(old(self)),
            done.is_ok() ==> final(self).fed() == old(self).fed(),
            done.is_err() ==> !weights_fit(old(self).due()),
            done.is_ok() ==> weights_fit(old(self).due()),
            done.is_err() ==> done == Err::<(), ProfileError>(ProfileError::WeightOverflow),
            done.is_ok() ==> {
                &&& final(self).wf(*final(profile))
                &&& final(self).finished
                &&& final(self).lookups == old(self).lookups
            },
    {
        let ghost earlier = self.done_samples();
        proof {
            assert(self.views().take(self.index as int) =~= self.views());
        }
        let done = emit_padding(
            profile,
            self.thread,
            self.root_stack,
            self.category,
            self.timestamp_offset,
            self.previous_section_end,
            self.binary_file_size,
        );
        if done.is_ok() {
            proof {
                lemma_appended(
                    *old(profile),
                    *profile,
                    self.thread,
                    self.category,
                    self.root_stack,
                    self.timestamp_offset as int,
                    self.before@,
                    earlier,
                    padding(self.previous_section_end as int, self.binary_file_size as int),
                );
                lemma_extends_known(*old(profile), *profile, self.thread);
            }
            self.finished = true;
        }
        done
    }

    /// Goes on until a lookup is needed or the binary is done: emits what is
    /// due on the way. Gives the relative address to look up, whose result
    /// is to be handed to `feed`, or `None` once the binary is done.
    pub fn advance(&mut self, profile: &mut Profile) -> (next: Result<Option<u32>, ProfileError>)
        requires
            old(self).wf(*old(profile)),
        ensures
            grows(*old(profile), *final(profile), old(self).thread),
            final(self).same_scan(old(self)),
            next.is_ok() ==> went_on(old(self).fed(), final(self).fed()),
            next matches Ok(None) ==> final(self).fed() == final(self).lookups@,
            next.is_ok() <==> weights_fit(old(self).due()),
            next.is_err() ==> next == Err::<Option<u32>, ProfileError>(
                ProfileError::WeightOverflow,
            ),
            next.is_ok() ==> final(self).wf(*final(profile)),
            next matches Ok(Some(address)) ==> {
                &&& final(self).awaits_lookup()
                &&& final(self).pending_address_is(address)
            },
            next matches Ok(None) ==> final(self).complete(),
    {
        proof {
            lemma_grows_refl(*profile, self.thread);
        }
        loop
            invariant
                self.wf(*profile),
                self.same_scan(old(self)),
                grows(*old(profile), *profile, old(self).thread),
                weights_fit(old(self).due()) <==> weights_fit(self.due()),
                went_on(old(self).fed(), self.fed()),
            decreases self.remaining(),
        {
            let ghost before = *profile;
            if self.finished {
                return Ok(None);
            }
            if self.current.is_some() {
                if let Some(address) = self.pending_address() {
                    return Ok(Some(address));
                }
                let done = self.finish_section(profile);
                proof {
                    lemma_grows_trans(*old(profile), before, *profile, self.thread);
                }
                if let Err(error) = done {
                    return Err(error);
                }
            } else if self.index < self.sections.len() {
                let done = self.enter_section(profile);
                proof {
                    lemma_grows_trans(*old(profile), before, *profile, self.thread);
                }
                if let Err(error) = done {
                    return Err(error);
                }
            } else {
                let done = self.finish_binary(profile);
                proof {
                    lemma_grows_trans(*old(profile), before, *profile, self.thread);
                }
                if let Err(error) = done {
                    return Err(error);
                }
                return Ok(None);
            }
        }
    }

    /// `address` is the relative address of the byte whose lookup result the
    /// scan waits for.
    pub open spec fn pending_address_is(&self, address: u32) -> bool {
        self.current matches Some(scan) && address == address_at(
            scan.start_address,
            scan.scanned as int,
        )
    }

    /// Takes in the lookup result of the address that `advance` asked for.
    pub fn feed(&mut self, profile: &mut Profile, addr_info: Option<AddressInfo>) -> (done:
        Result<(), ProfileError>)
        requires
            old(self).wf(*old(profile)),
            old(self).awaits_lookup(),
        ensures
            grows(*old(profile), *final(profile), old(self).thread),
            final(self).same_scan(old(self)),
            done.is_ok() ==> final(self).fed() == fed_one_more(
                old(self).fed(),
                lookup_of(addr_info),
            ),
            done.is_err() <==> old(self).current.unwrap().state.pending_bytes > MAX_WEIGHT
                && flushes(old(self).current.unwrap().state@, lookup_of(addr_info)),
            done.is_err() ==> done == Err::<(), ProfileError>(ProfileError::WeightOverflow),
            done.is_ok() ==> final(self).wf(*final(profile)) && !final(self).complete(),
    {
        let ghost earlier = self.samples_before_current();
        let ghost index = self.index as int;
        let mut scan = self.current.take().unwrap();
        let done = scan.feed(profile, addr_info);
        proof {
            if done.is_ok() {
                lemma_extends_records(
                    *old(profile),
                    *profile,
                    self.thread,
                    self.category,
                    self.root_stack,
                    self.timestamp_offset as int,
                    earlier,
                );
                lemma_extends_known(*old(profile), *profile, self.thread);
            }
        }
        self.current = Some(scan);
        done
    }
}

impl BinaryScan {
    /// Once the scan is over, what it has emitted are the samples of the
    /// binary for the lookup results that it took in, and they lie end to
    /// end from the first byte of the binary to its last.
    pub proof fn lemma_complete(&self, profile: Profile)
        requires
            self.wf(profile),
            self.complete(),
        ensures
            lookups_fit(self.views(), self.lookups@),
            self.done_samples() == binary_samples(
                self.views(),
                self.base_addr,
                self.lookups@,
                self.binary_file_size as int,
            ),
            contiguous(self.done_samples(), 0, self.binary_file_size as int),
            resolved(profile, self.thread, self.category, self.root_stack, self.done_samples()),
            samples_of(profile, self.thread) == self.before@ + records(
                profile,
                self.thread,
                self.category,
                self.root_stack,
                self.timestamp_offset as int,
                self.done_samples(),
            ),
    {
        assert(self.views().take(self.index as int) =~= self.views());
        lemma_binary_contiguous(
            self.views(),
            self.base_addr,
            self.lookups@,
            self.binary_file_size as int,
        );
    }
}

} // verus!
