//! A whole file: one binary, or a fat container whose members are binaries,
//! with the padding before, between and after the members and the sample
//! without weight that marks the end of the file.

use crate::driver::{
    BinaryScan, binary_samples, check_layout, emit_padding, fed_one_more, is_layout_error,
    layout_ok, lemma_binary_contiguous, lemma_padding_contiguous, lookups_fit, padding, went_on,
};
use crate::emitter::flushes;
use crate::error::ProfileError;
use crate::library::{LibraryIdentity, LibraryInfo, first_missing, identifies, identify_library};
use crate::samples::{
    MAX_WEIGHT, NANOS_PER_BYTE, Sample, contiguous, covers, emit_sample, lemma_appended,
    lemma_byte_conservation, lemma_contiguous_bounds, lemma_contiguous_concat,
    lemma_every_byte_covered, lemma_extends_records, lemma_no_byte_twice,
    lemma_offsets_monotonic, lemma_records_concat, record, records, resolved, sink_time,
    total_weight, weights_fit,
};
use crate::sections::{Section, SectionView, section_views};
use crate::sink::{
    grows, lemma_extends_grows, lemma_extends_known, lemma_extends_stack_at, lemma_grows_refl,
    lemma_grows_trans, lemma_stack_at_concat, lemma_stack_at_one, push_label, samples_of,
    stack_at, stack_known, thread_known,
};
use crate::symbols::{AddressInfo, AddressInfoView, lookup_of};
use crate::text::{decimal_digits, push_decimal, text_of};
use fxprof_processed_profile::{CategoryHandle, Profile, StackHandle, ThreadHandle};
use vstd::prelude::*;
use vstd::string::StringExecFns;

verus! {

/// One architecture slice of a fat container.
#[derive(Clone, Debug, PartialEq, Eq)]
pub struct FatMember {
    /// Where the member starts in the file of the container.
    pub member_start_file_offset: u64,
    pub member_size: u64,
    /// What tells the member from the others when its symbols are looked
    /// up: its unique identifier, where it has one.
    pub disambiguator: Option<[u8; 16]>,
    /// The name under which the member stands in the profile.
    pub arch_name: String,
}

/// What the name of a member without an architecture name begins with.
pub const MEMBER_NAME_HEAD: &'static str = "Fat32 archive member with cputype ";

/// What stands between the two numbers of such a name.
pub const MEMBER_NAME_MIDDLE: &'static str = " and cpusubtype ";

/// The name of a member: the name of its architecture, or one made of its
/// CPU type and subtype where that is not known.
pub open spec fn member_name(arch: Option<Seq<char>>, cputype: u32, cpusubtype: u32) -> Seq<char> {
    match arch {
        Some(name) => name,
        None => MEMBER_NAME_HEAD@ + decimal_digits(cputype as nat) + MEMBER_NAME_MIDDLE@
            + decimal_digits(cpusubtype as nat),
    }
}

/// The name of a member of a fat container.
pub fn member_label(arch: &Option<String>, cputype: u32, cpusubtype: u32) -> (name: String)
    ensures
        name@ == member_name(text_of(*arch), cputype, cpusubtype),
{
    match arch {
        Some(name) => name.clone(),
        None => {
            let mut name = String::from_str(MEMBER_NAME_HEAD);
            push_decimal(&mut name, cputype);
            name.append(MEMBER_NAME_MIDDLE);
            push_decimal(&mut name, cpusubtype);
            name
        },
    }
}

/// A member of a file whose scan is over: where it lies, under which labels
/// it stands below the root (its name, or none for a binary that is the
/// whole file), and what its samples were made of.
pub struct MemberView {
    pub start: int,
    pub size: int,
    pub labels: Seq<Seq<char>>,
    pub sections: Seq<SectionView>,
    pub base_addr: u64,
    pub lookups: Seq<Seq<Option<AddressInfoView>>>,
}

impl MemberView {
    /// The samples of the member, counted from its own first byte and
    /// below its own stack.
    pub open spec fn samples(self) -> Seq<Sample> {
        binary_samples(self.sections, self.base_addr, self.lookups, self.size)
    }

    /// Where the member ends in the file.
    pub open spec fn end(self) -> int {
        self.start + self.size
    }
}

/// Samples of a member as samples of the file: moved to where the member
/// starts, and below the labels of the member.
pub open spec fn lifted(samples: Seq<Sample>, start: int, labels: Seq<Seq<char>>) -> Seq<Sample> {
    samples.map_values(
        |s: Sample|
            Sample { offset: start + s.offset, weight: s.weight, labels: labels + s.labels },
    )
}

/// Where the last of `members` ends: at the start of the file where there
/// is none.
pub open spec fn end_of_members(members: Seq<MemberView>) -> int {
    if members.len() == 0 {
        0
    } else {
        members.last().end()
    }
}

/// The samples of the members of a file, each after the padding that lies
/// before it.
pub open spec fn members_samples(members: Seq<MemberView>) -> Seq<Sample>
    decreases members.len(),
{
    if members.len() == 0 {
        Seq::empty()
    } else {
        members_samples(members.drop_last()) + padding(
            end_of_members(members.drop_last()),
            members.last().start,
        ) + lifted(members.last().samples(), members.last().start, members.last().labels)
    }
}

/// The sample without weight that marks the end of the file.
pub open spec fn end_marker(file_size: int) -> Sample {
    Sample { offset: file_size, weight: 0, labels: Seq::empty() }
}

/// The samples of a file: those of its members with the padding between
/// them, the padding from the last member to the end of the file, and the
/// marker of the end.
pub open spec fn file_samples(members: Seq<MemberView>, file_size: int) -> Seq<Sample> {
    members_samples(members) + padding(end_of_members(members), file_size) + seq![
        end_marker(file_size),
    ]
}

/// The members lie in the file one after the other without overlap, each
/// with its sections in order and one lookup result for every byte of code.
pub open spec fn members_ok(members: Seq<MemberView>) -> bool {
    &&& forall|i: int|
        0 <= i < members.len() ==> layout_ok(
            (#[trigger] members[i]).sections,
            members[i].size,
        ) && lookups_fit(members[i].sections, members[i].lookups) && members[i].size >= 0
    &&& forall|i: int| 0 < i < members.len() ==> #[trigger] follows(members, i)
    &&& members.len() > 0 ==> members[0].start >= 0
}

/// The member at `index` starts where the one before it ends, or after.
pub open spec fn follows(members: Seq<MemberView>, index: int) -> bool {
    members[index - 1].end() <= members[index].start
}

/// What a profile holds for the samples of a member below the stack of the
/// member is what it holds for them as samples of the file below the root.
pub proof fn lemma_lifted_records(
    profile: Profile,
    thread: ThreadHandle,
    category: CategoryHandle,
    root: StackHandle,
    member_stack: StackHandle,
    start: int,
    labels: Seq<Seq<char>>,
    samples: Seq<Sample>,
)
    requires
        stack_at(profile, thread, category, root, labels) == Some(member_stack),
    ensures
        records(profile, thread, category, root, 0, lifted(samples, start, labels)) == records(
            profile,
            thread,
            category,
            member_stack,
            start,
            samples,
        ),
        resolved(profile, thread, category, member_stack, samples) ==> resolved(
            profile,
            thread,
            category,
            root,
            lifted(samples, start, labels),
        ),
{
    let up = lifted(samples, start, labels);
    assert forall|i: int| 0 <= i < samples.len() implies #[trigger] record(
        profile,
        thread,
        category,
        root,
        0,
        up[i],
    ) == record(profile, thread, category, member_stack, start, samples[i]) by {
        lemma_stack_at_concat(profile, thread, category, root, labels, samples[i].labels);
    }
    assert(records(profile, thread, category, root, 0, up) =~= records(
        profile,
        thread,
        category,
        member_stack,
        start,
        samples,
    ));
    if resolved(profile, thread, category, member_stack, samples) {
        assert forall|i: int| 0 <= i < up.len() implies stack_at(
            profile,
            thread,
            category,
            root,
            (#[trigger] up[i]).labels,
        ).is_some() by {
            lemma_stack_at_concat(profile, thread, category, root, labels, samples[i].labels);
            assert(stack_at(profile, thread, category, member_stack, samples[i].labels).is_some());
        }
    }
}

/// Samples that lie end to end in a member lie end to end in the file.
pub proof fn lemma_lifted_contiguous(
    samples: Seq<Sample>,
    start: int,
    labels: Seq<Seq<char>>,
    from: int,
    to: int,
)
    requires
        contiguous(samples, from, to),
    ensures
        contiguous(lifted(samples, start, labels), start + from, start + to),
    decreases samples.len(),
{
    if samples.len() > 0 {
        lemma_lifted_contiguous(samples.drop_last(), start, labels, from, samples.last().offset);
        assert(lifted(samples, start, labels).drop_last() =~= lifted(
            samples.drop_last(),
            start,
            labels,
        ));
    }
}

/// The samples of members that are in order lie end to end from the start
/// of the file to the end of the last member.
pub proof fn lemma_members_contiguous(members: Seq<MemberView>)
    requires
        members_ok(members),
    ensures
        contiguous(members_samples(members), 0, end_of_members(members)),
        end_of_members(members) >= 0,
    decreases members.len(),
{
    if members.len() > 0 {
        let init = members.drop_last();
        let last = members.last();
        assert(members_ok(init)) by {
            assert forall|i: int| 0 <= i < init.len() implies layout_ok(
                (#[trigger] init[i]).sections,
                init[i].size,
            ) && lookups_fit(init[i].sections, init[i].lookups) && init[i].size >= 0 by {
                assert(init[i] == members[i]);
            }
            assert forall|i: int| 0 < i < init.len() implies #[trigger] follows(init, i) by {
                assert(follows(members, i));
                assert(init[i] == members[i]);
                assert(init[i - 1] == members[i - 1]);
            }
        }
        lemma_members_contiguous(init);
        assert(end_of_members(init) <= last.start) by {
            if init.len() > 0 {
                assert(follows(members, members.len() - 1));
            }
        }
        lemma_padding_contiguous(end_of_members(init), last.start);
        lemma_binary_contiguous(last.sections, last.base_addr, last.lookups, last.size);
        lemma_lifted_contiguous(last.samples(), last.start, last.labels, 0, last.size);
        lemma_contiguous_concat(
            members_samples(init),
            padding(end_of_members(init), last.start),
            0,
            end_of_members(init),
            last.start,
        );
        lemma_contiguous_concat(
            members_samples(init) + padding(end_of_members(init), last.start),
            lifted(last.samples(), last.start, last.labels),
            0,
            last.start,
            last.end(),
        );
    }
}

/// The samples of a file lie end to end from its first byte to its last;
/// the marker of the end stands at the end and weighs nothing.
pub proof fn lemma_file_contiguous(members: Seq<MemberView>, file_size: int)
    requires
        members_ok(members),
        end_of_members(members) <= file_size,
    ensures
        contiguous(file_samples(members, file_size), 0, file_size),
{
    lemma_members_contiguous(members);
    lemma_padding_contiguous(end_of_members(members), file_size);
    lemma_contiguous_concat(
        members_samples(members),
        padding(end_of_members(members), file_size),
        0,
        end_of_members(members),
        file_size,
    );
    let marker = seq![end_marker(file_size)];
    assert(marker.drop_last() =~= Seq::<Sample>::empty());
    assert(marker.last() == end_marker(file_size));
    assert(contiguous(marker.drop_last(), file_size, file_size));
    lemma_contiguous_concat(
        members_samples(members) + padding(end_of_members(members), file_size),
        marker,
        0,
        file_size,
        file_size,
    );
}

/// Where a thread holds the samples of members and of the padding before
/// one more member, and then the samples of that member below the stack of
/// the member, it holds the samples of all these members below the root.
pub proof fn lemma_member_done(
    profile: Profile,
    thread: ThreadHandle,
    category: CategoryHandle,
    root: StackHandle,
    member_stack: StackHandle,
    base: Seq<(u64, Option<StackHandle>, i32)>,
    members: Seq<MemberView>,
    next: MemberView,
)
    requires
        stack_at(profile, thread, category, root, next.labels) == Some(member_stack),
        resolved(
            profile,
            thread,
            category,
            root,
            members_samples(members) + padding(end_of_members(members), next.start),
        ),
        resolved(profile, thread, category, member_stack, next.samples()),
        samples_of(profile, thread) == (base + records(
            profile,
            thread,
            category,
            root,
            0,
            members_samples(members) + padding(end_of_members(members), next.start),
        )) + records(profile, thread, category, member_stack, next.start, next.samples()),
    ensures
        resolved(profile, thread, category, root, members_samples(members.push(next))),
        samples_of(profile, thread) == base + records(
            profile,
            thread,
            category,
            root,
            0,
            members_samples(members.push(next)),
        ),
{
    let earlier = members_samples(members) + padding(end_of_members(members), next.start);
    let up = lifted(next.samples(), next.start, next.labels);
    let grown = members.push(next);
    lemma_lifted_records(
        profile,
        thread,
        category,
        root,
        member_stack,
        next.start,
        next.labels,
        next.samples(),
    );
    lemma_records_concat(profile, thread, category, root, 0, earlier, up);
    assert(grown.drop_last() =~= members);
    assert(grown.last() == next);
    assert(members_samples(grown) == earlier + up);
    assert(samples_of(profile, thread) =~= base + records(
        profile,
        thread,
        category,
        root,
        0,
        members_samples(grown),
    ));
}

/// The number of members as the scan counts them: it stops at the largest
/// number that it can hold.
pub open spec fn counted(members: nat) -> usize {
    if members <= usize::MAX {
        members as usize
    } else {
        usize::MAX
    }
}

/// Byte conservation: the samples of a file weigh as much as the file has
/// bytes.
pub proof fn lemma_file_byte_conservation(members: Seq<MemberView>, file_size: int)
    requires
        members_ok(members),
        end_of_members(members) <= file_size,
    ensures
        total_weight(file_samples(members, file_size)) == file_size,
{
    lemma_file_contiguous(members, file_size);
    lemma_byte_conservation(file_samples(members, file_size), 0, file_size);
}

/// Monotonic timestamps: no sample of a file starts before one that was
/// emitted before it, nor before that one ends.
pub proof fn lemma_file_timestamps_monotonic(
    members: Seq<MemberView>,
    file_size: int,
    i: int,
    j: int,
)
    requires
        members_ok(members),
        end_of_members(members) <= file_size,
        0 <= i < j < file_samples(members, file_size).len(),
    ensures
        file_samples(members, file_size)[i].offset <= file_samples(members, file_size)[i].offset
            + file_samples(members, file_size)[i].weight <= file_samples(
            members,
            file_size,
        )[j].offset,
        sink_time(file_samples(members, file_size)[i].offset) <= sink_time(
            file_samples(members, file_size)[j].offset,
        ),
{
    let samples = file_samples(members, file_size);
    lemma_file_contiguous(members, file_size);
    lemma_offsets_monotonic(samples, 0, file_size);
    lemma_contiguous_bounds(samples, 0, file_size);
    let a = samples[i].offset;
    let b = samples[j].offset;
    assert(0 <= a <= b);
    assert(0 <= a * NANOS_PER_BYTE <= b * NANOS_PER_BYTE) by (nonlinear_arith)
        requires
            0 <= a <= b,
            NANOS_PER_BYTE > 0,
    ;
}

/// No gaps: every byte of a file lies in one sample, and in one only. The
/// marker of the end, which weighs nothing, holds no byte.
pub proof fn lemma_file_no_gaps(members: Seq<MemberView>, file_size: int, byte: int)
    requires
        members_ok(members),
        end_of_members(members) <= file_size,
        0 <= byte < file_size,
    ensures
        exists|i: int| #[trigger] covers(file_samples(members, file_size), i, byte),
        forall|i: int, j: int|
            covers(file_samples(members, file_size), i, byte) && covers(
                file_samples(members, file_size),
                j,
                byte,
            ) ==> i == j,
        !covers(
            file_samples(members, file_size),
            file_samples(members, file_size).len() - 1,
            byte,
        ),
{
    let samples = file_samples(members, file_size);
    lemma_file_contiguous(members, file_size);
    lemma_every_byte_covered(samples, 0, file_size, byte);
    let i = choose|i: int|
        0 <= i < samples.len() && (#[trigger] samples[i]).offset <= byte < samples[i].offset
            + samples[i].weight;
    assert(covers(samples, i, byte));
    assert forall|i: int, j: int| covers(samples, i, byte) && covers(samples, j, byte) implies i
        == j by {
        lemma_no_byte_twice(samples, 0, file_size, byte, i, j);
    }
    assert(samples[samples.len() - 1] == end_marker(file_size));
}

/// The samples of the members begin with the samples of the first of them.
pub proof fn lemma_members_samples_begin(members: Seq<MemberView>)
    requires
        members.len() > 0,
    ensures
        members_samples(members.take(1)).is_prefix_of(members_samples(members)),
    decreases members.len(),
{
    if members.len() == 1 {
        assert(members.take(1) =~= members);
    } else {
        lemma_members_samples_begin(members.drop_last());
        assert(members.drop_last().take(1) =~= members.take(1));
    }
}

/// Leading padding: where the first member of a file does not start with
/// the file, the first sample is the padding before it, at the root, and
/// weighs as much as there are bytes before the member.
pub proof fn lemma_leading_padding(members: Seq<MemberView>, file_size: int)
    requires
        members.len() > 0,
        members[0].start > 0,
    ensures
        file_samples(members, file_size)[0] == (Sample {
            offset: 0,
            weight: members[0].start,
            labels: Seq::empty(),
        }),
{
    lemma_members_samples_begin(members);
    let one = members.take(1);
    assert(one.drop_last() =~= Seq::<MemberView>::empty());
    assert(one.last() == members[0]);
    assert(members_samples(one.drop_last()) =~= Seq::<Sample>::empty());
    assert(members_samples(one)[0] == padding(0, members[0].start)[0]);
    assert(members_samples(members)[0] == members_samples(one)[0]);
}

/// Members that are in order stay in order with one more that lies after
/// them and is in order itself.
pub proof fn lemma_members_ok_push(members: Seq<MemberView>, next: MemberView)
    requires
        members_ok(members),
        layout_ok(next.sections, next.size),
        lookups_fit(next.sections, next.lookups),
        next.size >= 0,
        end_of_members(members) <= next.start,
        next.start >= 0,
    ensures
        members_ok(members.push(next)),
{
    let grown = members.push(next);
    assert forall|i: int| 0 <= i < grown.len() implies layout_ok(
        (#[trigger] grown[i]).sections,
        grown[i].size,
    ) && lookups_fit(grown[i].sections, grown[i].lookups) && grown[i].size >= 0 by {
        if i < members.len() {
            assert(grown[i] == members[i]);
        }
    }
    assert forall|i: int| 0 < i < grown.len() implies #[trigger] follows(grown, i) by {
        assert(grown[i - 1] == members[i - 1]);
        if i < members.len() {
            assert(follows(members, i));
            assert(grown[i] == members[i]);
        }
    }
    if members.len() > 0 {
        assert(grown[0] == members[0]);
    }
}

/// The scan of a whole file, for a caller that looks the addresses up one
/// by one.
pub struct FileScan {
    pub thread: ThreadHandle,
    pub category: CategoryHandle,
    pub root_stack: StackHandle,
    pub file_size: u64,
    pub previous_member_end: u64,
    /// How many members are done.
    pub members_done: usize,
    /// The scan of the member under way.
    pub member: Option<BinaryScan>,
    /// Whether the end of the file was marked.
    pub finished: bool,
    /// The members that are done.
    pub members: Ghost<Seq<MemberView>>,
    /// The labels of the member under way.
    pub member_labels: Ghost<Seq<Seq<char>>>,
    /// The samples that the thread had when the scan began.
    pub before: Ghost<Seq<(u64, Option<StackHandle>, i32)>>,
}

impl FileScan {
    /// The samples of the members that are done, and of what follows the
    /// last of them once the end of the file was marked.
    pub open spec fn done_samples(&self) -> Seq<Sample> {
        if self.finished {
            file_samples(self.members@, self.file_size as int)
        } else {
            members_samples(self.members@)
        }
    }

    /// What holds of the scan whether or not a member is under way.
    pub open spec fn shell(&self, profile: Profile) -> bool {
        &&& thread_known(profile, self.thread)
        &&& stack_known(profile, self.thread, self.root_stack)
        &&& self.previous_member_end <= self.file_size
        &&& self.members_done == counted(self.members@.len())
        &&& self.previous_member_end == end_of_members(self.members@)
        &&& members_ok(self.members@)
    }

    /// No member is under way, and the thread holds the samples from before
    /// the scan and then those of what is done.
    pub open spec fn idle(&self, profile: Profile) -> bool {
        &&& self.member.is_none()
        &&& resolved(profile, self.thread, self.category, self.root_stack, self.done_samples())
        &&& samples_of(profile, self.thread) == self.before@ + records(
            profile,
            self.thread,
            self.category,
            self.root_stack,
            0,
            self.done_samples(),
        )
    }

    /// `binary` is the scan of a member that lies after the members that are
    /// done and within the file, stands below the labels of the member, and
    /// began when the thread held the samples from before the scan, those of
    /// the members that are done, and the padding before this one.
    pub open spec fn holds(&self, profile: Profile, binary: BinaryScan) -> bool {
        &&& binary.wf(profile)
        &&& binary.thread == self.thread
        &&& binary.category == self.category
        &&& stack_at(profile, self.thread, self.category, self.root_stack, self.member_labels@)
            == Some(binary.root_stack)
        &&& self.previous_member_end <= binary.timestamp_offset
        &&& binary.timestamp_offset + binary.binary_file_size <= self.file_size
        &&& resolved(
            profile,
            self.thread,
            self.category,
            self.root_stack,
            members_samples(self.members@) + padding(
                self.previous_member_end as int,
                binary.timestamp_offset as int,
            ),
        )
        &&& binary.before@ == self.before@ + records(
            profile,
            self.thread,
            self.category,
            self.root_stack,
            0,
            members_samples(self.members@) + padding(
                self.previous_member_end as int,
                binary.timestamp_offset as int,
            ),
        )
    }

    /// The scan is in step with `profile`.
    pub open spec fn wf(&self, profile: Profile) -> bool {
        &&& self.shell(profile)
        &&& match self.member {
            None => self.idle(profile),
            Some(binary) => !self.finished && !binary.complete() && self.holds(profile, binary),
        }
    }

    /// The same scan of the same file, whatever its progress.
    pub open spec fn same_scan(&self, other: &FileScan) -> bool {
        &&& self.thread == other.thread
        &&& self.category == other.category
        &&& self.root_stack == other.root_stack
        &&& self.file_size == other.file_size
        &&& self.before@ == other.before@
    }

    /// A member is under way and waits for the lookup result of its next
    /// byte.
    pub open spec fn awaits_lookup(&self) -> bool {
        self.member matches Some(binary) && binary.awaits_lookup()
    }

    /// Begins the scan of a file of `file_size` bytes. Nothing is emitted
    /// yet.
    pub fn begin(
        profile: &Profile,
        thread: ThreadHandle,
        root_stack: StackHandle,
        category: CategoryHandle,
        file_size: u64,
    ) -> (scan: FileScan)
        requires
            thread_known(*profile, thread),
            stack_known(*profile, thread, root_stack),
        ensures
            scan.wf(*profile),
            scan.thread == thread,
            scan.category == category,
            scan.root_stack == root_stack,
            scan.file_size == file_size,
            scan.members@.len() == 0,
            scan.member.is_none(),
            !scan.finished,
            scan.before@ == samples_of(*profile, thread),
    {
        let scan = FileScan {
            thread,
            category,
            root_stack,
            file_size,
            previous_member_end: 0,
            members_done: 0,
            member: None,
            finished: false,
            members: Ghost(Seq::empty()),
            member_labels: Ghost(Seq::empty()),
            before: Ghost(samples_of(*profile, thread)),
        };
        proof {
            assert(samples_of(*profile, thread) =~= scan.before@ + records(
                *profile,
                thread,
                category,
                root_stack,
                0,
                scan.done_samples(),
            ));
        }
        scan
    }

    /// Begins the scan of the binary that lies from `start` on in the file
    /// and stands below `member_stack`, after the padding before it.
    #[verifier::rlimit(50)]
    fn open(
        &mut self,
        profile: &mut Profile,
        member_stack: StackHandle,
        start: u64,
        size: u64,
        sections: Vec<Section>,
        base_addr: u64,
    ) -> (done: Result<(), ProfileError>)
        requires
            old(self).wf(*old(profile)),
            old(self).member.is_none(),
            !old(self).finished,
            old(self).previous_member_end <= start,
            start + size <= old(self).file_size,
            stack_known(*old(profile), old(self).thread, member_stack),
            stack_at(
                *old(profile),
                old(self).thread,
                old(self).category,
                old(self).root_stack,
                old(self).member_labels@,
            ) == Some(member_stack),
        ensures
            grows(*old(profile), *final(profile), old(self).thread),
            final(self).same_scan(old(self)),
            final(self).members == old(self).members,
            final(self).member_labels == old(self).member_labels,
            done.is_ok() <==> {
                &&& layout_ok(section_views(sections@), size as int)
                &&& start - old(self).previous_member_end <= MAX_WEIGHT
            },
            done matches Err(error) ==> if layout_ok(section_views(sections@), size as int) {
                error == ProfileError::WeightOverflow
            } else {
                is_layout_error(section_views(sections@), size as int, error)
            },
            done.is_ok() ==> {
                &&& final(self).wf(*final(profile))
                &&& final(self).member matches Some(binary)
                &&& binary.sections@ == sections@
                &&& binary.base_addr == base_addr
                &&& binary.timestamp_offset == start
                &&& binary.binary_file_size == size
                &&& binary.root_stack == member_stack
                &&& binary.fed().len() == 0
            },
    {
        let ghost earlier = self.done_samples();
        let checked = check_layout(&sections, size);
        if checked.is_err() {
            proof {
                lemma_grows_refl(*profile, self.thread);
            }
            return checked;
        }
        let padded = emit_padding(
            profile,
            self.thread,
            self.root_stack,
            self.category,
            0,
            self.previous_member_end,
            start,
        );
        if padded.is_err() {
            return padded;
        }
        proof {
            let gap = padding(self.previous_member_end as int, start as int);
            lemma_appended(
                *old(profile),
                *profile,
                self.thread,
                self.category,
                self.root_stack,
                0,
                self.before@,
                earlier,
                gap,
            );
            lemma_extends_known(*old(profile), *profile, self.thread);
            lemma_extends_stack_at(
                *old(profile),
                *profile,
                self.thread,
                self.category,
                self.root_stack,
                self.member_labels@,
            );
        }
        let began = BinaryScan::begin(
            profile,
            self.thread,
            member_stack,
            sections,
            base_addr,
            self.category,
            start,
            size,
        );
        let binary = match began {
            Ok(binary) => binary,
            Err(error) => {
                return Err(error);
            },
        };
        self.member = Some(binary);
        Ok(())
    }

    /// Enters the next member of a fat container, whose library is
    /// `lib_info`: checks that the library has what identifies it and that
    /// the member lies within the file and after the member before it, emits
    /// the padding before it, and begins its scan below a stack of its own.
    pub fn enter_member(
        &mut self,
        profile: &mut Profile,
        member: &FatMember,
        lib_info: LibraryInfo,
        sections: Vec<Section>,
        base_addr: u64,
    ) -> (done: Result<LibraryIdentity, ProfileError>)
        requires
            old(self).wf(*old(profile)),
            old(self).member.is_none(),
            !old(self).finished,
        ensures
            grows(*old(profile), *final(profile), old(self).thread),
            final(self).same_scan(old(self)),
            final(self).members == old(self).members,
            first_missing(lib_info) matches Some(field) ==> done == Err::<
                LibraryIdentity,
                ProfileError,
            >(ProfileError::MissingLibraryInfo { field }),
            first_missing(lib_info).is_some() ==> samples_of(*final(profile), old(self).thread)
                == samples_of(*old(profile), old(self).thread),
            done.is_ok() <==> {
                &&& first_missing(lib_info).is_none()
                &&& member.member_start_file_offset + member.member_size <= old(self).file_size
                &&& member.member_start_file_offset >= old(self).previous_member_end
                &&& layout_ok(section_views(sections@), member.member_size as int)
                &&& member.member_start_file_offset - old(self).previous_member_end <= MAX_WEIGHT
            },
            done matches Ok(identity) ==> identifies(identity, lib_info),
            done matches Err(error) ==> first_missing(lib_info).is_none() ==> {
                if member.member_start_file_offset + member.member_size > old(self).file_size {
                    error == (ProfileError::TruncatedMember { index: old(self).members_done })
                } else if member.member_start_file_offset < old(self).previous_member_end {
                    error == (ProfileError::OverlappingMembers { index: old(self).members_done })
                } else if !layout_ok(section_views(sections@), member.member_size as int) {
                    is_layout_error(section_views(sections@), member.member_size as int, error)
                } else {
                    error == ProfileError::WeightOverflow
                }
            },
            done.is_ok() ==> {
                &&& final(self).wf(*final(profile))
                &&& final(self).member_labels@ == seq![member.arch_name@]
                &&& final(self).member matches Some(binary)
                &&& binary.sections@ == sections@
                &&& binary.base_addr == base_addr
                &&& binary.timestamp_offset == member.member_start_file_offset
                &&& binary.binary_file_size == member.member_size
                &&& binary.fed().len() == 0
            },
    {
        let identity = match identify_library(lib_info) {
            Ok(identity) => identity,
            Err(error) => {
                proof {
                    lemma_grows_refl(*profile, self.thread);
                }
                return Err(error);
            },
        };
        match self.begin_member(profile, member, sections, base_addr) {
            Ok(()) => Ok(identity),
            Err(error) => Err(error),
        }
    }

    /// Enters the next member of a fat container: checks that it lies
    /// within the file and after the member before it, emits the padding
    /// before it, and begins its scan below a stack of its own.
    #[verifier::rlimit(50)]
    fn begin_member(
        &mut self,
        profile: &mut Profile,
        member: &FatMember,
        sections: Vec<Section>,
        base_addr: u64,
    ) -> (done: Result<(), ProfileError>)
        requires
            old(self).wf(*old(profile)),
            old(self).member.is_none(),
            !old(self).finished,
        ensures
            grows(*old(profile), *final(profile), old(self).thread),
            final(self).same_scan(old(self)),
            final(self).members == old(self).members,
            done.is_ok() <==> {
                &&& member.member_start_file_offset + member.member_size <= old(self).file_size
                &&& member.member_start_file_offset >= old(self).previous_member_end
                &&& layout_ok(section_views(sections@), member.member_size as int)
                &&& member.member_start_file_offset - old(self).previous_member_end <= MAX_WEIGHT
            },
            done matches Err(error) ==> {
                if member.member_start_file_offset + member.member_size > old(self).file_size {
                    error == (ProfileError::TruncatedMember { index: old(self).members_done })
                } else if member.member_start_file_offset < old(self).previous_member_end {
                    error == (ProfileError::OverlappingMembers { index: old(self).members_done })
                } else if !layout_ok(section_views(sections@), member.member_size as int) {
                    is_layout_error(section_views(sections@), member.member_size as int, error)
                } else {
                    error == ProfileError::WeightOverflow
                }
            },
            done.is_ok() ==> {
                &&& final(self).wf(*final(profile))
                &&& final(self).member_labels@ == seq![member.arch_name@]
                &&& final(self).member matches Some(binary)
                &&& binary.sections@ == sections@
                &&& binary.base_addr == base_addr
                &&& binary.timestamp_offset == member.member_start_file_offset
                &&& binary.binary_file_size == member.member_size
                &&& binary.fed().len() == 0
            },
    {
        let start = member.member_start_file_offset;
        if start as u128 + member.member_size as u128 > self.file_size as u128 {
            proof {
                lemma_grows_refl(*profile, self.thread);
            }
            return Err(ProfileError::TruncatedMember { index: self.members_done });
        }
        if start < self.previous_member_end {
            proof {
                lemma_grows_refl(*profile, self.thread);
            }
            return Err(ProfileError::OverlappingMembers { index: self.members_done });
        }
        let member_stack = push_label(
            profile,
            self.thread,
            self.category,
            Some(self.root_stack),
            member.arch_name.as_str(),
        );
        let ghost middle = *profile;
        let ghost labels = seq![member.arch_name@];
        self.member_labels = Ghost(labels);
        proof {
            let earlier = self.done_samples();
            lemma_stack_at_one(
                middle,
                self.thread,
                self.category,
                self.root_stack,
                member.arch_name@,
            );
            lemma_extends_known(*old(profile), middle, self.thread);
            lemma_extends_records(
                *old(profile),
                middle,
                self.thread,
                self.category,
                self.root_stack,
                0,
                earlier,
            );
            lemma_extends_grows(*old(profile), middle, self.thread);
        }
        let done = self.open(
            profile,
            member_stack,
            start,
            member.member_size,
            sections,
            base_addr,
        );
        proof {
            lemma_grows_trans(*old(profile), middle, *profile, self.thread);
        }
        done
    }

    /// Enters the binary that is the whole file, where the file is no fat
    /// container, and whose library is `lib_info`: checks that the library
    /// has what identifies it, and begins the scan of the binary below the
    /// root.
    pub fn enter_binary(
        &mut self,
        profile: &mut Profile,
        lib_info: LibraryInfo,
        sections: Vec<Section>,
        base_addr: u64,
    ) -> (done: Result<LibraryIdentity, ProfileError>)
        requires
            old(self).wf(*old(profile)),
            old(self).member.is_none(),
            !old(self).finished,
            old(self).members@.len() == 0,
        ensures
            grows(*old(profile), *final(profile), old(self).thread),
            final(self).same_scan(old(self)),
            final(self).members == old(self).members,
            first_missing(lib_info) matches Some(field) ==> done == Err::<
                LibraryIdentity,
                ProfileError,
            >(ProfileError::MissingLibraryInfo { field }),
            first_missing(lib_info).is_some() ==> samples_of(*final(profile), old(self).thread)
                == samples_of(*old(profile), old(self).thread),
            done.is_ok() <==> first_missing(lib_info).is_none() && layout_ok(
                section_views(sections@),
                old(self).file_size as int,
            ),
            done matches Ok(identity) ==> identifies(identity, lib_info),
            done matches Err(error) ==> first_missing(lib_info).is_none() ==> is_layout_error(
                section_views(sections@),
                old(self).file_size as int,
                error,
            ),
            done.is_ok() ==> {
                &&& final(self).wf(*final(profile))
                &&& final(self).member_labels@.len() == 0
                &&& final(self).member matches Some(binary)
                &&& binary.sections@ == sections@
                &&& binary.base_addr == base_addr
                &&& binary.timestamp_offset == 0
                &&& binary.binary_file_size == old(self).file_size
                &&& binary.fed().len() == 0
            },
    {
        let identity = match identify_library(lib_info) {
            Ok(identity) => identity,
            Err(error) => {
                proof {
                    lemma_grows_refl(*profile, self.thread);
                }
                return Err(error);
            },
        };
        match self.begin_binary(profile, sections, base_addr) {
            Ok(()) => Ok(identity),
            Err(error) => Err(error),
        }
    }

    /// Enters the binary that is the whole file: begins its scan below the
    /// root.
    fn begin_binary(
        &mut self,
        profile: &mut Profile,
        sections: Vec<Section>,
        base_addr: u64,
    ) -> (done: Result<(), ProfileError>)
        requires
            old(self).wf(*old(profile)),
            old(self).member.is_none(),
            !old(self).finished,
            old(self).members@.len() == 0,
        ensures
            grows(*old(profile), *final(profile), old(self).thread),
            final(self).same_scan(old(self)),
            final(self).members == old(self).members,
            done.is_ok() <==> layout_ok(section_views(sections@), old(self).file_size as int),
            done matches Err(error) ==> is_layout_error(
                section_views(sections@),
                old(self).file_size as int,
                error,
            ),
            done.is_ok() ==> {
                &&& final(self).wf(*final(profile))
                &&& final(self).member_labels@.len() == 0
                &&& final(self).member matches Some(binary)
                &&& binary.sections@ == sections@
                &&& binary.base_addr == base_addr
                &&& binary.timestamp_offset == 0
                &&& binary.binary_file_size == old(self).file_size
                &&& binary.fed().len() == 0
            },
    {
        self.member_labels = Ghost(Seq::empty());
        self.open(profile, self.root_stack, 0, self.file_size, sections, base_addr)
    }
}

impl FileScan {
    /// The member that `binary` scans, as it stands among the members that
    /// are done once its scan is over.
    pub open spec fn member_view_of(&self, binary: BinaryScan) -> MemberView {
        MemberView {
            start: binary.timestamp_offset as int,
            size: binary.binary_file_size as int,
            labels: self.member_labels@,
            sections: binary.views(),
            base_addr: binary.base_addr,
            lookups: binary.lookups@,
        }
    }

    /// What was emitted before a member began that starts at `start`.
    pub open spec fn samples_before(&self, start: int) -> Seq<Sample> {
        members_samples(self.members@) + padding(self.previous_member_end as int, start)
    }

    /// A scan that holds a member for a profile holds it for every profile
    /// that the profile grows into while the member is scanned.
    proof fn lemma_holds_on(&self, a: Profile, b: Profile, before: BinaryScan, after: BinaryScan)
        requires
            self.shell(a),
            self.holds(a, before),
            grows(a, b, self.thread),
            after.wf(b),
            after.same_scan(&before),
        ensures
            self.shell(b),
            self.holds(b, after),
    {
        lemma_extends_records(
            a,
            b,
            self.thread,
            self.category,
            self.root_stack,
            0,
            self.samples_before(before.timestamp_offset as int),
        );
        lemma_extends_known(a, b, self.thread);
        lemma_extends_stack_at(
            a,
            b,
            self.thread,
            self.category,
            self.root_stack,
            self.member_labels@,
        );
    }

    /// Puts the member whose scan is over among the members that are done.
    #[verifier::rlimit(50)]
    fn close(&mut self, profile: &Profile, binary: BinaryScan)
        requires
            old(self).shell(*profile),
            old(self).member.is_none(),
            !old(self).finished,
            old(self).holds(*profile, binary),
            binary.complete(),
        ensures
            final(self).wf(*profile),
            final(self).same_scan(old(self)),
            final(self).member.is_none(),
            !final(self).finished,
            final(self).member_labels == old(self).member_labels,
            final(self).members@ == old(self).members@.push(
                MemberView {
                    start: binary.timestamp_offset as int,
                    size: binary.binary_file_size as int,
                    labels: old(self).member_labels@,
                    sections: binary.views(),
                    base_addr: binary.base_addr,
                    lookups: binary.lookups@,
                },
            ),
    {
        let ghost labels = self.member_labels@;
        let ghost earlier = self.samples_before(binary.timestamp_offset as int);
        let ghost view = MemberView {
            start: binary.timestamp_offset as int,
            size: binary.binary_file_size as int,
            labels,
            sections: binary.views(),
            base_addr: binary.base_addr,
            lookups: binary.lookups@,
        };
        let ghost grown = self.members@.push(view);
        proof {
            binary.lemma_complete(*profile);
            lemma_member_done(
                *profile,
                self.thread,
                self.category,
                self.root_stack,
                binary.root_stack,
                self.before@,
                self.members@,
                view,
            );
            lemma_members_ok_push(self.members@, view);
            assert(grown.last() == view);
        }
        self.previous_member_end = binary.timestamp_offset + binary.binary_file_size;
        self.members = Ghost(grown);
        if self.members_done < usize::MAX {
            self.members_done = self.members_done + 1;
        }
    }

    /// Goes on with the member under way until a lookup is needed or the
    /// member is done: emits what is due on the way. Gives the relative
    /// address to look up, whose result is to be handed to `feed`, or `None`
    /// once the member is done.
    #[verifier::rlimit(50)]
    pub fn advance(&mut self, profile: &mut Profile) -> (next: Result<Option<u32>, ProfileError>)
        requires
            old(self).wf(*old(profile)),
            old(self).member.is_some(),
        ensures
            grows(*old(profile), *final(profile), old(self).thread),
            final(self).same_scan(old(self)),
            next.is_ok() <==> weights_fit(old(self).member.unwrap().due()),
            next.is_err() ==> next == Err::<Option<u32>, ProfileError>(
                ProfileError::WeightOverflow,
            ),
            next.is_ok() ==> final(self).wf(*final(profile)),
            final(self).member_labels == old(self).member_labels,
            next matches Ok(Some(address)) ==> {
                &&& final(self).awaits_lookup()
                &&& final(self).member.unwrap().pending_address_is(address)
                &&& final(self).member.unwrap().same_scan(&old(self).member.unwrap())
                &&& went_on(old(self).member.unwrap().fed(), final(self).member.unwrap().fed())
                &&& final(self).members == old(self).members
            },
            next matches Ok(None) ==> {
                &&& final(self).member.is_none()
                &&& !final(self).finished
                &&& final(self).members@.len() == old(self).members@.len() + 1
                &&& final(self).members@.drop_last() == old(self).members@
                &&& final(self).members@.last().start == old(self).member.unwrap().timestamp_offset
                &&& final(self).members@.last().size == old(self).member.unwrap().binary_file_size
                &&& final(self).members@.last().labels == old(self).member_labels@
                &&& final(self).members@.last().sections == old(self).member.unwrap().views()
                &&& final(self).members@.last().base_addr == old(self).member.unwrap().base_addr
                &&& went_on(old(self).member.unwrap().fed(), final(self).members@.last().lookups)
            },
    {
        let ghost began = self.member.unwrap();
        let mut binary = self.member.take().unwrap();
        let next = binary.advance(profile);
        proof {
            if next.is_ok() {
                self.lemma_holds_on(*old(profile), *profile, began, binary);
            }
        }
        match next {
            Err(error) => Err(error),
            Ok(Some(address)) => {
                self.member = Some(binary);
                Ok(Some(address))
            },
            Ok(None) => {
                proof {
                    assert(self.members@.push(self.member_view_of(binary)).drop_last()
                        =~= self.members@);
                }
                self.close(profile, binary);
                Ok(None)
            },
        }
    }

    /// Takes in the lookup result of the address that `advance` asked for.
    pub fn feed(&mut self, profile: &mut Profile, addr_info: Option<AddressInfo>) -> (done:
        Result<(), ProfileError>)
        requires
            old(self).wf(*old(profile)),
            old(self).awaits_lookup(),
        ensures
            grows(*old(profile), *final(profile), old(self).thread),
            final(self).same_scan(old(self)),
            final(self).members == old(self).members,
            final(self).member_labels == old(self).member_labels,
            done.is_err() <==> old(self).member.unwrap().current.unwrap().state.pending_bytes
                > MAX_WEIGHT && flushes(
                old(self).member.unwrap().current.unwrap().state@,
                lookup_of(addr_info),
            ),
            done.is_err() ==> done == Err::<(), ProfileError>(ProfileError::WeightOverflow),
            done.is_ok() ==> {
                &&& final(self).wf(*final(profile))
                &&& final(self).member.is_some()
                &&& final(self).member.unwrap().same_scan(&old(self).member.unwrap())
                &&& final(self).member.unwrap().fed() == fed_one_more(
                    old(self).member.unwrap().fed(),
                    lookup_of(addr_info),
                )
            },
    {
        let ghost began = self.member.unwrap();
        let mut binary = self.member.take().unwrap();
        let done = binary.feed(profile, addr_info);
        proof {
            if done.is_ok() {
                self.lemma_holds_on(*old(profile), *profile, began, binary);
            }
        }
        self.member = Some(binary);
        done
    }

    /// Ends the file after its last member: emits the padding up to the end
    /// of the file and the sample without weight that marks the end.
    pub fn finish(&mut self, profile: &mut Profile) -> (done: Result<(), ProfileError>)
        requires
            old(self).wf(*old(profile)),
            old(self).member.is_none(),
            !old(self).finished,
        ensures
            grows(*old(profile), *final(profile), old(self).thread),
            final(self).same_scan(old(self)),
            final(self).members == old(self).members,
            done.is_ok() <==> old(self).file_size - old(self).previous_member_end <= MAX_WEIGHT,
            done.is_err() ==> done == Err::<(), ProfileError>(ProfileError::WeightOverflow),
            done.is_ok() ==> {
                &&& final(self).wf(*final(profile))
                &&& final(self).finished
                &&& final(self).done_samples() == file_samples(
                    old(self).members@,
                    old(self).file_size as int,
                )
                &&& contiguous(final(self).done_samples(), 0, old(self).file_size as int)
            },
    {
        let ghost earlier = self.done_samples();
        let ghost tail = padding(self.previous_member_end as int, self.file_size as int);
        let ghost marker = seq![end_marker(self.file_size as int)];
        let padded = emit_padding(
            profile,
            self.thread,
            self.root_stack,
            self.category,
            0,
            self.previous_member_end,
            self.file_size,
        );
        if padded.is_err() {
            return padded;
        }
        let ghost middle = *profile;
        proof {
            lemma_appended(
                *old(profile),
                middle,
                self.thread,
                self.category,
                self.root_stack,
                0,
                self.before@,
                earlier,
                tail,
            );
            lemma_extends_known(*old(profile), middle, self.thread);
        }
        let marked = emit_sample(profile, self.thread, self.root_stack, self.file_size, 0);
        proof {
            lemma_grows_trans(*old(profile), middle, *profile, self.thread);
            lemma_extends_known(middle, *profile, self.thread);
            assert(marker[0] == end_marker(self.file_size as int));
            assert(samples_of(*profile, self.thread) =~= samples_of(middle, self.thread) + records(
                *profile,
                self.thread,
                self.category,
                self.root_stack,
                0,
                marker,
            ));
            lemma_appended(
                middle,
                *profile,
                self.thread,
                self.category,
                self.root_stack,
                0,
                self.before@,
                earlier + tail,
                marker,
            );
            lemma_file_contiguous(self.members@, self.file_size as int);
        }
        self.finished = true;
        Ok(())
    }
}

} // verus!
