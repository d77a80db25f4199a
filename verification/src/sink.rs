//! The profile that receives the samples.
//!
//! The profile itself is a value of the `fxprof_processed_profile` crate and is
//! opaque to the verifier. This module gives it a model (its processes and
//! threads, what it has interned, and which samples it holds), states what
//! the operations that this library uses do to that model, and builds the
//! verified helpers on top of them. What is stated of the operations is
//! taken on trust; everything else is proved from it.

use fxprof_processed_profile::{
    CategoryHandle, CpuDelta, Frame, FrameFlags, FrameHandle, FrameInfo, ProcessHandle, Profile,
    ReferenceTimestamp, SamplingInterval, StackHandle, StringHandle, ThreadHandle, Timestamp,
    WeightType,
};
use std::time::Duration;
use vstd::prelude::*;

verus! {

/// `fxprof_processed_profile::Profile`, carried through as it is.
#[verifier::external_type_specification]
#[verifier::external_body]
pub struct ExProfile(Profile);

/// `fxprof_processed_profile::ProcessHandle`: names a process of a profile.
#[verifier::external_type_specification]
#[verifier::external_body]
pub struct ExProcessHandle(ProcessHandle);

/// `fxprof_processed_profile::ThreadHandle`: names a thread of a profile.
#[verifier::external_type_specification]
#[verifier::external_body]
pub struct ExThreadHandle(ThreadHandle);

/// `fxprof_processed_profile::StringHandle`: names an interned string.
#[verifier::external_type_specification]
#[verifier::external_body]
pub struct ExStringHandle(StringHandle);

/// `fxprof_processed_profile::FrameHandle`: names a frame of a thread.
#[verifier::external_type_specification]
#[verifier::external_body]
pub struct ExFrameHandle(FrameHandle);

/// `fxprof_processed_profile::StackHandle`: names a stack node of a thread.
#[verifier::external_type_specification]
#[verifier::external_body]
pub struct ExStackHandle(StackHandle);

/// `fxprof_processed_profile::CategoryHandle`: names a category of frames.
#[verifier::external_type_specification]
#[verifier::external_body]
pub struct ExCategoryHandle(CategoryHandle);

/// The string table of a profile: every interned text with its handle.
pub uninterp spec fn interned_strings(profile: Profile) -> Map<Seq<char>, StringHandle>;

/// The label frames of a profile: every (thread, text, category) that was
/// interned as a label with empty flags, with its handle.
pub uninterp spec fn interned_labels(profile: Profile) -> Map<
    (ThreadHandle, StringHandle, CategoryHandle),
    FrameHandle,
>;

/// The stack nodes of a profile: every (thread, parent, frame) with its handle.
pub uninterp spec fn interned_stacks(profile: Profile) -> Map<
    (ThreadHandle, Option<StackHandle>, FrameHandle),
    StackHandle,
>;

/// The samples of each thread of a profile in the order they were added, each
/// as (nanoseconds since the reference time, stack, weight).
pub uninterp spec fn recorded_samples(profile: Profile) -> Map<
    ThreadHandle,
    Seq<(u64, Option<StackHandle>, i32)>,
>;

/// The processes of a profile.
pub uninterp spec fn known_processes(profile: Profile) -> Set<ProcessHandle>;

/// `thread` is a thread of `profile`.
pub open spec fn thread_known(profile: Profile, thread: ThreadHandle) -> bool {
    recorded_samples(profile).dom().contains(thread)
}

/// `text` is the handle of a string interned in `profile`.
pub open spec fn string_known(profile: Profile, text: StringHandle) -> bool {
    exists|s: Seq<char>| #[trigger] interned_strings(profile).contains_pair(s, text)
}

/// `frame` is the handle of a label frame of `thread` in `profile`.
pub open spec fn frame_known(profile: Profile, thread: ThreadHandle, frame: FrameHandle) -> bool {
    exists|text: StringHandle, category: CategoryHandle| #[trigger]
        interned_labels(profile).contains_pair((thread, text, category), frame)
}

/// `stack` is the handle of a stack node of `thread` in `profile`.
pub open spec fn stack_known(profile: Profile, thread: ThreadHandle, stack: StackHandle) -> bool {
    exists|parent: Option<StackHandle>, frame: FrameHandle| #[trigger]
        interned_stacks(profile).contains_pair((thread, parent, frame), stack)
}

/// `profile` has no process and no thread, and has interned nothing.
pub open spec fn is_blank(profile: Profile) -> bool {
    &&& known_processes(profile) =~= Set::empty()
    &&& recorded_samples(profile) =~= Map::empty()
    &&& interned_strings(profile) =~= Map::empty()
    &&& interned_labels(profile) =~= Map::empty()
    &&& interned_stacks(profile) =~= Map::empty()
}

/// `Profile::new`, with the reference time and the sampling interval made of
/// the numbers given: the new profile has no process and no thread, and has
/// interned nothing.
#[verifier::external_body]
pub(crate) fn new_profile(
    product: &str,
    reference_millis: u64,
    interval_nanos: u64,
) -> (profile: Profile)
    ensures
        is_blank(profile),
{
    let reference = Duration::from_millis(reference_millis);
    let reference = ReferenceTimestamp::from_duration_since_unix_epoch(reference);
    Profile::new(product, reference, SamplingInterval::from_nanos(interval_nanos))
}

/// `Profile::add_process`: the profile has one more process, which is the
/// one returned; nothing else changes.
#[verifier::external_body]
pub(crate) fn add_process(
    profile: &mut Profile,
    name: &str,
    pid: u32,
    start_nanos: u64,
) -> (process: ProcessHandle)
    ensures
        known_processes(*final(profile)) == known_processes(*old(profile)).insert(process),
        recorded_samples(*final(profile)) == recorded_samples(*old(profile)),
        interned_strings(*final(profile)) == interned_strings(*old(profile)),
        interned_labels(*final(profile)) == interned_labels(*old(profile)),
        interned_stacks(*final(profile)) == interned_stacks(*old(profile)),
{
    profile.add_process(name, pid, Timestamp::from_nanos_since_reference(start_nanos))
}

/// `Profile::add_thread`: the profile has one more thread, which is the one
/// returned and has no samples; nothing else changes. The call panics on a
/// process of another profile.
#[verifier::external_body]
pub(crate) fn add_thread(
    profile: &mut Profile,
    process: ProcessHandle,
    tid: u32,
    start_nanos: u64,
    is_main: bool,
) -> (thread: ThreadHandle)
    requires
        known_processes(*old(profile)).contains(process),
    ensures
        !thread_known(*old(profile), thread),
        recorded_samples(*final(profile)) == recorded_samples(*old(profile)).insert(
            thread,
            Seq::empty(),
        ),
        known_processes(*final(profile)) == known_processes(*old(profile)),
        interned_strings(*final(profile)) == interned_strings(*old(profile)),
        interned_labels(*final(profile)) == interned_labels(*old(profile)),
        interned_stacks(*final(profile)) == interned_stacks(*old(profile)),
{
    let start = Timestamp::from_nanos_since_reference(start_nanos);
    profile.add_thread(process, tid, start, is_main)
}

/// `Profile::set_thread_samples_weight_type` with `WeightType::Bytes`: the
/// weights of the samples of the thread count bytes; the samples and what
/// is interned stay as they are. The call panics on a thread of another
/// profile.
#[verifier::external_body]
pub(crate) fn weigh_in_bytes(profile: &mut Profile, thread: ThreadHandle)
    requires
        thread_known(*old(profile), thread),
    ensures
        recorded_samples(*final(profile)) == recorded_samples(*old(profile)),
        interned_strings(*final(profile)) == interned_strings(*old(profile)),
        interned_labels(*final(profile)) == interned_labels(*old(profile)),
        interned_stacks(*final(profile)) == interned_stacks(*old(profile)),
{
    profile.set_thread_samples_weight_type(thread, WeightType::Bytes)
}

/// `Profile::set_symbolicated`: the samples and what is interned stay as
/// they are.
#[verifier::external_body]
pub(crate) fn set_symbolicated(profile: &mut Profile, symbolicated: bool)
    ensures
        recorded_samples(*final(profile)) == recorded_samples(*old(profile)),
        interned_strings(*final(profile)) == interned_strings(*old(profile)),
        interned_labels(*final(profile)) == interned_labels(*old(profile)),
        interned_stacks(*final(profile)) == interned_stacks(*old(profile)),
{
    profile.set_symbolicated(symbolicated)
}

/// `Profile::intern_string`: the handle is the one the text already had, if
/// it had one, else one that no other text has, and the text stands in the
/// string table afterwards; nothing else changes.
#[verifier::external_body]
pub(crate) fn intern_string(profile: &mut Profile, s: &str) -> (text: StringHandle)
    ensures
        interned_strings(*old(profile)).contains_key(s@) ==> text == interned_strings(
            *old(profile),
        )[s@],
        !interned_strings(*old(profile)).contains_key(s@) ==> !interned_strings(
            *old(profile),
        ).contains_value(text),
        interned_strings(*final(profile)) == interned_strings(*old(profile)).insert(s@, text),
        interned_labels(*final(profile)) == interned_labels(*old(profile)),
        interned_stacks(*final(profile)) == interned_stacks(*old(profile)),
        recorded_samples(*final(profile)) == recorded_samples(*old(profile)),
{
    profile.intern_string(s)
}

/// `Profile::intern_frame` for a `Frame::Label` with empty flags: the handle
/// is the one that (thread, text, category) already had, if it had one, else
/// one that no other triple has, and the triple stands among the label frames
/// afterwards; nothing else changes.
/// The call panics on a thread or a string handle of another profile.
#[verifier::external_body]
pub(crate) fn intern_label(
    profile: &mut Profile,
    thread: ThreadHandle,
    text: StringHandle,
    category: CategoryHandle,
) -> (frame: FrameHandle)
    requires
        thread_known(*old(profile), thread),
        string_known(*old(profile), text),
    ensures
        interned_labels(*old(profile)).contains_key((thread, text, category)) ==> frame
            == interned_labels(*old(profile))[(thread, text, category)],
        !interned_labels(*old(profile)).contains_key((thread, text, category))
            ==> !interned_labels(*old(profile)).contains_value(frame),
        interned_labels(*final(profile)) == interned_labels(*old(profile)).insert(
            (thread, text, category),
            frame,
        ),
        interned_strings(*final(profile)) == interned_strings(*old(profile)),
        interned_stacks(*final(profile)) == interned_stacks(*old(profile)),
        recorded_samples(*final(profile)) == recorded_samples(*old(profile)),
{
    let flags = FrameFlags::empty();
    let info = FrameInfo { frame: Frame::Label(text), category_pair: category.into(), flags };
    profile.intern_frame(thread, info)
}

/// `Profile::intern_stack`: the handle is the one that (thread, parent,
/// frame) already had, if it had one, else one that no other triple has, and
/// the triple stands among the stack nodes afterwards; nothing else changes.
/// The call panics on a thread of another profile and on a parent or a frame
/// of another thread.
#[verifier::external_body]
pub(crate) fn intern_stack(
    profile: &mut Profile,
    thread: ThreadHandle,
    parent: Option<StackHandle>,
    frame: FrameHandle,
) -> (stack: StackHandle)
    requires
        thread_known(*old(profile), thread),
        frame_known(*old(profile), thread, frame),
        parent matches Some(p) ==> stack_known(*old(profile), thread, p),
    ensures
        interned_stacks(*old(profile)).contains_key((thread, parent, frame)) ==> stack
            == interned_stacks(*old(profile))[(thread, parent, frame)],
        !interned_stacks(*old(profile)).contains_key((thread, parent, frame))
            ==> !interned_stacks(*old(profile)).contains_value(stack),
        interned_stacks(*final(profile)) == interned_stacks(*old(profile)).insert(
            (thread, parent, frame),
            stack,
        ),
        interned_strings(*final(profile)) == interned_strings(*old(profile)),
        interned_labels(*final(profile)) == interned_labels(*old(profile)),
        recorded_samples(*final(profile)) == recorded_samples(*old(profile)),
{
    profile.intern_stack(thread, parent, frame)
}

/// `Profile::add_sample` with a CPU delta of zero: the sample is appended to
/// the samples of the thread; nothing else changes. The call panics on a
/// thread of another profile and on a stack of another thread.
#[verifier::external_body]
pub(crate) fn add_sample(
    profile: &mut Profile,
    thread: ThreadHandle,
    nanos: u64,
    stack: StackHandle,
    weight: i32,
)
    requires
        thread_known(*old(profile), thread),
        stack_known(*old(profile), thread, stack),
    ensures
        recorded_samples(*final(profile)) == recorded_samples(*old(profile)).insert(
            thread,
            recorded_samples(*old(profile))[thread].push((nanos, Some(stack), weight)),
        ),
        interned_strings(*final(profile)) == interned_strings(*old(profile)),
        interned_labels(*final(profile)) == interned_labels(*old(profile)),
        interned_stacks(*final(profile)) == interned_stacks(*old(profile)),
{
    let time = Timestamp::from_nanos_since_reference(nanos);
    profile.add_sample(thread, time, Some(stack), CpuDelta::ZERO, weight)
}

/// No two keys of `map` have the same value.
pub open spec fn one_to_one<K, V>(map: Map<K, V>) -> bool {
    forall|x: K, y: K|
        #![trigger map[x], map[y]]
        x != y && map.contains_key(x) && map.contains_key(y) ==> map[x] != map[y]
}

/// No two things that `profile` has interned have the same handle.
pub open spec fn distinct_handles(profile: Profile) -> bool {
    &&& one_to_one(interned_strings(profile))
    &&& one_to_one(interned_labels(profile))
    &&& one_to_one(interned_stacks(profile))
}

/// Everything interned in `a` is interned in `b` under the same handle,
/// both have the same threads, and where no two things share a handle in
/// `a`, none do in `b`.
pub open spec fn extends(a: Profile, b: Profile) -> bool {
    &&& interned_strings(a).submap_of(interned_strings(b))
    &&& interned_labels(a).submap_of(interned_labels(b))
    &&& interned_stacks(a).submap_of(interned_stacks(b))
    &&& recorded_samples(a).dom() == recorded_samples(b).dom()
    &&& distinct_handles(a) ==> distinct_handles(b)
}

/// The samples of `thread` in `profile`.
pub open spec fn samples_of(profile: Profile, thread: ThreadHandle) -> Seq<
    (u64, Option<StackHandle>, i32),
> {
    recorded_samples(profile)[thread]
}

/// The label frame of `thread` that carries `text`, if the profile has one.
pub open spec fn label_frame(
    profile: Profile,
    thread: ThreadHandle,
    category: CategoryHandle,
    text: Seq<char>,
) -> Option<FrameHandle> {
    if interned_strings(profile).contains_key(text) && interned_labels(profile).contains_key(
        (thread, interned_strings(profile)[text], category),
    ) {
        Some(interned_labels(profile)[(thread, interned_strings(profile)[text], category)])
    } else {
        None
    }
}

/// The stack node below `parent` whose frame is the label `text`, if the
/// profile has one.
pub open spec fn labelled_child(
    profile: Profile,
    thread: ThreadHandle,
    category: CategoryHandle,
    parent: Option<StackHandle>,
    text: Seq<char>,
) -> Option<StackHandle> {
    match label_frame(profile, thread, category, text) {
        Some(frame) => if interned_stacks(profile).contains_key((thread, parent, frame)) {
            Some(interned_stacks(profile)[(thread, parent, frame)])
        } else {
            None
        },
        None => None,
    }
}

/// The stack reached from `start` by descending through one label frame per
/// entry of `labels`, outermost first, if the profile has all of them.
pub open spec fn stack_at(
    profile: Profile,
    thread: ThreadHandle,
    category: CategoryHandle,
    start: StackHandle,
    labels: Seq<Seq<char>>,
) -> Option<StackHandle>
    decreases labels.len(),
{
    if labels.len() == 0 {
        Some(start)
    } else {
        match stack_at(profile, thread, category, start, labels.drop_last()) {
            Some(parent) => labelled_child(profile, thread, category, Some(parent), labels.last()),
            None => None,
        }
    }
}

/// `b` extends `a`, and the samples of every thread but `thread` are in `b`
/// what they are in `a`.
pub open spec fn grows(a: Profile, b: Profile, thread: ThreadHandle) -> bool {
    &&& extends(a, b)
    &&& recorded_samples(b) == recorded_samples(a).insert(thread, samples_of(b, thread))
}

/// Every profile grows into itself.
pub proof fn lemma_grows_refl(a: Profile, thread: ThreadHandle)
    requires
        thread_known(a, thread),
    ensures
        grows(a, a, thread),
{
    lemma_extends_refl(a);
    assert(recorded_samples(a) =~= recorded_samples(a).insert(thread, samples_of(a, thread)));
}

/// What a profile grows into grows on.
pub proof fn lemma_grows_trans(a: Profile, b: Profile, c: Profile, thread: ThreadHandle)
    requires
        grows(a, b, thread),
        grows(b, c, thread),
    ensures
        grows(a, c, thread),
{
    lemma_extends_trans(a, b, c);
    assert(recorded_samples(c) =~= recorded_samples(a).insert(thread, samples_of(c, thread)));
}

/// A profile that extends another and holds the same samples grows from it.
pub proof fn lemma_extends_grows(a: Profile, b: Profile, thread: ThreadHandle)
    requires
        extends(a, b),
        thread_known(a, thread),
        recorded_samples(b) == recorded_samples(a),
    ensures
        grows(a, b, thread),
{
    assert(recorded_samples(b) =~= recorded_samples(a).insert(thread, samples_of(b, thread)));
}

/// Descending through one label is taking the child with that label.
pub proof fn lemma_stack_at_one(
    profile: Profile,
    thread: ThreadHandle,
    category: CategoryHandle,
    start: StackHandle,
    text: Seq<char>,
)
    ensures
        stack_at(profile, thread, category, start, seq![text]) == labelled_child(
            profile,
            thread,
            category,
            Some(start),
            text,
        ),
{
    let labels = seq![text];
    assert(labels.drop_last() =~= Seq::<Seq<char>>::empty());
    assert(stack_at(profile, thread, category, start, labels.drop_last()) == Some(start));
    assert(labels.last() == text);
}

/// Every profile extends itself.
pub proof fn lemma_extends_refl(a: Profile)
    ensures
        extends(a, a),
{
}

/// What extends a profile that extends another extends that one.
pub proof fn lemma_extends_trans(a: Profile, b: Profile, c: Profile)
    requires
        extends(a, b),
        extends(b, c),
    ensures
        extends(a, c),
{
    assert forall|k: Seq<char>| #[trigger]
        interned_strings(a).dom().contains(k) implies interned_strings(c).dom().contains(k)
        && interned_strings(a)[k] == interned_strings(c)[k] by {
        assert(interned_strings(b).dom().contains(k));
    }
    assert forall|k: (ThreadHandle, StringHandle, CategoryHandle)| #[trigger]
        interned_labels(a).dom().contains(k) implies interned_labels(c).dom().contains(k)
        && interned_labels(a)[k] == interned_labels(c)[k] by {
        assert(interned_labels(b).dom().contains(k));
    }
    assert forall|k: (ThreadHandle, Option<StackHandle>, FrameHandle)| #[trigger]
        interned_stacks(a).dom().contains(k) implies interned_stacks(c).dom().contains(k)
        && interned_stacks(a)[k] == interned_stacks(c)[k] by {
        assert(interned_stacks(b).dom().contains(k));
    }
}

/// A label frame that a profile has is the same, and known, in every profile
/// that extends it.
pub proof fn lemma_extends_label_frame(
    a: Profile,
    b: Profile,
    thread: ThreadHandle,
    category: CategoryHandle,
    text: Seq<char>,
)
    requires
        extends(a, b),
        label_frame(a, thread, category, text).is_some(),
    ensures
        label_frame(b, thread, category, text) == label_frame(a, thread, category, text),
        frame_known(b, thread, label_frame(a, thread, category, text).unwrap()),
{
    assert(interned_strings(a).dom().contains(text));
    let s = interned_strings(a)[text];
    assert(interned_strings(b).dom().contains(text));
    assert(interned_labels(a).dom().contains((thread, s, category)));
    assert(interned_labels(b).dom().contains((thread, s, category)));
    assert(interned_labels(b).contains_pair(
        (thread, s, category),
        interned_labels(a)[(thread, s, category)],
    ));
}

/// A labelled child that a profile has is the same in every profile that
/// extends it.
pub proof fn lemma_extends_child(
    a: Profile,
    b: Profile,
    thread: ThreadHandle,
    category: CategoryHandle,
    parent: Option<StackHandle>,
    text: Seq<char>,
)
    requires
        extends(a, b),
        labelled_child(a, thread, category, parent, text).is_some(),
    ensures
        labelled_child(b, thread, category, parent, text) == labelled_child(
            a,
            thread,
            category,
            parent,
            text,
        ),
{
    assert(interned_strings(a).dom().contains(text));
    let s = interned_strings(a)[text];
    assert(interned_strings(b).dom().contains(text));
    assert(interned_labels(a).dom().contains((thread, s, category)));
    let f = interned_labels(a)[(thread, s, category)];
    assert(interned_labels(b).dom().contains((thread, s, category)));
    assert(interned_stacks(a).dom().contains((thread, parent, f)));
    assert(interned_stacks(b).dom().contains((thread, parent, f)));
}

/// Handles that a profile knows stay known in every profile that extends it.
pub proof fn lemma_extends_known(a: Profile, b: Profile, thread: ThreadHandle)
    requires
        extends(a, b),
    ensures
        thread_known(a, thread) == thread_known(b, thread),
        forall|s: StringHandle| string_known(a, s) ==> string_known(b, s),
        forall|f: FrameHandle| frame_known(a, thread, f) ==> frame_known(b, thread, f),
        forall|s: StackHandle| stack_known(a, thread, s) ==> stack_known(b, thread, s),
{
    assert forall|s: StringHandle| string_known(a, s) implies string_known(b, s) by {
        let t = choose|t: Seq<char>| #[trigger] interned_strings(a).contains_pair(t, s);
        assert(interned_strings(b).contains_pair(t, s));
    }
    assert forall|f: FrameHandle| frame_known(a, thread, f) implies frame_known(b, thread, f) by {
        let (t, c) = choose|t: StringHandle, c: CategoryHandle| #[trigger]
            interned_labels(a).contains_pair((thread, t, c), f);
        assert(interned_labels(b).contains_pair((thread, t, c), f));
    }
    assert forall|s: StackHandle| stack_known(a, thread, s) implies stack_known(b, thread, s) by {
        let (p, f) = choose|p: Option<StackHandle>, f: FrameHandle| #[trigger]
            interned_stacks(a).contains_pair((thread, p, f), s);
        assert(interned_stacks(b).contains_pair((thread, p, f), s));
    }
}

/// A stack that a profile reaches through labels is reached through the same
/// labels in every profile that extends it.
pub proof fn lemma_extends_stack_at(
    a: Profile,
    b: Profile,
    thread: ThreadHandle,
    category: CategoryHandle,
    start: StackHandle,
    labels: Seq<Seq<char>>,
)
    requires
        extends(a, b),
        stack_at(a, thread, category, start, labels).is_some(),
    ensures
        stack_at(b, thread, category, start, labels) == stack_at(
            a,
            thread,
            category,
            start,
            labels,
        ),
    decreases labels.len(),
{
    if labels.len() > 0 {
        lemma_extends_stack_at(a, b, thread, category, start, labels.drop_last());
        let parent = stack_at(a, thread, category, start, labels.drop_last()).unwrap();
        lemma_extends_child(a, b, thread, category, Some(parent), labels.last());
    }
}

/// Descending through `first` and then through `second` is descending
/// through both in one go.
pub proof fn lemma_stack_at_concat(
    profile: Profile,
    thread: ThreadHandle,
    category: CategoryHandle,
    start: StackHandle,
    first: Seq<Seq<char>>,
    second: Seq<Seq<char>>,
)
    ensures
        stack_at(profile, thread, category, start, first + second) == match stack_at(
            profile,
            thread,
            category,
            start,
            first,
        ) {
            Some(middle) => stack_at(profile, thread, category, middle, second),
            None => None,
        },
    decreases second.len(),
{
    if second.len() == 0 {
        assert(first + second =~= first);
    } else {
        assert((first + second).drop_last() =~= first + second.drop_last());
        assert((first + second).last() == second.last());
        lemma_stack_at_concat(profile, thread, category, start, first, second.drop_last());
    }
}

/// Where no two things share a handle, two lists of as many labels lead
/// from one stack to the same stack only where they are the same labels.
pub proof fn lemma_stack_at_injective(
    profile: Profile,
    thread: ThreadHandle,
    category: CategoryHandle,
    start: StackHandle,
    first: Seq<Seq<char>>,
    second: Seq<Seq<char>>,
)
    requires
        distinct_handles(profile),
        first.len() == second.len(),
        stack_at(profile, thread, category, start, first).is_some(),
        stack_at(profile, thread, category, start, first) == stack_at(
            profile,
            thread,
            category,
            start,
            second,
        ),
    ensures
        first == second,
    decreases first.len(),
{
    if first.len() == 0 {
        assert(first =~= second);
    } else {
        let strings = interned_strings(profile);
        let labels = interned_labels(profile);
        let stacks = interned_stacks(profile);
        let one = stack_at(profile, thread, category, start, first.drop_last()).unwrap();
        let two = stack_at(profile, thread, category, start, second.drop_last()).unwrap();
        let a = strings[first.last()];
        let b = strings[second.last()];
        let f = labels[(thread, a, category)];
        let g = labels[(thread, b, category)];
        assert(stacks[(thread, Some(one), f)] == stacks[(thread, Some(two), g)]);
        assert(one == two && f == g);
        assert(labels[(thread, a, category)] == labels[(thread, b, category)]);
        assert(a == b);
        assert(strings[first.last()] == strings[second.last()]);
        assert(first.last() == second.last());
        lemma_stack_at_injective(
            profile,
            thread,
            category,
            start,
            first.drop_last(),
            second.drop_last(),
        );
        assert(first =~= first.drop_last().push(first.last()));
        assert(second =~= second.drop_last().push(second.last()));
    }
}

/// A stack reached from a known stack is known.
pub proof fn lemma_stack_at_known(
    profile: Profile,
    thread: ThreadHandle,
    category: CategoryHandle,
    start: StackHandle,
    labels: Seq<Seq<char>>,
)
    requires
        stack_known(profile, thread, start),
        stack_at(profile, thread, category, start, labels).is_some(),
    ensures
        stack_known(profile, thread, stack_at(profile, thread, category, start, labels).unwrap()),
{
    if labels.len() > 0 {
        let parent = stack_at(profile, thread, category, start, labels.drop_last()).unwrap();
        let frame = label_frame(profile, thread, category, labels.last()).unwrap();
        assert(interned_stacks(profile).contains_pair(
            (thread, Some(parent), frame),
            stack_at(profile, thread, category, start, labels).unwrap(),
        ));
    }
}

/// `b` is `a` with the stack node below `parent` whose frame is the label
/// `text`, and with the string and the frame that the node needs: nothing
/// else is added, and what `a` had of the three keeps its handle.
pub open spec fn pushed(
    a: Profile,
    b: Profile,
    thread: ThreadHandle,
    category: CategoryHandle,
    parent: Option<StackHandle>,
    text: Seq<char>,
) -> bool {
    let string = interned_strings(b)[text];
    let frame = interned_labels(b)[(thread, string, category)];
    let stack = interned_stacks(b)[(thread, parent, frame)];
    &&& extends(a, b)
    &&& interned_strings(b) == interned_strings(a).insert(text, string)
    &&& interned_labels(b) == interned_labels(a).insert((thread, string, category), frame)
    &&& interned_stacks(b) == interned_stacks(a).insert((thread, parent, frame), stack)
    &&& recorded_samples(b) == recorded_samples(a)
}

/// `a` and `b` have interned the same under the same handles, and hold the
/// same samples.
pub open spec fn same_tables(a: Profile, b: Profile) -> bool {
    &&& interned_strings(b) == interned_strings(a)
    &&& interned_labels(b) == interned_labels(a)
    &&& interned_stacks(b) == interned_stacks(a)
    &&& recorded_samples(b) == recorded_samples(a)
}

/// `b` is `a` with the stack nodes that lead from `start` through `labels`,
/// one after the other, and with the strings and frames that they need:
/// nothing else is added, and nothing at all where `a` had them all.
pub open spec fn pushed_all(
    a: Profile,
    b: Profile,
    thread: ThreadHandle,
    category: CategoryHandle,
    start: StackHandle,
    labels: Seq<Seq<char>>,
) -> bool
    decreases labels.len(),
{
    if labels.len() == 0 {
        same_tables(a, b)
    } else {
        exists|m: Profile|
            pushed_all(a, m, thread, category, start, labels.drop_last()) && #[trigger] pushed(
                m,
                b,
                thread,
                category,
                stack_at(m, thread, category, start, labels.drop_last()),
                labels.last(),
            )
    }
}

/// A profile with labels pushed extends the profile that it was.
pub proof fn lemma_pushed_all_extends(
    a: Profile,
    b: Profile,
    thread: ThreadHandle,
    category: CategoryHandle,
    start: StackHandle,
    labels: Seq<Seq<char>>,
)
    requires
        pushed_all(a, b, thread, category, start, labels),
    ensures
        extends(a, b),
        recorded_samples(b) == recorded_samples(a),
    decreases labels.len(),
{
    if labels.len() > 0 {
        let m = choose|m: Profile|
            pushed_all(a, m, thread, category, start, labels.drop_last()) && #[trigger] pushed(
                m,
                b,
                thread,
                category,
                stack_at(m, thread, category, start, labels.drop_last()),
                labels.last(),
            );
        lemma_pushed_all_extends(a, m, thread, category, start, labels.drop_last());
        lemma_extends_trans(a, m, b);
    }
}

/// Labels pushed and then one more pushed below the stack that they lead
/// to are all of them pushed.
pub proof fn lemma_pushed_all_step(
    a: Profile,
    m: Profile,
    b: Profile,
    thread: ThreadHandle,
    category: CategoryHandle,
    start: StackHandle,
    labels: Seq<Seq<char>>,
    text: Seq<char>,
)
    requires
        pushed_all(a, m, thread, category, start, labels),
        pushed(m, b, thread, category, stack_at(m, thread, category, start, labels), text),
    ensures
        pushed_all(a, b, thread, category, start, labels.push(text)),
{
    assert(labels.push(text).drop_last() =~= labels);
    assert(labels.push(text).last() == text);
}

/// Pushing labels that a profile has leaves it as it is.
pub proof fn lemma_pushed_all_idle(
    a: Profile,
    thread: ThreadHandle,
    category: CategoryHandle,
    start: StackHandle,
    labels: Seq<Seq<char>>,
)
    requires
        stack_at(a, thread, category, start, labels).is_some(),
    ensures
        pushed_all(a, a, thread, category, start, labels),
    decreases labels.len(),
{
    if labels.len() > 0 {
        lemma_pushed_all_idle(a, thread, category, start, labels.drop_last());
        let parent = stack_at(a, thread, category, start, labels.drop_last());
        let string = interned_strings(a)[labels.last()];
        let frame = interned_labels(a)[(thread, string, category)];
        assert(interned_strings(a) =~= interned_strings(a).insert(labels.last(), string));
        assert(interned_labels(a) =~= interned_labels(a).insert(
            (thread, string, category),
            frame,
        ));
        assert(interned_stacks(a) =~= interned_stacks(a).insert(
            (thread, parent, frame),
            interned_stacks(a)[(thread, parent, frame)],
        ));
        assert(pushed(a, a, thread, category, parent, labels.last()));
    }
}

/// What holds of a profile with labels pushed holds of every profile with
/// the same tables.
pub proof fn lemma_pushed_all_same(
    a: Profile,
    b: Profile,
    c: Profile,
    thread: ThreadHandle,
    category: CategoryHandle,
    start: StackHandle,
    labels: Seq<Seq<char>>,
)
    requires
        pushed_all(a, b, thread, category, start, labels),
        same_tables(b, c),
    ensures
        pushed_all(a, c, thread, category, start, labels),
{
    if labels.len() > 0 {
        let m = choose|m: Profile|
            pushed_all(a, m, thread, category, start, labels.drop_last()) && #[trigger] pushed(
                m,
                b,
                thread,
                category,
                stack_at(m, thread, category, start, labels.drop_last()),
                labels.last(),
            );
        assert(pushed(
            m,
            c,
            thread,
            category,
            stack_at(m, thread, category, start, labels.drop_last()),
            labels.last(),
        ));
    }
}

/// Labels pushed from one stack, and then more labels pushed from the stack
/// that they lead to, are all of them pushed from the first stack.
pub proof fn lemma_pushed_all_concat(
    a: Profile,
    m: Profile,
    b: Profile,
    thread: ThreadHandle,
    category: CategoryHandle,
    start: StackHandle,
    middle: StackHandle,
    first: Seq<Seq<char>>,
    second: Seq<Seq<char>>,
)
    requires
        pushed_all(a, m, thread, category, start, first),
        stack_at(m, thread, category, start, first) == Some(middle),
        pushed_all(m, b, thread, category, middle, second),
    ensures
        pushed_all(a, b, thread, category, start, first + second),
    decreases second.len(),
{
    if second.len() == 0 {
        assert(first + second =~= first);
        lemma_pushed_all_same(a, m, b, thread, category, start, first);
    } else {
        let n = choose|n: Profile|
            pushed_all(m, n, thread, category, middle, second.drop_last()) && #[trigger] pushed(
                n,
                b,
                thread,
                category,
                stack_at(n, thread, category, middle, second.drop_last()),
                second.last(),
            );
        lemma_pushed_all_concat(
            a,
            m,
            n,
            thread,
            category,
            start,
            middle,
            first,
            second.drop_last(),
        );
        lemma_pushed_all_extends(m, n, thread, category, middle, second.drop_last());
        lemma_extends_stack_at(m, n, thread, category, start, first);
        lemma_stack_at_concat(n, thread, category, start, first, second.drop_last());
        assert((first + second).drop_last() =~= first + second.drop_last());
        assert((first + second).last() == second.last());
    }
}

/// Interns the stack node below `parent` whose frame is the label `label`.
pub fn push_label(
    profile: &mut Profile,
    thread: ThreadHandle,
    category: CategoryHandle,
    parent: Option<StackHandle>,
    label: &str,
) -> (stack: StackHandle)
    requires
        thread_known(*old(profile), thread),
        parent matches Some(p) ==> stack_known(*old(profile), thread, p),
    ensures
        labelled_child(*final(profile), thread, category, parent, label@) == Some(stack),
        pushed(*old(profile), *final(profile), thread, category, parent, label@),
        stack_known(*final(profile), thread, stack),
        extends(*old(profile), *final(profile)),
        recorded_samples(*final(profile)) == recorded_samples(*old(profile)),
{
    let text = intern_string(profile, label);
    assert(interned_strings(*profile).contains_pair(label@, text));
    let frame = intern_label(profile, thread, text, category);
    assert(interned_labels(*profile).contains_pair((thread, text, category), frame));
    proof {
        lemma_extends_known(*old(profile), *profile, thread);
    }
    let stack = intern_stack(profile, thread, parent, frame);
    assert(interned_stacks(*profile).contains_pair((thread, parent, frame), stack));
    stack
}

/// The product that the profiles name as their maker.
pub const PRODUCT: &'static str = "size-profiler";

/// The label of the root of all stacks.
pub const ROOT_LABEL: &'static str = "(root)";

/// The intended time between two samples of a profile, in nanoseconds: a
/// millisecond, which stands for one byte.
pub const SAMPLING_INTERVAL: u64 = 1_000_000;

/// A profile that is ready to take the samples of a file: the profile, its
/// one thread, and the root of all stacks of the thread.
pub struct ProfileStart {
    pub profile: Profile,
    pub thread: ThreadHandle,
    pub root_stack: StackHandle,
}

/// Makes the profile of the file `file_name`: one process of that name with
/// one thread, whose samples weigh in bytes and need no symbols looked up,
/// and the root stack, which bears the root label. The thread has no
/// samples yet, and nothing but the root is interned.
pub fn begin_profile(file_name: &str, category: CategoryHandle) -> (start: ProfileStart)
    ensures
        thread_known(start.profile, start.thread),
        stack_known(start.profile, start.thread, start.root_stack),
        distinct_handles(start.profile),
        samples_of(start.profile, start.thread) == Seq::<(u64, Option<StackHandle>, i32)>::empty(),
        labelled_child(start.profile, start.thread, category, None, ROOT_LABEL@) == Some(
            start.root_stack,
        ),
        interned_strings(start.profile).dom() == set![ROOT_LABEL@],
        interned_labels(start.profile).dom() == set![
            (start.thread, interned_strings(start.profile)[ROOT_LABEL@], category),
        ],
        interned_stacks(start.profile).dom() == set![
            (
                start.thread,
                None::<StackHandle>,
                label_frame(start.profile, start.thread, category, ROOT_LABEL@).unwrap(),
            ),
        ],
{
    let mut profile = new_profile(PRODUCT, 0, SAMPLING_INTERVAL);
    let process = add_process(&mut profile, file_name, 0, 0);
    let thread = add_thread(&mut profile, process, 0, 0, true);
    weigh_in_bytes(&mut profile, thread);
    set_symbolicated(&mut profile, true);
    let ghost fresh = profile;
    let root_stack = push_label(&mut profile, thread, category, None, ROOT_LABEL);
    proof {
        assert(interned_strings(profile).dom() =~= set![ROOT_LABEL@]);
        assert(interned_labels(profile).dom() =~= set![
            (thread, interned_strings(profile)[ROOT_LABEL@], category),
        ]);
        assert(interned_stacks(profile).dom() =~= set![
            (
                thread,
                None::<StackHandle>,
                label_frame(profile, thread, category, ROOT_LABEL@).unwrap(),
            ),
        ]);
    }
    ProfileStart { profile, thread, root_stack }
}

} // verus!
