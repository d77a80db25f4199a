//! Run-length coalescing: consecutive bytes of a section whose lookups gave
//! the same result become one sample.

use crate::error::ProfileError;
use crate::resolver::{
    FrameView, PathPrefixCache, UNKNOWN_BYTES, UNKNOWN_PATH, frame_label,
    lemma_stack_labels_of_frames, stack_for_address, stack_frames, stack_labels,
};
use crate::samples::{
    MAX_WEIGHT, Sample, contiguous, emit_sample, lemma_one_more_sample, record, records,
    resolved, sink_time, weights_fit,
};
use crate::sections::{Section, SectionView};
use crate::sink::{
    extends, grows, intern_label, intern_string, interned_strings, label_frame, labelled_child,
    lemma_extends_child, lemma_extends_grows, lemma_extends_known, lemma_extends_label_frame,
    lemma_extends_stack_at, lemma_extends_trans, lemma_grows_refl, lemma_grows_trans,
    lemma_stack_at_concat, lemma_stack_at_one, push_label, samples_of, stack_at, stack_known,
    thread_known,
};
use crate::symbols::{AddressInfo, AddressInfoView, lookup_of, same_lookup};
use fxprof_processed_profile::{CategoryHandle, FrameHandle, Profile, StackHandle, ThreadHandle};
use vstd::prelude::*;

verus! {

/// A stretch of consecutive bytes of a section whose lookups all gave `info`:
/// `len` bytes from the byte at index `start` on.
pub struct Run {
    pub start: int,
    pub len: int,
    pub info: Option<AddressInfoView>,
}

/// The runs of a section, of which `infos` holds one lookup result per byte:
/// a byte goes on with the run before it where its result equals that run's,
/// and starts a run of its own where it does not.
pub open spec fn runs(infos: Seq<Option<AddressInfoView>>) -> Seq<Run>
    decreases infos.len(),
{
    if infos.len() == 0 {
        Seq::empty()
    } else {
        let before = runs(infos.drop_last());
        if before.len() > 0 && before.last().info == infos.last() {
            before.drop_last().push(Run { len: before.last().len + 1, ..before.last() })
        } else {
            before.push(Run { start: infos.len() - 1, len: 1, info: infos.last() })
        }
    }
}

/// There are runs exactly where there are bytes, and the last run ends with
/// the last byte and has its lookup result.
pub proof fn lemma_runs_last(infos: Seq<Option<AddressInfoView>>)
    ensures
        infos.len() == 0 <==> runs(infos).len() == 0,
        runs(infos).len() <= infos.len(),
        runs(infos).len() > 0 ==> {
            &&& runs(infos).last().len > 0
            &&& runs(infos).last().start >= 0
            &&& runs(infos).last().start + runs(infos).last().len == infos.len()
            &&& runs(infos).last().info == infos.last()
        },
    decreases infos.len(),
{
    if infos.len() > 0 {
        lemma_runs_last(infos.drop_last());
    }
}

/// The first run starts with the first byte.
pub proof fn lemma_runs_first(infos: Seq<Option<AddressInfoView>>)
    requires
        infos.len() > 0,
    ensures
        runs(infos).len() > 0,
        runs(infos)[0].start == 0,
    decreases infos.len(),
{
    lemma_runs_last(infos);
    lemma_runs_last(infos.drop_last());
    if infos.len() > 1 {
        lemma_runs_first(infos.drop_last());
    }
}

/// Each run starts where the one before it ends, and its lookup result is
/// another than that one's.
pub proof fn lemma_runs_adjacent(infos: Seq<Option<AddressInfoView>>, k: int)
    requires
        0 <= k < runs(infos).len() - 1,
    ensures
        runs(infos)[k].start + runs(infos)[k].len == runs(infos)[k + 1].start,
        runs(infos)[k].info != runs(infos)[k + 1].info,
    decreases infos.len(),
{
    lemma_runs_last(infos);
    if infos.len() > 0 {
        let before = runs(infos.drop_last());
        lemma_runs_last(infos.drop_last());
        if before.len() > 0 && before.last().info == infos.last() {
            lemma_runs_adjacent(infos.drop_last(), k);
        } else if k < before.len() - 1 {
            lemma_runs_adjacent(infos.drop_last(), k);
        }
    }
}

/// No run is empty, and every byte of a run has the run's lookup result.
pub proof fn lemma_runs_constant(infos: Seq<Option<AddressInfoView>>, k: int, j: int)
    requires
        0 <= k < runs(infos).len(),
        runs(infos)[k].start <= j < runs(infos)[k].start + runs(infos)[k].len,
    ensures
        runs(infos)[k].len > 0,
        0 <= j < infos.len(),
        infos[j] == runs(infos)[k].info,
    decreases infos.len(),
{
    lemma_runs_last(infos);
    if infos.len() > 0 {
        let init = infos.drop_last();
        let before = runs(init);
        lemma_runs_last(init);
        if before.len() > 0 && before.last().info == infos.last() {
            if k < before.len() - 1 {
                lemma_runs_constant(init, k, j);
            } else if j < infos.len() - 1 {
                lemma_runs_constant(init, k, j);
            }
        } else if k < before.len() {
            lemma_runs_constant(init, k, j);
        }
    }
}

/// `cut` cuts the bytes into runs: stretches that lie end to end from the
/// first byte to the last, none of them empty, each of bytes with one and
/// the same lookup result, which is the run's, and no two in a row with the
/// same.
pub open spec fn is_run_cut(infos: Seq<Option<AddressInfoView>>, cut: Seq<Run>) -> bool {
    &&& cut.len() == 0 <==> infos.len() == 0
    &&& cut.len() > 0 ==> cut[0].start == 0 && cut.last().start + cut.last().len == infos.len()
    &&& forall|k: int| 0 <= k < cut.len() ==> (#[trigger] cut[k]).len > 0
    &&& forall|k: int| 0 <= k < cut.len() - 1 ==> #[trigger] meets_next(cut, k)
    &&& forall|k: int, j: int|
        0 <= k < cut.len() && cut[k].start <= j < cut[k].start + cut[k].len
            ==> #[trigger] holds_byte(infos, cut[k], j)
}

/// The run at `index` ends where the next one starts, and the two have
/// different lookup results.
pub open spec fn meets_next(cut: Seq<Run>, index: int) -> bool {
    cut[index].start + cut[index].len == cut[index + 1].start && cut[index].info != cut[index
        + 1].info
}

/// There is a byte at `index`, and it has the lookup result of `run`.
pub open spec fn holds_byte(infos: Seq<Option<AddressInfoView>>, run: Run, index: int) -> bool {
    0 <= index < infos.len() && infos[index] == run.info
}

/// No run is empty, and none starts before the first byte.
pub proof fn lemma_runs_nonempty(infos: Seq<Option<AddressInfoView>>, k: int)
    requires
        0 <= k < runs(infos).len(),
    ensures
        runs(infos)[k].len > 0,
        runs(infos)[k].start >= 0,
    decreases infos.len(),
{
    lemma_runs_last(infos);
    if infos.len() > 0 {
        let before = runs(infos.drop_last());
        lemma_runs_last(infos.drop_last());
        if k < runs(infos).len() - 1 {
            lemma_runs_nonempty(infos.drop_last(), k);
        }
    }
}

/// The runs are a cut of the bytes into runs.
pub proof fn lemma_runs_are_a_cut(infos: Seq<Option<AddressInfoView>>)
    ensures
        is_run_cut(infos, runs(infos)),
{
    let cut = runs(infos);
    lemma_runs_last(infos);
    if infos.len() > 0 {
        lemma_runs_first(infos);
    }
    assert forall|k: int| 0 <= k < cut.len() implies (#[trigger] cut[k]).len > 0 by {
        lemma_runs_nonempty(infos, k);
    }
    assert forall|k: int| 0 <= k < cut.len() - 1 implies #[trigger] meets_next(cut, k) by {
        lemma_runs_adjacent(infos, k);
    }
    assert forall|k: int, j: int|
        0 <= k < cut.len() && cut[k].start <= j < cut[k].start + cut[k].len
        implies #[trigger] holds_byte(infos, cut[k], j) by {
        lemma_runs_constant(infos, k, j);
    }
}

/// Every run of a cut starts at or after the first byte, and every run but
/// the last ends at or before the start of the last.
proof fn lemma_cut_within(infos: Seq<Option<AddressInfoView>>, cut: Seq<Run>, index: int)
    requires
        is_run_cut(infos, cut),
        0 <= index < cut.len(),
    ensures
        cut[index].start >= 0,
        cut[index].len > 0,
        index < cut.len() - 1 ==> cut[index].start + cut[index].len <= cut.last().start,
    decreases cut.len() + index,
{
    if index > 0 {
        lemma_cut_within(infos, cut, index - 1);
        assert(meets_next(cut, index - 1));
    }
    if index < cut.len() - 1 {
        assert(meets_next(cut, index));
        lemma_cut_later(infos, cut, index + 1);
    }
}

/// Every run of a cut ends at or before the end of the last.
proof fn lemma_cut_later(infos: Seq<Option<AddressInfoView>>, cut: Seq<Run>, index: int)
    requires
        is_run_cut(infos, cut),
        0 <= index < cut.len(),
    ensures
        index < cut.len() - 1 ==> cut[index].start + cut[index].len <= cut.last().start,
    decreases cut.len() - index,
{
    if index < cut.len() - 1 {
        assert(meets_next(cut, index));
        assert(cut[index + 1].len > 0);
        lemma_cut_later(infos, cut, index + 1);
    }
}

/// A cut of the bytes into runs is, without the last byte, a cut of the
/// bytes before it.
proof fn lemma_cut_without_last_byte(infos: Seq<Option<AddressInfoView>>, cut: Seq<Run>)
    requires
        is_run_cut(infos, cut),
        infos.len() > 0,
    ensures
        cut.last().len > 1 ==> is_run_cut(
            infos.drop_last(),
            cut.drop_last().push(Run { len: cut.last().len - 1, ..cut.last() }),
        ),
        cut.last().len <= 1 ==> cut.last().len == 1 && is_run_cut(
            infos.drop_last(),
            cut.drop_last(),
        ),
{
    let init = infos.drop_last();
    let last = cut.last();
    let n = cut.len() as int;
    lemma_cut_within(infos, cut, n - 1);
    lemma_cut_within(infos, cut, 0);
    let less = if last.len > 1 {
        cut.drop_last().push(Run { len: last.len - 1, ..last })
    } else {
        cut.drop_last()
    };
    if n > 1 {
        assert(meets_next(cut, n - 2));
        assert(less[0] == cut[0]);
    }
    assert forall|k: int| 0 <= k < less.len() implies (#[trigger] less[k]).len > 0 by {
        if k < n - 1 {
            assert(less[k] == cut[k]);
            assert(cut[k].len > 0);
        }
    }
    assert forall|k: int| 0 <= k < less.len() - 1 implies #[trigger] meets_next(less, k) by {
        assert(meets_next(cut, k));
        assert(less[k] == cut[k]);
        if k + 1 < n - 1 {
            assert(less[k + 1] == cut[k + 1]);
        }
    }
    assert forall|k: int, j: int|
        0 <= k < less.len() && less[k].start <= j < less[k].start + less[k].len
        implies #[trigger] holds_byte(init, less[k], j) by {
        assert(holds_byte(infos, cut[k], j));
        lemma_cut_later(infos, cut, k);
        if k < n - 1 {
            assert(less[k] == cut[k]);
        }
        assert(init[j] == infos[j]);
    }
}

/// There is one cut of the bytes into runs only.
pub proof fn lemma_run_cut_is_unique(infos: Seq<Option<AddressInfoView>>, cut: Seq<Run>)
    requires
        is_run_cut(infos, cut),
    ensures
        cut == runs(infos),
    decreases infos.len(),
{
    if infos.len() == 0 {
        assert(cut =~= runs(infos));
    } else {
        let init = infos.drop_last();
        let last = cut.last();
        let n = cut.len() as int;
        lemma_cut_without_last_byte(infos, cut);
        lemma_cut_within(infos, cut, n - 1);
        assert(holds_byte(infos, cut[n - 1], infos.len() - 1));
        if last.len > 1 {
            let shorter = cut.drop_last().push(Run { len: last.len - 1, ..last });
            lemma_run_cut_is_unique(init, shorter);
            assert(runs(init).last() == shorter[n - 1]);
            assert(cut =~= runs(infos));
        } else {
            lemma_run_cut_is_unique(init, cut.drop_last());
            if n > 1 {
                assert(meets_next(cut, n - 2));
                assert(cut.drop_last().last() == cut[n - 2]);
            }
            assert(cut =~= runs(infos));
        }
    }
}

/// Runs of a stretch of bytes that begins `by` bytes into a section, as runs
/// of the section.
pub open spec fn shifted(runs: Seq<Run>, by: int) -> Seq<Run> {
    runs.map_values(|run: Run| Run { start: run.start + by, ..run })
}

/// The runs of two stretches of bytes that adjoin, put together: where the
/// last run of the first and the first run of the second have the same
/// lookup result, they are one run.
pub open spec fn coalesced(first: Seq<Run>, second: Seq<Run>) -> Seq<Run> {
    if first.len() > 0 && second.len() > 0 && first.last().info == second[0].info {
        first.drop_last().push(Run { len: first.last().len + second[0].len, ..first.last() })
            + second.drop_first()
    } else {
        first + second
    }
}

/// A section scanned in one go has the runs of its two halves, scanned one
/// after the other and coalesced where they meet.
pub proof fn lemma_runs_of_halves(
    first: Seq<Option<AddressInfoView>>,
    second: Seq<Option<AddressInfoView>>,
)
    ensures
        runs(first + second) == coalesced(runs(first), shifted(runs(second), first.len() as int)),
    decreases second.len(),
{
    let by = first.len() as int;
    let whole = first + second;
    lemma_runs_last(first);
    lemma_runs_last(second);
    if second.len() == 0 {
        assert(whole =~= first);
        assert(coalesced(runs(first), shifted(runs(second), by)) =~= runs(first));
    } else {
        let rest = second.drop_last();
        let x = second.last();
        assert(whole.drop_last() =~= first + rest);
        assert(whole.last() == x);
        lemma_runs_of_halves(first, rest);
        lemma_runs_last(rest);
        let head = runs(first);
        let before = runs(rest);
        let joined = coalesced(head, shifted(before, by));
        let after = runs(second);
        let target = coalesced(head, shifted(after, by));
        assert(runs(first + rest) == joined);
        if rest.len() == 0 {
            assert(shifted(before, by) =~= Seq::<Run>::empty());
            assert(joined =~= head);
            assert(after =~= seq![Run { start: 0, len: 1, info: x }]);
            assert(shifted(after, by) =~= seq![Run { start: by, len: 1, info: x }]);
            if head.len() > 0 && head.last().info == x {
                assert(shifted(after, by).drop_first() =~= Seq::<Run>::empty());
                assert(runs(whole) =~= target);
            } else {
                assert(runs(whole) =~= target);
            }
        } else {
            let moved = shifted(before, by);
            let merges = head.len() > 0 && head.last().info == before[0].info;
            assert(moved.len() == before.len());
            assert(moved[0].info == before[0].info);
            assert(joined.len() > 0);
            assert(joined.last().info == before.last().info) by {
                if merges {
                    if before.len() == 1 {
                        assert(moved.drop_first() =~= Seq::<Run>::empty());
                    } else {
                        assert(joined.last() == moved.drop_first().last());
                        assert(moved.drop_first().last() == moved.last());
                    }
                } else {
                    assert(joined.last() == moved.last());
                }
            }
            if before.last().info == x {
                let longer = Run { len: before.last().len + 1, ..before.last() };
                assert(after == before.drop_last().push(longer));
                assert(runs(whole) == joined.drop_last().push(
                    Run { len: joined.last().len + 1, ..joined.last() },
                ));
                assert(after[0].info == before[0].info);
                if merges {
                    if before.len() == 1 {
                        assert(moved.drop_first() =~= Seq::<Run>::empty());
                        assert(shifted(after, by).drop_first() =~= Seq::<Run>::empty());
                        assert(runs(whole) =~= target);
                    } else {
                        assert(after[0] == before[0]);
                        assert(runs(whole) =~= target);
                    }
                } else {
                    assert(runs(whole) =~= target);
                }
            } else {
                let fresh = Run { start: second.len() - 1, len: 1, info: x };
                assert(after == before.push(fresh));
                assert(runs(whole) == joined.push(Run { start: whole.len() - 1, len: 1, info: x }));
                assert(after[0] == before[0]);
                assert(runs(whole) =~= target);
            }
        }
    }
}

/// What is carried from byte to byte while a section is scanned: the lookup
/// result of the bytes that wait to be emitted, the address of the first of
/// them, how many they are, and where they start in the file.
pub struct RunLengthState {
    pub pending_addr_info: Option<AddressInfo>,
    pub pending_relative_address: u32,
    pub pending_bytes: u64,
    pub pending_file_offset: u64,
}

/// The values of a `RunLengthState` or of a `PendingRun`.
pub struct RunLengthView {
    pub info: Option<AddressInfoView>,
    pub relative_address: u32,
    pub bytes: int,
    pub file_offset: int,
}

impl View for RunLengthState {
    type V = RunLengthView;

    open spec fn view(&self) -> RunLengthView {
        RunLengthView {
            info: lookup_of(self.pending_addr_info),
            relative_address: self.pending_relative_address,
            bytes: self.pending_bytes as int,
            file_offset: self.pending_file_offset as int,
        }
    }
}

/// The state before the first byte of a section that starts at
/// `file_offset`.
pub open spec fn initial_state(file_offset: int) -> RunLengthView {
    RunLengthView { info: None, relative_address: 0, bytes: 0, file_offset }
}

/// The state after one more byte, whose address is `relative_address` and
/// whose lookup gave `info`.
pub open spec fn next_state(
    state: RunLengthView,
    relative_address: u32,
    info: Option<AddressInfoView>,
) -> RunLengthView {
    if state.bytes == 0 {
        RunLengthView { info, relative_address, bytes: 1, file_offset: state.file_offset }
    } else if state.info == info {
        RunLengthView { bytes: state.bytes + 1, ..state }
    } else {
        RunLengthView {
            info,
            relative_address,
            bytes: 1,
            file_offset: state.file_offset + state.bytes,
        }
    }
}

/// Whether a byte whose lookup gave `info` ends the pending run, which is
/// then emitted.
pub open spec fn flushes(state: RunLengthView, info: Option<AddressInfoView>) -> bool {
    state.bytes > 0 && state.info != info
}

/// The state after the bytes whose addresses and lookup results are given,
/// one after the other.
pub open spec fn state_after(
    file_offset: int,
    addresses: Seq<u32>,
    infos: Seq<Option<AddressInfoView>>,
) -> RunLengthView
    decreases infos.len(),
{
    if infos.len() == 0 || addresses.len() != infos.len() {
        initial_state(file_offset)
    } else {
        next_state(
            state_after(file_offset, addresses.drop_last(), infos.drop_last()),
            addresses.last(),
            infos.last(),
        )
    }
}

/// After any bytes, the pending run is the last of their runs.
pub proof fn lemma_state_is_last_run(
    file_offset: int,
    addresses: Seq<u32>,
    infos: Seq<Option<AddressInfoView>>,
)
    requires
        addresses.len() == infos.len(),
        infos.len() > 0,
    ensures
        runs(infos).len() > 0,
        state_after(file_offset, addresses, infos).info == runs(infos).last().info,
        state_after(file_offset, addresses, infos).bytes == runs(infos).last().len,
        state_after(file_offset, addresses, infos).file_offset == file_offset + runs(
            infos,
        ).last().start,
        state_after(file_offset, addresses, infos).relative_address == addresses[runs(
            infos,
        ).last().start],
    decreases infos.len(),
{
    let init = infos.drop_last();
    let before = state_after(file_offset, addresses.drop_last(), init);
    lemma_runs_last(infos);
    lemma_runs_last(init);
    if infos.len() > 1 {
        lemma_state_is_last_run(file_offset, addresses.drop_last(), init);
        assert(before.bytes == runs(init).last().len);
        assert(before.info == runs(init).last().info);
        if before.info == infos.last() {
            assert(runs(infos).last() == Run {
                len: runs(init).last().len + 1,
                ..runs(init).last()
            });
        } else {
            assert(runs(infos).last() == Run {
                start: infos.len() - 1,
                len: 1,
                info: infos.last(),
            });
        }
    } else {
        assert(before == initial_state(file_offset));
        assert(runs(init).len() == 0);
        assert(runs(infos).last() == Run { start: 0, len: 1, info: infos.last() });
    }
}

/// The bytes of a run that was cut off from the pending state.
pub struct PendingRun {
    pub addr_info: Option<AddressInfo>,
    pub relative_address: u32,
    pub bytes: u64,
    pub file_offset: u64,
}

impl View for PendingRun {
    type V = RunLengthView;

    open spec fn view(&self) -> RunLengthView {
        RunLengthView {
            info: lookup_of(self.addr_info),
            relative_address: self.relative_address,
            bytes: self.bytes as int,
            file_offset: self.file_offset as int,
        }
    }
}

impl RunLengthState {
    /// The state before the first byte of a section that starts at
    /// `file_offset`.
    pub fn new(file_offset: u64) -> (state: RunLengthState)
        ensures
            state@ == initial_state(file_offset as int),
    {
        RunLengthState {
            pending_addr_info: None,
            pending_relative_address: 0,
            pending_bytes: 0,
            pending_file_offset: file_offset,
        }
    }

    /// Takes in the next byte. Where its lookup result differs from that of
    /// the pending bytes, these are handed out to be emitted and the byte
    /// starts the next run; else it is counted with them.
    pub fn push(&mut self, relative_address: u32, addr_info: Option<AddressInfo>) -> (flushed:
        Option<PendingRun>)
        requires
            old(self).pending_file_offset + old(self).pending_bytes < u64::MAX,
        ensures
            final(self)@ == next_state(old(self)@, relative_address, lookup_of(addr_info)),
            flushes(old(self)@, lookup_of(addr_info)) ==> flushed.is_some() && flushed.unwrap()@
                == old(self)@,
            !flushes(old(self)@, lookup_of(addr_info)) ==> flushed.is_none(),
    {
        if self.pending_bytes == 0 {
            self.pending_addr_info = addr_info;
            self.pending_relative_address = relative_address;
            self.pending_bytes = 1;
            None
        } else if same_lookup(&addr_info, &self.pending_addr_info) {
            self.pending_bytes += 1;
            None
        } else {
            let run = PendingRun {
                addr_info: self.pending_addr_info.take(),
                relative_address: self.pending_relative_address,
                bytes: self.pending_bytes,
                file_offset: self.pending_file_offset,
            };
            self.pending_addr_info = addr_info;
            self.pending_relative_address = relative_address;
            self.pending_file_offset += self.pending_bytes;
            self.pending_bytes = 1;
            Some(run)
        }
    }

    /// Hands out the pending bytes after the last byte of the section.
    pub fn finish(self) -> (last: PendingRun)
        ensures
            last@ == self@,
    {
        PendingRun {
            addr_info: self.pending_addr_info,
            relative_address: self.pending_relative_address,
            bytes: self.pending_bytes,
            file_offset: self.pending_file_offset,
        }
    }
}

/// The relative address at which a section starts: its address in the
/// binary less the base of the relative addresses, in 64 bits.
pub open spec fn start_address(svma: u64, base_addr: u64) -> u64 {
    ((svma - base_addr) % 0x1_0000_0000_0000_0000) as u64
}

/// The relative address of the byte at `index` of a section, as the
/// symbolication service takes it: in 32 bits.
pub open spec fn address_at(start: u64, index: int) -> u32 {
    ((start + index) % 0x1_0000_0000) as u32
}

/// The relative addresses of the first `count` bytes of a section.
pub open spec fn addresses(start: u64, count: int) -> Seq<u32> {
    Seq::new(count as nat, |i: int| address_at(start, i))
}

/// The sample of the bytes that a state holds, in the section `name`.
pub open spec fn pending_sample(name: Seq<char>, state: RunLengthView) -> Sample {
    Sample {
        offset: state.file_offset,
        weight: state.bytes,
        labels: seq![name] + stack_labels(state.relative_address, state.info),
    }
}

/// The samples that were emitted by the time the given bytes are taken in:
/// one for every run but the last, which is still pending.
pub open spec fn flushed_samples(
    name: Seq<char>,
    file_offset: int,
    addresses: Seq<u32>,
    infos: Seq<Option<AddressInfoView>>,
) -> Seq<Sample>
    decreases infos.len(),
{
    if infos.len() == 0 || addresses.len() != infos.len() {
        Seq::empty()
    } else {
        let before = flushed_samples(name, file_offset, addresses.drop_last(), infos.drop_last());
        let state = state_after(file_offset, addresses.drop_last(), infos.drop_last());
        if flushes(state, infos.last()) {
            before.push(pending_sample(name, state))
        } else {
            before
        }
    }
}

/// The sample of one run of a section.
pub open spec fn run_sample(name: Seq<char>, file_offset: int, start: u64, run: Run) -> Sample {
    Sample {
        offset: file_offset + run.start,
        weight: run.len,
        labels: seq![name] + stack_labels(address_at(start, run.start), run.info),
    }
}

/// The samples of a text section, of which `infos` holds one lookup result
/// per byte: one sample per run, at the run's place in the file, with the
/// stack of the run's first address. A section without bytes has one sample
/// without weight, attributed to unknown bytes.
pub open spec fn text_samples(
    section: SectionView,
    base_addr: u64,
    infos: Seq<Option<AddressInfoView>>,
) -> Seq<Sample> {
    if infos.len() == 0 {
        seq![pending_sample(section.name, initial_state(section.file_offset as int))]
    } else {
        runs(infos).map_values(
            |run: Run|
                run_sample(
                    section.name,
                    section.file_offset as int,
                    start_address(section.svma, base_addr),
                    run,
                ),
        )
    }
}

/// The one sample of a section that holds no code: the whole section, under
/// the name of its kind.
pub open spec fn summary_sample(section: SectionView) -> Sample {
    Sample {
        offset: section.file_offset as int,
        weight: section.size as int,
        labels: seq![section.name, section.kind],
    }
}

/// The samples of a section.
pub open spec fn section_samples(
    section: SectionView,
    base_addr: u64,
    infos: Seq<Option<AddressInfoView>>,
) -> Seq<Sample> {
    if section.is_text() {
        text_samples(section, base_addr, infos)
    } else {
        seq![summary_sample(section)]
    }
}

/// The frames of the stack of a run, below the stack that the section stands
/// below: the label of the section, the labels of the path, and the frames
/// of the first address of the run.
pub open spec fn run_frames(name: Seq<char>, start: u64, run: Run) -> Seq<FrameView> {
    seq![FrameView::Label { text: name }] + stack_frames(address_at(start, run.start), run.info)
}

/// The sample of a run is attributed to the stack of the frames of the run:
/// its labels are theirs.
pub proof fn lemma_run_sample_frames(name: Seq<char>, file_offset: int, start: u64, run: Run)
    ensures
        run_sample(name, file_offset, start, run).labels == run_frames(
            name,
            start,
            run,
        ).map_values(|f: FrameView| frame_label(f)),
{
    lemma_stack_labels_of_frames(address_at(start, run.start), run.info);
    assert(run_sample(name, file_offset, start, run).labels =~= run_frames(
        name,
        start,
        run,
    ).map_values(|f: FrameView| frame_label(f)));
}

/// A section that holds no code has one sample, which weighs as much as the
/// section has bytes in the file.
pub proof fn lemma_summary_is_one_sample(
    section: SectionView,
    base_addr: u64,
    infos: Seq<Option<AddressInfoView>>,
)
    requires
        !section.is_text(),
    ensures
        section_samples(section, base_addr, infos).len() == 1,
        section_samples(section, base_addr, infos)[0].offset == section.file_offset,
        section_samples(section, base_addr, infos)[0].weight == section.size,
        section_samples(section, base_addr, infos)[0].labels == seq![section.name, section.kind],
{
}

/// What was emitted and what is pending are the samples of the runs.
pub proof fn lemma_flushed_are_runs(
    section: SectionView,
    base_addr: u64,
    infos: Seq<Option<AddressInfoView>>,
)
    ensures
        text_samples(section, base_addr, infos) == flushed_samples(
            section.name,
            section.file_offset as int,
            addresses(start_address(section.svma, base_addr), infos.len() as int),
            infos,
        ).push(
            pending_sample(
                section.name,
                state_after(
                    section.file_offset as int,
                    addresses(start_address(section.svma, base_addr), infos.len() as int),
                    infos,
                ),
            ),
        ),
    decreases infos.len(),
{
    let name = section.name;
    let fo = section.file_offset as int;
    let start = start_address(section.svma, base_addr);
    let addrs = addresses(start, infos.len() as int);
    if infos.len() == 0 {
        assert(text_samples(section, base_addr, infos) =~= flushed_samples(
            name,
            fo,
            addrs,
            infos,
        ).push(pending_sample(name, state_after(fo, addrs, infos))));
    } else {
        let init = infos.drop_last();
        let init_addrs = addresses(start, init.len() as int);
        assert(addrs.drop_last() =~= init_addrs);
        lemma_flushed_are_runs(section, base_addr, init);
        lemma_runs_last(infos);
        lemma_runs_last(init);
        lemma_state_is_last_run(fo, addrs, infos);
        let state = state_after(fo, init_addrs, init);
        let sample_of = |run: Run| run_sample(name, fo, start, run);
        assert(pending_sample(name, state_after(fo, addrs, infos)) == sample_of(
            runs(infos).last(),
        ));
        if init.len() == 0 {
            assert(text_samples(section, base_addr, infos) =~= flushed_samples(
                name,
                fo,
                addrs,
                infos,
            ).push(pending_sample(name, state_after(fo, addrs, infos))));
        } else {
            lemma_state_is_last_run(fo, init_addrs, init);
            assert(pending_sample(name, state) == sample_of(runs(init).last()));
            assert(text_samples(section, base_addr, init) == runs(init).map_values(sample_of));
            assert(flushed_samples(name, fo, init_addrs, init) =~= runs(init).map_values(
                sample_of,
            ).drop_last());
            assert(text_samples(section, base_addr, infos) =~= flushed_samples(
                name,
                fo,
                addrs,
                infos,
            ).push(pending_sample(name, state_after(fo, addrs, infos))));
        }
    }
}

/// What was emitted lies end to end from the start of the section to the
/// pending bytes, and these reach up to the last byte taken in.
pub proof fn lemma_flushed_contiguous(
    name: Seq<char>,
    file_offset: int,
    addresses: Seq<u32>,
    infos: Seq<Option<AddressInfoView>>,
)
    requires
        addresses.len() == infos.len(),
    ensures
        contiguous(
            flushed_samples(name, file_offset, addresses, infos),
            file_offset,
            state_after(file_offset, addresses, infos).file_offset,
        ),
        state_after(file_offset, addresses, infos).bytes >= 0,
        state_after(file_offset, addresses, infos).file_offset + state_after(
            file_offset,
            addresses,
            infos,
        ).bytes == file_offset + infos.len(),
    decreases infos.len(),
{
    if infos.len() > 0 {
        lemma_flushed_contiguous(name, file_offset, addresses.drop_last(), infos.drop_last());
        let before = flushed_samples(name, file_offset, addresses.drop_last(), infos.drop_last());
        let state = state_after(file_offset, addresses.drop_last(), infos.drop_last());
        if flushes(state, infos.last()) {
            assert(before.push(pending_sample(name, state)).drop_last() =~= before);
        }
    }
}

/// The samples of a section lie end to end from its first byte to its last.
pub proof fn lemma_section_samples_contiguous(
    section: SectionView,
    base_addr: u64,
    infos: Seq<Option<AddressInfoView>>,
)
    requires
        section.is_text() ==> infos.len() == section.size,
    ensures
        contiguous(
            section_samples(section, base_addr, infos),
            section.file_offset as int,
            section.end(),
        ),
{
    if section.is_text() {
        let addrs = addresses(start_address(section.svma, base_addr), infos.len() as int);
        let emitted = flushed_samples(section.name, section.file_offset as int, addrs, infos);
        let state = state_after(section.file_offset as int, addrs, infos);
        lemma_flushed_are_runs(section, base_addr, infos);
        lemma_flushed_contiguous(section.name, section.file_offset as int, addrs, infos);
        let all = emitted.push(pending_sample(section.name, state));
        assert(all.drop_last() =~= emitted);
        assert(all.last() == pending_sample(section.name, state));
        assert(section_samples(section, base_addr, infos) == all);
    } else {
        let only = seq![summary_sample(section)];
        assert(only.drop_last() =~= Seq::<Sample>::empty());
        assert(only.last() == summary_sample(section));
        let at = section.file_offset as int;
        assert(contiguous(only.drop_last(), at, at));
    }
}

/// Emits the sample of a section that holds no code.
pub fn emit_summary(
    profile: &mut Profile,
    thread: ThreadHandle,
    root_stack: StackHandle,
    section: &Section,
    category: CategoryHandle,
    timestamp_offset: u64,
) -> (done: Result<(), ProfileError>)
    requires
        thread_known(*old(profile), thread),
        stack_known(*old(profile), thread, root_stack),
        timestamp_offset + section.file_offset + section.size <= u64::MAX,
    ensures
        grows(*old(profile), *final(profile), thread),
        section.size <= MAX_WEIGHT ==> done.is_ok() && resolved(
            *final(profile),
            thread,
            category,
            root_stack,
            seq![summary_sample(section@)],
        ) && samples_of(*final(profile), thread) == samples_of(*old(profile), thread) + records(
            *final(profile),
            thread,
            category,
            root_stack,
            timestamp_offset as int,
            seq![summary_sample(section@)],
        ),
        section.size > MAX_WEIGHT ==> done == Err::<(), ProfileError>(
            ProfileError::WeightOverflow,
        ) && samples_of(*final(profile), thread) == samples_of(*old(profile), thread),
{
    let section_stack = push_label(
        profile,
        thread,
        category,
        Some(root_stack),
        section.name.as_str(),
    );
    let ghost middle = *profile;
    let kind_stack = push_label(
        profile,
        thread,
        category,
        Some(section_stack),
        section.kind.as_str(),
    );
    proof {
        lemma_extends_trans(*old(profile), middle, *profile);
        lemma_extends_known(*old(profile), *profile, thread);
        lemma_extends_grows(*old(profile), *profile, thread);
        lemma_extends_child(middle, *profile, thread, category, Some(root_stack), section.name@);
        let labels = seq![section.name@, section.kind@];
        assert(labels.drop_last() =~= seq![section.name@]);
        lemma_stack_at_one(*profile, thread, category, root_stack, section.name@);
        assert(stack_at(*profile, thread, category, root_stack, labels) == Some(kind_stack));
    }
    let ghost interned = *profile;
    let done = emit_sample(
        profile,
        thread,
        kind_stack,
        timestamp_offset + section.file_offset,
        section.size,
    );
    proof {
        lemma_grows_trans(*old(profile), interned, *profile, thread);
        lemma_extends_stack_at(
            interned,
            *profile,
            thread,
            category,
            root_stack,
            seq![section.name@, section.kind@],
        );
        if section.size <= MAX_WEIGHT {
            assert(samples_of(*old(profile), thread) + records(
                *profile,
                thread,
                category,
                root_stack,
                timestamp_offset as int,
                seq![summary_sample(section@)],
            ) =~= samples_of(interned, thread).push(
                (
                    sink_time(timestamp_offset + section.file_offset),
                    Some(kind_stack),
                    section.size as i32,
                ),
            ));
        }
    }
    done
}

/// The scan of one text section: the stacks that were built for it, how far
/// the scan has come, and the bytes that wait to be emitted.
pub struct SectionScan {
    pub thread: ThreadHandle,
    pub category: CategoryHandle,
    /// The stack below which the section stands.
    pub root_stack: StackHandle,
    pub section_stack: StackHandle,
    pub unknown_path_stack: StackHandle,
    pub unknown_bytes_frame: FrameHandle,
    pub stack_prefix_for_path: PathPrefixCache,
    pub timestamp_offset: u64,
    pub file_offset: u64,
    pub size: u64,
    /// The relative address of the first byte of the section.
    pub start_address: u64,
    /// How many bytes were taken in.
    pub scanned: u64,
    pub state: RunLengthState,
    pub name: Ghost<Seq<char>>,
    /// The lookup results of the bytes that were taken in.
    pub infos: Ghost<Seq<Option<AddressInfoView>>>,
    /// The samples that the thread had when the scan began.
    pub before: Ghost<Seq<(u64, Option<StackHandle>, i32)>>,
}

impl SectionScan {
    /// The samples that the scan has emitted.
    pub open spec fn emitted(&self) -> Seq<Sample> {
        flushed_samples(
            self.name@,
            self.file_offset as int,
            addresses(self.start_address, self.scanned as int),
            self.infos@,
        )
    }

    /// The stacks of the scan are those that `profile` has for the section.
    pub open spec fn stacks_valid(&self, profile: Profile) -> bool {
        &&& thread_known(profile, self.thread)
        &&& stack_known(profile, self.thread, self.root_stack)
        &&& stack_known(profile, self.thread, self.section_stack)
        &&& labelled_child(profile, self.thread, self.category, Some(self.root_stack), self.name@)
            == Some(self.section_stack)
        &&& labelled_child(
            profile,
            self.thread,
            self.category,
            Some(self.section_stack),
            UNKNOWN_PATH@,
        ) == Some(self.unknown_path_stack)
        &&& label_frame(profile, self.thread, self.category, UNKNOWN_BYTES@) == Some(
            self.unknown_bytes_frame,
        )
        &&& self.stack_prefix_for_path.valid(
            profile,
            self.thread,
            self.category,
            self.section_stack,
        )
    }

    /// The scan is in step with `profile`: its stacks are valid, its state is
    /// that after the bytes taken in, and the thread holds the samples from
    /// before the scan and then those that the scan has emitted.
    pub open spec fn wf(&self, profile: Profile) -> bool {
        &&& self.stacks_valid(profile)
        &&& self.timestamp_offset + self.file_offset + self.size <= u64::MAX
        &&& self.scanned == self.infos@.len()
        &&& self.scanned <= self.size
        &&& self.state@ == state_after(
            self.file_offset as int,
            addresses(self.start_address, self.scanned as int),
            self.infos@,
        )
        &&& resolved(profile, self.thread, self.category, self.root_stack, self.emitted())
        &&& weights_fit(self.emitted())
        &&& samples_of(profile, self.thread) == self.before@ + records(
            profile,
            self.thread,
            self.category,
            self.root_stack,
            self.timestamp_offset as int,
            self.emitted(),
        )
    }

    /// The same scan of the same section, whatever its progress.
    pub open spec fn same_scan(&self, other: &SectionScan) -> bool {
        &&& self.thread == other.thread
        &&& self.category == other.category
        &&& self.root_stack == other.root_stack
        &&& self.section_stack == other.section_stack
        &&& self.timestamp_offset == other.timestamp_offset
        &&& self.file_offset == other.file_offset
        &&& self.size == other.size
        &&& self.start_address == other.start_address
        &&& self.name@ == other.name@
        &&& self.before@ == other.before@
    }

    /// Begins the scan of `section`: builds the stack of the section below
    /// `root_stack`, and below it what stands for unknown paths and bytes.
    #[verifier::rlimit(50)]
    pub fn begin(
        profile: &mut Profile,
        thread: ThreadHandle,
        root_stack: StackHandle,
        section: &Section,
        base_addr: u64,
        category: CategoryHandle,
        timestamp_offset: u64,
    ) -> (scan: SectionScan)
        requires
            thread_known(*old(profile), thread),
            stack_known(*old(profile), thread, root_stack),
            timestamp_offset + section.file_offset + section.size <= u64::MAX,
        ensures
            scan.wf(*final(profile)),
            grows(*old(profile), *final(profile), thread),
            samples_of(*final(profile), thread) == samples_of(*old(profile), thread),
            scan.thread == thread,
            scan.category == category,
            scan.root_stack == root_stack,
            scan.timestamp_offset == timestamp_offset,
            scan.file_offset == section.file_offset,
            scan.size == section.size,
            scan.start_address == start_address(section.svma, base_addr),
            scan.name@ == section.name@,
            scan.infos@.len() == 0,
            scan.before@ == samples_of(*old(profile), thread),
    {
        let section_stack = push_label(
            profile,
            thread,
            category,
            Some(root_stack),
            section.name.as_str(),
        );
        let ghost first = *profile;
        let unknown_path_stack = push_label(
            profile,
            thread,
            category,
            Some(section_stack),
            UNKNOWN_PATH,
        );
        let ghost second = *profile;
        let unknown_bytes_str = intern_string(profile, UNKNOWN_BYTES);
        assert(interned_strings(*profile).contains_pair(UNKNOWN_BYTES@, unknown_bytes_str));
        let ghost third = *profile;
        let unknown_bytes_frame = intern_label(profile, thread, unknown_bytes_str, category);
        proof {
            assert(extends(second, third));
            assert(extends(third, *profile));
            lemma_extends_trans(*old(profile), first, second);
            lemma_extends_trans(second, third, *profile);
            lemma_extends_trans(*old(profile), second, *profile);
            lemma_extends_trans(first, second, *profile);
            lemma_extends_known(*old(profile), *profile, thread);
            lemma_extends_known(first, *profile, thread);
            lemma_extends_grows(*old(profile), *profile, thread);
            lemma_extends_child(first, *profile, thread, category, Some(root_stack), section.name@);
            lemma_extends_child(
                second,
                *profile,
                thread,
                category,
                Some(section_stack),
                UNKNOWN_PATH@,
            );
        }
        let start = if section.svma >= base_addr {
            section.svma - base_addr
        } else {
            (u64::MAX - (base_addr - section.svma)) + 1
        };
        let scan = SectionScan {
            thread,
            category,
            root_stack,
            section_stack,
            unknown_path_stack,
            unknown_bytes_frame,
            stack_prefix_for_path: PathPrefixCache::new(),
            timestamp_offset,
            file_offset: section.file_offset,
            size: section.size,
            start_address: start,
            scanned: 0,
            state: RunLengthState::new(section.file_offset),
            name: Ghost(section.name@),
            infos: Ghost(Seq::empty()),
            before: Ghost(samples_of(*old(profile), thread)),
        };
        proof {
            assert(scan.emitted() =~= Seq::<Sample>::empty());
            assert(samples_of(*profile, thread) =~= scan.before@ + records(
                *profile,
                thread,
                category,
                root_stack,
                timestamp_offset as int,
                scan.emitted(),
            ));
        }
        scan
    }

    /// The relative address to look up next, or `None` once every byte of
    /// the section was taken in.
    pub fn next_address(&self) -> (next: Option<u32>)
        requires
            self.scanned <= self.size,
        ensures
            self.scanned < self.size ==> next == Some(
                address_at(self.start_address, self.scanned as int),
            ),
            self.scanned >= self.size ==> next.is_none(),
    {
        if self.scanned < self.size {
            let sum: u128 = self.start_address as u128 + self.scanned as u128;
            Some((sum % 0x1_0000_0000u128) as u32)
        } else {
            None
        }
    }

    /// Resolves the stack of a run and emits its sample.
    #[verifier::rlimit(50)]
    fn emit_run(&mut self, profile: &mut Profile, run: &PendingRun) -> (done: Result<
        (),
        ProfileError,
    >)
        requires
            old(self).stacks_valid(*old(profile)),
            old(self).timestamp_offset + run.file_offset <= u64::MAX,
        ensures
            final(self).stacks_valid(*final(profile)),
            grows(*old(profile), *final(profile), old(self).thread),
            final(self).same_scan(old(self)),
            final(self).unknown_path_stack == old(self).unknown_path_stack,
            final(self).unknown_bytes_frame == old(self).unknown_bytes_frame,
            final(self).scanned == old(self).scanned,
            final(self).state == old(self).state,
            final(self).infos == old(self).infos,
            resolved(
                *final(profile),
                old(self).thread,
                old(self).category,
                old(self).root_stack,
                seq![pending_sample(old(self).name@, run@)],
            ),
            run.bytes <= MAX_WEIGHT ==> done.is_ok() && samples_of(
                *final(profile),
                old(self).thread,
            ) == samples_of(*old(profile), old(self).thread).push(
                record(
                    *final(profile),
                    old(self).thread,
                    old(self).category,
                    old(self).root_stack,
                    old(self).timestamp_offset as int,
                    pending_sample(old(self).name@, run@),
                ),
            ),
            run.bytes > MAX_WEIGHT ==> done == Err::<(), ProfileError>(
                ProfileError::WeightOverflow,
            ) && samples_of(*final(profile), old(self).thread) == samples_of(
                *old(profile),
                old(self).thread,
            ),
    {
        let stack = stack_for_address(
            run.relative_address,
            &run.addr_info,
            self.section_stack,
            self.unknown_path_stack,
            self.unknown_bytes_frame,
            self.thread,
            self.category,
            profile,
            &mut self.stack_prefix_for_path,
        );
        let ghost middle = *profile;
        let ghost labels = stack_labels(run.relative_address, lookup_of(run.addr_info));
        proof {
            lemma_extends_known(*old(profile), middle, self.thread);
            lemma_extends_child(
                *old(profile),
                middle,
                self.thread,
                self.category,
                Some(self.root_stack),
                self.name@,
            );
            lemma_extends_child(
                *old(profile),
                middle,
                self.thread,
                self.category,
                Some(self.section_stack),
                UNKNOWN_PATH@,
            );
            lemma_extends_label_frame(
                *old(profile),
                middle,
                self.thread,
                self.category,
                UNKNOWN_BYTES@,
            );
            let first = seq![self.name@];
            lemma_extends_grows(*old(profile), middle, self.thread);
            lemma_stack_at_one(middle, self.thread, self.category, self.root_stack, self.name@);
            lemma_stack_at_concat(
                middle,
                self.thread,
                self.category,
                self.root_stack,
                first,
                labels,
            );
        }
        let done = emit_sample(
            profile,
            self.thread,
            stack,
            self.timestamp_offset + run.file_offset,
            run.bytes,
        );
        proof {
            lemma_grows_trans(*old(profile), middle, *profile, self.thread);
            lemma_extends_stack_at(
                middle,
                *profile,
                self.thread,
                self.category,
                self.root_stack,
                seq![self.name@] + labels,
            );
            lemma_extends_child(
                middle,
                *profile,
                self.thread,
                self.category,
                Some(self.root_stack),
                self.name@,
            );
            lemma_extends_child(
                middle,
                *profile,
                self.thread,
                self.category,
                Some(self.section_stack),
                UNKNOWN_PATH@,
            );
            lemma_extends_label_frame(
                middle,
                *profile,
                self.thread,
                self.category,
                UNKNOWN_BYTES@,
            );
            self.stack_prefix_for_path.lemma_valid_extends(
                middle,
                *profile,
                self.thread,
                self.category,
                self.section_stack,
            );
            lemma_extends_known(middle, *profile, self.thread);
        }
        done
    }

    /// Takes in the lookup result of the next byte. Where it differs from
    /// that of the bytes before it, their sample is emitted.
    pub fn feed(&mut self, profile: &mut Profile, addr_info: Option<AddressInfo>) -> (done:
        Result<(), ProfileError>)
        requires
            old(self).wf(*old(profile)),
            old(self).scanned < old(self).size,
        ensures
            grows(*old(profile), *final(profile), old(self).thread),
            final(self).same_scan(old(self)),
            flushes(old(self).state@, lookup_of(addr_info)) && old(self).state.pending_bytes
                > MAX_WEIGHT <==> done.is_err(),
            done.is_err() ==> done == Err::<(), ProfileError>(ProfileError::WeightOverflow),
            done.is_ok() ==> {
                &&& final(self).wf(*final(profile))
                &&& final(self).infos@ == old(self).infos@.push(lookup_of(addr_info))
            },
    {
        let ghost info = lookup_of(addr_info);
        let ghost old_addresses = addresses(self.start_address, self.scanned as int);
        let ghost new_addresses = addresses(self.start_address, self.scanned + 1);
        let address = self.next_address().unwrap();
        proof {
            assert(new_addresses.drop_last() =~= old_addresses);
            assert(new_addresses.last() == address);
            assert(self.infos@.push(info).drop_last() =~= self.infos@);
            if self.scanned > 0 {
                lemma_runs_last(self.infos@);
                lemma_state_is_last_run(self.file_offset as int, old_addresses, self.infos@);
            }
        }
        let flushed = self.state.push(address, addr_info);
        self.scanned += 1;
        self.infos = Ghost(self.infos@.push(info));
        match flushed {
            None => {
                proof {
                    lemma_grows_refl(*profile, self.thread);
                    assert(self.emitted() == old(self).emitted());
                }
                Ok(())
            },
            Some(run) => {
                let done = self.emit_run(profile, &run);
                proof {
                    let sample = pending_sample(self.name@, run@);
                    let earlier = old(self).emitted();
                    if done.is_ok() {
                        assert(self.emitted() == earlier.push(sample));
                        lemma_one_more_sample(
                            *old(profile),
                            *profile,
                            self.thread,
                            self.category,
                            self.root_stack,
                            self.timestamp_offset as int,
                            self.before@,
                            earlier,
                            sample,
                        );
                    }
                }
                done
            },
        }
    }

    /// Ends the scan after the last byte of the section: emits the sample of
    /// the bytes that are still pending.
    pub fn finish(self, profile: &mut Profile) -> (done: Result<(), ProfileError>)
        requires
            self.wf(*old(profile)),
            self.scanned == self.size,
        ensures
            grows(*old(profile), *final(profile), self.thread),
            self.state.pending_bytes > MAX_WEIGHT <==> done.is_err(),
            done.is_err() ==> done == Err::<(), ProfileError>(ProfileError::WeightOverflow),
            done.is_ok() ==> {
                let samples = self.emitted().push(pending_sample(self.name@, self.state@));
                &&& contiguous(samples, self.file_offset as int, self.file_offset + self.size)
                &&& resolved(*final(profile), self.thread, self.category, self.root_stack, samples)
                &&& weights_fit(samples)
                &&& samples_of(*final(profile), self.thread) == self.before@ + records(
                    *final(profile),
                    self.thread,
                    self.category,
                    self.root_stack,
                    self.timestamp_offset as int,
                    samples,
                )
            },
    {
        let ghost this = self;
        let ghost earlier = self.emitted();
        let ghost sample = pending_sample(self.name@, self.state@);
        proof {
            lemma_flushed_contiguous(
                self.name@,
                self.file_offset as int,
                addresses(self.start_address, self.scanned as int),
                self.infos@,
            );
            assert(earlier.push(sample).drop_last() =~= earlier);
            if self.scanned > 0 {
                lemma_runs_last(self.infos@);
                lemma_state_is_last_run(
                    self.file_offset as int,
                    addresses(self.start_address, self.scanned as int),
                    self.infos@,
                );
            }
        }
        let mut scan = self;
        let state = RunLengthState {
            pending_addr_info: scan.state.pending_addr_info.take(),
            pending_relative_address: scan.state.pending_relative_address,
            pending_bytes: scan.state.pending_bytes,
            pending_file_offset: scan.state.pending_file_offset,
        };
        let run = state.finish();
        let done = scan.emit_run(profile, &run);
        proof {
            if done.is_ok() {
                lemma_one_more_sample(
                    *old(profile),
                    *profile,
                    this.thread,
                    this.category,
                    this.root_stack,
                    this.timestamp_offset as int,
                    this.before@,
                    earlier,
                    sample,
                );
            }
        }
        done
    }
}

/// The lookup results of a list, as values.
pub open spec fn lookup_views(lookups: Seq<Option<AddressInfo>>) -> Seq<Option<AddressInfoView>> {
    lookups.map_values(|info: Option<AddressInfo>| lookup_of(info))
}

/// What was emitted after some bytes of a section stays emitted, in place,
/// after more of them.
pub proof fn lemma_flushed_grow(
    name: Seq<char>,
    file_offset: int,
    start: u64,
    infos: Seq<Option<AddressInfoView>>,
    count: int,
)
    requires
        0 <= count <= infos.len(),
    ensures
        ({
            let fewer = flushed_samples(
                name,
                file_offset,
                addresses(start, count),
                infos.take(count),
            );
            let all = flushed_samples(
                name,
                file_offset,
                addresses(start, infos.len() as int),
                infos,
            );
            fewer.len() <= all.len() && fewer == all.take(fewer.len() as int)
        }),
    decreases infos.len() - count,
{
    let all = flushed_samples(name, file_offset, addresses(start, infos.len() as int), infos);
    if count == infos.len() {
        assert(infos.take(count) =~= infos);
        assert(all.take(all.len() as int) =~= all);
    } else {
        lemma_flushed_grow(name, file_offset, start, infos, count + 1);
        let more = flushed_samples(
            name,
            file_offset,
            addresses(start, count + 1),
            infos.take(count + 1),
        );
        let fewer = flushed_samples(name, file_offset, addresses(start, count), infos.take(count));
        assert(infos.take(count + 1).drop_last() =~= infos.take(count));
        assert(addresses(start, count + 1).drop_last() =~= addresses(start, count));
        assert(fewer =~= more.take(fewer.len() as int));
        assert(fewer =~= all.take(fewer.len() as int));
    }
}

/// The samples of a section, emitted to `profile` below `root_stack`, from
/// one lookup result per byte where the section holds code.
#[verifier::rlimit(50)]
pub fn process_section(
    profile: &mut Profile,
    thread: ThreadHandle,
    root_stack: StackHandle,
    section: &Section,
    lookups: Vec<Option<AddressInfo>>,
    base_addr: u64,
    category: CategoryHandle,
    timestamp_offset: u64,
) -> (done: Result<(), ProfileError>)
    requires
        thread_known(*old(profile), thread),
        stack_known(*old(profile), thread, root_stack),
        timestamp_offset + section.file_offset + section.size <= u64::MAX,
        section@.is_text() ==> lookups.len() == section.size,
    ensures
        grows(*old(profile), *final(profile), thread),
        done.is_ok() <==> weights_fit(
            section_samples(section@, base_addr, lookup_views(lookups@)),
        ),
        done.is_err() ==> done == Err::<(), ProfileError>(ProfileError::WeightOverflow),
        done.is_ok() ==> resolved(
            *final(profile),
            thread,
            category,
            root_stack,
            section_samples(section@, base_addr, lookup_views(lookups@)),
        ) && samples_of(*final(profile), thread) == samples_of(*old(profile), thread) + records(
            *final(profile),
            thread,
            category,
            root_stack,
            timestamp_offset as int,
            section_samples(section@, base_addr, lookup_views(lookups@)),
        ),
{
    if !section.is_text() {
        let done = emit_summary(profile, thread, root_stack, section, category, timestamp_offset);
        proof {
            let samples = seq![summary_sample(section@)];
            assert(samples[0] == summary_sample(section@));
        }
        return done;
    }
    let ghost infos = lookup_views(lookups@);
    let ghost start = start_address(section.svma, base_addr);
    let ghost name = section.name@;
    let ghost fo = section.file_offset as int;
    let mut scan = SectionScan::begin(
        profile,
        thread,
        root_stack,
        section,
        base_addr,
        category,
        timestamp_offset,
    );
    let ghost begun = scan;
    assert(scan.infos@ =~= infos.take(0));
    for info in it: lookups
        invariant
            it.seq() == lookups@,
            infos == lookup_views(lookups@),
            lookups.len() == section.size,
            section@.is_text(),
            scan.wf(*profile),
            scan.same_scan(&begun),
            scan.infos@ == infos.take(it.index() as int),
            grows(*old(profile), *profile, thread),
            begun.thread == thread,
            begun.category == category,
            begun.root_stack == root_stack,
            begun.timestamp_offset == timestamp_offset,
            begun.file_offset == section.file_offset,
            begun.size == section.size,
            begun.start_address == start,
            begun.name@ == name,
            name == section.name@,
            fo == section.file_offset as int,
            start == start_address(section.svma, base_addr),
            begun.before@ == samples_of(*old(profile), thread),
    {
        let ghost before = *profile;
        let ghost count = it.index() as int;
        let ghost pending = scan.state@;
        let fed = scan.feed(profile, info);
        proof {
            lemma_grows_trans(*old(profile), before, *profile, thread);
            assert(infos.take(count + 1) =~= infos.take(count).push(infos[count]));
        }
        if fed.is_err() {
            proof {
                let grown = flushed_samples(
                    name,
                    fo,
                    addresses(start, count + 1),
                    infos.take(count + 1),
                );
                assert(infos.take(count + 1).drop_last() =~= infos.take(count));
                assert(addresses(start, count + 1).drop_last() =~= addresses(start, count));
                assert(grown.last() == pending_sample(name, pending));
                lemma_flushed_grow(name, fo, start, infos, count + 1);
                lemma_flushed_are_runs(section@, base_addr, infos);
                let all = text_samples(section@, base_addr, infos);
                assert(all[grown.len() - 1] == grown.last());
                assert(!weights_fit(all));
            }
            return fed;
        }
    }
    proof {
        assert(infos.take(lookups.len() as int) =~= infos);
        lemma_flushed_are_runs(section@, base_addr, infos);
    }
    let ghost scanned = *profile;
    let ghost pending = scan.state@;
    let ghost emitted = scan.emitted();
    let done = scan.finish(profile);
    proof {
        lemma_grows_trans(*old(profile), scanned, *profile, thread);
        let all = text_samples(section@, base_addr, infos);
        assert(all == emitted.push(pending_sample(name, pending)));
        if done.is_err() {
            assert(all[all.len() - 1].weight > MAX_WEIGHT);
        }
    }
    done
}

} // verus!
