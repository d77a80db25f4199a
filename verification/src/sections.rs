//! The sections of a binary as they lie in its file.

use crate::error::ProfileError;
use crate::text::text_of;
use vstd::prelude::*;
use vstd::string::StringExecFns;

verus! {

/// The kind of the sections that hold code. Only these are resolved byte by
/// byte.
pub const TEXT_KIND: &'static str = "Text";

/// One range of the file that a section occupies.
#[derive(Clone, Debug, PartialEq, Eq)]
pub struct Section {
    /// Where the section starts in the file of the binary.
    pub file_offset: u64,
    /// The address that the section claims in the binary's address space.
    pub svma: u64,
    /// How many bytes the section occupies in the file: the compressed size
    /// where it is compressed.
    pub size: u64,
    /// The name of the kind of the section: `Text`, `Data`, `ReadOnlyData`,
    /// `Debug`, `Other` and so on.
    pub kind: String,
    pub name: String,
    pub is_compressed: bool,
}

/// The values of a `Section`.
pub struct SectionView {
    pub file_offset: u64,
    pub svma: u64,
    pub size: u64,
    pub kind: Seq<char>,
    pub name: Seq<char>,
    pub is_compressed: bool,
}

impl View for Section {
    type V = SectionView;

    open spec fn view(&self) -> SectionView {
        SectionView {
            file_offset: self.file_offset,
            svma: self.svma,
            size: self.size,
            kind: self.kind@,
            name: self.name@,
            is_compressed: self.is_compressed,
        }
    }
}

impl SectionView {
    /// Whether the section holds code.
    pub open spec fn is_text(self) -> bool {
        self.kind == TEXT_KIND@
    }

    /// Where the section ends in the file.
    pub open spec fn end(self) -> int {
        self.file_offset + self.size
    }
}

impl Section {
    /// Whether the section holds code.
    pub fn is_text(&self) -> (r: bool)
        ensures
            r == self@.is_text(),
    {
        let text = String::from_str(TEXT_KIND);
        self.kind == text
    }
}

/// A section as the binary declares it, before anything is left out.
#[derive(Clone, Debug, PartialEq, Eq)]
pub struct RawSection {
    pub file_offset: u64,
    pub svma: u64,
    /// How many bytes the section occupies in the file.
    pub compressed_size: u64,
    /// How many bytes the section holds once it is unpacked.
    pub uncompressed_size: u64,
    pub kind: String,
    /// The name of the section, where it can be read.
    pub name: Option<String>,
    pub is_compressed: bool,
}

/// The values of a `RawSection`.
pub struct RawSectionView {
    pub file_offset: u64,
    pub svma: u64,
    pub compressed_size: u64,
    pub uncompressed_size: u64,
    pub kind: Seq<char>,
    pub name: Option<Seq<char>>,
    pub is_compressed: bool,
}

impl View for RawSection {
    type V = RawSectionView;

    open spec fn view(&self) -> RawSectionView {
        RawSectionView {
            file_offset: self.file_offset,
            svma: self.svma,
            compressed_size: self.compressed_size,
            uncompressed_size: self.uncompressed_size,
            kind: self.kind@,
            name: text_of(self.name),
            is_compressed: self.is_compressed,
        }
    }
}

/// The views of the sections of a list.
pub open spec fn raw_views(raw: Seq<RawSection>) -> Seq<RawSectionView> {
    raw.map_values(|s: RawSection| s@)
}

/// The views of the sections of a list.
pub open spec fn section_views(sections: Seq<Section>) -> Seq<SectionView> {
    sections.map_values(|s: Section| s@)
}

/// The section at `index` starts before the one before it ends.
pub open spec fn overlaps_at(sections: Seq<SectionView>, index: int) -> bool {
    0 < index < sections.len() && sections[index].file_offset < sections[index - 1].end()
}

/// `index` is the first place at which a section overlaps the one before it.
pub open spec fn first_overlap_at(sections: Seq<SectionView>, index: int) -> bool {
    overlaps_at(sections, index) && forall|i: int| 0 < i < index ==> !overlaps_at(sections, i)
}

/// No section overlaps the one before it.
pub open spec fn disjoint(sections: Seq<SectionView>) -> bool {
    forall|i: int| 0 < i < sections.len() ==> !overlaps_at(sections, i)
}

/// The section that stands for a declared one: it has the size that the
/// declared one has in the file.
pub open spec fn section_of(raw: RawSectionView) -> SectionView {
    SectionView {
        file_offset: raw.file_offset,
        svma: raw.svma,
        size: raw.compressed_size,
        kind: raw.kind,
        name: match raw.name {
            Some(name) => name,
            None => Seq::empty(),
        },
        is_compressed: raw.is_compressed,
    }
}

/// The sections that are kept, in the order in which they were declared:
/// those that hold anything once unpacked.
pub open spec fn kept(raw: Seq<RawSectionView>) -> Seq<SectionView>
    decreases raw.len(),
{
    if raw.len() == 0 {
        Seq::empty()
    } else if raw.last().uncompressed_size == 0 {
        kept(raw.drop_last())
    } else {
        kept(raw.drop_last()).push(section_of(raw.last()))
    }
}

/// `section` stands for one of `raw` that holds something once unpacked.
pub open spec fn stands_for_nonempty(raw: Seq<RawSectionView>, section: SectionView) -> bool {
    exists|i: int|
        0 <= i < raw.len() && (#[trigger] raw[i]).uncompressed_size != 0 && section == section_of(
            raw[i],
        )
}

/// The kept sections are those that stand for a section that holds
/// something once unpacked.
pub proof fn lemma_kept_skips_empty(raw: Seq<RawSectionView>, section: SectionView)
    ensures
        kept(raw).contains(section) <==> stands_for_nonempty(raw, section),
    decreases raw.len(),
{
    if raw.len() > 0 {
        let init = raw.drop_last();
        lemma_kept_skips_empty(init, section);
        if stands_for_nonempty(init, section) {
            let i = choose|i: int|
                0 <= i < init.len() && (#[trigger] init[i]).uncompressed_size != 0 && section
                    == section_of(init[i]);
            assert(raw[i] == init[i]);
        }
        if stands_for_nonempty(raw, section) && !stands_for_nonempty(init, section) {
            let i = choose|i: int|
                0 <= i < raw.len() && (#[trigger] raw[i]).uncompressed_size != 0 && section
                    == section_of(raw[i]);
            if i < init.len() {
                assert(raw[i] == init[i]);
            }
            assert(i == raw.len() - 1);
        }
        if raw.last().uncompressed_size != 0 {
            let grown = kept(init).push(section_of(raw.last()));
            if kept(init).contains(section) {
                let k = choose|k: int| 0 <= k < kept(init).len() && kept(init)[k] == section;
                assert(grown[k] == section);
            }
            if section == section_of(raw.last()) {
                assert(grown[grown.len() - 1] == section);
                assert(raw[raw.len() - 1] == raw.last());
            }
            if grown.contains(section) {
                let k = choose|k: int| 0 <= k < grown.len() && grown[k] == section;
                if k < kept(init).len() {
                    assert(kept(init)[k] == section);
                } else {
                    assert(raw[raw.len() - 1] == raw.last());
                }
            }
        }
    }
}

/// Where a section that starts at `file_offset` goes into sections that are
/// in file order: behind the last that starts at `file_offset` or before.
pub open spec fn insert_index(sections: Seq<SectionView>, file_offset: u64) -> int
    decreases sections.len(),
{
    if sections.len() == 0 || sections.last().file_offset <= file_offset {
        sections.len() as int
    } else {
        insert_index(sections.drop_last(), file_offset)
    }
}

/// The sections in file order. Sections that start at the same offset stay
/// in the order in which they came.
pub open spec fn in_file_order(sections: Seq<SectionView>) -> Seq<SectionView>
    decreases sections.len(),
{
    if sections.len() == 0 {
        Seq::empty()
    } else {
        let before = in_file_order(sections.drop_last());
        before.insert(insert_index(before, sections.last().file_offset), sections.last())
    }
}

/// No section starts before one that stands before it.
pub open spec fn ordered(sections: Seq<SectionView>) -> bool {
    forall|i: int, j: int|
        0 <= i < j < sections.len() ==> (#[trigger] sections[i]).file_offset <= (
        #[trigger] sections[j]).file_offset
}

/// Where a section goes lies within the list; what stands before that place
/// starts no later than the section, what stands from it on starts later.
pub proof fn lemma_insert_index(sections: Seq<SectionView>, file_offset: u64)
    requires
        ordered(sections),
    ensures
        0 <= insert_index(sections, file_offset) <= sections.len(),
        forall|i: int|
            0 <= i < insert_index(sections, file_offset) ==> (#[trigger] sections[i]).file_offset
                <= file_offset,
        forall|i: int|
            insert_index(sections, file_offset) <= i < sections.len() ==> (
            #[trigger] sections[i]).file_offset > file_offset,
    decreases sections.len(),
{
    if sections.len() == 0 {
    } else if sections.last().file_offset <= file_offset {
        assert forall|i: int| 0 <= i < sections.len() implies (#[trigger] sections[i]).file_offset
            <= file_offset by {
            if i < sections.len() - 1 {
                assert(sections[i].file_offset <= sections[sections.len() - 1].file_offset);
            }
        }
    } else {
        let init = sections.drop_last();
        assert(ordered(init)) by {
            assert forall|i: int, j: int| 0 <= i < j < init.len() implies (
            #[trigger] init[i]).file_offset <= (#[trigger] init[j]).file_offset by {
                assert(init[i] == sections[i]);
                assert(init[j] == sections[j]);
            }
        }
        lemma_insert_index(init, file_offset);
        assert forall|i: int| 0 <= i < insert_index(sections, file_offset) implies (
        #[trigger] sections[i]).file_offset <= file_offset by {
            assert(sections[i] == init[i]);
        }
        assert forall|i: int| insert_index(sections, file_offset) <= i < sections.len() implies (
        #[trigger] sections[i]).file_offset > file_offset by {
            if i < init.len() {
                assert(sections[i] == init[i]);
            }
        }
    }
}

/// The sections in file order are in order, and they are the sections that
/// were given, each as often as it was given.
pub proof fn lemma_in_file_order(sections: Seq<SectionView>)
    ensures
        ordered(in_file_order(sections)),
        in_file_order(sections).len() == sections.len(),
        in_file_order(sections).to_multiset() == sections.to_multiset(),
    decreases sections.len(),
{
    if sections.len() > 0 {
        let init = sections.drop_last();
        let last = sections.last();
        let before = in_file_order(init);
        let at = insert_index(before, last.file_offset);
        let after = before.insert(at, last);
        lemma_in_file_order(init);
        lemma_insert_index(before, last.file_offset);
        assert forall|i: int, j: int| 0 <= i < j < after.len() implies (
        #[trigger] after[i]).file_offset <= (#[trigger] after[j]).file_offset by {
            if j < at {
                assert(after[i] == before[i] && after[j] == before[j]);
            } else if j == at {
                assert(after[i] == before[i]);
            } else if i < at {
                assert(after[i] == before[i] && after[j] == before[j - 1]);
            } else if i == at {
                assert(after[j] == before[j - 1]);
            } else {
                assert(after[i] == before[i - 1] && after[j] == before[j - 1]);
            }
        }
        vstd::seq_lib::to_multiset_insert(before, at, last);
        vstd::seq_lib::to_multiset_build(init, last);
        assert(init.push(last) =~= sections);
        assert(after.to_multiset() == before.to_multiset().insert(last));
        assert(sections.to_multiset() == init.to_multiset().insert(last));
        assert(in_file_order(sections) == after);
    } else {
        assert(sections =~= Seq::<SectionView>::empty());
    }
}

/// The sections of a binary for the scan: those that hold anything once
/// unpacked, with the size that they have in the file, in file order.
pub open spec fn extracted(raw: Seq<RawSectionView>) -> Seq<SectionView> {
    in_file_order(kept(raw))
}

/// Empty sections are skipped: no section that is empty once unpacked is
/// among the extracted ones, and every other is.
pub proof fn lemma_extracted_skips_empty(raw: Seq<RawSectionView>, section: SectionView)
    ensures
        extracted(raw).contains(section) <==> stands_for_nonempty(raw, section),
{
    lemma_kept_skips_empty(raw, section);
    lemma_in_file_order(kept(raw));
    kept(raw).to_multiset_ensures();
    extracted(raw).to_multiset_ensures();
    assert(extracted(raw).to_multiset().count(section) == kept(raw).to_multiset().count(section));
}

/// The first place at which a section overlaps the one before it.
pub fn first_overlap(sections: &Vec<Section>) -> (found: Option<usize>)
    ensures
        found.is_none() <==> disjoint(section_views(sections@)),
        found matches Some(index) ==> first_overlap_at(section_views(sections@), index as int),
{
    let ghost views = section_views(sections@);
    let mut i: usize = 1;
    while i < sections.len()
        invariant
            1 <= i,
            views == section_views(sections@),
            forall|j: int| 0 < j < i && j < sections.len() ==> !overlaps_at(views, j),
        decreases sections.len() - i,
    {
        let previous_end: u128 = sections[i - 1].file_offset as u128 + sections[i - 1].size as u128;
        if (sections[i].file_offset as u128) < previous_end {
            assert(overlaps_at(views, i as int));
            return Some(i);
        }
        i += 1;
    }
    None
}

/// One of the sections that are kept has no name that can be read.
pub open spec fn nameless(raw: Seq<RawSectionView>) -> bool {
    exists|i: int|
        0 <= i < raw.len() && (#[trigger] raw[i]).uncompressed_size != 0 && raw[i].name.is_none()
}

/// Where the sections before the one at `count` that are kept have names,
/// and that one has a name or is not kept, all up to and including it have.
proof fn lemma_named_step(all: Seq<RawSectionView>, count: int)
    requires
        0 <= count < all.len(),
        !nameless(all.take(count)),
        all[count].uncompressed_size == 0 || all[count].name.is_some(),
    ensures
        !nameless(all.take(count + 1)),
{
    let more = all.take(count + 1);
    if nameless(more) {
        let i = choose|i: int|
            0 <= i < more.len() && (#[trigger] more[i]).uncompressed_size != 0
                && more[i].name.is_none();
        assert(more[i] == all[i]);
        assert(all.take(count)[i] == all[i]);
    }
}

/// The sections of a binary for the scan: those that hold anything once
/// unpacked, with the size that they have in the file, in file order. The
/// name is asked of these only. Fails where one of them has no name, and
/// where two of them overlap in the file.
pub fn extract_sections(raw: Vec<RawSection>) -> (done: Result<Vec<Section>, ProfileError>)
    ensures
        done.is_ok() <==> !nameless(raw_views(raw@)) && disjoint(extracted(raw_views(raw@))),
        done matches Ok(sections) ==> section_views(sections@) == extracted(raw_views(raw@)),
        done matches Err(error) ==> if nameless(raw_views(raw@)) {
            error == ProfileError::MalformedContainer
        } else {
            exists|index: usize|
                error == (ProfileError::OverlappingSections { index }) && first_overlap_at(
                    extracted(raw_views(raw@)),
                    index as int,
                )
        },
{
    let ghost all = raw_views(raw@);
    let mut sections: Vec<Section> = Vec::new();
    assert(all.take(0) =~= Seq::<RawSectionView>::empty());
    assert(section_views(sections@) =~= extracted(all.take(0)));
    for section in it: raw
        invariant
            it.seq() == raw@,
            all == raw_views(raw@),
            section_views(sections@) == extracted(all.take(it.index() as int)),
            !nameless(all.take(it.index() as int)),
    {
        let ghost count = it.index() as int;
        proof {
            assert(all.take(count + 1).drop_last() =~= all.take(count));
            assert(all.take(count + 1).last() == section@);
            lemma_in_file_order(kept(all.take(count)));
        }
        if section.uncompressed_size != 0 {
            let ghost views = section_views(sections@);
            let mut at: usize = sections.len();
            assert(views.take(at as int) =~= views);
            while at > 0 && sections[at - 1].file_offset > section.file_offset
                invariant
                    at <= sections.len(),
                    views == section_views(sections@),
                    insert_index(views, section.file_offset) == insert_index(
                        views.take(at as int),
                        section.file_offset,
                    ),
                decreases at,
            {
                proof {
                    assert(views.take(at as int).last() == views[at - 1]);
                    assert(views.take(at as int).drop_last() =~= views.take(at - 1));
                }
                at -= 1;
            }
            proof {
                if at > 0 {
                    assert(views.take(at as int).last() == views[at - 1]);
                }
                assert(insert_index(views, section.file_offset) == at);
            }
            let name = match section.name {
                Some(name) => name,
                None => {
                    assert(all[count].uncompressed_size != 0 && all[count].name.is_none());
                    return Err(ProfileError::MalformedContainer);
                },
            };
            let kept_section = Section {
                file_offset: section.file_offset,
                svma: section.svma,
                size: section.compressed_size,
                kind: section.kind,
                name,
                is_compressed: section.is_compressed,
            };
            assert(kept_section@ == section_of(section@));
            sections.insert(at, kept_section);
            proof {
                lemma_named_step(all, count);
            }
            proof {
                let earlier = kept(all.take(count));
                let grown = earlier.push(section_of(section@));
                assert(kept(all.take(count + 1)) == grown);
                assert(grown.drop_last() =~= earlier);
                assert(grown.last() == section_of(section@));
                assert(in_file_order(grown) == views.insert(at as int, section_of(section@)));
                assert(section_views(sections@) =~= views.insert(at as int, kept_section@));
            }
        }
    }
    assert(all.take(raw.len() as int) =~= all);
    match first_overlap(&sections) {
        Some(index) => Err(ProfileError::OverlappingSections { index }),
        None => Ok(sections),
    }
}

} // verus!
