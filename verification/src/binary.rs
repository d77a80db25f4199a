//! What the scan needs from the bytes of a file, read with the `object`
//! crate: whether the file is a fat container and where its members lie, the
//! sections of a binary, the base of its relative addresses, its identifier.

use crate::container::{FatMember, member_label, member_name};
use crate::error::ProfileError;
use crate::sections::{
    RawSection, RawSectionView, Section, SectionView, disjoint, extract_sections, extracted,
    first_overlap_at, nameless, raw_views, section_views,
};
use crate::text::text_of;
use object::read::macho::{FatArch, MachOFatFile32};
use object::{CompressionFormat, FileKind, Object, ObjectSection};
use vstd::prelude::*;
use vstd::slice::slice_subrange;
use wholesym::samply_symbols::relative_address_base;

verus! {

/// Where one member lies in a fat container, and for which CPU it is.
#[derive(Clone, Copy, Debug, PartialEq, Eq, Structural)]
pub struct MemberHeader {
    pub offset: u64,
    pub size: u64,
    pub cputype: u32,
    pub cpusubtype: u32,
}

/// Whether the file that starts with `data` is a 32-bit fat container, for
/// the files whose kind can be told.
pub uninterp spec fn fat_kind_of(data: Seq<u8>) -> Option<bool>;

/// The members that the header of the fat container `data` lists, where it
/// can be read.
pub uninterp spec fn member_headers_of(data: Seq<u8>) -> Option<Seq<MemberHeader>>;

/// The sections that the binary `data` declares, where it can be read.
pub uninterp spec fn declared_sections_of(data: Seq<u8>) -> Option<Seq<RawSectionView>>;

/// The base of the relative addresses of the binary `data`, where it can be
/// read.
pub uninterp spec fn relative_base_of(data: Seq<u8>) -> Option<u64>;

/// The unique identifier that the binary `data` carries, where it can be
/// read and carries one.
pub uninterp spec fn identifier_of(data: Seq<u8>) -> Option<[u8; 16]>;

/// The views of declared sections that were read.
pub open spec fn declared_views(raw: Option<Vec<RawSection>>) -> Option<Seq<RawSectionView>> {
    match raw {
        Some(list) => Some(raw_views(list@)),
        None => None,
    }
}

/// The member headers that were read.
pub open spec fn header_views(headers: Option<Vec<MemberHeader>>) -> Option<Seq<MemberHeader>> {
    match headers {
        Some(list) => Some(list@),
        None => None,
    }
}

/// `object::FileKind::parse`: the kind of the file, told from its first
/// bytes, as whether it is `MachOFat32`; `None` where the kind cannot be told.
#[verifier::external_body]
fn fat_kind(data: &[u8]) -> (fat: Option<bool>)
    ensures
        fat == fat_kind_of(data@),
{
    match FileKind::parse(data) {
        Ok(kind) => Some(matches!(kind, FileKind::MachOFat32)),
        Err(_) => None,
    }
}

/// `object::read::macho::MachOFatFile32::parse` and `arches`: the members
/// that the header lists, each with its offset, size, CPU type and subtype;
/// `None` where the header cannot be read.
#[verifier::external_body]
fn member_headers(data: &[u8]) -> (headers: Option<Vec<MemberHeader>>)
    ensures
        header_views(headers) == member_headers_of(data@),
{
    let fat = MachOFatFile32::parse(data).ok()?;
    let header = |a: &object::macho::FatArch32| MemberHeader {
        offset: a.offset().into(),
        size: a.size().into(),
        cputype: a.cputype(),
        cpusubtype: a.cpusubtype(),
    };
    Some(fat.arches().iter().map(header).collect())
}

/// `object::File::parse` and `Object::sections`: the sections that the
/// binary declares, each with its file range as `compressed_file_range`
/// gives it, its address, the name of its kind, and its name where that can
/// be read; `None` where the binary or the file range of one of its sections
/// cannot be read.
#[verifier::external_body]
fn declared_sections(data: &[u8]) -> (raw: Option<Vec<RawSection>>)
    ensures
        declared_views(raw) == declared_sections_of(data@),
{
    let file = object::File::parse(data).ok()?;
    let mut raw = Vec::new();
    for s in file.sections() {
        let range = s.compressed_file_range().ok()?;
        raw.push(RawSection {
            file_offset: range.offset,
            svma: s.address(),
            compressed_size: range.compressed_size,
            uncompressed_size: range.uncompressed_size,
            kind: format!("{:?}", s.kind()),
            name: s.name().ok().map(str::to_string),
            is_compressed: !matches!(range.format, CompressionFormat::None),
        });
    }
    Some(raw)
}

/// `wholesym::samply_symbols::relative_address_base` on the binary that
/// `object::File::parse` reads; `None` where the binary cannot be read.
#[verifier::external_body]
fn relative_base(data: &[u8]) -> (base: Option<u64>)
    ensures
        base == relative_base_of(data@),
{
    let file = object::File::parse(data).ok()?;
    Some(relative_address_base(&file))
}

/// `Object::mach_uuid` on the binary that `object::File::parse` reads;
/// `None` where the binary cannot be read or carries no identifier.
#[verifier::external_body]
fn identifier(data: &[u8]) -> (uuid: Option<[u8; 16]>)
    ensures
        uuid == identifier_of(data@),
{
    let file = object::File::parse(data).ok()?;
    file.mach_uuid().ok()?
}

/// What a file is, as far as the scan goes.
pub enum Container {
    /// One binary that is the whole file.
    Single,
    /// A fat container, with the members that its header lists.
    Fat { headers: Vec<MemberHeader> },
}

/// What the file `data` is, from what was read of it.
pub open spec fn container_from(
    fat: Option<bool>,
    headers: Option<Seq<MemberHeader>>,
) -> Result<Option<Seq<MemberHeader>>, ProfileError> {
    match fat {
        None => Err(ProfileError::MalformedContainer),
        Some(false) => Ok(None),
        Some(true) => match headers {
            Some(list) => Ok(Some(list)),
            None => Err(ProfileError::MalformedContainer),
        },
    }
}

/// The members of a container that was read, `None` for a single binary.
pub open spec fn container_view(container: Result<Container, ProfileError>) -> Result<
    Option<Seq<MemberHeader>>,
    ProfileError,
> {
    match container {
        Ok(Container::Single) => Ok(None),
        Ok(Container::Fat { headers }) => Ok(Some(headers@)),
        Err(error) => Err(error),
    }
}

/// What was read, or that the container is malformed where nothing could be
/// read.
pub fn or_malformed<T>(read: Option<T>) -> (done: Result<T, ProfileError>)
    ensures
        done == match read {
            Some(value) => Ok::<T, ProfileError>(value),
            None => Err(ProfileError::MalformedContainer),
        },
{
    match read {
        Some(value) => Ok(value),
        None => Err(ProfileError::MalformedContainer),
    }
}

/// What a file is, from its kind and from the list of members that was
/// read of it: a single binary where its kind is another than that of a fat
/// container, else a fat container with these members.
pub fn container_of(fat: Option<bool>, headers: Option<Vec<MemberHeader>>) -> (container: Result<
    Container,
    ProfileError,
>)
    ensures
        container_view(container) == container_from(fat, header_views(headers)),
{
    if or_malformed(fat)? {
        Ok(Container::Fat { headers: or_malformed(headers)? })
    } else {
        Ok(Container::Single)
    }
}

/// Tells whether the file is a fat container, and reads the list of its
/// members where it is one.
pub fn read_container(data: &[u8]) -> (container: Result<Container, ProfileError>)
    ensures
        container_view(container) == container_from(fat_kind_of(data@), member_headers_of(data@)),
{
    container_of(fat_kind(data), member_headers(data))
}

/// The sections of a binary for the scan, from the sections that it
/// declares.
pub open spec fn sections_from(declared: Option<Seq<RawSectionView>>) -> Option<
    Seq<SectionView>,
> {
    match declared {
        Some(raw) => if !nameless(raw) && disjoint(extracted(raw)) {
            Some(extracted(raw))
        } else {
            None
        },
        None => None,
    }
}

/// Reads the sections of the binary `data` for the scan.
pub fn read_sections(data: &[u8]) -> (done: Result<Vec<Section>, ProfileError>)
    ensures
        done.is_ok() <==> sections_from(declared_sections_of(data@)).is_some(),
        done matches Ok(sections) ==> Some(section_views(sections@)) == sections_from(
            declared_sections_of(data@),
        ),
        done matches Err(error) ==> match declared_sections_of(data@) {
            None => error == ProfileError::MalformedContainer,
            Some(raw) => if nameless(raw) {
                error == ProfileError::MalformedContainer
            } else {
                exists|index: usize|
                    error == (ProfileError::OverlappingSections { index }) && first_overlap_at(
                        extracted(raw),
                        index as int,
                    )
            },
        },
{
    extract_sections(or_malformed(declared_sections(data))?)
}

/// Reads the base of the relative addresses of the binary `data`.
pub fn read_relative_base(data: &[u8]) -> (done: Result<u64, ProfileError>)
    ensures
        done == match relative_base_of(data@) {
            Some(base) => Ok::<u64, ProfileError>(base),
            None => Err(ProfileError::MalformedContainer),
        },
{
    or_malformed(relative_base(data))
}

/// The bytes of the member that `header` lists, which is the member at
/// `index`, out of the bytes of the container; the member must lie within
/// the file.
pub fn member_bytes<'a>(data: &'a [u8], header: &MemberHeader, index: usize) -> (done: Result<
    &'a [u8],
    ProfileError,
>)
    ensures
        done matches Ok(bytes) ==> bytes@ == data@.subrange(
            header.offset as int,
            header.offset + header.size,
        ),
        done.is_ok() <==> header.offset + header.size <= data@.len(),
        done matches Err(error) ==> error == (ProfileError::TruncatedMember { index }),
{
    let end: u128 = header.offset as u128 + header.size as u128;
    if end > data.len() as u128 {
        return Err(ProfileError::TruncatedMember { index });
    }
    Ok(slice_subrange(data, header.offset as usize, end as usize))
}

/// The member that `header` lists, under the name of its architecture
/// where that is known, with the identifier that its bytes carry.
pub fn describe_member(header: &MemberHeader, member_data: &[u8], arch: &Option<String>) -> (member:
    FatMember)
    ensures
        member.member_start_file_offset == header.offset,
        member.member_size == header.size,
        member.disambiguator == identifier_of(member_data@),
        member.arch_name@ == member_name(text_of(*arch), header.cputype, header.cpusubtype),
{
    FatMember {
        member_start_file_offset: header.offset,
        member_size: header.size,
        disambiguator: identifier(member_data),
        arch_name: member_label(arch, header.cputype, header.cpusubtype),
    }
}

} // verus!
