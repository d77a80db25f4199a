//! What the symbolication service reports for one relative address, held as
//! plain values, with the equality by value that coalescing relies on.

use crate::text::{same_text, text_of};
use vstd::prelude::*;

verus! {

/// The symbol that contains an address.
#[derive(Clone, Debug, PartialEq, Eq)]
pub struct SymbolInfo {
    /// Relative address at which the symbol starts.
    pub address: u32,
    /// Size of the symbol in bytes, where known.
    pub size: Option<u32>,
    /// Demangled name.
    pub name: String,
}

/// The values of a `SymbolInfo`.
pub struct SymbolInfoView {
    pub address: u32,
    pub size: Option<u32>,
    pub name: Seq<char>,
}

impl View for SymbolInfo {
    type V = SymbolInfoView;

    open spec fn view(&self) -> SymbolInfoView {
        SymbolInfoView { address: self.address, size: self.size, name: self.name@ }
    }
}

/// A source file as the service names it.
#[derive(Clone, Debug, PartialEq, Eq)]
pub struct SourceFilePath {
    /// The path as it stands in the debug information.
    pub raw_path: String,
    /// The canonical path for display.
    pub display_path: String,
    /// The special path string of the mapped path, where the service could
    /// map the raw path.
    pub mapped_special_path: Option<String>,
}

/// The values of a `SourceFilePath`.
pub struct SourceFilePathView {
    pub raw_path: Seq<char>,
    pub display_path: Seq<char>,
    pub mapped_special_path: Option<Seq<char>>,
}

impl View for SourceFilePath {
    type V = SourceFilePathView;

    open spec fn view(&self) -> SourceFilePathView {
        SourceFilePathView {
            raw_path: self.raw_path@,
            display_path: self.display_path@,
            mapped_special_path: text_of(self.mapped_special_path),
        }
    }
}

/// One frame at an address: the function that the address lies in, or a
/// function that was inlined there.
#[derive(Clone, Debug, PartialEq, Eq)]
pub struct FrameDebugInfo {
    pub function: Option<String>,
    pub file_path: Option<SourceFilePath>,
    pub line_number: Option<u32>,
}

/// The values of a `FrameDebugInfo`.
pub struct FrameDebugInfoView {
    pub function: Option<Seq<char>>,
    pub file_path: Option<SourceFilePathView>,
    pub line_number: Option<u32>,
}

/// The view of an optional source file.
pub open spec fn file_of(p: Option<SourceFilePath>) -> Option<SourceFilePathView> {
    match p {
        Some(f) => Some(f@),
        None => None,
    }
}

impl View for FrameDebugInfo {
    type V = FrameDebugInfoView;

    open spec fn view(&self) -> FrameDebugInfoView {
        FrameDebugInfoView {
            function: text_of(self.function),
            file_path: file_of(self.file_path),
            line_number: self.line_number,
        }
    }
}

/// The result of looking up one address. `frames` is ordered innermost
/// first: inlined functions come before the function they were inlined into,
/// and the last entry is the function that stands in the binary.
#[derive(Clone, Debug, PartialEq, Eq)]
pub struct AddressInfo {
    pub symbol: SymbolInfo,
    pub frames: Option<Vec<FrameDebugInfo>>,
}

/// The values of an `AddressInfo`.
pub struct AddressInfoView {
    pub symbol: SymbolInfoView,
    pub frames: Option<Seq<FrameDebugInfoView>>,
}

/// The views of a list of frames.
pub open spec fn frames_of(frames: Option<Vec<FrameDebugInfo>>) -> Option<Seq<FrameDebugInfoView>> {
    match frames {
        Some(v) => Some(reported_views(v@)),
        None => None,
    }
}

impl View for AddressInfo {
    type V = AddressInfoView;

    open spec fn view(&self) -> AddressInfoView {
        AddressInfoView { symbol: self.symbol@, frames: frames_of(self.frames) }
    }
}

/// The view of an optional lookup result.
pub open spec fn lookup_of(info: Option<AddressInfo>) -> Option<AddressInfoView> {
    match info {
        Some(i) => Some(i@),
        None => None,
    }
}

fn same_number(a: &Option<u32>, b: &Option<u32>) -> (r: bool)
    ensures
        r == (*a == *b),
{
    match (a, b) {
        (Some(x), Some(y)) => *x == *y,
        (None, None) => true,
        _ => false,
    }
}

impl SymbolInfo {
    /// Whether both symbols hold the same values.
    pub fn same(&self, other: &SymbolInfo) -> (r: bool)
        ensures
            r == (self@ == other@),
    {
        self.address == other.address && same_number(&self.size, &other.size) && self.name
            == other.name
    }
}

impl SourceFilePath {
    /// Whether both paths hold the same values.
    pub fn same(&self, other: &SourceFilePath) -> (r: bool)
        ensures
            r == (self@ == other@),
    {
        self.raw_path == other.raw_path && self.display_path == other.display_path && same_text(
            &self.mapped_special_path,
            &other.mapped_special_path,
        )
    }
}

fn same_file(a: &Option<SourceFilePath>, b: &Option<SourceFilePath>) -> (r: bool)
    ensures
        r == (file_of(*a) == file_of(*b)),
{
    match (a, b) {
        (Some(x), Some(y)) => x.same(y),
        (None, None) => true,
        _ => false,
    }
}

impl FrameDebugInfo {
    /// Whether both frames hold the same values.
    pub fn same(&self, other: &FrameDebugInfo) -> (r: bool)
        ensures
            r == (self@ == other@),
    {
        same_text(&self.function, &other.function) && same_file(&self.file_path, &other.file_path)
            && same_number(&self.line_number, &other.line_number)
    }
}

/// The views of the frames of a list.
pub open spec fn reported_views(frames: Seq<FrameDebugInfo>) -> Seq<FrameDebugInfoView> {
    frames.map_values(|f: FrameDebugInfo| f@)
}

fn same_frame_list(x: &Vec<FrameDebugInfo>, y: &Vec<FrameDebugInfo>) -> (r: bool)
    ensures
        r == (reported_views(x@) == reported_views(y@)),
{
    if x.len() != y.len() {
        assert(reported_views(x@).len() != reported_views(y@).len());
        return false;
    }
    let mut i: usize = 0;
    while i < x.len()
        invariant
            i <= x.len(),
            x.len() == y.len(),
            forall|j: int| 0 <= j < i ==> x@[j]@ == y@[j]@,
        decreases x.len() - i,
    {
        if !x[i].same(&y[i]) {
            assert(reported_views(x@)[i as int] != reported_views(y@)[i as int]);
            return false;
        }
        i += 1;
    }
    assert(reported_views(x@) =~= reported_views(y@));
    true
}

fn same_frames(a: &Option<Vec<FrameDebugInfo>>, b: &Option<Vec<FrameDebugInfo>>) -> (r: bool)
    ensures
        r == (frames_of(*a) == frames_of(*b)),
{
    match (a, b) {
        (Some(x), Some(y)) => same_frame_list(x, y),
        (None, None) => true,
        _ => false,
    }
}

impl AddressInfo {
    /// Whether both results hold the same values.
    pub fn same(&self, other: &AddressInfo) -> (r: bool)
        ensures
            r == (self@ == other@),
    {
        self.symbol.same(&other.symbol) && same_frames(&self.frames, &other.frames)
    }
}

/// Whether two lookups gave the same result: both nothing, or both the same
/// values.
pub fn same_lookup(a: &Option<AddressInfo>, b: &Option<AddressInfo>) -> (r: bool)
    ensures
        r == (lookup_of(*a) == lookup_of(*b)),
{
    match (a, b) {
        (Some(x), Some(y)) => x.same(y),
        (None, None) => true,
        _ => false,
    }
}

} // verus!
