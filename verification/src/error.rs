//! The conditions under which the library gives up on an input.

use vstd::prelude::*;

verus! {

/// The fields that identify a library.
#[derive(Clone, Copy, Debug, PartialEq, Eq, Structural)]
pub enum LibraryField {
    Name,
    DebugName,
    Path,
    DebugPath,
    DebugId,
}

/// Why no profile can be made of an input.
#[derive(Clone, Copy, Debug, PartialEq, Eq, Structural)]
pub enum ProfileError {
    /// The file is no container that can be read, or it breaks off inside
    /// its headers.
    MalformedContainer,
    /// The section at `index` (in file order) starts before the one before
    /// it ends.
    OverlappingSections { index: usize },
    /// The binary ends before its last section does.
    TruncatedSection,
    /// The member at `index` of a fat container starts before the one before
    /// it ends.
    OverlappingMembers { index: usize },
    /// The file ends before the member at `index` of a fat container does.
    TruncatedMember { index: usize },
    /// The symbolication service left out a field that identifies the
    /// library.
    MissingLibraryInfo { field: LibraryField },
    /// A sample would weigh more than the profile can hold in one sample.
    WeightOverflow,
}

} // verus!
