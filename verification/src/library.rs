//! What identifies the library that a binary is, as the symbolication
//! service reports it.

use crate::error::{LibraryField, ProfileError};
use crate::text::text_of;
use vstd::prelude::*;
use wholesym::debugid::DebugId;

verus! {

/// `debugid::DebugId`, carried through as it is.
#[verifier::external_type_specification]
#[verifier::external_body]
pub struct ExDebugId(DebugId);

/// What the symbolication service knows of a binary. A binary that can be
/// profiled has all of `name`, `debug_name`, `path`, `debug_path` and
/// `debug_id`.
#[derive(Debug)]
pub struct LibraryInfo {
    pub name: Option<String>,
    pub debug_name: Option<String>,
    pub path: Option<String>,
    pub debug_path: Option<String>,
    pub debug_id: Option<DebugId>,
    pub code_id: Option<String>,
    pub arch: Option<String>,
}

/// What identifies a binary in a profile.
#[derive(Debug)]
pub struct LibraryIdentity {
    pub name: String,
    pub debug_name: String,
    pub path: String,
    pub debug_path: String,
    pub debug_id: DebugId,
    pub code_id: Option<String>,
    pub arch: Option<String>,
}

/// The first of the fields that a binary must have which `info` lacks, in
/// the order name, debug name, path, debug path, debug identifier.
pub open spec fn first_missing(info: LibraryInfo) -> Option<LibraryField> {
    if info.name.is_none() {
        Some(LibraryField::Name)
    } else if info.debug_name.is_none() {
        Some(LibraryField::DebugName)
    } else if info.path.is_none() {
        Some(LibraryField::Path)
    } else if info.debug_path.is_none() {
        Some(LibraryField::DebugPath)
    } else if info.debug_id.is_none() {
        Some(LibraryField::DebugId)
    } else {
        None
    }
}

/// `identity` holds what `info` holds.
pub open spec fn identifies(identity: LibraryIdentity, info: LibraryInfo) -> bool {
    &&& Some(identity.name@) == text_of(info.name)
    &&& Some(identity.debug_name@) == text_of(info.debug_name)
    &&& Some(identity.path@) == text_of(info.path)
    &&& Some(identity.debug_path@) == text_of(info.debug_path)
    &&& Some(identity.debug_id) == info.debug_id
    &&& text_of(identity.code_id) == text_of(info.code_id)
    &&& text_of(identity.arch) == text_of(info.arch)
}

/// What identifies the binary, or which field is missing for that.
pub fn identify_library(info: LibraryInfo) -> (done: Result<LibraryIdentity, ProfileError>)
    ensures
        match first_missing(info) {
            Some(field) => done matches Err(error) && error == (ProfileError::MissingLibraryInfo {
                field,
            }),
            None => done matches Ok(identity) && identifies(identity, info),
        },
{
    let name = match info.name {
        Some(name) => name,
        None => return Err(ProfileError::MissingLibraryInfo { field: LibraryField::Name }),
    };
    let debug_name = match info.debug_name {
        Some(debug_name) => debug_name,
        None => return Err(ProfileError::MissingLibraryInfo { field: LibraryField::DebugName }),
    };
    let path = match info.path {
        Some(path) => path,
        None => return Err(ProfileError::MissingLibraryInfo { field: LibraryField::Path }),
    };
    let debug_path = match info.debug_path {
        Some(debug_path) => debug_path,
        None => return Err(ProfileError::MissingLibraryInfo { field: LibraryField::DebugPath }),
    };
    let debug_id = match info.debug_id {
        Some(debug_id) => debug_id,
        None => return Err(ProfileError::MissingLibraryInfo { field: LibraryField::DebugId }),
    };
    Ok(
        LibraryIdentity {
            name,
            debug_name,
            path,
            debug_path,
            debug_id,
            code_id: info.code_id,
            arch: info.arch,
        },
    )
}

} // verus!
