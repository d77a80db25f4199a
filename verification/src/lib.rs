//! A size profiler: every byte of a binary becomes part of one weighted
//! sample of a profile, attributed to the stack of scopes that the byte
//! belongs to (section, source path, function, inlined functions). Loaded in
//! a flame graph viewer, the profile shows what takes up the space.
//!
//! The bytes are walked in file order. Bytes of code are looked up one by
//! one by the caller, who hands the results in; consecutive bytes with the
//! same result become one sample. Sections that hold no code become one
//! sample each, and so does every stretch of bytes between sections or
//! members. The samples lie end to end from the first byte of the file to
//! the last.
//!
//! - [`container`]: a whole file, fat or not ([`container::FileScan`]).
//! - [`driver`]: one binary ([`driver::BinaryScan`], [`driver::process_binary`]).
//! - [`emitter`]: one section, and the coalescing of its bytes into runs.
//! - [`resolver`]: the stack of an address, and the cache of path stacks.
//! - [`paths`]: the cumulative prefixes of a source path.
//! - [`sections`]: the sections of a binary, in file order.
//! - [`binary`]: what is read out of the bytes of a file.
//! - [`library`]: what identifies a binary.
//! - [`samples`]: samples, and what it means that they account for every byte.
//! - [`sink`]: the profile that receives the samples.
//! - [`symbols`]: what a lookup gives.
//! - [`text`], [`error`]: helpers.

pub mod binary;
pub mod container;
pub mod driver;
pub mod emitter;
pub mod error;
pub mod library;
pub mod paths;
pub mod resolver;
pub mod samples;
pub mod sections;
pub mod sink;
pub mod symbols;
pub mod text;
