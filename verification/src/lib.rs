//! Core of a personal archive for tracking channel and playlist metadata over
//! time: timestamp-keyed value series, video aggregates, keyed collections,
//! and a multi-archive manager, together with the stable on-disk text form.

use vstd::prelude::*;

pub mod api;
pub mod archive;
pub mod codec;
mod clock;
pub mod date;
pub mod elements;
pub mod errors;
pub mod ids;
pub mod images;
pub mod manager;
pub mod note;
pub mod numtext;
pub mod report;
pub mod strutil;
pub mod video;
pub mod wire;

verus! {

/// Version of the on-disk format that this crate reads and writes.
pub const VERSION_COMPAT: u32 = 3;

/// The format version this build of the crate is compatible with.
pub fn version_compat() -> (v: u32)
    ensures
        v == VERSION_COMPAT,
{
    VERSION_COMPAT
}

} // verus!
