//! Parser and editor for The Alters (11 bit studios) save files.
//!
//! The format was reverse-engineered from real saves. Each module documents
//! the layout it reads and the contracts state exactly which bytes a parse
//! looks at and which bytes an edit writes.
use vstd::prelude::*;

pub mod alters;
pub mod alters_laws;
pub mod bytes;
pub mod edit_laws;
pub mod editor;
pub mod editor_laws;
pub mod elb;
pub mod error;
pub mod injection;
pub mod injection_containers;
pub mod items;
pub mod meta;
pub mod reparse;
pub mod research;
pub mod research_laws;
pub mod resources;
pub mod roundtrip;
pub mod sav;
pub mod time;
pub mod time_laws;
pub mod verify;
pub mod search;
pub mod text;


verus! {

/// Byte lengths a buffer can have: Rust never allocates more than
/// `isize::MAX` bytes for one slice or vector, on any target.
pub open spec fn fits_address_space(len: int) -> bool {
    len <= isize::MAX
}

/// Whether a buffer of `len` bytes is within [`fits_address_space`] (it
/// always is for a slice that exists).
pub fn within_address_space(len: usize) -> (r: bool)
    ensures
        r == fits_address_space(len as int),
{
    len <= isize::MAX as usize
}

/// Whether `extra` more bytes than `len` can still be held in one buffer.
pub fn has_room(len: usize, extra: usize) -> (r: bool)
    ensures
        r == fits_address_space(len + extra),
{
    (len as u128) + (extra as u128) <= isize::MAX as u128
}

/// The room [`verify::verify`] needs beyond a body to inject a stack.
pub const INJECTION_ROOM: usize = 256;

} // verus!
