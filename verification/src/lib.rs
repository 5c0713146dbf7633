//! A structural three-way merge engine for STEP-style entity-exchange files
//! (ISO-10303 / IFC text files): given a common ancestor and two
//! independently edited descendants, it produces a single merged entity set,
//! reporting conflicts instead of silently corrupting cross-references.

pub mod lines;
pub mod merge;
pub mod num;
pub mod refs;
pub mod store;
pub mod text;
pub mod tokenizer;

use vstd::prelude::*;

verus! {

/// Shifts an entity id above `max` upward by `offset`; ids at or below `max`
/// are stable identities from the ancestor and are left alone. An id whose
/// shifted value would not fit in `usize` is also left alone.
pub open spec fn spec_add_offset(id: usize, max: usize, offset: usize) -> usize {
    if id > max && id + offset <= usize::MAX {
        (id + offset) as usize
    } else {
        id
    }
}

/// Renumbering rule for one id: ids above the ancestor's maximum move up by
/// `offset`, ids inside the ancestor's range stay put.
pub fn add_offset(id: usize, max: usize, offset: usize) -> (r: usize)
    ensures
        r == spec_add_offset(id, max, offset),
{
    if id > max {
        match id.checked_add(offset) {
            Some(shifted) => shifted,
            None => id,
        }
    } else {
        id
    }
}

} // verus!
