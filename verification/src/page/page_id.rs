//! Page identifiers.

use vstd::prelude::*;

verus! {

/// A page is identified by its tablespace (`space_id`, one `.ibd` file) and
/// its number within that tablespace (`page_no`, from 0).
#[derive(Debug, Clone, Copy, PartialEq, Eq, Hash, Structural)]
pub struct PageId {
    pub space_id: u32,
    pub page_no: u32,
}

impl PageId {
    pub fn new(space_id: u32, page_no: u32) -> (r: Self)
        ensures
            r.space_id == space_id,
            r.page_no == page_no,
    {
        PageId { space_id, page_no }
    }
}

} // verus!
