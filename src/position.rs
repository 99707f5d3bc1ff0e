use vstd::prelude::*;

verus! {

/// The place of one record: a page number and the byte offset of its slot
/// within the page.
#[derive(Debug, Clone, Copy, PartialEq, Eq, Structural, Hash)]
pub struct DataPosition {
    pub page: u64,
    pub cell: u16,
}

} // verus!
