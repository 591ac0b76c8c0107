//! Which namespaces of a block payload a namespace proof can be made for.
use vstd::prelude::*;

verus! {

/// The byte range of a namespace in a payload.
pub struct NsRange {
    pub start: usize,
    pub end: usize,
}

/// Whether a namespace proof can be made for the namespace at `index`: it must
/// be one of the payload's namespaces, with a range that is not empty.
pub fn namespace_provable(ns_ranges: &Vec<NsRange>, index: usize) -> (provable: bool)
    ensures
        provable == (index < ns_ranges@.len() && ns_ranges@[index as int].start < ns_ranges@[index as int].end),
{
    if index >= ns_ranges.len() {
        // error: index out of bounds
        return false;
    }
    ns_ranges[index].start < ns_ranges[index].end
}

} // verus!
