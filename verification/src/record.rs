//! One input row.
use vstd::prelude::*;

verus! {

/// An input record: its index, its id, the text to group, and a name.
pub struct Record {
    pub idx: i32,
    pub id: i32,
    pub str: String,
    pub name: String,
}

} // verus!
