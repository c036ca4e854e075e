//! Identities of stored rows.

use vstd::prelude::*;

verus! {

/// The identity that the store assigns to a persisted row. One value, the
/// invalid identity, marks a row that was computed and cannot be addressed.
#[derive(Clone, Copy, Debug, PartialEq, Eq, Hash, Structural)]
pub struct RecordId {
    pub page_id: u32,
    pub slot_id: u16,
}

impl RecordId {
    /// The identity of rows that are not stored.
    pub open spec fn spec_invalid() -> RecordId {
        RecordId { page_id: 0xffff_ffff, slot_id: 0xffff }
    }

    /// The position of this identity in identity order: pages first, then
    /// slots within a page.
    pub open spec fn rank(self) -> int {
        self.page_id * 0x1_0000 + self.slot_id
    }

    /// An identity from its page and slot.
    pub fn new(page_id: u32, slot_id: u16) -> (r: RecordId)
        ensures
            r == (RecordId { page_id, slot_id }),
    {
        RecordId { page_id, slot_id }
    }

    /// The identity of rows that are not stored.
    pub fn invalid() -> (r: RecordId)
        ensures
            r == RecordId::spec_invalid(),
    {
        RecordId { page_id: 0xffff_ffff, slot_id: 0xffff }
    }

    /// Whether this identity addresses a stored row.
    pub fn is_valid(&self) -> (r: bool)
        ensures
            r == (*self != RecordId::spec_invalid()),
    {
        !(self.page_id == 0xffff_ffff && self.slot_id == 0xffff)
    }

    /// Whether this identity comes strictly before another in identity order.
    pub fn precedes(&self, other: &RecordId) -> (r: bool)
        ensures
            r == (self.rank() < other.rank()),
    {
        self.page_id < other.page_id || (self.page_id == other.page_id && self.slot_id
            < other.slot_id)
    }
}

/// Identities with the same rank are the same identity.
pub proof fn lemma_rank_injective(a: RecordId, b: RecordId)
    requires
        a.rank() == b.rank(),
    ensures
        a == b,
{
}

} // verus!
