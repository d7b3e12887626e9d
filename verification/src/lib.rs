//! Approval checking for parachain candidates: the persisted entries that
//! record assignments and approval votes, the walk over assignment tranches
//! that decides how many of them are required, and the approval predicate.

pub mod bitfield;
pub mod persisted_entries;
pub mod approval_checking;
pub mod laws;
pub mod store;
pub mod time;
