//! Index-stable storage: handles that survive unrelated removals, a
//! tombstone vector with an embedded free list, and on-demand compaction.

pub mod compaction;
pub mod eids;
pub mod index;
pub mod min_heap;
pub mod model;
pub mod sequence;
pub mod slot;
pub mod tomb_vec;

pub use eids::Eids;
pub use index::StableIndex;
pub use sequence::Sequence;
pub use slot::{find_start_of_trailing_dead_slots, Slot};
pub use tomb_vec::{Tec, TecError};
