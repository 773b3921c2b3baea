use vstd::prelude::*;

pub mod ab;
pub mod atomic_slots;
pub mod queue;
pub mod timestamp;
pub mod rc_slots;
pub mod frame_in_flight;
pub mod descriptor;
pub mod table_id;
pub mod descriptor_counts;
pub mod range_set;
pub mod table;
pub mod flush;
pub mod pipeline_layout;
pub mod entry_point;
pub mod desc_derive;

verus! {

} // verus!
