# vulkano_bindless

The CPU side of a bindless descriptor system for Vulkan, verified with Verus.

- `src/atomic_slots.rs`: a slot map that grows by blocks of doubling size; a value keeps its key.
- `src/queue.rs`: queues threaded through the slots of a slot map, which never hand out their last slot.
- `src/rc_slots.rs`: reference counted slots, reclaimed once every lock that may still read them is released.
- `src/timestamp.rs`: wrapping timestamps and their partial order.
- `src/table.rs`, `src/table_id.rs`, `src/ab.rs`: descriptor tables whose dropped slots wait for the frames of
  their half before they are reused with the next version.
- `src/range_set.rs`, `src/flush.rs`: sets of descriptor indices, the queue of slots waiting to be flushed, and the
  descriptor writes that flush them.
- `src/pipeline_layout.rs`: which pipeline layout a push constant parameter of a given size uses.
- `src/frame_in_flight.rs`: frames in flight, resources per frame and the frame manager's bookkeeping.
- `src/descriptor.rs`, `src/descriptor_counts.rs`: descriptor ids and references, buffer bounds, descriptor counts
  and errors.
- `src/entry_point.rs`, `src/desc_derive.rs`: the checks the shader macros make on the source they are given: the
  signature of a bindless entry point, the lifetime of a descriptor buffer, and how a descriptor struct's fields are
  carried in its transfer struct. Parsing goes through `syn`.
- `app/lib.rs`: the Vulkan calls around the library (device limits, descriptor pools, descriptor writes, pipeline layouts, fences)
  and the error types with their messages; `app/macros.rs`: the messages of the macro checks and the walk of field
  types for generic parameters.
