use vstd::prelude::*;

verus! {

/// The number of pipeline layouts kept: one for each count of push constant words from `0` to `4`, the most the
/// Vulkan specification guarantees.
pub const BINDLESS_PIPELINE_LAYOUT_PUSH_CONSTANT_WORDS: u32 = 5;

/// The number of `u32` push constant words a parameter of `size` bytes takes.
pub fn push_constant_words(size: u32) -> (r: u32)
    ensures
        r == (size + 3) / 4,
        r * 4 >= size,
        r * 4 < size + 4,
{
    let words = size / 4;
    if size % 4 == 0 {
        words
    } else {
        words + 1
    }
}

/// The pipeline layout for `push_constant_words` words of push constants: its index among the kept layouts, or
/// `None` when the parameter is too large for the kept layouts.
pub fn pipeline_layout_index(push_constant_words: u32) -> (r: Option<usize>)
    ensures
        push_constant_words < BINDLESS_PIPELINE_LAYOUT_PUSH_CONSTANT_WORDS ==> r == Some(push_constant_words as usize),
        push_constant_words >= BINDLESS_PIPELINE_LAYOUT_PUSH_CONSTANT_WORDS ==> r == None::<usize>,
{
    if push_constant_words < BINDLESS_PIPELINE_LAYOUT_PUSH_CONSTANT_WORDS {
        Some(push_constant_words as usize)
    } else {
        None
    }
}

/// The size in bytes of the push constant range of the kept layout at `index`: none for the layout without push
/// constants, `4 * index` otherwise.
pub fn push_constant_range_size(index: u32) -> (r: Option<u32>)
    requires
        index < BINDLESS_PIPELINE_LAYOUT_PUSH_CONSTANT_WORDS,
    ensures
        index == 0 ==> r == None::<u32>,
        index > 0 ==> r == Some((index * 4) as u32),
{
    if index == 0 {
        None
    } else {
        Some(index * 4)
    }
}

} // verus!
