//! Choosing a device memory type for an allocation.
use vstd::prelude::*;

verus! {

/// Memory type `index` is allowed by the requirement's `memory_type_bits`
/// and has every property in `flags`.
pub open spec fn memory_type_fits(memory_type_bits: u32, property_flags: u32, flags: u32, index: int) -> bool {
    &&& 0 <= index < 32
    &&& (1u32 << (index as u32)) & memory_type_bits != 0
    &&& property_flags & flags == flags
}

/// Finds the first of the device's memory types, among the first
/// `memory_type_count` of `memory_type_flags` (their property flags), that
/// the requirement's `memory_type_bits` allows and that has every property
/// in `flags`.
pub fn find_memorytype_index(
    memory_type_bits: u32,
    memory_type_flags: &[u32],
    memory_type_count: u32,
    flags: u32,
) -> (r: Option<u32>)
    requires
        memory_type_count <= memory_type_flags@.len(),
        memory_type_flags@.len() <= 32,
    ensures
        match r {
            Some(i) => {
                &&& i < memory_type_count
                &&& memory_type_fits(memory_type_bits, memory_type_flags@[i as int], flags, i as int)
                &&& forall|j: int|
                    0 <= j < i ==> !memory_type_fits(
                        memory_type_bits,
                        #[trigger] memory_type_flags@[j],
                        flags,
                        j,
                    )
            },
            None => forall|j: int|
                0 <= j < memory_type_count ==> !memory_type_fits(
                    memory_type_bits,
                    #[trigger] memory_type_flags@[j],
                    flags,
                    j,
                ),
        },
{
    let count = memory_type_count as usize;
    let mut index: usize = 0;
    while index < count
        invariant
            count == memory_type_count,
            count <= memory_type_flags@.len() <= 32,
            index <= count,
            forall|j: int|
                0 <= j < index ==> !memory_type_fits(
                    memory_type_bits,
                    #[trigger] memory_type_flags@[j],
                    flags,
                    j,
                ),
        decreases count - index,
    {
        let bit = 1u32 << (index as u32);
        if bit & memory_type_bits != 0 && memory_type_flags[index] & flags == flags {
            return Some(index as u32);
        }
        index = index + 1;
    }
    None
}

} // verus!
