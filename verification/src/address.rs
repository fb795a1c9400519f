//! Absolute addresses: a base, an offset from it, and for the elements of an
//! array a number of steps.
use vstd::prelude::*;

verus! {

/// How far element `index` of an array lies from the array's first element.
/// The product of two 32-bit numbers: it always fits in 64 bits.
pub open spec fn element_offset(increment: u32, index: u32) -> nat {
    (increment as nat) * (index as nat)
}

/// The greatest distance of an array element from the first.
pub open spec fn max_element_offset() -> nat {
    0xffff_ffff * 0xffff_ffff
}

/// The distance of an array element fits in 64 bits.
pub proof fn lemma_element_offset_bound(increment: u32, index: u32)
    ensures
        element_offset(increment, index) <= max_element_offset(),
{
    assert((increment as nat) * (index as nat) <= 0xffff_ffff * 0xffff_ffff) by (nonlinear_arith)
        requires
            increment <= 0xffff_ffff,
            index <= 0xffff_ffff,
    ;
}

/// How far element `index` of an array lies from the first.
pub fn compute_element_offset(increment: u32, index: u32) -> (r: u64)
    ensures
        r == element_offset(increment, index),
{
    proof {
        lemma_element_offset_bound(increment, index);
    }
    (increment as u64) * (index as u64)
}

/// The address `base + offset + increment * index`, where it fits in 64
/// bits. The base is the absolute address of the enclosing node, so that
/// offsets add up along the way down.
pub open spec fn absolute_address(base: u64, offset: u32, increment: u32, index: u32) -> Option<
    u64,
> {
    let address = base + offset + element_offset(increment, index);
    if address <= u64::MAX {
        Some(address as u64)
    } else {
        None
    }
}

/// The absolute address of element `index` of an array at `offset` from
/// `base`; of a single node with `increment` and `index` 0. `None` when the
/// address would not fit in 64 bits.
pub fn compute_address(base: u64, offset: u32, increment: u32, index: u32) -> (r: Option<u64>)
    ensures
        r == absolute_address(base, offset, increment, index),
{
    let step = compute_element_offset(increment, index);
    match base.checked_add(offset as u64) {
        None => None,
        Some(start) => start.checked_add(step),
    }
}

} // verus!
