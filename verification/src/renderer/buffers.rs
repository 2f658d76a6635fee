//! Sizing of streamed GPU buffers: buffers are reused across frames and only
//! reallocated when a frame outgrows them, then grown to the next power of
//! two so reallocations stay rare.

use vstd::prelude::*;

verus! {

/// `r` is a power of two.
pub open spec fn is_power_of_two(r: int) -> bool
    decreases r,
{
    if r == 1 {
        true
    } else if r >= 2 && r % 2 == 0 {
        is_power_of_two(r / 2)
    } else {
        false
    }
}

/// The smallest power of two that is at least `n` (one for zero).
pub fn next_power_of_two(n: u64) -> (r: u64)
    requires
        n <= 0x8000_0000_0000_0000,
    ensures
        is_power_of_two(r as int),
        r >= n,
        r == 1 || r / 2 < n,
{
    let mut p: u64 = 1;
    while p < n
        invariant
            is_power_of_two(p as int),
            1 <= p,
            p == 1 || p / 2 < n,
            n <= 0x8000_0000_0000_0000,
        decreases u64::MAX - p,
    {
        p = p * 2;
        proof {
            assert((p as int) / 2 == p / 2);
            assert(is_power_of_two(p as int));
        }
    }
    p
}

/// The capacity a streamed buffer must have to take `needed` elements: its
/// current `capacity` when that suffices, else `needed` rounded up to the
/// next power of two.
pub fn grown_capacity(capacity: u64, needed: u64) -> (r: u64)
    requires
        needed <= 0x8000_0000_0000_0000,
    ensures
        needed <= capacity ==> r == capacity,
        needed > capacity ==> is_power_of_two(r as int) && r >= needed && (r == 1 || r / 2 < needed),
        r >= needed,
{
    if needed > capacity {
        next_power_of_two(needed)
    } else {
        capacity
    }
}

/// `size` rounded up to the next multiple of `alignment`.
pub open spec fn round_up(size: int, alignment: int) -> int {
    (size + alignment - 1) / alignment * alignment
}

/// The stride of one element in a buffer read at dynamic offsets: the
/// element `size` rounded up to the device's offset `alignment`.
pub fn aligned_stride(size: u64, alignment: u64) -> (r: u64)
    requires
        alignment > 0,
        round_up(size as int, alignment as int) <= u64::MAX,
    ensures
        r == round_up(size as int, alignment as int),
        r % alignment == 0,
        size <= r < size + alignment,
{
    let base = size / alignment;
    let q = if size % alignment == 0 {
        base
    } else {
        assert(base < u64::MAX) by (nonlinear_arith)
            requires
                alignment > 1,
                base == size / alignment,
                size <= u64::MAX,
        ;
        base + 1
    };
    proof {
        let s = size as int;
        let a = alignment as int;
        assert(q == (s + a - 1) / a) by (nonlinear_arith)
            requires
                a > 0,
                s >= 0,
                q == s / a + if s % a == 0 { 0int } else { 1int },
        ;
        assert(q * a <= u64::MAX);
        assert(q * a % a == 0) by (nonlinear_arith)
            requires a > 0, q >= 0;
        assert(s <= q * a < s + a) by (nonlinear_arith)
            requires
                a > 0,
                s >= 0,
                q == (s + a - 1) / a,
        ;
    }
    q * alignment
}

/// How many vertices of a `len`-long slice are written into a dynamic mesh
/// whose buffer holds `capacity` vertices: the length, taken as a `u32`,
/// capped at the capacity. The rest are dropped.
pub fn vertices_to_write(len: usize, capacity: u32) -> (n: usize)
    ensures
        n == if (len as u32) < capacity {
            len as u32
        } else {
            capacity
        },
{
    let l = len as u32;
    if l < capacity {
        l as usize
    } else {
        capacity as usize
    }
}

} // verus!
