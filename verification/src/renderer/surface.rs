//! Decisions about the window surface and the render targets sized to it:
//! which of the formats the surface supports to render into, and when a new
//! window size is acted on.

use vstd::prelude::*;

verus! {

/// Some supported format before position `i` is sRGB.
pub open spec fn srgb_before(srgb: Seq<bool>, i: int) -> bool {
    exists|j: int| 0 <= j < i && srgb[j]
}

/// Pick the surface format, given for each supported format (in the order
/// the surface lists them) whether it is sRGB: the first sRGB one, else the
/// first one; `None` when the surface supports no format at all.
pub fn pick_surface_format(srgb: &Vec<bool>) -> (r: Option<usize>)
    ensures
        r is None <==> srgb@.len() == 0,
        r matches Some(i) ==> i < srgb@.len() && !srgb_before(srgb@, i as int),
        r matches Some(i) ==> (srgb@[i as int] || (i == 0 && !srgb_before(srgb@, srgb@.len() as int))),
{
    let mut i: usize = 0;
    while i < srgb.len()
        invariant
            i <= srgb@.len(),
            !srgb_before(srgb@, i as int),
        decreases srgb@.len() - i,
    {
        if srgb[i] {
            return Some(i);
        }
        i = i + 1;
    }
    if srgb.len() == 0 {
        None
    } else {
        Some(0)
    }
}

/// The size the surface is configured with: each side at least one pixel.
pub fn surface_extent(width: u32, height: u32) -> (r: (u32, u32))
    ensures
        r.0 == if width == 0 { 1 } else { width },
        r.1 == if height == 0 { 1 } else { height },
{
    (if width == 0 { 1 } else { width }, if height == 0 { 1 } else { height })
}

/// Whether the surface is reconfigured for a new window size: not while the
/// window is minimized (either side zero).
pub fn accepts_resize(width: u32, height: u32) -> (b: bool)
    ensures
        b == (width != 0 && height != 0),
{
    width != 0 && height != 0
}

/// Whether depth and multisample targets sized `current` are rebuilt for a
/// new `size`: when the size is usable and actually changed.
pub fn targets_need_rebuild(size: (u32, u32), current: (u32, u32)) -> (b: bool)
    ensures
        b == (size.0 != 0 && size.1 != 0 && (size.0 != current.0 || size.1 != current.1)),
{
    size.0 != 0 && size.1 != 0 && (size.0 != current.0 || size.1 != current.1)
}

} // verus!
