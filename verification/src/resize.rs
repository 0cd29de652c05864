//! Surface configuration: the swapchain format chosen among those the
//! surface supports, and window resizes requested by the window thread and
//! applied once by the render thread.

use vstd::prelude::*;

verus! {

/// A requested surface size that the render thread has not applied yet.
/// A zero dimension means that nothing is pending.
pub struct PendingResize {
    width: u32,
    height: u32,
}

/// The size stored for a request: each dimension at least 1.
pub open spec fn requested_size(width: u32, height: u32) -> (u32, u32) {
    (if width == 0 { 1u32 } else { width }, if height == 0 { 1u32 } else { height })
}

/// What applying the pending size `p` to a surface of size `current` does:
/// the new size when one is pending and it differs from the current one.
pub open spec fn resize_outcome(p: (u32, u32), current: (u32, u32)) -> Option<(u32, u32)> {
    if p.0 == 0 || p.1 == 0 || p == current {
        None
    } else {
        Some(p)
    }
}

impl View for PendingResize {
    type V = (u32, u32);

    closed spec fn view(&self) -> (u32, u32) {
        (self.width, self.height)
    }
}

impl PendingResize {
    /// Nothing pending.
    pub fn new() -> (r: Self)
        ensures
            r@ == (0u32, 0u32),
    {
        PendingResize { width: 0, height: 0 }
    }

    /// Record a requested size; a zero dimension is raised to 1, and a later
    /// request replaces an earlier one.
    pub fn request(&mut self, width: u32, height: u32)
        ensures
            final(self)@ == requested_size(width, height),
    {
        self.width = if width == 0 {
            1
        } else {
            width
        };
        self.height = if height == 0 {
            1
        } else {
            height
        };
    }

    /// Take the pending size: the size to configure the surface with, when a
    /// size is pending that differs from `current`. Nothing stays pending.
    pub fn take(&mut self, current: (u32, u32)) -> (r: Option<(u32, u32)>)
        ensures
            r == resize_outcome(old(self)@, current),
            final(self)@ == (0u32, 0u32),
    {
        let w = self.width;
        let h = self.height;
        self.width = 0;
        self.height = 0;
        if w == 0 || h == 0 {
            return None;
        }
        if w == current.0 && h == current.1 {
            return None;
        }
        Some((w, h))
    }
}

/// Position of the swapchain format among the supported ones (given by
/// whether each is an sRGB format): the first non-sRGB format, so that
/// colours are composited as stored, else the first format.
pub fn swapchain_format_index(is_srgb: &[bool]) -> (r: usize)
    requires
        is_srgb@.len() > 0,
    ensures
        r < is_srgb@.len(),
        forall|j: int| 0 <= j < r ==> is_srgb@[j],
        !is_srgb@[r as int] || forall|j: int| 0 <= j < is_srgb@.len() ==> is_srgb@[j],
        (forall|j: int| 0 <= j < is_srgb@.len() ==> is_srgb@[j]) ==> r == 0,
{
    let mut i: usize = 0;
    while i < is_srgb.len()
        invariant
            i <= is_srgb@.len(),
            forall|j: int| 0 <= j < i ==> is_srgb@[j],
        decreases is_srgb@.len() - i,
    {
        if !is_srgb[i] {
            return i;
        }
        i = i + 1;
    }
    0
}

/// A request is applied exactly once: the first take after it yields the
/// requested size (each dimension at least 1) unless the surface already has
/// that size, and a second take yields nothing.
pub proof fn lemma_resize_applied_once(width: u32, height: u32, current: (u32, u32), later: (u32, u32))
    ensures
        resize_outcome(requested_size(width, height), current) == (if requested_size(width, height)
            == current {
            None
        } else {
            Some(requested_size(width, height))
        }),
        resize_outcome((0u32, 0u32), later) is None,
{
}

} // verus!
