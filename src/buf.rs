use vstd::prelude::*;

verus! {

/// A presentation surface that receives `0x00RRGGBB` pixels with the origin
/// at the top-left, implemented outside the library for a platform window.
pub trait Buffer {
    fn fill(&mut self, color: u32);

    fn plot_pixel(&mut self, x: u16, y: u16, color: u32);

    fn flush(&mut self);

    fn resize(&mut self, x: u16, y: u16);
}

} // verus!
