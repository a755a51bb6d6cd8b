//! The text writer's bookkeeping over the boot framebuffer.
//!
//! Rasterising glyphs into pixels is outside this library; the writer
//! model keeps the geometry the renderer needs and the cursor state the
//! kernel manipulates. The byte stream handed to the writer is what the
//! syscall layer accounts for.
use vstd::prelude::*;

verus! {

/// Geometry and cursor state of the framebuffer text writer.
#[derive(Clone, Copy, Debug, PartialEq, Eq, Structural)]
pub struct Writer {
    pub width: usize,
    pub height: usize,
    pub stride: usize,
    pub cursor: usize,
    pub line: usize,
}

impl Writer {
    /// A writer over a fresh framebuffer, cursor at the origin.
    pub fn new(width: usize, height: usize, stride: usize) -> (r: Writer)
        ensures
            r.width == width,
            r.height == height,
            r.stride == stride,
            r.cursor == 0,
            r.line == 0,
    {
        Writer { width, height, stride, cursor: 0, line: 0 }
    }

    /// Returns the cursor to the start of the line.
    pub fn reset(&mut self)
        ensures
            final(self).cursor == 0,
            final(self).width == old(self).width,
            final(self).height == old(self).height,
            final(self).stride == old(self).stride,
            final(self).line == old(self).line,
    {
        self.cursor = 0;
    }
}

/// Sets up the writer for the boot framebuffer.
pub fn initialize(width: usize, height: usize, stride: usize) -> (r: Writer)
    ensures
        r == (Writer { width, height, stride, cursor: 0, line: 0 }),
{
    Writer::new(width, height, stride)
}

} // verus!
