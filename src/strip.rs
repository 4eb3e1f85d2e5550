//! Decoded strips as plain pixel grids.
use vstd::prelude::*;

verus! {

/// One strip: `width` x `height` pixels, row-major, each an 8-bit RGB triple.
pub struct Strip {
    pub width: usize,
    pub height: usize,
    pub pixels: Vec<[u8; 3]>,
}

impl Strip {
    /// The pixel buffer holds exactly `width * height` pixels.
    pub open spec fn wf(&self) -> bool {
        self.pixels@.len() == self.width * self.height
    }

    /// Builds a strip, or `None` when the buffer does not hold exactly
    /// `width * height` pixels.
    pub fn new(width: usize, height: usize, pixels: Vec<[u8; 3]>) -> (r: Option<Strip>)
        ensures
            r is Some <==> pixels@.len() == width * height,
            r matches Some(s) ==> s.wf() && s.width == width && s.height == height && s.pixels@
                == pixels@,
    {
        let len = pixels.len();
        match width.checked_mul(height) {
            Some(n) => {
                if n == len {
                    Some(Strip { width, height, pixels })
                } else {
                    None
                }
            },
            None => None,
        }
    }
}

} // verus!
