//! FORM ILBM pictures.

pub mod body;
pub mod byterun1;
pub mod colour;
pub mod file;
pub mod image;
pub mod pixels;
pub mod planar;

use vstd::prelude::*;

pub use crate::ilbm::byterun1::{byterun1_decode_row, byterun1_encode_row};
pub use crate::ilbm::colour::{expand_ehb_palette, expand_ham_row, Camg};
pub use crate::ilbm::file::{encode_ilbm, parse_ilbm};
pub use crate::ilbm::image::IlbmImage;
pub use crate::ilbm::planar::{indices_to_planar_row, planar_row_to_indices};

verus! {

/// How a picture carries its transparency.
#[derive(Clone, Copy, Debug, PartialEq, Eq, Structural)]
pub enum Masking {
    /// Opaque picture.
    NoMask,
    /// An extra bitplane per scanline holds the mask.
    HasMask,
    /// One colour register is transparent.
    HasTransparentColor,
    /// The mask is found by a lasso fill from the picture's edge.
    Lasso,
}

/// How the rows of a BODY chunk are stored.
#[derive(Clone, Copy, Debug, PartialEq, Eq, Structural)]
pub enum Compression {
    /// Rows stored as they are.
    Uncompressed,
    /// Every row packed on its own with ByteRun1.
    ByteRun1,
}

/// `BMHD`, the bitmap header.
#[derive(Clone, Copy, Debug, PartialEq, Eq, Structural)]
pub struct Bmhd {
    /// Width in pixels.
    pub width: u16,
    /// Height in scanlines.
    pub height: u16,
    /// Horizontal position on the page.
    pub x_origin: i16,
    /// Vertical position on the page.
    pub y_origin: i16,
    /// Number of colour planes, the mask plane not counted.
    pub n_planes: u8,
    /// Transparency convention.
    pub masking: Masking,
    /// Row storage of the BODY chunk.
    pub compression: Compression,
    /// Unused byte, kept as it was read.
    pub pad: u8,
    /// Colour register that is transparent under `HasTransparentColor`.
    pub transparent_color: u16,
    /// Pixel aspect ratio, horizontal part.
    pub x_aspect: u8,
    /// Pixel aspect ratio, vertical part.
    pub y_aspect: u8,
    /// Page width in pixels.
    pub page_width: i16,
    /// Page height in scanlines.
    pub page_height: i16,
}

impl Bmhd {
    /// Bytes per bitplane row: whole 16-bit words that hold `width` bits.
    pub open spec fn row_len(self) -> int {
        (self.width + 15) / 16 * 2
    }

    /// Rows stored per scanline: one per colour plane, and the mask row if there is one.
    pub open spec fn rows_per_line(self) -> int {
        self.n_planes + if self.masking == Masking::HasMask { 1int } else { 0int }
    }

    /// Bytes per bitplane row.
    pub fn row_bytes(&self) -> (r: usize)
        ensures
            r == self.row_len(),
            r <= 0x2000,
            r % 2 == 0,
    {
        (self.width as usize + 15) / 16 * 2
    }

    /// Rows of the whole bitmap.
    pub fn row_count(&self) -> (r: usize)
        ensures
            r == self.height * self.rows_per_line(),
            r <= 0xFF_FF00,
    {
        let n: usize = self.planes_per_row();
        let h: usize = self.height as usize;
        assert(h * n <= 0xFFFF * 0x100) by (nonlinear_arith)
            requires
                h <= 0xFFFF,
                n <= 0x100,
        ;
        h * n
    }

    /// Rows stored per scanline.
    pub fn planes_per_row(&self) -> (r: usize)
        ensures
            r == self.rows_per_line(),
            r <= 256,
    {
        if self.masking == Masking::HasMask {
            self.n_planes as usize + 1
        } else {
            self.n_planes as usize
        }
    }
}

} // verus!
