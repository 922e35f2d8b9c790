//! RGB rasters, eight bits per channel, and their nearest-neighbour resizing.
use vstd::prelude::*;

verus! {

/// Number of channels of a pixel: red, green and blue.
pub const CHANNELS: usize = 3;

/// An RGB image, eight bits per channel, stored row by row with the three
/// channels of each pixel side by side.
pub struct Raster {
    pub width: u32,
    pub height: u32,
    pub data: Vec<u8>,
}

/// Index of channel `c` of the pixel at column `x`, row `y`, in a buffer of
/// rows `width` pixels wide.
pub open spec fn channel_index(width: nat, x: nat, y: nat, c: nat) -> nat {
    (y * width + x) * 3 + c
}

impl Raster {
    /// The buffer holds exactly three bytes for each pixel.
    pub open spec fn wf(&self) -> bool {
        self.data@.len() == self.width * self.height * 3
    }

    /// An all-black raster of the given size.
    pub fn new(width: u32, height: u32) -> (r: Raster)
        requires
            width * height * 3 <= usize::MAX,
        ensures
            r.wf(),
            r.width == width,
            r.height == height,
            forall|i: int| 0 <= i < r.data@.len() ==> r.data@[i] == 0,
    {
        let len: usize = width as usize * height as usize * CHANNELS;
        let mut data: Vec<u8> = Vec::new();
        while data.len() < len
            invariant
                data@.len() <= len,
                forall|i: int| 0 <= i < data@.len() ==> data@[i] == 0,
            decreases len - data@.len(),
        {
            data.push(0);
        }
        Raster { width, height, data }
    }

    /// A raster over a row-major RGB buffer, or `None` when the buffer does not
    /// hold exactly three bytes for each pixel.
    pub fn from_rgb(width: u32, height: u32, data: Vec<u8>) -> (r: Option<Raster>)
        ensures
            r is Some <==> data@.len() == width * height * 3,
            r is Some ==> r->0.wf() && r->0.width == width && r->0.height == height
                && r->0.data@ == data@,
    {
        assert(width as u128 * height as u128 <= 0xffff_ffffu128 * 0xffff_ffffu128)
            by (nonlinear_arith);
        if data.len() as u128 == width as u128 * height as u128 * 3 {
            Some(Raster { width, height, data })
        } else {
            None
        }
    }

    /// Channel `c` (0 red, 1 green, 2 blue) of the pixel at column `x`, row `y`.
    pub fn get_channel(&self, x: u32, y: u32, c: usize) -> (r: u8)
        requires
            self.wf(),
            x < self.width,
            y < self.height,
            c < 3,
        ensures
            r == self.data@[channel_index(self.width as nat, x as nat, y as nat, c as nat) as int],
    {
        proof {
            assert((y * self.width + x) * 3 + c < self.width * self.height * 3) by (nonlinear_arith)
                requires
                    x < self.width,
                    y < self.height,
                    c < 3,
            ;
            assert(y * self.width <= (y * self.width + x) * 3) by (nonlinear_arith);
        }
        let len = self.data.len();
        assert((y * self.width + x) * 3 + c < len);
        let row: usize = y as usize * self.width as usize;
        let px: usize = row + x as usize;
        self.data[px * CHANNELS + c]
    }

    /// A copy of the raster.
    pub fn copy(&self) -> (r: Raster)
        ensures
            r.width == self.width,
            r.height == self.height,
            r.data@ == self.data@,
    {
        let data = self.data.clone();
        assert(data@ =~= self.data@);
        Raster { width: self.width, height: self.height, data }
    }
}

/// The pixels that nearest-neighbour resampling of a `width` by `height` RGB
/// buffer to `new_width` by `new_height` gives.
pub uninterp spec fn nearest_resized(
    width: nat,
    height: nat,
    data: Seq<u8>,
    new_width: nat,
    new_height: nat,
) -> Seq<u8>;

/// Relies on `image::imageops::resize` with `FilterType::Nearest`: it returns a
/// `new_width` by `new_height` buffer, and an exact copy of the input when the
/// size does not change.
#[verifier::external_body]
pub(crate) fn resize_nearest(
    width: u32,
    height: u32,
    data: &Vec<u8>,
    new_width: u32,
    new_height: u32,
) -> (r: Vec<u8>)
    requires
        data@.len() == width * height * 3,
        new_width * new_height * 4 <= usize::MAX,
        width * new_height * 4 <= usize::MAX,
    ensures
        r@ == nearest_resized(width as nat, height as nat, data@, new_width as nat, new_height as nat),
        r@.len() == new_width * new_height * 3,
        width == new_width && height == new_height ==> r@ == data@,
{
    let img = image::RgbImage::from_raw(width, height, data.clone()).unwrap();
    image::imageops::resize(&img, new_width, new_height, image::imageops::FilterType::Nearest)
        .into_raw()
}

} // verus!
