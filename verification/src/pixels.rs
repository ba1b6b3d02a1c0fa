//! Raw image data.
use ndarray::{Array, IxDyn};
use vstd::prelude::*;

verus! {

/// A position in an image.
#[derive(Clone, Copy, Debug, PartialEq, Eq, Structural)]
pub struct Point {
    pub x: usize,
    pub y: usize,
}

/// The signed samples of an image, held in an n-dimensional array.
#[verifier::external_body]
#[derive(Debug)]
pub struct PixelGrid {
    samples: Array<i16, IxDyn>,
}

/// The lengths of the axes of the array.
pub uninterp spec fn grid_axes(g: PixelGrid) -> Seq<usize>;

/// The samples of an array with two axes, by their two indices.
pub uninterp spec fn grid_samples(g: PixelGrid) -> Map<(usize, usize), i16>;

impl PixelGrid {
    /// `ndarray::Array::zeros` of shape 0 x 0: an array with two axes of length
    /// zero and nothing in it.
    #[verifier::external_body]
    pub(crate) fn empty() -> (r: PixelGrid)
        ensures
            grid_axes(r) == seq![0usize, 0usize],
            grid_samples(r) == (Map::<(usize, usize), i16>::empty()),
    {
        PixelGrid { samples: Array::zeros(IxDyn(&[0, 0])) }
    }

    /// `ndarray::Array::from_shape_vec` in the standard layout: the samples fill
    /// the array with the second index moving fastest. With both lengths above
    /// zero the call fails exactly when there are not `width * height` samples.
    #[verifier::external_body]
    fn shaped(width: usize, height: usize, samples: Vec<i16>) -> (r: Option<PixelGrid>)
        requires
            width > 0,
            height > 0,
        ensures
            r is Some <==> samples@.len() == width * height,
            r matches Some(g) ==> {
                &&& grid_axes(g) == seq![width, height]
                &&& forall|i: usize, j: usize|
                    i < width && j < height ==> #[trigger] grid_samples(g)[(i, j)] == samples@[i
                        * height + j]
            },
    {
        match Array::from_shape_vec(IxDyn(&[width, height]), samples) {
            Ok(samples) => Some(PixelGrid { samples }),
            Err(_) => None,
        }
    }

    /// `ndarray::Array` indexed by a pair: the sample at these indices. The
    /// array has two axes and the indices are within them, as the call panics
    /// otherwise.
    #[verifier::external_body]
    pub(crate) fn sample(&self, i: usize, j: usize) -> (r: i16)
        requires
            grid_axes(*self).len() == 2,
            i < grid_axes(*self)[0],
            j < grid_axes(*self)[1],
        ensures
            r == grid_samples(*self)[(i, j)],
    {
        self.samples[[i, j]]
    }

    /// The samples of an image, column by column; nothing where the image has no
    /// pixels or there are not as many samples as pixels.
    pub fn from_samples(width: usize, height: usize, samples: Vec<i16>) -> (r: Option<PixelGrid>)
        ensures
            r is Some <==> width > 0 && height > 0 && samples@.len() == width * height,
            r matches Some(g) ==> {
                &&& grid_axes(g) == seq![width, height]
                &&& forall|i: usize, j: usize|
                    i < width && j < height ==> #[trigger] grid_samples(g)[(i, j)] == samples@[i
                        * height + j]
            },
    {
        if width == 0 || height == 0 {
            return None;
        }
        PixelGrid::shaped(width, height, samples)
    }

    /// The array spans an image of this size.
    pub open spec fn covers(self, width: int, height: int) -> bool {
        &&& grid_axes(self).len() == 2
        &&& width <= grid_axes(self)[0]
        &&& height <= grid_axes(self)[1]
    }

    /// The brightness of a pixel: the samples are brightnesses shifted down by
    /// half of their range.
    pub open spec fn level(self, x: int, y: int) -> int {
        grid_samples(self)[(x as usize, y as usize)] + 0x8000
    }

    /// The brightness of a pixel.
    pub fn brightness(&self, x: usize, y: usize) -> (r: u16)
        requires
            self.covers(x + 1, y + 1),
        ensures
            r == self.level(x as int, y as int),
    {
        (self.sample(x, y) as i32 + 0x8000) as u16
    }
}

/// The brightness of a pixel is its sample with half of the range added, so that
/// the darkest sample is zero and the brightest one all that sixteen bits hold.
pub proof fn samples_are_shifted_brightnesses(g: PixelGrid, x: usize, y: usize)
    ensures
        g.level(x as int, y as int) == grid_samples(g)[(x, y)] + 32768,
        0 <= g.level(x as int, y as int) <= 65535,
{
}

} // verus!
