//! Pictures.
use image::{Rgb, RgbImage};
use vstd::prelude::*;

verus! {

/// A colour: red, green and blue.
#[derive(Clone, Copy, Debug, PartialEq, Eq, Structural)]
pub struct Colour {
    pub red: u8,
    pub green: u8,
    pub blue: u8,
}

/// A picture.
#[verifier::external_body]
#[derive(Debug)]
pub struct Picture {
    image: RgbImage,
}

/// The width and the height of a picture.
pub uninterp spec fn picture_size(p: Picture) -> (u32, u32);

/// The red, green and blue parts of the pixels of a picture.
pub uninterp spec fn picture_pixels(p: Picture) -> Map<(u32, u32), (u8, u8, u8)>;

/// Where a hollow circle of this radius has its pixels, seen from its centre.
pub uninterp spec fn circle_points(radius: int) -> Set<(int, int)>;

/// A hollow circle about a centre.
pub open spec fn circle(cx: int, cy: int, radius: int) -> spec_fn(int, int) -> bool {
    |x: int, y: int| circle_points(radius).contains((x - cx, y - cy))
}

impl Picture {
    pub open spec fn width(self) -> int {
        picture_size(self).0 as int
    }

    pub open spec fn height(self) -> int {
        picture_size(self).1 as int
    }

    pub open spec fn has(self, x: int, y: int) -> bool {
        0 <= x < self.width() && 0 <= y < self.height()
    }

    /// The colour of a pixel.
    pub open spec fn at(self, x: int, y: int) -> Colour {
        let (red, green, blue) = picture_pixels(self)[(x as u32, y as u32)];
        Colour { red, green, blue }
    }

    /// The picture is this wide and high, and has these colours.
    pub open spec fn shows(
        self,
        width: int,
        height: int,
        look: spec_fn(int, int) -> Colour,
    ) -> bool {
        &&& self.width() == width
        &&& self.height() == height
        &&& forall|x: int, y: int| self.has(x, y) ==> #[trigger] self.at(x, y) == look(x, y)
    }

    /// The picture is `before` with the shape painted over it.
    pub open spec fn painted(
        self,
        before: Picture,
        shape: spec_fn(int, int) -> bool,
        colour: Colour,
    ) -> bool {
        &&& self.width() == before.width()
        &&& self.height() == before.height()
        &&& forall|x: int, y: int|
            self.has(x, y) ==> #[trigger] self.at(x, y) == (if shape(x, y) {
                colour
            } else {
                before.at(x, y)
            })
    }

    /// `image::ImageBuffer::from_pixel`: a picture all of one colour. It fits
    /// into memory, as the call panics otherwise.
    #[verifier::external_body]
    pub(crate) fn filled(width: u32, height: u32, colour: Colour) -> (r: Picture)
        requires
            3 * width * height <= isize::MAX,
        ensures
            r.shows(width as int, height as int, (|x: int, y: int| colour)),
    {
        let pixel = Rgb([colour.red, colour.green, colour.blue]);
        Picture { image: RgbImage::from_pixel(width, height, pixel) }
    }

    /// `image::ImageBuffer::put_pixel`: gives one pixel a colour. The pixel is
    /// one of the picture, as the call panics otherwise.
    #[verifier::external_body]
    pub(crate) fn put(&mut self, x: u32, y: u32, colour: Colour)
        requires
            old(self).has(x as int, y as int),
        ensures
            final(self).painted(
                *old(self),
                (|u: int, v: int| u == x && v == y),
                colour,
            ),
    {
        self.image.put_pixel(x, y, Rgb([colour.red, colour.green, colour.blue]));
    }

    /// `image::ImageBuffer::dimensions`: the width and the height.
    #[verifier::external_body]
    fn size(&self) -> (r: (u32, u32))
        ensures
            r == picture_size(*self),
    {
        self.image.dimensions()
    }

    /// `image::ImageBuffer::get_pixel`: the colour of one pixel. The pixel is
    /// one of the picture, as the call panics otherwise.
    #[verifier::external_body]
    fn get(&self, x: u32, y: u32) -> (r: Colour)
        requires
            self.has(x as int, y as int),
        ensures
            (r.red, r.green, r.blue) == picture_pixels(*self)[(x, y)],
    {
        let pixel = self.image.get_pixel(x, y);
        Colour { red: pixel.0[0], green: pixel.0[1], blue: pixel.0[2] }
    }

    /// `imageproc::drawing::draw_hollow_circle_mut`: paints those pixels of a
    /// circle that lie in the picture. Which pixels a circle has about its
    /// centre depends on the radius alone, and none is further from the centre
    /// than that, to either side. The sizes leave room for the sums that the
    /// call makes of them.
    #[verifier::external_body]
    pub(crate) fn hollow_circle(&mut self, cx: i32, cy: i32, radius: i32, colour: Colour)
        requires
            -0x2000_0000 <= cx <= 0x2000_0000,
            -0x2000_0000 <= cy <= 0x2000_0000,
            0 <= radius <= 0x1000_0000,
            old(self).width() <= i32::MAX,
            old(self).height() <= i32::MAX,
        ensures
            final(self).painted(
                *old(self),
                (|x: int, y: int| circle_points(radius as int).contains((x - cx, y - cy))),
                colour,
            ),
            forall|x: int, y: int|
                final(self).has(x, y) && (x < cx - radius || x > cx + radius || y < cy - radius || y
                    > cy + radius) ==> #[trigger] final(self).at(x, y) == old(self).at(x, y),
    {
        let pixel = Rgb([colour.red, colour.green, colour.blue]);
        imageproc::drawing::draw_hollow_circle_mut(&mut self.image, (cx, cy), radius, pixel);
    }

    /// `image::ImageBuffer::into_raw`: the parts of the pixels, row by row.
    #[verifier::external_body]
    fn raw(self) -> (r: Vec<u8>)
        ensures
            r@.len() == 3 * self.width() * self.height(),
            forall|x: int, y: int|
                self.has(x, y) ==> #[trigger] self.at(x, y) == (Colour {
                    red: r@[3 * (y * self.width() + x)],
                    green: r@[3 * (y * self.width() + x) + 1],
                    blue: r@[3 * (y * self.width() + x) + 2],
                }),
    {
        self.image.into_raw()
    }

    /// The width and the height.
    pub fn dimensions(&self) -> (r: (u32, u32))
        ensures
            r == picture_size(*self),
    {
        self.size()
    }

    /// The colour of a pixel, where the picture has it.
    pub fn pixel(&self, x: u32, y: u32) -> (r: Option<Colour>)
        ensures
            r == (if self.has(x as int, y as int) {
                Some(self.at(x as int, y as int))
            } else {
                None
            }),
    {
        let (width, height) = self.size();
        if x < width && y < height {
            Some(self.get(x, y))
        } else {
            None
        }
    }

    /// The parts of the pixels, row by row.
    pub fn into_bytes(self) -> (r: Vec<u8>)
        ensures
            r@.len() == 3 * self.width() * self.height(),
            forall|x: int, y: int|
                self.has(x, y) ==> #[trigger] self.at(x, y) == (Colour {
                    red: r@[3 * (y * self.width() + x)],
                    green: r@[3 * (y * self.width() + x) + 1],
                    blue: r@[3 * (y * self.width() + x) + 2],
                }),
    {
        self.raw()
    }
}

} // verus!
