//! An astronomical image, its stars and its quality.
use crate::canvas::{circle, Colour, Picture};
use crate::config::AppConfig;
use crate::detect::{
    apart, apart_among, clear_of_edge, close, drop_crowded, find_peaks, is_peak,
    lemma_squared_distance, lonely_positions_remain, peaks, peaks_are_local_maxima,
    remaining_positions_are_apart, search_region, searched, squared_distance, within, Region,
};
use crate::double::{
    accumulated, at_most, below, mean, mean_of, of_int, place, product, quotient, ratio, saturated,
    sum, whole, Double,
};
use crate::draw::{draw_number_label, label};
use crate::lists::{keep, lemma_filter_all, lemma_filter_no_duplicates, lemma_filter_same};
use crate::metrics::{median_of, median_of_all};
use crate::order::{
    arrange, arranged, arranging_keeps_the_elements, arranging_sorts, lemma_arranged_same,
    lemma_same_members, preorder,
};
use crate::pixels::{grid_axes, PixelGrid, Point};
use crate::star::{star_at, Star};
use rand::RngExt;
use std::collections::HashSet;
use vstd::prelude::*;

verus! {

/// The image, what its header says, and what the analysis found.
#[derive(Debug)]
pub struct AstroImage {
    pub width: u32,
    pub height: u32,
    pub gain: u32,
    pub adu_e: Double,
    pub exp_t: Double,
    pub background_level_adu: u16,
    pub sigma_adu: u16,
    pub psf_size: usize,
    pub detected_stars: Vec<Star>,
    pub data: PixelGrid,
    pub fwhm: Double,
    pub quality: Double,
    pub quality_image: Option<Double>,
    pub quality_star_indices: Option<Vec<usize>>,
}

/// The brightness that the centre of a star has to exceed.
pub open spec fn least_level(background_adu: int, adu_e: Double, min_central_photons: int) -> int {
    background_adu + saturated(whole(product(adu_e, of_int(min_central_photons))), 0, 0xffff)
}

/// Whether the light around `p` can be measured.
pub open spec fn measurable(p: Point, data: PixelGrid, background_adu: int, psf_size: int) -> bool {
    &&& psf_size / 2 <= p.x
    &&& psf_size / 2 <= p.y
    &&& data.covers(p.x + psf_size / 2 + 1, p.y + psf_size / 2 + 1)
    &&& data.level(p.x as int, p.y as int) >= background_adu
}

/// The stars at these positions.
pub open spec fn measured(
    positions: Seq<Point>,
    data: PixelGrid,
    adu_e: Double,
    background_adu: int,
    psf_size: int,
) -> Seq<Star> {
    positions.map_values(|p: Point| star_at(p, data, adu_e, background_adu, psf_size))
}

/// A well-defined star that is bright enough, and not so bright that the sensor
/// saturates.
pub open spec fn acceptable(min_photons: int) -> spec_fn(Star) -> bool {
    |s: Star|
        !s.ill_defined && below(of_int(min_photons), s.magnitude) && below(
            s.brightest_pixel_adu,
            product(ratio(7, 10), of_int(0xffff)),
        )
}

/// How concentrated the light of each star is.
pub open spec fn concentrations(stars: Seq<Star>) -> Seq<Double> {
    stars.map_values(|s: Star| s.top_4_pixels_part)
}

/// A star that is at least half as concentrated as `median`.
pub open spec fn concentrated(median: Double) -> spec_fn(Star) -> bool {
    |s: Star| at_most(quotient(median, of_int(2)), s.top_4_pixels_part)
}

/// The stars that are at least half as concentrated as the median of them.
pub open spec fn sharp(stars: Seq<Star>) -> Seq<Star> {
    match median_of(concentrations(stars)) {
        Some(m) => stars.filter(concentrated(m)),
        None => stars,
    }
}

/// Stars by magnitude, the brightest first.
pub open spec fn by_magnitude() -> spec_fn(Star, Star) -> bool {
    |a: Star, b: Star| !below(a.magnitude, b.magnitude)
}

/// The stars among the peaks at these positions, the brightest first.
pub open spec fn stars_among(
    positions: Seq<Point>,
    data: PixelGrid,
    adu_e: Double,
    background_adu: int,
    psf_size: int,
    min_photons: int,
) -> Seq<Star> {
    arranged(
        sharp(
            measured(apart(positions, psf_size), data, adu_e, background_adu, psf_size).filter(
                acceptable(min_photons),
            ),
        ),
        by_magnitude(),
    )
}

proof fn lemma_apart_measurable(
    s: Seq<Point>,
    n: int,
    data: PixelGrid,
    background_adu: int,
    psf_size: int,
)
    requires
        0 <= n <= s.len(),
        forall|i: int|
            0 <= i < s.len() ==> measurable(#[trigger] s[i], data, background_adu, psf_size),
    ensures
        forall|i: int|
            0 <= i < apart_among(s, n, psf_size).len() ==> measurable(
                #[trigger] apart_among(s, n, psf_size)[i],
                data,
                background_adu,
                psf_size,
            ),
    decreases n,
{
    if n > 0 {
        lemma_apart_measurable(s, n - 1, data, background_adu, psf_size);
        let rest = apart_among(s, n - 1, psf_size);
        let all = apart_among(s, n, psf_size);
        assert forall|i: int| 0 <= i < all.len() implies measurable(
            #[trigger] all[i],
            data,
            background_adu,
            psf_size,
        ) by {
            if i < rest.len() {
                assert(all[i] == rest[i]);
            }
        }
    }
}

fn concentrations_of(stars: &Vec<Star>) -> (r: Vec<Double>)
    ensures
        r@ == concentrations(stars@),
{
    let mut r: Vec<Double> = Vec::new();
    let mut i: usize = 0;
    while i < stars.len()
        invariant
            i <= stars@.len(),
            r@ == concentrations(stars@.take(i as int)),
        decreases stars@.len() - i,
    {
        r.push(stars[i].top_4_pixels_part);
        i = i + 1;
    }
    assert(stars@.take(i as int) =~= stars@);
    r
}

fn drop_blurred(stars: Vec<Star>) -> (r: Vec<Star>)
    ensures
        r@ == sharp(stars@),
{
    let (median, _) = median_of_all(concentrations_of(&stars));
    match median {
        Some(m) => {
            let half = m.quotient(Double::of_u64(2));
            let f = |s: &Star| -> (c: bool)
                ensures
                    c == concentrated(m)(*s),
                {
                    half.at_most(s.top_4_pixels_part)
                };
            keep(&stars, f, Ghost(concentrated(m)))
        },
        None => stars,
    }
}

/// Measures the peaks at the given positions, which may come in any order, and
/// keeps those that are stars.
pub fn select_stars(
    positions: &Vec<Point>,
    data: &PixelGrid,
    adu_e: Double,
    background_adu: u16,
    psf_size: usize,
    min_photons: i32,
) -> (r: Vec<Star>)
    requires
        within(positions@, 0x1_0000_0000),
        forall|i: int|
            0 <= i < positions@.len() ==> measurable(
                #[trigger] positions@[i],
                *data,
                background_adu as int,
                psf_size as int,
            ),
    ensures
        r@ == stars_among(
            positions@,
            *data,
            adu_e,
            background_adu as int,
            psf_size as int,
            min_photons as int,
        ),
{
    let left = drop_crowded(positions, psf_size);
    proof {
        lemma_apart_measurable(
            positions@,
            positions@.len() as int,
            *data,
            background_adu as int,
            psf_size as int,
        );
    }
    let mut all: Vec<Star> = Vec::new();
    let mut i: usize = 0;
    while i < left.len()
        invariant
            i <= left@.len(),
            forall|k: int|
                0 <= k < left@.len() ==> measurable(
                    #[trigger] left@[k],
                    *data,
                    background_adu as int,
                    psf_size as int,
                ),
            all@ == measured(
                left@.take(i as int),
                *data,
                adu_e,
                background_adu as int,
                psf_size as int,
            ),
        decreases left@.len() - i,
    {
        all.push(Star::new(left[i], data, adu_e, background_adu, psf_size));
        i = i + 1;
    }
    assert(left@.take(i as int) =~= left@);
    let least = Double::of_i64(min_photons as i64);
    let saturation = Double::ratio(7, 10).product(Double::of_u64(0xffff));
    let accept = |s: &Star| -> (c: bool)
        ensures
            c == acceptable(min_photons as int)(*s),
        {
            !s.ill_defined && least.below(s.magnitude) && s.brightest_pixel_adu.below(saturation)
        };
    let good = keep(&all, accept, Ghost(acceptable(min_photons as int)));
    let clear = drop_blurred(good);
    let before = |a: &Star, b: &Star| -> (c: bool)
        ensures
            c == by_magnitude()(*a, *b),
        {
            !a.magnitude.below(b.magnitude)
        };
    arrange(clear, before, Ghost(by_magnitude()))
}

/// The sum of the qualities of the stars weighted by their magnitudes, divided
/// by the sum of these; none where that is not above zero.
pub open spec fn quality_of(stars: Seq<Star>) -> Option<Double> {
    let light = accumulated(of_int(0), stars.map_values(|s: Star| s.magnitude));
    let concentrated = accumulated(
        of_int(0),
        stars.map_values(|s: Star| product(s.magnitude, s.top_4_pixels_part)),
    );
    if below(of_int(0), light) {
        Some(quotient(concentrated, light))
    } else {
        None
    }
}

fn weigh(stars: &Vec<Star>) -> (r: Option<Double>)
    ensures
        r == quality_of(stars@),
{
    let zero = Double::of_u64(0);
    let mut quality_sum = zero;
    let mut mag_sum = zero;
    let ghost light = stars@.map_values(|s: Star| s.magnitude);
    let ghost conc = stars@.map_values(|s: Star| product(s.magnitude, s.top_4_pixels_part));
    let mut i: usize = 0;
    proof {
        assert(light.take(0) =~= Seq::empty());
        assert(conc.take(0) =~= Seq::empty());
    }
    while i < stars.len()
        invariant
            i <= stars@.len(),
            light == stars@.map_values(|s: Star| s.magnitude),
            conc == stars@.map_values(|s: Star| product(s.magnitude, s.top_4_pixels_part)),
            mag_sum == accumulated(of_int(0), light.take(i as int)),
            quality_sum == accumulated(of_int(0), conc.take(i as int)),
        decreases stars@.len() - i,
    {
        let s = stars[i];
        proof {
            assert(light.take(i + 1).drop_last() =~= light.take(i as int));
            assert(conc.take(i + 1).drop_last() =~= conc.take(i as int));
            assert(light.take(i + 1).last() == s.magnitude);
            assert(conc.take(i + 1).last() == product(s.magnitude, s.top_4_pixels_part));
        }
        quality_sum = quality_sum.sum(s.magnitude.product(s.top_4_pixels_part));
        mag_sum = mag_sum.sum(s.magnitude);
        i = i + 1;
    }
    assert(light.take(i as int) =~= light);
    assert(conc.take(i as int) =~= conc);
    if zero.below(mag_sum) {
        Some(quality_sum.quotient(mag_sum))
    } else {
        None
    }
}

/// The width of a star profile that goes with a quality, where `power` raises
/// its argument to the power of -0.186645.
pub open spec fn fwhm_for<P: Fn(Double) -> Double>(power: P, quality: Double, r: Double) -> bool {
    exists|p: Double| #[trigger]
        call_ensures(power, (product(quality, of_int(100)),), p) && r == sum(
            ratio(-1106713, 100000),
            product(ratio(26141212, 1000000), p),
        )
}

/// The width of a star profile that goes with a quality. `power` raises its
/// argument to the power of -0.186645.
pub fn fwhm_from_quality<P: Fn(Double) -> Double>(quality: Double, power: &P) -> (r: Double)
    requires
        forall|x: Double| call_requires(*power, (x,)),
    ensures
        fwhm_for(*power, quality, r),
{
    let p = power(quality.product(Double::of_u64(100)));
    Double::ratio(-1106713, 100000).sum(Double::ratio(26141212, 1000000).product(p))
}

/// `rand::rng` and `random`: any number may come.
#[verifier::external_body]
fn draw() -> u32 {
    rand::rng().random::<u32>()
}

/// How many pixels are drawn to tell the background.
pub const SAMPLE_COUNT: usize = 50000;

/// `v` is the brightness of a pixel of the image.
pub open spec fn occurs(data: PixelGrid, width: int, height: int, v: u16) -> bool {
    exists|x: int, y: int| 0 <= x < width && 0 <= y < height && v == #[trigger] data.level(x, y)
}

/// The brightness of the pixel that two numbers choose.
pub fn level_at(data: &PixelGrid, width: u32, height: u32, a: u32, b: u32) -> (r: u16)
    requires
        width > 0,
        height > 0,
        data.covers(width as int, height as int),
    ensures
        r == data.level((a % width) as int, (b % height) as int),
{
    data.brightness((a % width) as usize, (b % height) as usize)
}

/// `v` is the brightness of a pixel that two drawn numbers choose.
pub closed spec fn drawn(data: PixelGrid, width: u32, height: u32, v: u16) -> bool {
    exists|a: u32, b: u32|
        {
            &&& #[trigger] call_ensures(draw, (), a)
            &&& #[trigger] call_ensures(draw, (), b)
            &&& v == data.level((a % width) as int, (b % height) as int)
        }
}

/// The brightnesses of pixels drawn at random.
pub fn sample_levels(data: &PixelGrid, width: u32, height: u32) -> (r: Vec<u16>)
    requires
        width > 0,
        height > 0,
        data.covers(width as int, height as int),
    ensures
        r@.len() == SAMPLE_COUNT,
        forall|k: int| 0 <= k < r@.len() ==> drawn(*data, width, height, #[trigger] r@[k]),
        forall|k: int|
            0 <= k < r@.len() ==> occurs(*data, width as int, height as int, #[trigger] r@[k]),
{
    let mut r: Vec<u16> = Vec::new();
    while r.len() < SAMPLE_COUNT
        invariant
            width > 0,
            height > 0,
            data.covers(width as int, height as int),
            r@.len() <= SAMPLE_COUNT,
            forall|k: int| 0 <= k < r@.len() ==> drawn(*data, width, height, #[trigger] r@[k]),
            forall|k: int|
                0 <= k < r@.len() ==> occurs(*data, width as int, height as int, #[trigger] r@[k]),
        decreases SAMPLE_COUNT - r@.len(),
    {
        let a: u32 = draw();
        let b: u32 = draw();
        let v: u16 = level_at(data, width, height, a, b);
        assert(v == data.level((a % width) as int, (b % height) as int));
        assert(drawn(*data, width, height, v));
        r.push(v);
    }
    r
}

/// What the search for stars depends on besides the data.
pub struct StarSearch {
    pub width: u32,
    pub height: u32,
    pub adu_e: Double,
    pub background_adu: u16,
    pub psf_size: usize,
    pub crop: Option<Double>,
    pub min_photons: i32,
    pub min_central_photons: i32,
}

impl StarSearch {
    /// The part of the image that is searched.
    pub open spec fn region(self) -> Region {
        searched(self.width as int, self.height as int, self.psf_size as int, self.crop)
    }

    /// The brightness that the centre of a star has to exceed.
    pub open spec fn least(self) -> int {
        least_level(self.background_adu as int, self.adu_e, self.min_central_photons as int)
    }

    /// The data spans the image, the image is larger than a star and not too
    /// large for distances in it, and the brightness of stars is in range.
    pub open spec fn possible(self, data: PixelGrid) -> bool {
        &&& data.covers(self.width as int, self.height as int)
        &&& self.psf_size <= self.width
        &&& self.psf_size <= self.height
        &&& self.width * self.width + self.height * self.height <= i32::MAX
        &&& self.least() <= u16::MAX
        &&& clear_of_edge(data, self.region(), self.least())
    }

    /// The stars that the search finds.
    pub open spec fn stars(self, data: PixelGrid) -> Seq<Star> {
        stars_among(
            peaks(data, self.region(), self.least()),
            data,
            self.adu_e,
            self.background_adu as int,
            self.psf_size as int,
            self.min_photons as int,
        )
    }
}

/// What the header of an image gives.
#[derive(Clone, Copy, Debug)]
pub struct ImageHeader {
    pub width: u32,
    pub height: u32,
    pub exposure: Option<Double>,
    pub gain: Option<u32>,
}

impl ImageHeader {
    /// The gain; zero where the header gives none.
    pub open spec fn known_gain(self) -> u32 {
        match self.gain {
            Some(g) => g,
            None => 0,
        }
    }

    /// The search for stars in the image, with this background.
    pub open spec fn search(
        self,
        background_adu: u16,
        crop: Option<Double>,
        config: AppConfig,
    ) -> StarSearch {
        StarSearch {
            width: self.width,
            height: self.height,
            adu_e: config.gain_to_adu@[self.known_gain()],
            background_adu,
            psf_size: config.psf_size,
            crop,
            min_photons: config.min_photons_to_detect_star,
            min_central_photons: config.min_central_photons_to_detect_star,
        }
    }
}

impl AstroImage {
    /// An image of which only the header is known.
    pub fn from_header(header: ImageHeader, config: &AppConfig) -> (r: AstroImage)
        requires
            config.gain_to_adu@.contains_key(header.known_gain()),
        ensures
            r.width == header.width,
            r.height == header.height,
            r.gain == header.known_gain(),
            r.adu_e == config.gain_to_adu@[header.known_gain()],
            r.exp_t == (match header.exposure {
                Some(t) => t,
                None => of_int(0),
            }),
            r.background_level_adu == 0,
            r.sigma_adu == 0,
            r.psf_size == config.psf_size,
            r.detected_stars@ == Seq::<Star>::empty(),
            r.fwhm == of_int(0),
            r.quality == of_int(0),
            r.quality_image is None,
            r.quality_star_indices is None,
            grid_axes(r.data) == seq![0usize, 0usize],
    {
        broadcast use vstd::std_specs::hash::group_hash_axioms;

        let gain: u32 = match header.gain {
            Some(g) => g,
            None => 0,
        };
        let zero = Double::of_u64(0);
        let adu_e: Double = match config.gain_to_adu.get(&gain) {
            Some(a) => *a,
            None => zero,
        };
        AstroImage {
            width: header.width,
            height: header.height,
            gain,
            adu_e,
            exp_t: match header.exposure {
                Some(t) => t,
                None => zero,
            },
            background_level_adu: 0,
            sigma_adu: 0,
            psf_size: config.psf_size,
            detected_stars: Vec::new(),
            data: PixelGrid::empty(),
            fwhm: zero,
            quality: zero,
            quality_image: None,
            quality_star_indices: None,
        }
    }

    /// What the search for stars depends on.
    pub open spec fn search(self, crop: Option<Double>, config: AppConfig) -> StarSearch {
        StarSearch {
            width: self.width,
            height: self.height,
            adu_e: self.adu_e,
            background_adu: self.background_level_adu,
            psf_size: self.psf_size,
            crop,
            min_photons: config.min_photons_to_detect_star,
            min_central_photons: config.min_central_photons_to_detect_star,
        }
    }

    /// Searches the image for stars.
    fn find_stars(&mut self, data: &PixelGrid, crop: Option<Double>, config: &AppConfig)
        requires
            old(self).search(crop, *config).possible(*data),
        ensures
            final(self).detected_stars@ == old(self).search(crop, *config).stars(*data),
            *final(self) == (AstroImage {
                detected_stars: final(self).detected_stars,
                ..*old(self)
            }),
    {
        proof {
            let w = self.width as int;
            let h = self.height as int;
            assert(w <= 46340 && h <= 46340) by (nonlinear_arith)
                requires
                    w * w + h * h <= i32::MAX,
                    w >= 0,
                    h >= 0,
            ;
        }
        let psf_size: usize = self.psf_size;
        let photons = Double::of_i64(config.min_central_photons_to_detect_star as i64);
        let min_v: u16 = self.background_level_adu + self.adu_e.product(photons).to_u16();
        let region = search_region(self.width, self.height, psf_size, crop);
        let positions = find_peaks(data, region, min_v);
        proof {
            let pred = is_peak(*data, region, min_v as int);
            broadcast use vstd::seq_lib::group_filter_ensures;

            assert forall|i: int| 0 <= i < positions@.len() implies {
                &&& (#[trigger] positions@[i]).x < 0x1_0000_0000
                &&& positions@[i].y < 0x1_0000_0000
                &&& measurable(
                    positions@[i],
                    *data,
                    self.background_level_adu as int,
                    psf_size as int,
                )
            } by {
                assert(pred(positions@[i]));
            }
        }
        self.detected_stars = select_stars(
            &positions,
            data,
            self.adu_e,
            self.background_level_adu,
            psf_size,
            config.min_photons_to_detect_star,
        );
    }

    /// The quality is that of the stars that are bright enough, and the width
    /// goes with it; where there are none, the quality is zero and the width as
    /// it was.
    pub open spec fn rated<P: Fn(Double) -> Double>(
        self,
        config: AppConfig,
        power: P,
        fwhm_before: Double,
    ) -> bool {
        match quality_of(self.detected_stars@.filter(brighter_than(config.min_photons_quality))) {
            Some(q) => self.quality == q && fwhm_for(power, q, self.fwhm),
            None => self.quality == of_int(0) && self.fwhm == fwhm_before,
        }
    }

    /// Takes over what is known of the background, searches the image for stars
    /// and tells its quality.
    pub fn detect_stars<P: Fn(Double) -> Double>(
        &mut self,
        data: PixelGrid,
        background_level_adu: u16,
        sigma_adu: u16,
        crop: Option<Double>,
        config: &AppConfig,
        power: &P,
    )
        requires
            (AstroImage { background_level_adu, sigma_adu, ..*old(self) }).search(
                crop,
                *config,
            ).possible(data),
            forall|x: Double| call_requires(*power, (x,)),
        ensures
            final(self).detected_stars@ == (AstroImage {
                background_level_adu,
                sigma_adu,
                ..*old(self)
            }).search(crop, *config).stars(data),
            final(self).rated(*config, *power, old(self).fwhm),
            *final(self) == (AstroImage {
                background_level_adu,
                sigma_adu,
                data,
                detected_stars: final(self).detected_stars,
                quality: final(self).quality,
                fwhm: final(self).fwhm,
                ..*old(self)
            }),
    {
        self.background_level_adu = background_level_adu;
        self.sigma_adu = sigma_adu;
        self.find_stars(&data, crop, config);
        let least = config.min_photons_quality;
        let f = |s: &Star| -> (c: bool)
            ensures
                c == brighter_than(least)(*s),
            {
                least.below(s.magnitude)
            };
        let used = keep(&self.detected_stars, f, Ghost(brighter_than(least)));
        match weigh(&used) {
            Some(q) => {
                self.quality = q;
                self.fwhm = fwhm_from_quality(q, power);
            },
            None => {
                self.quality = Double::of_u64(0);
            },
        }
        self.data = data;
    }
}

impl AstroImage {
    /// The image with this header and data, its stars and its quality.
    pub fn load<P: Fn(Double) -> Double>(
        header: ImageHeader,
        data: PixelGrid,
        background_level_adu: u16,
        sigma_adu: u16,
        crop: Option<Double>,
        config: &AppConfig,
        power: &P,
    ) -> (r: AstroImage)
        requires
            config.gain_to_adu@.contains_key(header.known_gain()),
            header.search(background_level_adu, crop, *config).possible(data),
            forall|x: Double| call_requires(*power, (x,)),
        ensures
            r.width == header.width,
            r.height == header.height,
            r.gain == header.known_gain(),
            r.adu_e == config.gain_to_adu@[header.known_gain()],
            r.exp_t == (match header.exposure {
                Some(t) => t,
                None => of_int(0),
            }),
            r.background_level_adu == background_level_adu,
            r.sigma_adu == sigma_adu,
            r.psf_size == config.psf_size,
            r.data == data,
            r.detected_stars@ == header.search(background_level_adu, crop, *config).stars(data),
            r.rated(*config, *power, of_int(0)),
            r.quality_image is None,
            r.quality_star_indices is None,
    {
        let mut r = AstroImage::from_header(header, config);
        r.detect_stars(data, background_level_adu, sigma_adu, crop, config, power);
        r
    }
}

/// A star that counts for the quality.
pub open spec fn brighter_than(least: Double) -> spec_fn(Star) -> bool {
    |s: Star| below(least, s.magnitude)
}

/// Where a star is wider than one pixel, no search comes too near to the edge.
pub proof fn wide_stars_keep_clear_of_the_edge(search: StarSearch, data: PixelGrid)
    requires
        2 <= search.psf_size,
    ensures
        clear_of_edge(data, search.region(), search.least()),
{
}

spec fn by_units() -> spec_fn(Star, Star) -> bool {
    |a: Star, b: Star| a.magnitude.units() >= b.magnitude.units()
}

/// What the search leaves after each step.
proof fn lemma_steps(
    positions: Seq<Point>,
    data: PixelGrid,
    adu_e: Double,
    background_adu: int,
    psf_size: int,
    min_photons: int,
    s: Star,
)
    requires
        stars_among(positions, data, adu_e, background_adu, psf_size, min_photons).contains(s),
    ensures
        acceptable(min_photons)(s),
        measured(apart(positions, psf_size), data, adu_e, background_adu, psf_size).contains(s),
{
    let all = measured(apart(positions, psf_size), data, adu_e, background_adu, psf_size);
    let good = all.filter(acceptable(min_photons));
    let clear = sharp(good);
    arranging_keeps_the_elements(clear, by_magnitude());
    lemma_same_members(arranged(clear, by_magnitude()), clear, s);
    if let Some(m) = median_of(concentrations(good)) {
        good.lemma_filter_contains_rev(concentrated(m), s);
    }
    assert(good.contains(s));
    all.lemma_filter_contains_rev(acceptable(min_photons), s);
    let k = good.index_of(s);
    all.lemma_filter_pred(acceptable(min_photons), k);
}

/// Every star that is found is well defined and bright enough but not
/// saturated, and none is brighter than one before it.
pub proof fn found_stars_are_good_and_sorted(
    positions: Seq<Point>,
    data: PixelGrid,
    adu_e: Double,
    background_adu: int,
    psf_size: int,
    min_photons: int,
)
    ensures
        ({
            let stars = stars_among(
                positions,
                data,
                adu_e,
                background_adu,
                psf_size,
                min_photons,
            );
            &&& forall|i: int|
                0 <= i < stars.len() ==> acceptable(min_photons)(#[trigger] stars[i])
            &&& forall|i: int, j: int|
                0 <= i < j < stars.len() ==> at_most(
                    (#[trigger] stars[j]).magnitude,
                    (#[trigger] stars[i]).magnitude,
                )
        }),
{
    let stars = stars_among(positions, data, adu_e, background_adu, psf_size, min_photons);
    let all = measured(apart(positions, psf_size), data, adu_e, background_adu, psf_size);
    let clear = sharp(all.filter(acceptable(min_photons)));
    arranging_keeps_the_elements(clear, by_magnitude());
    assert forall|i: int| 0 <= i < stars.len() implies acceptable(min_photons)(
        #[trigger] stars[i],
    ) by {
        assert(stars.contains(stars[i]));
        lemma_steps(positions, data, adu_e, background_adu, psf_size, min_photons, stars[i]);
    }
    assert forall|a: int, b: int| 0 <= a < clear.len() && 0 <= b < clear.len() implies
        by_magnitude()(#[trigger] clear[a], #[trigger] clear[b]) == by_units()(clear[a], clear[b]) by {
        lemma_same_members(stars, clear, clear[a]);
        lemma_same_members(stars, clear, clear[b]);
        assert(clear.contains(clear[a]));
        assert(clear.contains(clear[b]));
        lemma_steps(positions, data, adu_e, background_adu, psf_size, min_photons, clear[a]);
        lemma_steps(positions, data, adu_e, background_adu, psf_size, min_photons, clear[b]);
    }
    lemma_arranged_same(clear, by_magnitude(), by_units());
    assert(preorder(by_units()));
    arranging_sorts(clear, by_units());
    assert forall|i: int, j: int| 0 <= i < j < stars.len() implies at_most(
        (#[trigger] stars[j]).magnitude,
        (#[trigger] stars[i]).magnitude,
    ) by {
        assert(by_units()(stars[i], stars[j]));
        assert(acceptable(min_photons)(stars[i]));
        assert(acceptable(min_photons)(stars[j]));
    }
}

/// No two of the stars that are found are closer than the size of a star.
pub proof fn found_stars_are_apart(
    positions: Seq<Point>,
    data: PixelGrid,
    adu_e: Double,
    background_adu: int,
    psf_size: int,
    min_photons: int,
    i: int,
    j: int,
)
    requires
        0 < psf_size,
        0 <= i < j < stars_among(
            positions,
            data,
            adu_e,
            background_adu,
            psf_size,
            min_photons,
        ).len(),
    ensures
        ({
            let stars = stars_among(
                positions,
                data,
                adu_e,
                background_adu,
                psf_size,
                min_photons,
            );
            &&& !close(stars[i].pos, stars[j].pos, psf_size)
            &&& squared_distance(stars[i].pos, stars[j].pos) >= psf_size * psf_size
        }),
{
    let stars = stars_among(positions, data, adu_e, background_adu, psf_size, min_photons);
    let left = apart(positions, psf_size);
    let all = measured(left, data, adu_e, background_adu, psf_size);
    let good = all.filter(acceptable(min_photons));
    let clear = sharp(good);
    assert(0 < psf_size * psf_size) by (nonlinear_arith)
        requires
            psf_size > 0,
    ;
    assert(all.no_duplicates()) by {
        assert forall|a: int, b: int| 0 <= a < all.len() && 0 <= b < all.len() && a != b implies
            all[a] != all[b] by {
            if all[a] == all[b] {
                assert(left[a] == all[a].pos);
                assert(left[b] == all[b].pos);
                let (u, v) = if a < b {
                    (a, b)
                } else {
                    (b, a)
                };
                remaining_positions_are_apart(positions, psf_size, u, v);
                let p = left[u];
                assert((p.x - p.x) * (p.x - p.x) == 0) by (nonlinear_arith);
                assert((p.y - p.y) * (p.y - p.y) == 0) by (nonlinear_arith);
                assert(close(p, p, psf_size));
            }
        }
    }
    lemma_filter_no_duplicates(all, acceptable(min_photons));
    if let Some(m) = median_of(concentrations(good)) {
        lemma_filter_no_duplicates(good, concentrated(m));
    }
    arranging_keeps_the_elements(clear, by_magnitude());
    clear.lemma_multiset_has_no_duplicates();
    stars.lemma_multiset_has_no_duplicates_conv();
    assert(stars.contains(stars[i]));
    assert(stars.contains(stars[j]));
    lemma_steps(positions, data, adu_e, background_adu, psf_size, min_photons, stars[i]);
    lemma_steps(positions, data, adu_e, background_adu, psf_size, min_photons, stars[j]);
    let a = all.index_of(stars[i]);
    let b = all.index_of(stars[j]);
    assert(left[a] == stars[i].pos);
    assert(left[b] == stars[j].pos);
    if a < b {
        remaining_positions_are_apart(positions, psf_size, a, b);
    } else {
        remaining_positions_are_apart(positions, psf_size, b, a);
        let p = left[a];
        let q = left[b];
        assert((q.x - p.x) * (q.x - p.x) == (p.x - q.x) * (p.x - q.x)) by (nonlinear_arith);
        assert((q.y - p.y) * (q.y - p.y) == (p.y - q.y) * (p.y - q.y)) by (nonlinear_arith);
    }
    lemma_squared_distance(stars[i].pos, stars[j].pos, psf_size);
}

/// Those of the first `n` stars that are among `indices` and count for the
/// quality, by their numbers.
pub open spec fn chosen_among(
    stars: Seq<Star>,
    indices: Set<usize>,
    least: Double,
    n: int,
) -> Seq<usize>
    decreases n,
{
    if n <= 0 {
        Seq::empty()
    } else {
        let rest = chosen_among(stars, indices, least, n - 1);
        if indices.contains((n - 1) as usize) && below(least, stars[n - 1].magnitude) {
            rest.push((n - 1) as usize)
        } else {
            rest
        }
    }
}

/// The stars that are among `indices` and count for the quality, by their
/// numbers.
pub open spec fn chosen(stars: Seq<Star>, indices: Set<usize>, least: Double) -> Seq<usize> {
    chosen_among(stars, indices, least, stars.len() as int)
}

/// The stars with these numbers.
pub open spec fn picked(stars: Seq<Star>, numbers: Seq<usize>) -> Seq<Star> {
    numbers.map_values(|i: usize| stars[i as int])
}

fn choose_stars(stars: &Vec<Star>, indices: &HashSet<usize>, least: Double) -> (r: (
    Vec<usize>,
    Vec<Star>,
))
    ensures
        r.0@ == chosen(stars@, indices@, least),
        r.1@ == picked(stars@, chosen(stars@, indices@, least)),
{
    broadcast use vstd::std_specs::hash::group_hash_axioms;

    let mut numbers: Vec<usize> = Vec::new();
    let mut list: Vec<Star> = Vec::new();
    let mut i: usize = 0;
    while i < stars.len()
        invariant
            i <= stars@.len(),
            numbers@ == chosen_among(stars@, indices@, least, i as int),
            list@ == picked(stars@, numbers@),
        decreases stars@.len() - i,
    {
        if indices.contains(&i) && least.below(stars[i].magnitude) {
            numbers.push(i);
            list.push(stars[i]);
        }
        i = i + 1;
    }
    (numbers, list)
}

impl AstroImage {
    /// The quality that the stars with the given numbers have, whatever the
    /// quality of the image is.
    pub fn quality_for_star_indices(&self, indices: &HashSet<usize>, config: &AppConfig) -> (r:
        Option<Double>)
        ensures
            r == quality_of(
                picked(
                    self.detected_stars@,
                    chosen(self.detected_stars@, indices@, config.min_photons_quality),
                ),
            ),
    {
        let (_, list) = choose_stars(&self.detected_stars, indices, config.min_photons_quality);
        weigh(&list)
    }

    /// The image is `before` with the quality that the stars among `indices`
    /// decide; where none of them counts, the quality stays.
    pub open spec fn requalified<P: Fn(Double) -> Double>(
        self,
        before: AstroImage,
        indices: Set<usize>,
        config: AppConfig,
        power: P,
    ) -> bool {
        let numbers = chosen(before.detected_stars@, indices, config.min_photons_quality);
        &&& self.quality_star_indices matches Some(v) && v@ == numbers
        &&& match quality_of(picked(before.detected_stars@, numbers)) {
            Some(q) => {
                &&& self.quality == q
                &&& self.quality_image == Some(before.quality)
                &&& fwhm_for(power, q, self.fwhm)
            },
            None => {
                &&& self.quality == before.quality
                &&& self.quality_image == before.quality_image
                &&& self.fwhm == before.fwhm
            },
        }
        &&& self == (AstroImage {
            quality_star_indices: self.quality_star_indices,
            quality_image: self.quality_image,
            quality: self.quality,
            fwhm: self.fwhm,
            ..before
        })
    }

    /// Makes the stars with the given numbers decide the quality, and keeps the
    /// quality of the image beside it.
    pub fn recalculate_quality_for_star_indices<P: Fn(Double) -> Double>(
        &mut self,
        indices: &HashSet<usize>,
        config: &AppConfig,
        power: &P,
    )
        requires
            forall|x: Double| call_requires(*power, (x,)),
        ensures
            final(self).requalified(*old(self), indices@, *config, *power),
    {
        let (numbers, list) = choose_stars(
            &self.detected_stars,
            indices,
            config.min_photons_quality,
        );
        if let Some(q) = weigh(&list) {
            self.quality_image = Some(self.quality);
            self.quality = q;
            self.fwhm = fwhm_from_quality(q, power);
        }
        self.quality_star_indices = Some(numbers);
    }

    /// The numbers of the stars whose magnitude is neither above the one limit
    /// nor below the other.
    pub fn stars_with_magnitude_between(&self, min_magnitude: Double, max_magnitude: Double) -> (r:
        Vec<usize>)
        requires
            forall|i: int|
                0 <= i < self.detected_stars@.len() && below(
                    max_magnitude,
                    (#[trigger] self.detected_stars@[i]).magnitude,
                ) ==> at_most(min_magnitude, self.detected_stars@[i].magnitude),
        ensures
            r@ == between(
                self.detected_stars@,
                min_magnitude,
                max_magnitude,
                self.detected_stars@.len() as int,
            ),
    {
        let mut r: Vec<usize> = Vec::new();
        let mut i: usize = 0;
        while i < self.detected_stars.len()
            invariant
                i <= self.detected_stars@.len(),
                r@ == between(self.detected_stars@, min_magnitude, max_magnitude, i as int),
            decreases self.detected_stars@.len() - i,
        {
            let m = self.detected_stars[i].magnitude;
            if !max_magnitude.below(m) && min_magnitude.at_most(m) {
                r.push(i);
            }
            i = i + 1;
        }
        r
    }

    pub fn width(&self) -> (r: usize)
        ensures
            r == self.width,
    {
        self.width as usize
    }

    pub fn height(&self) -> (r: usize)
        ensures
            r == self.height,
    {
        self.height as usize
    }

    pub fn quality(&self) -> (r: Double)
        ensures
            r == self.quality,
    {
        self.quality
    }

    pub fn exp_t(&self) -> (r: Double)
        ensures
            r == self.exp_t,
    {
        self.exp_t
    }

    pub fn fwhm(&self) -> (r: Double)
        ensures
            r == self.fwhm,
    {
        self.fwhm
    }

    pub fn quality_image(&self) -> (r: Option<Double>)
        ensures
            r == self.quality_image,
    {
        self.quality_image
    }

    pub fn quality_star_indices(&self) -> (r: Option<&Vec<usize>>)
        ensures
            match self.quality_star_indices {
                Some(v) => r == Some(&v),
                None => r is None,
            },
    {
        match &self.quality_star_indices {
            Some(v) => Some(v),
            None => None,
        }
    }

    pub fn star_count(&self) -> (r: usize)
        ensures
            r == self.detected_stars@.len(),
    {
        self.detected_stars.len()
    }

    pub fn background_raw_adu(&self) -> (r: Double)
        ensures
            r == of_int(self.background_level_adu as int),
    {
        Double::of_u64(self.background_level_adu as u64)
    }

    /// The spread of the background.
    pub fn background_noise_adu(&self) -> (r: Double)
        ensures
            r == of_int(self.sigma_adu as int),
    {
        Double::of_u64(self.sigma_adu as u64)
    }

    pub fn stars(&self) -> (r: &Vec<Star>)
        ensures
            *r == self.detected_stars,
    {
        &self.detected_stars
    }
}

/// The numbers of those of the first `n` stars whose magnitude is neither above
/// the one limit nor below the other.
pub open spec fn between(stars: Seq<Star>, least: Double, most: Double, n: int) -> Seq<usize>
    decreases n,
{
    if n <= 0 {
        Seq::empty()
    } else {
        let rest = between(stars, least, most, n - 1);
        if !below(most, stars[n - 1].magnitude) && at_most(least, stars[n - 1].magnitude) {
            rest.push((n - 1) as usize)
        } else {
            rest
        }
    }
}

/// What the overview of an image shows, in percent where it is a part.
#[derive(Clone, Debug)]
pub struct Summary {
    pub avg_top4: Double,
    pub median_top4: Double,
    pub quality: Double,
    pub quality_image: Option<Double>,
    pub fwhm: Double,
    /// How many stars of a constellation decided the quality.
    pub constellation_stars: Option<usize>,
    /// The table lists the stars of the constellation.
    pub of_constellation: bool,
    /// The numbers of the stars in the table.
    pub table: Vec<usize>,
}

/// A hundred times the part.
pub open spec fn percent(part: Double) -> Double {
    product(part, of_int(100))
}

/// The numbers of the stars, the most concentrated first.
pub open spec fn by_concentration(stars: Seq<Star>) -> spec_fn(usize, usize) -> bool {
    |a: usize, b: usize|
        place(stars[b as int].top_4_pixels_part) <= place(stars[a as int].top_4_pixels_part)
}

/// All numbers below `n`.
pub open spec fn numbers_below(n: int) -> Seq<usize> {
    Seq::new(n as nat, |i: int| i as usize)
}

/// The first `n` elements, or all where there are fewer.
pub open spec fn at_most_first<T>(s: Seq<T>, n: int) -> Seq<T> {
    if n < s.len() {
        s.take(n)
    } else {
        s
    }
}

fn rank(stars: &Vec<Star>, numbers: Vec<usize>) -> (r: Vec<usize>)
    requires
        forall|i: int| 0 <= i < numbers@.len() ==> #[trigger] numbers@[i] < stars@.len(),
    ensures
        r@ == arranged(numbers@, by_concentration(stars@)),
{
    let f = |a: &usize, b: &usize| -> (c: bool)
        requires
            *a < stars@.len(),
            *b < stars@.len(),
        ensures
            c == by_concentration(stars@)(*a, *b),
        {
            stars[*b].top_4_pixels_part.total_at_most(stars[*a].top_4_pixels_part)
        };
    arrange(numbers, f, Ghost(by_concentration(stars@)))
}

pub(crate) fn first_of(items: &Vec<usize>, n: usize) -> (r: Vec<usize>)
    ensures
        r@ == at_most_first(items@, n as int),
{
    let mut r: Vec<usize> = Vec::new();
    let mut i: usize = 0;
    while i < items.len() && i < n
        invariant
            i <= items@.len(),
            i <= n,
            r@ == items@.take(i as int),
        decreases items@.len() - i,
    {
        r.push(items[i]);
        i = i + 1;
    }
    assert(items@.take(items@.len() as int) =~= items@);
    r
}

impl AstroImage {
    /// The numbers of the stars that the overview lists.
    pub open spec fn table(self, max_stars: int) -> (bool, Seq<usize>) {
        let by_top4 = arranged(
            numbers_below(self.detected_stars@.len() as int),
            by_concentration(self.detected_stars@),
        );
        match self.quality_star_indices {
            Some(v) => if v@.len() > 0 {
                (true, at_most_first(v@, max_stars))
            } else {
                (false, at_most_first(by_top4, max_stars))
            },
            None => (false, at_most_first(by_top4, max_stars)),
        }
    }

    /// The overview of the image, with a table of at most `max_stars` stars.
    pub fn summary(&self, max_stars: usize) -> (r: Summary)
        ensures
            ({
                let parts = concentrations(self.detected_stars@);
                &&& r.avg_top4 == percent(
                    if parts.len() > 0 {
                        mean(parts)
                    } else {
                        of_int(0)
                    },
                )
                &&& r.median_top4 == percent(
                    match median_of(parts) {
                        Some(m) => m,
                        None => of_int(0),
                    },
                )
            }),
            r.quality == percent(self.quality),
            r.quality_image == (match self.quality_image {
                Some(q) => Some(percent(q)),
                None => None,
            }),
            r.fwhm == percent(self.fwhm),
            r.constellation_stars == (match self.quality_star_indices {
                Some(v) => Some(v@.len() as usize),
                None => None,
            }),
            r.of_constellation == self.table(max_stars as int).0,
            r.table@ == self.table(max_stars as int).1,
    {
        let zero = Double::of_u64(0);
        let hundred = Double::of_u64(100);
        let parts = concentrations_of(&self.detected_stars);
        let avg = if parts.len() > 0 {
            mean_of(&parts)
        } else {
            zero
        };
        let (median, _) = median_of_all(parts);
        let median = match median {
            Some(m) => m,
            None => zero,
        };
        let mut of_constellation = false;
        let mut constellation_stars: Option<usize> = None;
        let mut table: Vec<usize> = Vec::new();
        if let Some(v) = &self.quality_star_indices {
            constellation_stars = Some(v.len());
            if v.len() > 0 {
                of_constellation = true;
                table = first_of(v, max_stars);
            }
        }
        if !of_constellation {
            let stars: &Vec<Star> = &self.detected_stars;
            let n: usize = stars.len();
            let mut numbers: Vec<usize> = Vec::new();
            let mut i: usize = 0;
            while i < n
                invariant
                    i <= n,
                    numbers@ == numbers_below(i as int),
                decreases n - i,
            {
                numbers.push(i);
                i = i + 1;
            }
            table = first_of(&rank(stars, numbers), max_stars);
        }
        Summary {
            avg_top4: avg.product(hundred),
            median_top4: median.product(hundred),
            quality: self.quality.product(hundred),
            quality_image: match self.quality_image {
                Some(q) => Some(q.product(hundred)),
                None => None,
            },
            fwhm: self.fwhm.product(hundred),
            constellation_stars,
            of_constellation,
            table,
        }
    }
}

/// The look `base` with the first `n` stars marked by a red circle and their
/// number, counted from one.
pub open spec fn marked(
    base: spec_fn(int, int) -> Colour,
    stars: Seq<Star>,
    n: int,
) -> spec_fn(int, int) -> Colour
    decreases n,
{
    if n <= 0 {
        base
    } else {
        let before = marked(base, stars, n - 1);
        let cx = stars[n - 1].pos.x as int;
        let cy = stars[n - 1].pos.y as int;
        |x: int, y: int|
            match label(cx, cy, n as nat, x, y) {
                Some(c) => c,
                None => if circle(cx, cy, 5)(x, y) {
                    Colour { red: 255, green: 0, blue: 0 }
                } else {
                    before(x, y)
                },
            }
    }
}

/// The shade of grey that `gray` gives a pixel.
pub open spec fn shaded<G: Fn(u16, u16, u16) -> u8>(
    gray: G,
    image: AstroImage,
    x: int,
    y: int,
    c: Colour,
) -> bool {
    &&& c.red == c.green == c.blue
    &&& call_ensures(
        gray,
        (image.background_level_adu, image.sigma_adu, image.data.level(x, y) as u16),
        c.red,
    )
}

impl AstroImage {
    /// The image in shades of grey with its stars marked. `gray` gives the shade
    /// that goes with the background, its spread and the brightness of a pixel.
    pub fn stars_picture<G: Fn(u16, u16, u16) -> u8>(&self, gray: &G) -> (r: Picture)
        requires
            forall|x: (u16, u16, u16)| call_requires(*gray, x),
            self.data.covers(self.width as int, self.height as int),
            3 * self.width * self.height <= isize::MAX,
            self.width <= i32::MAX,
            self.height <= i32::MAX,
            forall|k: int|
                0 <= k < self.detected_stars@.len() ==> (#[trigger] self.detected_stars@[k]).pos.x
                    <= 0x2000_0000 && self.detected_stars@[k].pos.y <= 0x2000_0000,
        ensures
            exists|base: spec_fn(int, int) -> Colour|
                {
                    &&& #[trigger] r.shows(
                        self.width as int,
                        self.height as int,
                        marked(
                            base,
                            self.detected_stars@,
                            self.detected_stars@.len() as int,
                        ),
                    )
                    &&& forall|x: int, y: int|
                        r.has(x, y) ==> shaded(*gray, *self, x, y, #[trigger] base(x, y))
                },
    {
        let black = Colour { red: 0, green: 0, blue: 0 };
        let mut img = Picture::filled(self.width, self.height, black);
        let mut x: u32 = 0;
        while x < self.width
            invariant
                x <= self.width,
                img.width() == self.width,
                img.height() == self.height,
                self.data.covers(self.width as int, self.height as int),
                forall|x: (u16, u16, u16)| call_requires(*gray, x),
                forall|u: int, v: int|
                    img.has(u, v) && u < x ==> shaded(*gray, *self, u, v, #[trigger] img.at(u, v)),
            decreases self.width - x,
        {
            let mut y: u32 = 0;
            while y < self.height
                invariant
                    x < self.width,
                    y <= self.height,
                    img.width() == self.width,
                    img.height() == self.height,
                    self.data.covers(self.width as int, self.height as int),
                    forall|x: (u16, u16, u16)| call_requires(*gray, x),
                    forall|u: int, v: int|
                        img.has(u, v) && (u < x || (u == x && v < y)) ==> shaded(
                            *gray,
                            *self,
                            u,
                            v,
                            #[trigger] img.at(u, v),
                        ),
                decreases self.height - y,
            {
                let raw: u16 = self.data.brightness(x as usize, y as usize);
                let v: u8 = gray(self.background_level_adu, self.sigma_adu, raw);
                let ghost before = img;
                img.put(x, y, Colour { red: v, green: v, blue: v });
                proof {
                    assert forall|u: int, w: int|
                        img.has(u, w) && (u < x || (u == x && w < y + 1)) implies shaded(
                        *gray,
                        *self,
                        u,
                        w,
                        #[trigger] img.at(u, w),
                    ) by {
                        if u < x || w < y {
                            assert(shaded(*gray, *self, u, w, before.at(u, w)));
                        }
                    }
                }
                y = y + 1;
            }
            x = x + 1;
        }
        let ghost plain = img;
        let ghost base = |x: int, y: int| plain.at(x, y);
        let red = Colour { red: 255, green: 0, blue: 0 };
        let mut i: usize = 0;
        while i < self.detected_stars.len()
            invariant
                i <= self.detected_stars@.len(),
                self.width <= i32::MAX,
                self.height <= i32::MAX,
                forall|k: int|
                    0 <= k < self.detected_stars@.len() ==> (
                    #[trigger] self.detected_stars@[k]).pos.x <= 0x2000_0000
                        && self.detected_stars@[k].pos.y <= 0x2000_0000,
                red == (Colour { red: 255, green: 0, blue: 0 }),
                img.shows(
                    self.width as int,
                    self.height as int,
                    marked(base, self.detected_stars@, i as int),
                ),
            decreases self.detected_stars@.len() - i,
        {
            let cx: i32 = self.detected_stars[i].pos.x as i32;
            let cy: i32 = self.detected_stars[i].pos.y as i32;
            let ghost before = img;
            img.hollow_circle(cx, cy, 5, red);
            let ghost circled = img;
            draw_number_label(&mut img, cx, cy, (i + 1) as u64);
            proof {
                let look = marked(base, self.detected_stars@, i + 1);
                assert forall|u: int, v: int| img.has(u, v) implies #[trigger] img.at(u, v)
                    == look(u, v) by {
                    assert(circled.at(u, v) == (if circle(cx as int, cy as int, 5)(u, v) {
                        red
                    } else {
                        before.at(u, v)
                    }));
                    assert(before.has(u, v));
                }
            }
            i = i + 1;
        }
        proof {
            assert forall|x: int, y: int| img.has(x, y) implies shaded(
                *gray,
                *self,
                x,
                y,
                #[trigger] base(x, y),
            ) by {
                assert(plain.has(x, y));
                assert(shaded(*gray, *self, x, y, plain.at(x, y)));
            }
        }
        img
    }
}

/// Stars that are not above the limit for quality have no part in the quality of
/// an image or its width: images whose other stars are the same, in the same
/// order, have the same quality.
pub proof fn dim_stars_do_not_count<P: Fn(Double) -> Double>(
    one: AstroImage,
    other: AstroImage,
    config: AppConfig,
    power: P,
    fwhm_before: Double,
)
    requires
        one.rated(config, power, fwhm_before),
        other.rated(config, power, fwhm_before),
        one.detected_stars@.filter(|s: Star| below(config.min_photons_quality, s.magnitude))
            == other.detected_stars@.filter(
            |s: Star| below(config.min_photons_quality, s.magnitude),
        ),
    ensures
        one.quality == other.quality,
        one.fwhm == other.fwhm || exists|p: Double, q: Double|
            p != q && #[trigger] call_ensures(power, (product(one.quality, of_int(100)),), p)
                && #[trigger] call_ensures(power, (product(one.quality, of_int(100)),), q),
{
    let f = |s: Star| below(config.min_photons_quality, s.magnitude);
    lemma_filter_same(one.detected_stars@, f, brighter_than(config.min_photons_quality));
    lemma_filter_same(other.detected_stars@, f, brighter_than(config.min_photons_quality));
    let stars = one.detected_stars@.filter(f);
    if let Some(q) = quality_of(stars) {
        assert(fwhm_for(power, q, one.fwhm));
        assert(fwhm_for(power, q, other.fwhm));
    }
}

/// Where every star is above the limit for quality, the quality of an image is
/// the mean of the concentrations of its stars, weighted by their magnitudes,
/// and its width is what that quality gives. Where no star is above the limit,
/// the quality is zero and the width stays.
pub proof fn quality_is_the_weighted_concentration<P: Fn(Double) -> Double>(
    image: AstroImage,
    config: AppConfig,
    power: P,
    fwhm_before: Double,
)
    requires
        image.rated(config, power, fwhm_before),
    ensures
        ({
            let stars = image.detected_stars@;
            let light = accumulated(of_int(0), stars.map_values(|s: Star| s.magnitude));
            let focused = accumulated(
                of_int(0),
                stars.map_values(|s: Star| product(s.magnitude, s.top_4_pixels_part)),
            );
            &&& (forall|i: int|
                0 <= i < stars.len() ==> below(
                    config.min_photons_quality,
                    (#[trigger] stars[i]).magnitude,
                )) && below(of_int(0), light) ==> {
                &&& image.quality == quotient(focused, light)
                &&& exists|p: Double| #[trigger]
                    call_ensures(power, (product(image.quality, of_int(100)),), p) && image.fwhm
                        == sum(
                        ratio(-1106713, 100000),
                        product(ratio(26141212, 1000000), p),
                    )
            }
            &&& (forall|i: int|
                0 <= i < stars.len() ==> !below(
                    config.min_photons_quality,
                    (#[trigger] stars[i]).magnitude,
                )) ==> image.quality == of_int(0) && image.fwhm == fwhm_before
        }),
{
    let stars = image.detected_stars@;
    let f = brighter_than(config.min_photons_quality);
    if forall|i: int|
        0 <= i < stars.len() ==> below(config.min_photons_quality, (#[trigger] stars[i]).magnitude) {
        lemma_filter_all(stars, f);
    }
    if forall|i: int|
        0 <= i < stars.len() ==> !below(config.min_photons_quality, (#[trigger] stars[i]).magnitude) {
        let used = stars.filter(f);
        if used.len() > 0 {
            stars.lemma_filter_pred(f, 0);
            assert(used.contains(used[0]));
            stars.lemma_filter_contains_rev(f, used[0]);
            let k = stars.index_of(used[0]);
            assert(!below(config.min_photons_quality, stars[k].magnitude));
        }
        assert(used =~= Seq::empty());
        assert(used.map_values(|s: Star| s.magnitude) =~= Seq::empty());
    }
}

/// A star is selected exactly where it is one of the uncrowded peaks, is well
/// defined, has more photons than asked for, does not saturate the sensor, and
/// is at least half as concentrated as the median of such stars.
pub proof fn selected_stars_meet_every_condition(
    positions: Seq<Point>,
    data: PixelGrid,
    adu_e: Double,
    background_adu: int,
    psf_size: int,
    min_photons: int,
    s: Star,
)
    ensures
        ({
            let good = apart(positions, psf_size).map_values(
                |p: Point| star_at(p, data, adu_e, background_adu, psf_size),
            ).filter(
                |s: Star|
                    !s.ill_defined && below(of_int(min_photons), s.magnitude) && below(
                        s.brightest_pixel_adu,
                        product(ratio(7, 10), of_int(65535)),
                    ),
            );
            let middle = median_of(good.map_values(|s: Star| s.top_4_pixels_part));
            stars_among(positions, data, adu_e, background_adu, psf_size, min_photons).contains(s)
                <==> good.contains(s) && (middle is Some ==> at_most(
                quotient(middle->0, of_int(2)),
                s.top_4_pixels_part,
            ))
        }),
{
    let all = measured(apart(positions, psf_size), data, adu_e, background_adu, psf_size);
    let direct = apart(positions, psf_size).map_values(
        |p: Point| star_at(p, data, adu_e, background_adu, psf_size),
    );
    assert(all =~= direct);
    let g = |s: Star|
        !s.ill_defined && below(of_int(min_photons), s.magnitude) && below(
            s.brightest_pixel_adu,
            product(ratio(7, 10), of_int(65535)),
        );
    lemma_filter_same(all, acceptable(min_photons), g);
    let good = all.filter(acceptable(min_photons));
    assert(concentrations(good) =~= good.map_values(|s: Star| s.top_4_pixels_part));
    let clear = sharp(good);
    arranging_keeps_the_elements(clear, by_magnitude());
    lemma_same_members(arranged(clear, by_magnitude()), clear, s);
    if let Some(m) = median_of(concentrations(good)) {
        let f = concentrated(m);
        if clear.contains(s) {
            good.lemma_filter_contains_rev(f, s);
            let k = clear.index_of(s);
            good.lemma_filter_pred(f, k);
        }
        if good.contains(s) && f(s) {
            let k = good.index_of(s);
            good.lemma_filter_contains(f, k);
        }
    }
}

/// What is known of a star that the search of an image finds: it is a local
/// maximum of the searched part that exceeds the background by the central
/// photons asked for, it is measured there, and it meets the limits of the
/// settings.
pub proof fn found_stars_are_measured_peaks(
    image: AstroImage,
    crop: Option<Double>,
    config: AppConfig,
    data: PixelGrid,
    s: Star,
)
    requires
        image.search(crop, config).possible(data),
        image.search(crop, config).stars(data).contains(s),
    ensures
        ({
            let region = searched(
                image.width as int,
                image.height as int,
                image.psf_size as int,
                crop,
            );
            let least = image.background_level_adu + saturated(
                whole(
                    product(image.adu_e, of_int(config.min_central_photons_to_detect_star as int)),
                ),
                0,
                65535,
            );
            let x = s.pos.x as int;
            let y = s.pos.y as int;
            &&& region.left <= x < region.right
            &&& region.top <= y < region.bottom
            &&& data.level(x, y) > least
            &&& forall|u: int, v: int|
                region.left <= u < region.right && region.top <= v < region.bottom && -2 <= u - x
                    <= 2 && -2 <= v - y <= 2 && (u != x || v != y) && #[trigger] data.level(u, v)
                    > least ==> data.level(u, v) < data.level(x, y)
            &&& s == star_at(
                s.pos,
                data,
                image.adu_e,
                image.background_level_adu as int,
                image.psf_size as int,
            )
            &&& !s.ill_defined
            &&& below(of_int(config.min_photons_to_detect_star as int), s.magnitude)
            &&& below(s.brightest_pixel_adu, product(ratio(7, 10), of_int(65535)))
        }),
{
    let search = image.search(crop, config);
    let region = search.region();
    let found = peaks(data, region, search.least());
    lemma_steps(
        found,
        data,
        search.adu_e,
        search.background_adu as int,
        search.psf_size as int,
        search.min_photons as int,
        s,
    );
    let left = apart(found, search.psf_size as int);
    let all = measured(
        left,
        data,
        search.adu_e,
        search.background_adu as int,
        search.psf_size as int,
    );
    let k = all.index_of(s);
    assert(left[k] == s.pos);
    assert(left.contains(s.pos));
    lonely_positions_remain(found, search.psf_size as int, s.pos);
    lemma_region_bounds(search, data);
    peaks_are_local_maxima(data, region, search.least(), s.pos);
}

proof fn lemma_region_bounds(search: StarSearch, data: PixelGrid)
    requires
        search.possible(data),
    ensures
        search.region().right <= 0x7fff_ffff,
        search.region().bottom <= 0x7fff_ffff,
{
    let w = search.width as int;
    let h = search.height as int;
    assert(w <= 46340 && h <= 46340) by (nonlinear_arith)
        requires
            w * w + h * h <= i32::MAX,
            w >= 0,
            h >= 0,
    ;
    crate::detect::the_centre_is_searched(w, h, w, search.psf_size as int, search.crop);
}

/// A position that no other one crowds is selected where the star there meets
/// all limits and is at least half as concentrated as the median of such stars.
pub proof fn uncrowded_peaks_are_found(
    positions: Seq<Point>,
    data: PixelGrid,
    adu_e: Double,
    background_adu: int,
    psf_size: int,
    min_photons: int,
    i: int,
)
    requires
        0 <= i < positions.len(),
        forall|j: int|
            0 <= j < positions.len() && j != i ==> squared_distance(
                positions[i],
                #[trigger] positions[j],
            ) >= psf_size * psf_size,
    ensures
        ({
            let s = star_at(positions[i], data, adu_e, background_adu, psf_size);
            let good = apart(positions, psf_size).map_values(
                |p: Point| star_at(p, data, adu_e, background_adu, psf_size),
            ).filter(
                |s: Star|
                    !s.ill_defined && below(of_int(min_photons), s.magnitude) && below(
                        s.brightest_pixel_adu,
                        product(ratio(7, 10), of_int(65535)),
                    ),
            );
            let middle = median_of(good.map_values(|s: Star| s.top_4_pixels_part));
            !s.ill_defined && below(of_int(min_photons), s.magnitude) && below(
                s.brightest_pixel_adu,
                product(ratio(7, 10), of_int(65535)),
            ) && (middle is Some ==> at_most(
                quotient(middle->0, of_int(2)),
                s.top_4_pixels_part,
            )) ==> stars_among(
                positions,
                data,
                adu_e,
                background_adu,
                psf_size,
                min_photons,
            ).contains(s)
        }),
{
    let p = positions[i];
    let s = star_at(p, data, adu_e, background_adu, psf_size);
    selected_stars_meet_every_condition(
        positions,
        data,
        adu_e,
        background_adu,
        psf_size,
        min_photons,
        s,
    );
    crate::detect::distance_decides_on_crowding(positions, psf_size);
    let left = apart(positions, psf_size);
    assert(left.contains(p));
    let k = left.index_of(p);
    let all = left.map_values(|p: Point| star_at(p, data, adu_e, background_adu, psf_size));
    assert(all[k] == s);
    assert(all.contains(s));
    let g = |s: Star|
        !s.ill_defined && below(of_int(min_photons), s.magnitude) && below(
            s.brightest_pixel_adu,
            product(ratio(7, 10), of_int(65535)),
        );
    if g(s) {
        all.lemma_filter_contains(g, k);
    }
}

/// The numbers of the stars that decide a selected quality are exactly those of
/// the selected stars above the limit, each once, the smaller ones first.
pub proof fn selected_numbers_are_bright(
    stars: Seq<Star>,
    indices: Set<usize>,
    least: Double,
    n: int,
    d: usize,
)
    requires
        0 <= n <= stars.len() <= usize::MAX,
    ensures
        chosen_among(stars, indices, least, n).contains(d) <==> d < n && indices.contains(d)
            && below(least, stars[d as int].magnitude),
        forall|i: int, j: int|
            0 <= i < j < chosen_among(stars, indices, least, n).len() ==> #[trigger] chosen_among(
                stars,
                indices,
                least,
                n,
            )[i] < #[trigger] chosen_among(stars, indices, least, n)[j],
        forall|i: int|
            0 <= i < chosen_among(stars, indices, least, n).len() ==> #[trigger] chosen_among(
                stars,
                indices,
                least,
                n,
            )[i] < n,
    decreases n,
{
    if n > 0 {
        selected_numbers_are_bright(stars, indices, least, n - 1, d);
        let rest = chosen_among(stars, indices, least, n - 1);
        let all = chosen_among(stars, indices, least, n);
        if indices.contains((n - 1) as usize) && below(least, stars[n - 1].magnitude) {
            assert(all[rest.len() as int] == (n - 1) as usize);
            if rest.contains(d) {
                let k = rest.index_of(d);
                assert(all[k] == d);
            }
            if all.contains(d) {
                let k = all.index_of(d);
                if k < rest.len() {
                    assert(rest[k] == d);
                }
            }
        }
    }
}

/// Selected stars decide the quality by the limit for quality of the settings:
/// the image tells which ones did, keeps its own quality beside the new one, and
/// stays as it was otherwise. The quality is the mean of their concentrations,
/// weighted by their magnitudes.
pub proof fn selected_stars_set_the_quality<P: Fn(Double) -> Double>(
    image: AstroImage,
    before: AstroImage,
    indices: Set<usize>,
    config: AppConfig,
    power: P,
    d: usize,
)
    requires
        image.requalified(before, indices, config, power),
        before.detected_stars@.len() <= usize::MAX,
    ensures
        image.detected_stars == before.detected_stars,
        image.quality_star_indices is Some,
        ({
            let stars = before.detected_stars@;
            let v = image.quality_star_indices->0@;
            let light = accumulated(
                of_int(0),
                v.map_values(|i: usize| stars[i as int].magnitude),
            );
            let focused = accumulated(
                of_int(0),
                v.map_values(
                    |i: usize|
                        product(stars[i as int].magnitude, stars[i as int].top_4_pixels_part),
                ),
            );
            &&& v.contains(d) <==> d < stars.len() && indices.contains(d) && below(
                config.min_photons_quality,
                stars[d as int].magnitude,
            )
            &&& below(of_int(0), light) ==> {
                &&& image.quality == quotient(focused, light)
                &&& image.quality_image == Some(before.quality)
                &&& exists|p: Double| #[trigger]
                    call_ensures(power, (product(image.quality, of_int(100)),), p) && image.fwhm
                        == sum(
                        ratio(-1106713, 100000),
                        product(ratio(26141212, 1000000), p),
                    )
            }
            &&& !below(of_int(0), light) ==> {
                &&& image.quality == before.quality
                &&& image.quality_image == before.quality_image
                &&& image.fwhm == before.fwhm
            }
        }),
{
    let stars = before.detected_stars@;
    let v = image.quality_star_indices->0@;
    selected_numbers_are_bright(
        stars,
        indices,
        config.min_photons_quality,
        stars.len() as int,
        d,
    );
    let used = picked(stars, v);
    assert(used.map_values(|s: Star| s.magnitude) =~= v.map_values(
        |i: usize| stars[i as int].magnitude,
    ));
    assert(used.map_values(|s: Star| product(s.magnitude, s.top_4_pixels_part)) =~= v.map_values(
        |i: usize| product(stars[i as int].magnitude, stars[i as int].top_4_pixels_part),
    ));
}

/// Exactly the stars whose magnitude is at least the one limit and not above the
/// other are listed, by their numbers.
pub proof fn stars_between_keep_both_limits(
    stars: Seq<Star>,
    least: Double,
    most: Double,
    n: int,
    d: usize,
)
    requires
        0 <= n <= stars.len() <= usize::MAX,
    ensures
        between(stars, least, most, n).contains(d) <==> d < n && at_most(
            least,
            stars[d as int].magnitude,
        ) && !below(most, stars[d as int].magnitude),
        forall|i: int, j: int|
            0 <= i < j < between(stars, least, most, n).len() ==> #[trigger] between(
                stars,
                least,
                most,
                n,
            )[i] < #[trigger] between(stars, least, most, n)[j],
        forall|i: int|
            0 <= i < between(stars, least, most, n).len() ==> #[trigger] between(
                stars,
                least,
                most,
                n,
            )[i] < n,
    decreases n,
{
    if n > 0 {
        stars_between_keep_both_limits(stars, least, most, n - 1, d);
        let rest = between(stars, least, most, n - 1);
        let all = between(stars, least, most, n);
        if !below(most, stars[n - 1].magnitude) && at_most(least, stars[n - 1].magnitude) {
            assert(all[rest.len() as int] == (n - 1) as usize);
            if rest.contains(d) {
                let k = rest.index_of(d);
                assert(all[k] == d);
            }
            if all.contains(d) {
                let k = all.index_of(d);
                if k < rest.len() {
                    assert(rest[k] == d);
                }
            }
        }
    }
}

/// An image that is loaded is searched by its header: its size and gain, the
/// size of a star and the limits of the settings, and the given background.
pub proof fn headers_decide_the_search(
    header: ImageHeader,
    image: AstroImage,
    crop: Option<Double>,
    config: AppConfig,
)
    requires
        image.width == header.width,
        image.height == header.height,
        image.adu_e == config.gain_to_adu@[(match header.gain {
            Some(g) => g,
            None => 0,
        })],
        image.psf_size == config.psf_size,
    ensures
        header.search(image.background_level_adu, crop, config) == image.search(crop, config),
        image.search(crop, config).min_photons == config.min_photons_to_detect_star,
        image.search(crop, config).min_central_photons
            == config.min_central_photons_to_detect_star,
        image.search(crop, config).background_adu == image.background_level_adu,
{
}

/// The overview lists the stars that decided the quality where there are such,
/// else the most concentrated ones first; no star that it leaves out then is
/// more concentrated than one that it lists.
pub proof fn overviews_list_the_sharpest_stars(
    image: AstroImage,
    max_stars: int,
    i: int,
    left_out: usize,
)
    requires
        image.detected_stars@.len() <= usize::MAX,
        0 <= max_stars,
        image.quality_star_indices is None || image.quality_star_indices->0@.len() == 0,
        left_out < image.detected_stars@.len(),
        !image.table(max_stars).1.contains(left_out),
        0 <= i < image.table(max_stars).1.len(),
    ensures
        ({
            let stars = image.detected_stars@;
            let table = image.table(max_stars).1;
            &&& !image.table(max_stars).0
            &&& table[i] < stars.len()
            &&& place(stars[left_out as int].top_4_pixels_part) <= place(
                stars[table[i] as int].top_4_pixels_part,
            )
            &&& forall|j: int|
                i < j < table.len() ==> place(
                    stars[#[trigger] table[j] as int].top_4_pixels_part,
                ) <= place(stars[table[i] as int].top_4_pixels_part)
        }),
{
    let stars = image.detected_stars@;
    let all = numbers_below(stars.len() as int);
    let leq = by_concentration(stars);
    let order = arranged(all, leq);
    let table = image.table(max_stars).1;
    arranging_keeps_the_elements(all, leq);
    assert(preorder(leq));
    arranging_sorts(all, leq);
    assert(all[left_out as int] == left_out);
    assert(all.contains(left_out));
    lemma_same_members(order, all, left_out);
    let k = order.index_of(left_out);
    assert(table[i] == order[i]);
    lemma_same_members(order, all, order[i]);
    assert(order.contains(order[i]));
    let m = all.index_of(order[i]);
    assert(all[m] == order[i]);
    if k < table.len() {
        assert(table[k] == left_out);
    }
    assert(leq(order[i], order[k]));
    assert forall|j: int| i < j < table.len() implies place(
        stars[#[trigger] table[j] as int].top_4_pixels_part,
    ) <= place(stars[table[i] as int].top_4_pixels_part) by {
        assert(table[j] == order[j]);
        assert(leq(order[i], order[j]));
    }
}

/// The quality of an image is the mean of the concentrations of those stars that
/// are above the limit for quality, weighted by their magnitudes; without light
/// in them it is zero and the width stays.
pub proof fn bright_stars_set_the_quality<P: Fn(Double) -> Double>(
    image: AstroImage,
    config: AppConfig,
    power: P,
    fwhm_before: Double,
)
    requires
        image.rated(config, power, fwhm_before),
    ensures
        ({
            let used = image.detected_stars@.filter(
                |s: Star| below(config.min_photons_quality, s.magnitude),
            );
            let light = accumulated(of_int(0), used.map_values(|s: Star| s.magnitude));
            let focused = accumulated(
                of_int(0),
                used.map_values(|s: Star| product(s.magnitude, s.top_4_pixels_part)),
            );
            &&& below(of_int(0), light) ==> image.quality == quotient(focused, light)
            &&& !below(of_int(0), light) ==> image.quality == of_int(0) && image.fwhm
                == fwhm_before
        }),
{
    let stars = image.detected_stars@;
    let own = |s: Star| below(config.min_photons_quality, s.magnitude);
    crate::lists::lemma_filter_same(stars, own, brighter_than(config.min_photons_quality));
}

/// The overview lists as many stars as asked for, or all there are: those that
/// decided the quality, in their order, where there are such, else each star at
/// most once.
pub proof fn overviews_are_as_long_as_asked(image: AstroImage, max_stars: int, i: int)
    requires
        image.detected_stars@.len() <= usize::MAX,
        0 <= max_stars,
        0 <= i < image.table(max_stars).1.len(),
    ensures
        ({
            let (chosen, table) = image.table(max_stars);
            let own = image.quality_star_indices is Some && image.quality_star_indices->0@.len()
                > 0;
            let n = if own {
                image.quality_star_indices->0@.len() as int
            } else {
                image.detected_stars@.len() as int
            };
            &&& chosen <==> own
            &&& table.len() == (if max_stars < n {
                max_stars
            } else {
                n
            })
            &&& own ==> table[i] == image.quality_star_indices->0@[i]
            &&& !own ==> table.no_duplicates()
        }),
{
    let n = image.detected_stars@.len() as int;
    let leq = by_concentration(image.detected_stars@);
    let all = numbers_below(n);
    let order = arranged(all, leq);
    arranging_keeps_the_elements(all, leq);
    assert(all.no_duplicates());
    all.lemma_multiset_has_no_duplicates();
    order.lemma_multiset_has_no_duplicates_conv();
}

/// A pixel that no circle and no label covers is as it was before the stars were
/// marked.
pub proof fn marks_cover_only_themselves(
    base: spec_fn(int, int) -> Colour,
    stars: Seq<Star>,
    n: int,
    x: int,
    y: int,
)
    requires
        0 <= n <= stars.len(),
        forall|k: int|
            #![trigger stars[k]]
            0 <= k < n ==> label(
                stars[k].pos.x as int,
                stars[k].pos.y as int,
                (k + 1) as nat,
                x,
                y,
            ) is None && !circle(stars[k].pos.x as int, stars[k].pos.y as int, 5)(x, y),
    ensures
        marked(base, stars, n)(x, y) == base(x, y),
    decreases n,
{
    if n > 0 {
        let s = stars[n - 1];
        marks_cover_only_themselves(base, stars, n - 1, x, y);
    }
}

/// The last star with a mark on a pixel decides its colour: its label, which
/// bears its number counted from one, else its red circle.
pub proof fn the_last_mark_lies_on_top(
    base: spec_fn(int, int) -> Colour,
    stars: Seq<Star>,
    n: int,
    k: int,
    x: int,
    y: int,
)
    requires
        0 <= k < n <= stars.len(),
        forall|m: int|
            #![trigger stars[m]]
            k < m < n ==> label(
                stars[m].pos.x as int,
                stars[m].pos.y as int,
                (m + 1) as nat,
                x,
                y,
            ) is None && !circle(stars[m].pos.x as int, stars[m].pos.y as int, 5)(x, y),
    ensures
        ({
            let own = label(
                stars[k].pos.x as int,
                stars[k].pos.y as int,
                (k + 1) as nat,
                x,
                y,
            );
            &&& own is Some ==> marked(base, stars, n)(x, y) == own->0
            &&& own is None && circle(stars[k].pos.x as int, stars[k].pos.y as int, 5)(x, y)
                ==> marked(base, stars, n)(x, y) == (Colour { red: 255, green: 0, blue: 0 })
        }),
    decreases n,
{
    if k < n - 1 {
        let s = stars[n - 1];
        the_last_mark_lies_on_top(base, stars, n - 1, k, x, y);
    }
}

/// The shade of a pixel is grey, and goes by the background of the image, its
/// spread and the brightness of the pixel, in this order.
pub proof fn shades_go_by_the_brightness<G: Fn(u16, u16, u16) -> u8>(
    gray: G,
    image: AstroImage,
    x: int,
    y: int,
    c: Colour,
)
    ensures
        shaded(gray, image, x, y, c) <==> c.red == c.green && c.green == c.blue && call_ensures(
            gray,
            (image.background_level_adu, image.sigma_adu, image.data.level(x, y) as u16),
            c.green,
        ),
{
}

} // verus!
