//! The analysis of the files of a session.
use crate::astro_image::{
    at_most_first, chosen, first_of, picked, quality_of, AstroImage,
};
use crate::config::AppConfig;
use crate::constellation::{
    star_pattern_brightness_adu, star_pattern_snr, Constellation, RegisteredStar, Transform,
};
use crate::double::{
    accumulated, at_most, below, ceiling, difference, larger, mean, mean_of, of_int, product,
    quotient, saturated, sum, total, Double,
};
use crate::metrics::{FilterRule, Metric, MetricRecord, MetricValues};
use crate::order::{arrange, arranged, bytes_at_most, compare_bytes};
use crate::pixels::Point;
use crate::rules::{
    build_rules, division, parse_divide, rules_of, FilterOptions,
};
use crate::star::Star;
use crate::star_pattern::list_outcome;
use vstd::prelude::*;

verus! {

/// A letter of either case.
pub open spec fn letter(b: u8, upper: u8) -> bool {
    b == upper || b == upper + 32
}

/// The name of a FITS file: something before the extension, whatever the case of
/// that.
pub open spec fn fits_name(name: Seq<u8>) -> bool {
    let n = name.len() as int;
    &&& n > 5
    &&& name[n - 5] == 0x2e
    &&& letter(name[n - 4], 0x46)
    &&& letter(name[n - 3], 0x49)
    &&& letter(name[n - 2], 0x54)
    &&& letter(name[n - 1], 0x53)
}

fn is_letter(b: u8, upper: u8) -> (r: bool)
    requires
        upper < 0x80,
    ensures
        r == letter(b, upper),
{
    b == upper || b == upper + 32
}

/// Whether this is the name of a FITS file.
pub fn is_fits(name: &Vec<u8>) -> (r: bool)
    ensures
        r == fits_name(name@),
{
    let n: usize = name.len();
    n > 5 && name[n - 5] == 0x2e && is_letter(name[n - 4], 0x46) && is_letter(name[n - 3], 0x49)
        && is_letter(name[n - 2], 0x54) && is_letter(name[n - 1], 0x53)
}

/// The numbers of those of the first `n` names that are names of FITS files.
pub open spec fn fits_among(names: Seq<Vec<u8>>, n: int) -> Seq<usize>
    decreases n,
{
    if n <= 0 {
        Seq::empty()
    } else if fits_name(names[n - 1]@) {
        fits_among(names, n - 1).push((n - 1) as usize)
    } else {
        fits_among(names, n - 1)
    }
}

/// The numbers of entries by their names.
pub open spec fn by_name(names: Seq<Vec<u8>>) -> spec_fn(usize, usize) -> bool {
    |a: usize, b: usize| bytes_at_most(names[a as int]@, names[b as int]@)
}

/// The FITS files of a directory by their names.
pub open spec fn fits_in_order(names: Seq<Vec<u8>>) -> Seq<usize> {
    arranged(fits_among(names, names.len() as int), by_name(names))
}

/// The numbers of the FITS files of a directory, by their names.
pub fn collect_fits_files(names: &Vec<Vec<u8>>) -> (r: Vec<usize>)
    ensures
        r@ == fits_in_order(names@),
{
    let mut found: Vec<usize> = Vec::new();
    let mut i: usize = 0;
    while i < names.len()
        invariant
            i <= names@.len(),
            found@ == fits_among(names@, i as int),
            forall|k: int| 0 <= k < found@.len() ==> #[trigger] found@[k] < names@.len(),
        decreases names@.len() - i,
    {
        if is_fits(&names[i]) {
            found.push(i);
        }
        i = i + 1;
    }
    let f = |a: &usize, b: &usize| -> (c: bool)
        requires
            *a < names@.len(),
            *b < names@.len(),
        ensures
            c == by_name(names@)(*a, *b),
        {
            compare_bytes(names[*a].as_slice(), names[*b].as_slice())
        };
    arrange(found, f, Ghost(by_name(names@)))
}

/// The numbers of entries by the times of their last changes, the latest first;
/// those of one time by their names.
pub open spec fn newest_first(modified: Seq<u128>, names: Seq<Vec<u8>>) -> spec_fn(
    usize,
    usize,
) -> bool {
    |a: usize, b: usize|
        modified[a as int] > modified[b as int] || (modified[a as int] == modified[b as int]
            && bytes_at_most(names[a as int]@, names[b as int]@))
}

/// The files that are analysed: all of them by name, or the `count` newest with
/// the newest one first.
pub open spec fn analysed(
    names: Seq<Vec<u8>>,
    modified: Seq<u128>,
    count: Option<usize>,
) -> Seq<usize> {
    match count {
        Some(n) => at_most_first(
            arranged(fits_in_order(names), newest_first(modified, names)),
            n as int,
        ),
        None => fits_in_order(names),
    }
}

/// Decides which files of a directory are analysed. `modified` holds the times
/// of the last changes of the entries.
pub fn files_to_analyse(
    names: &Vec<Vec<u8>>,
    modified: &Vec<u128>,
    check_count: Option<usize>,
) -> (r: Result<Vec<usize>, String>)
    requires
        modified@.len() == names@.len(),
    ensures
        list_outcome(r) == (if fits_in_order(names@).len() == 0 {
            Err::<Seq<usize>, Seq<char>>("no FITS files found"@)
        } else {
            Ok(analysed(names@, modified@, check_count))
        }),
{
    let files = collect_fits_files(names);
    if files.len() == 0 {
        return Err("no FITS files found".to_owned());
    }
    match check_count {
        Some(count) => {
            proof {
                assert(names.len() == names@.len());
                assert forall|k: int| 0 <= k < files@.len() implies #[trigger] files@[k]
                    < names@.len() by {
                    assert(files@.contains(files@[k]));
                    lemma_files_exist(names@, files@[k]);
                }
            }
            let f = |a: &usize, b: &usize| -> (c: bool)
                requires
                    *a < names@.len(),
                    *b < names@.len(),
                    modified@.len() == names@.len(),
                ensures
                    c == newest_first(modified@, names@)(*a, *b),
                {
                    modified[*a] > modified[*b] || (modified[*a] == modified[*b] && compare_bytes(
                        names[*a].as_slice(),
                        names[*b].as_slice(),
                    ))
                };
            let sorted = arrange(files, f, Ghost(newest_first(modified@, names@)));
            Ok(first_of(&sorted, count))
        },
        None => Ok(files),
    }
}

/// What is known of an image after the analysis.
#[derive(Clone, Debug)]
pub struct ImageInfo {
    pub file_name: String,
    pub quality: Double,
    pub fwhm: Double,
    pub quality_image: Option<Double>,
    pub star_count: usize,
    pub constellation_found: Option<bool>,
    pub matched_star_count: usize,
    pub star_brightness_adu: Option<Double>,
    pub snr: Option<Double>,
    pub brightest_star_adu: Double,
    pub background_raw_adu: Double,
    pub background_corrected_adu: Double,
    pub brightest_star_photons: Double,
    pub star5_photons: Double,
}

/// A value of the star with this number, or zero where there is no such star.
pub open spec fn value_of_star(stars: Seq<Star>, i: int, f: spec_fn(Star) -> Double) -> Double {
    if i < stars.len() {
        f(stars[i])
    } else {
        of_int(0)
    }
}

/// The pattern that was sought was found.
pub open spec fn pattern_found(c: Option<Constellation>) -> bool {
    c is Some && c->0.found
}

/// How bright the stars of the pattern are, where one was found.
pub open spec fn pattern_signal(c: Option<Constellation>, stars: Seq<Star>) -> Option<Double> {
    if pattern_found(c) {
        Some(total(c->0.signals(stars, c->0.registered_stars@.len() as int)))
    } else {
        None
    }
}

impl ImageInfo {
    /// This is what the image and the pattern that was sought in it give.
    pub open spec fn describes(
        self,
        file_name: Seq<char>,
        img: AstroImage,
        c: Option<Constellation>,
        config: AppConfig,
    ) -> bool {
        let stars = img.detected_stars@;
        let signal = pattern_signal(c, stars);
        let noise = of_int(img.sigma_adu as int);
        let raw = of_int(img.background_level_adu as int);
        &&& self.file_name@ == file_name
        &&& self.quality == img.quality
        &&& self.fwhm == img.fwhm
        &&& self.quality_image == (if pattern_found(c) {
            quality_of(picked(stars, chosen(stars, c->0.quality_stars(), config.min_photons_quality)))
        } else {
            None
        })
        &&& self.star_count == stars.len()
        &&& self.constellation_found == (match c {
            Some(c) => Some(c.found),
            None => None,
        })
        &&& self.matched_star_count == (if pattern_found(c) {
            c->0.star_mapping@.len()
        } else {
            0
        })
        &&& self.star_brightness_adu == signal
        &&& self.snr == (match signal {
            Some(s) => if noise.finite() && noise.units() > 0 {
                Some(quotient(s, noise))
            } else {
                None
            },
            None => None,
        })
        &&& self.brightest_star_adu == value_of_star(stars, 0, |s: Star| s.magnitude_adu)
        &&& self.background_raw_adu == raw
        &&& self.background_corrected_adu == larger(
            difference(raw, config.background_bias_adu),
            of_int(0),
        )
        &&& self.brightest_star_photons == value_of_star(stars, 0, |s: Star| s.magnitude)
        &&& self.star5_photons == value_of_star(stars, 4, |s: Star| s.magnitude)
    }
}

/// Takes together what the image and the pattern that was sought in it give.
pub fn image_info(
    file_name: String,
    img: &AstroImage,
    constellation: &Option<Constellation>,
    config: &AppConfig,
) -> (r: ImageInfo)
    ensures
        r.describes(file_name@, *img, *constellation, *config),
{
    broadcast use vstd::std_specs::hash::group_hash_axioms;

    let zero = Double::of_u64(0);
    let stars: &Vec<Star> = img.stars();
    let mut quality_image: Option<Double> = None;
    let mut constellation_found: Option<bool> = None;
    let mut matched_star_count: usize = 0;
    let mut signal: Option<Double> = None;
    if let Some(c) = constellation {
        constellation_found = Some(c.found);
        signal = star_pattern_brightness_adu(stars.as_slice(), c);
        if c.found {
            matched_star_count = c.star_mapping.len();
            quality_image = img.quality_for_star_indices(&c.quality_indices(), config);
        }
    }
    let raw = img.background_raw_adu();
    ImageInfo {
        file_name,
        quality: img.quality(),
        fwhm: img.fwhm(),
        quality_image,
        star_count: img.star_count(),
        constellation_found,
        matched_star_count,
        star_brightness_adu: signal,
        snr: star_pattern_snr(signal, img.background_noise_adu()),
        brightest_star_adu: if stars.len() > 0 {
            stars[0].magnitude_adu
        } else {
            zero
        },
        background_raw_adu: raw,
        background_corrected_adu: raw.difference(config.background_bias_adu).larger(zero),
        brightest_star_photons: if stars.len() > 0 {
            stars[0].magnitude
        } else {
            zero
        },
        star5_photons: if stars.len() > 4 {
            stars[4].magnitude
        } else {
            zero
        },
    }
}

/// Seeks the pattern in the image, where there is one, and takes together what
/// the two give. See [`Constellation::find_in_image_with_tolerance`] on the
/// geometry.
pub fn analyse_image<N, T, P>(
    file_name: String,
    img: &AstroImage,
    registered_stars: Option<Vec<RegisteredStar>>,
    config: &AppConfig,
    near: &N,
    transform: &T,
    placed: &P,
) -> (r: ImageInfo) where
    N: Fn(Point, Point, Point, Point, Double) -> bool,
    T: Fn(Point, Point, Point, Point) -> Transform,
    P: Fn(Point, Point, Transform, Point, Double) -> bool,

    requires
        forall|x: (Point, Point, Point, Point, Double)| call_requires(*near, x),
        forall|x: (Point, Point, Point, Point)| call_requires(*transform, x),
        forall|x: (Point, Point, Transform, Point, Double)| call_requires(*placed, x),
    ensures
        match registered_stars {
            Some(stars) => exists|c: Constellation|
                {
                    &&& c.registered_stars == stars
                    &&& c.position_tolerance_px == config.star_pattern_position_tolerance_px
                    &&& c.located(*near, *transform, *placed, img.detected_stars@)
                    &&& #[trigger] r.describes(file_name@, *img, Some(c), *config)
                },
            None => r.describes(file_name@, *img, None, *config),
        },
{
    let constellation = match registered_stars {
        Some(stars) => Some(
            Constellation::find_in_image_with_tolerance(
                stars,
                img,
                config.star_pattern_position_tolerance_px,
                near,
                transform,
                placed,
            ),
        ),
        None => None,
    };
    image_info(file_name, img, &constellation, config)
}

/// Seeks the pattern in the image and lets its stars decide the quality, where
/// it is found. See [`Constellation::find_in_image_with_tolerance`] on the
/// geometry.
pub fn apply_constellation_quality<N, T, P, W>(
    img: &mut AstroImage,
    registered_stars: Vec<RegisteredStar>,
    config: &AppConfig,
    near: &N,
    transform: &T,
    placed: &P,
    power: &W,
) -> (r: bool) where
    N: Fn(Point, Point, Point, Point, Double) -> bool,
    T: Fn(Point, Point, Point, Point) -> Transform,
    P: Fn(Point, Point, Transform, Point, Double) -> bool,
    W: Fn(Double) -> Double,

    requires
        forall|x: (Point, Point, Point, Point, Double)| call_requires(*near, x),
        forall|x: (Point, Point, Point, Point)| call_requires(*transform, x),
        forall|x: (Point, Point, Transform, Point, Double)| call_requires(*placed, x),
        forall|x: Double| call_requires(*power, (x,)),
    ensures
        exists|c: Constellation|
            {
                &&& c.registered_stars == registered_stars
                &&& c.position_tolerance_px == config.star_pattern_position_tolerance_px
                &&& #[trigger] c.located(*near, *transform, *placed, old(img).detected_stars@)
                &&& r == c.found
                &&& if c.found {
                    final(img).requalified(*old(img), c.quality_stars(), *config, *power)
                } else {
                    *final(img) == *old(img)
                }
            },
{
    let c = Constellation::find_in_image_with_tolerance(
        registered_stars,
        img,
        config.star_pattern_position_tolerance_px,
        near,
        transform,
        placed,
    );
    assert(c.located(*near, *transform, *placed, old(img).detected_stars@));
    if c.found {
        img.recalculate_quality_for_star_indices(&c.quality_indices(), config, power);
        true
    } else {
        false
    }
}

/// The metrics of an image.
pub open spec fn metrics_of(image: ImageInfo) -> MetricValues {
    MetricValues {
        quality: image.quality,
        fwhm: image.fwhm,
        star_count: image.star_count,
        brightest_star_adu: image.brightest_star_adu,
        brightest_star_photons: image.brightest_star_photons,
        star5_photons: image.star5_photons,
        background_raw_adu: image.background_raw_adu,
        background_corrected_adu: image.background_corrected_adu,
        quality_star_pattern: image.quality_image,
        quality_star_pattern_source: image.quality_image is Some,
        star_brightness_adu: image.star_brightness_adu,
        snr: image.snr,
        star_pattern_found: image.constellation_found == Some(true),
        matched_star_count: image.matched_star_count,
    }
}

/// The metrics of an image.
pub fn image_to_metrics(image: &ImageInfo) -> (r: MetricValues)
    ensures
        r == metrics_of(*image),
{
    MetricValues {
        quality: image.quality,
        fwhm: image.fwhm,
        star_count: image.star_count,
        brightest_star_adu: image.brightest_star_adu,
        brightest_star_photons: image.brightest_star_photons,
        star5_photons: image.star5_photons,
        background_raw_adu: image.background_raw_adu,
        background_corrected_adu: image.background_corrected_adu,
        quality_star_pattern: image.quality_image,
        quality_star_pattern_source: image.quality_image.is_some(),
        star_brightness_adu: image.star_brightness_adu,
        snr: image.snr,
        star_pattern_found: match image.constellation_found {
            Some(found) => found,
            None => false,
        },
        matched_star_count: image.matched_star_count,
    }
}

impl ImageInfo {
    /// This is what the record says of the image.
    pub open spec fn restored(self, r: MetricRecord) -> bool {
        let m = r.metrics;
        &&& self.file_name@ == r.file_name@
        &&& self.quality == m.quality
        &&& self.fwhm == m.fwhm
        &&& self.quality_image == (if m.quality_star_pattern_source {
            m.quality_star_pattern
        } else {
            None
        })
        &&& self.star_count == m.star_count
        &&& self.constellation_found == Some(m.star_pattern_found)
        &&& self.matched_star_count == m.matched_star_count
        &&& self.star_brightness_adu == m.star_brightness_adu
        &&& self.snr == m.snr
        &&& self.brightest_star_adu == m.brightest_star_adu
        &&& self.background_raw_adu == m.background_raw_adu
        &&& self.background_corrected_adu == m.background_corrected_adu
        &&& self.brightest_star_photons == m.brightest_star_photons
        &&& self.star5_photons == m.star5_photons
    }
}

/// What a record says of an image.
pub fn image_from_record(record: &MetricRecord) -> (r: ImageInfo)
    ensures
        r.restored(*record),
{
    let m = &record.metrics;
    ImageInfo {
        file_name: record.file_name.as_str().to_owned(),
        quality: m.quality,
        fwhm: m.fwhm,
        quality_image: if m.quality_star_pattern_source {
            m.quality_star_pattern
        } else {
            None
        },
        star_count: m.star_count,
        constellation_found: Some(m.star_pattern_found),
        matched_star_count: m.matched_star_count,
        star_brightness_adu: m.star_brightness_adu,
        snr: m.snr,
        brightest_star_adu: m.brightest_star_adu,
        background_raw_adu: m.background_raw_adu,
        background_corrected_adu: m.background_corrected_adu,
        brightest_star_photons: m.brightest_star_photons,
        star5_photons: m.star5_photons,
    }
}

/// An image whose metrics are stored is the same again, but that a pattern that
/// was not sought counts as not found.
pub proof fn stored_images_come_back(image: ImageInfo, record: MetricRecord, back: ImageInfo)
    requires
        record.file_name@ == image.file_name@,
        record.metrics == metrics_of(image),
        back.restored(record),
    ensures
        back.file_name@ == image.file_name@,
        metrics_of(back) == metrics_of(image),
        back.quality_image == image.quality_image,
        image.constellation_found is Some ==> back.constellation_found == image.constellation_found,
        image.constellation_found is None ==> back.constellation_found == Some(false),
{
}

/// What is known while the files of a session are analysed one by one.
#[derive(Clone, Debug)]
pub struct Progress {
    pub quality_sum: Double,
    pub fwhm_sum: Double,
    pub quality_count: usize,
    /// The qualities of the last images.
    pub window: Vec<Double>,
    pub images_in_window: i32,
    pub window_known: bool,
    pub last_quality: Double,
}

/// What is shown while the files are analysed.
#[derive(Clone, Copy, Debug)]
pub struct ProgressMessage {
    pub avg_fwhm: Double,
    /// In percent.
    pub avg_quality: Double,
    /// In minutes.
    pub last_time: Double,
    /// In percent.
    pub last_quality: Double,
}

/// The last qualities with one more; the first goes where there are more than
/// `limit`, which counts as none where it is negative.
pub open spec fn slid(window: Seq<Double>, quality: Double, limit: int) -> Seq<Double> {
    let longer = window.push(quality);
    if 0 <= limit < longer.len() {
        longer.drop_first()
    } else {
        longer
    }
}

impl Progress {
    /// How many images the window holds, after an image with this exposure: as
    /// many as fit into the time, told by the first image.
    pub open spec fn limit(self, exp_t: Double, config: AppConfig) -> int {
        if self.window_known {
            self.images_in_window as int
        } else {
            saturated(
                ceiling(quotient(config.log_quality_window_t, exp_t)),
                -0x8000_0000,
                0x7fff_ffff,
            )
        }
    }

    /// The state is `before` with one more image.
    pub open spec fn follows(
        self,
        before: Progress,
        quality: Double,
        fwhm: Double,
        exp_t: Double,
        config: AppConfig,
    ) -> bool {
        let limit = before.limit(exp_t, config);
        &&& self.window_known
        &&& self.images_in_window == limit
        &&& if quality.finite() {
            &&& self.quality_sum == sum(before.quality_sum, quality)
            &&& self.fwhm_sum == sum(before.fwhm_sum, fwhm)
            &&& self.quality_count == before.quality_count + 1
            &&& self.window@ == slid(before.window@, quality, limit)
            &&& self.last_quality == mean(self.window@)
        } else {
            &&& self.quality_sum == before.quality_sum
            &&& self.fwhm_sum == before.fwhm_sum
            &&& self.quality_count == before.quality_count
            &&& self.window@ == before.window@
            &&& self.last_quality == before.last_quality
        }
    }

    /// What is shown in this state after an image with this exposure.
    pub open spec fn message(self, exp_t: Double) -> ProgressMessage {
        let hundred = of_int(100);
        ProgressMessage {
            avg_fwhm: quotient(self.fwhm_sum, of_int(self.quality_count as int)),
            avg_quality: product(
                quotient(self.quality_sum, of_int(self.quality_count as int)),
                hundred,
            ),
            last_time: quotient(product(of_int(self.window@.len() as int), exp_t), of_int(60)),
            last_quality: product(self.last_quality, hundred),
        }
    }

    /// The state before the first image.
    pub fn start() -> (r: Progress)
        ensures
            r.quality_sum == of_int(0),
            r.fwhm_sum == of_int(0),
            r.quality_count == 0,
            r.window@ == Seq::<Double>::empty(),
            r.images_in_window == 100,
            !r.window_known,
            r.last_quality == of_int(0),
    {
        let zero = Double::of_u64(0);
        Progress {
            quality_sum: zero,
            fwhm_sum: zero,
            quality_count: 0,
            window: Vec::new(),
            images_in_window: 100,
            window_known: false,
            last_quality: zero,
        }
    }

    /// Takes one more image into account.
    pub fn record(&mut self, quality: Double, fwhm: Double, exp_t: Double, config: &AppConfig) -> (r:
        ProgressMessage)
        requires
            old(self).quality_count < usize::MAX,
        ensures
            final(self).follows(*old(self), quality, fwhm, exp_t, *config),
            r == final(self).message(exp_t),
    {
        if !self.window_known {
            self.images_in_window = config.log_quality_window_t.quotient(exp_t).ceil_to_i32();
            self.window_known = true;
        }
        if quality.is_finite() {
            self.quality_sum = self.quality_sum.sum(quality);
            self.fwhm_sum = self.fwhm_sum.sum(fwhm);
            self.quality_count = self.quality_count + 1;
            self.window.push(quality);
            let ghost longer = self.window@;
            if self.images_in_window >= 0 && self.window.len() as u64 > self.images_in_window as u64 {
                self.window.remove(0);
                assert(self.window@ =~= longer.drop_first());
            }
            self.last_quality = mean_of(&self.window);
        }
        let count = Double::of_usize(self.quality_count);
        let hundred = Double::of_u64(100);
        ProgressMessage {
            avg_fwhm: self.fwhm_sum.quotient(count),
            avg_quality: self.quality_sum.quotient(count).product(hundred),
            last_time: Double::of_usize(self.window.len()).product(exp_t).quotient(
                Double::of_u64(60),
            ),
            last_quality: self.last_quality.product(hundred),
        }
    }
}

/// The window never holds more images than its time has room for, where that is
/// known and not negative.
pub proof fn the_window_stays_bounded(
    before: Progress,
    after: Progress,
    quality: Double,
    fwhm: Double,
    exp_t: Double,
    config: AppConfig,
)
    requires
        before.window_known,
        0 <= before.images_in_window,
        before.window@.len() <= before.images_in_window,
        after.follows(before, quality, fwhm, exp_t, config),
    ensures
        after.window@.len() <= after.images_in_window,
        after.images_in_window == before.images_in_window,
{
}

/// What was asked to be done with a directory.
#[derive(Clone, Debug)]
pub struct DirectoryRequest {
    pub divide: Option<Vec<String>>,
    pub check_count: Option<usize>,
    pub options: FilterOptions,
}

/// What is to be done with a directory.
#[derive(Clone, Debug)]
pub struct DirectoryPlan {
    /// Into folders of how many files, by which metric, the files are divided.
    pub divide: Option<(Metric, usize)>,
    /// The rules of the filter, where there is one.
    pub rules: Option<Vec<FilterRule>>,
}

/// What is to be done with a directory, or why it cannot be.
pub open spec fn plan_of(request: DirectoryRequest, has_pattern: bool) -> Result<
    (Option<(Metric, usize)>, Option<Seq<FilterRule>>),
    Seq<char>,
> {
    if request.divide is Some && !request.options.filter {
        Err("--divide must be used together with --filter"@)
    } else {
        let divide = match request.divide {
            Some(v) => match division(v@) {
                Ok(d) => Ok(Some(d)),
                Err(e) => Err(e),
            },
            None => Ok(None),
        };
        match divide {
            Err(e) => Err(e),
            Ok(d) => if request.options.filter {
                match rules_of(request.options, has_pattern) {
                    Ok(rules) => Ok((d, Some(rules))),
                    Err(e) => Err(e),
                }
            } else {
                Ok((d, None))
            },
        }
    }
}

impl DirectoryPlan {
    /// What the plan says.
    pub open spec fn says(self) -> (Option<(Metric, usize)>, Option<Seq<FilterRule>>) {
        (
            self.divide,
            match self.rules {
                Some(v) => Some(v@),
                None => None,
            },
        )
    }
}

/// Checks what was asked to be done with a directory before any file is read.
pub fn plan_directory(request: &DirectoryRequest, has_pattern: bool) -> (r: Result<
    DirectoryPlan,
    String,
>)
    ensures
        match plan_of(*request, has_pattern) {
            Ok(p) => r is Ok && r->Ok_0.says() == p,
            Err(e) => r is Err && r->Err_0@ == e,
        },
{
    if request.divide.is_some() && !request.options.filter {
        return Err("--divide must be used together with --filter".to_owned());
    }
    let mut divide: Option<(Metric, usize)> = None;
    if let Some(v) = &request.divide {
        match parse_divide(v.as_slice()) {
            Ok(d) => {
                divide = Some(d);
            },
            Err(e) => {
                return Err(e);
            },
        }
    }
    let mut rules: Option<Vec<FilterRule>> = None;
    if request.options.filter {
        match build_rules(&request.options, has_pattern) {
            Ok(list) => {
                rules = Some(list);
            },
            Err(e) => {
                return Err(e);
            },
        }
    }
    Ok(DirectoryPlan { divide, rules })
}

/// What is done after the images of a directory are analysed.
#[derive(Clone, Copy, Debug, PartialEq, Eq, Structural)]
pub struct Steps {
    pub write_quality_map: bool,
    /// Limits were given that nothing is done with.
    pub warn_of_limits: bool,
    pub move_files: bool,
    pub draw_charts: bool,
}

/// What is done after the images of a directory are analysed. A quick check only
/// reports.
pub open spec fn steps_of(request: DirectoryRequest, has_pattern: bool) -> Steps {
    let full = request.check_count is None;
    Steps {
        write_quality_map: full,
        warn_of_limits: full && !request.options.filter && rules_of(
            request.options,
            has_pattern,
        ) is Ok && rules_of(request.options, has_pattern)->Ok_0.len() > 0,
        move_files: full && request.options.filter,
        draw_charts: full,
    }
}

/// Decides what is done after the images of a directory are analysed.
pub fn next_steps(request: &DirectoryRequest, has_pattern: bool) -> (r: Steps)
    ensures
        r == steps_of(*request, has_pattern),
{
    let full = request.check_count.is_none();
    let mut warn: bool = false;
    if full && !request.options.filter {
        if let Ok(list) = build_rules(&request.options, has_pattern) {
            warn = list.len() > 0;
        }
    }
    Steps {
        write_quality_map: full,
        warn_of_limits: warn,
        move_files: full && request.options.filter,
        draw_charts: full,
    }
}

/// A quick check moves no files and draws no charts.
pub proof fn quick_checks_only_report(request: DirectoryRequest, has_pattern: bool)
    requires
        request.check_count is Some,
    ensures
        !steps_of(request, has_pattern).move_files,
        !steps_of(request, has_pattern).draw_charts,
        !steps_of(request, has_pattern).write_quality_map,
{
}

/// Files are divided only where they are filtered.
pub proof fn division_needs_a_filter(request: DirectoryRequest, has_pattern: bool)
    requires
        plan_of(request, has_pattern) is Ok,
        plan_of(request, has_pattern)->Ok_0.0 is Some,
    ensures
        request.options.filter,
        plan_of(request, has_pattern)->Ok_0.1 is Some,
{
}

proof fn lemma_fits_among(names: Seq<Vec<u8>>, n: int, i: usize)
    requires
        0 <= n <= names.len() <= usize::MAX,
    ensures
        fits_among(names, n).contains(i) <==> i < n && fits_name(names[i as int]@),
    decreases n,
{
    if n > 0 {
        lemma_fits_among(names, n - 1, i);
        let rest = fits_among(names, n - 1);
        let all = fits_among(names, n);
        if fits_name(names[n - 1]@) {
            assert(all[rest.len() as int] == (n - 1) as usize);
            if rest.contains(i) {
                let k = rest.index_of(i);
                assert(all[k] == i);
            }
            if all.contains(i) {
                let k = all.index_of(i);
                if k < rest.len() {
                    assert(rest[k] == i);
                }
            }
        }
    }
}

proof fn lemma_files_exist(names: Seq<Vec<u8>>, i: usize)
    requires
        names.len() <= usize::MAX,
        fits_in_order(names).contains(i),
    ensures
        i < names.len(),
{
    let found = fits_among(names, names.len() as int);
    lemma_fits_among(names, names.len() as int, i);
    crate::order::arranging_keeps_the_elements(found, by_name(names));
    crate::order::lemma_same_members(fits_in_order(names), found, i);
}

/// Exactly the FITS files of a directory are collected.
pub proof fn only_fits_files_are_collected(names: Seq<Vec<u8>>, i: usize)
    requires
        i < names.len() <= usize::MAX,
    ensures
        fits_in_order(names).contains(i) <==> fits_name(names[i as int]@),
{
    let found = fits_among(names, names.len() as int);
    lemma_fits_among(names, names.len() as int, i);
    crate::order::arranging_keeps_the_elements(found, by_name(names));
    crate::order::lemma_same_members(fits_in_order(names), found, i);
}

/// The files are collected by name, whatever the order of the directory is.
pub proof fn files_are_collected_by_name(names: Seq<Vec<u8>>, i: int, j: int)
    requires
        0 <= i < j < fits_in_order(names).len(),
    ensures
        bytes_at_most(
            names[fits_in_order(names)[i] as int]@,
            names[fits_in_order(names)[j] as int]@,
        ),
{
    let leq = by_name(names);
    assert forall|a: usize, b: usize| #[trigger] leq(a, b) || leq(b, a) by {
        crate::order::dictionary_order_is_total(names[a as int]@, names[b as int]@);
    }
    assert forall|a: usize, b: usize, c: usize| #[trigger] leq(a, b) && #[trigger] leq(
        b,
        c,
    ) implies leq(a, c) by {
        crate::order::dictionary_order_is_transitive(
            names[a as int]@,
            names[b as int]@,
            names[c as int]@,
        );
    }
    crate::order::arranging_sorts(fits_among(names, names.len() as int), leq);
    let s = fits_in_order(names);
    assert(leq(s[i], s[j]));
}

/// A quick check takes as many FITS files as it is asked for, or all where there
/// are fewer, and no file that it leaves out is newer than one that it takes.
pub proof fn quick_checks_take_the_newest(
    names: Seq<Vec<u8>>,
    modified: Seq<u128>,
    n: usize,
    left_out: usize,
    taken: usize,
)
    ensures
        ({
            let files = fits_in_order(names);
            let r = analysed(names, modified, Some(n));
            &&& r.len() == (if n < files.len() {
                n as nat
            } else {
                files.len()
            })
            &&& r.contains(taken) ==> files.contains(taken)
            &&& r.contains(taken) && files.contains(left_out) && !r.contains(left_out)
                ==> modified[left_out as int] <= modified[taken as int]
        }),
{
    let files = fits_in_order(names);
    let leq = newest_first(modified, names);
    let sorted = arranged(files, leq);
    let r = analysed(names, modified, Some(n));
    crate::order::arranging_keeps_the_elements(files, leq);
    crate::order::lemma_same_members(sorted, files, taken);
    crate::order::lemma_same_members(sorted, files, left_out);
    assert forall|a: usize, b: usize| #[trigger] leq(a, b) || leq(b, a) by {
        crate::order::dictionary_order_is_total(names[a as int]@, names[b as int]@);
    }
    assert forall|a: usize, b: usize, c: usize| #[trigger] leq(a, b) && #[trigger] leq(
        b,
        c,
    ) implies leq(a, c) by {
        if modified[a as int] == modified[b as int] && modified[b as int] == modified[c as int] {
            crate::order::dictionary_order_is_transitive(
                names[a as int]@,
                names[b as int]@,
                names[c as int]@,
            );
        }
    }
    crate::order::arranging_sorts(files, leq);
    if r.contains(taken) {
        let i = r.index_of(taken);
        assert(sorted[i] == taken);
        assert(sorted.contains(taken));
        if files.contains(left_out) && !r.contains(left_out) {
            let j = sorted.index_of(left_out);
            if j < r.len() {
                assert(r[j] == left_out);
            }
            assert(leq(sorted[i], sorted[j]));
        }
    }
}

/// A letter in lower case.
pub open spec fn lower(b: u8) -> u8 {
    if 65 <= b <= 90 {
        (b + 32) as u8
    } else {
        b
    }
}

/// A file is a FITS file exactly where its name is something followed by
/// `.fits`, in letters of whatever case.
pub proof fn fits_files_end_in_fits(name: Seq<u8>)
    ensures
        fits_name(name) <==> name.len() >= 6 && name.skip(name.len() - 5).map_values(
            |b: u8| lower(b),
        ) == seq![0x2eu8, 0x66u8, 0x69u8, 0x74u8, 0x73u8],
{
    if name.len() >= 6 {
        let n = name.len() as int;
        let tail = name.skip(n - 5).map_values(|b: u8| lower(b));
        let want = seq![0x2eu8, 0x66u8, 0x69u8, 0x74u8, 0x73u8];
        assert(tail.len() == 5);
        assert(tail[0] == lower(name[n - 5]));
        assert(tail[1] == lower(name[n - 4]));
        assert(tail[2] == lower(name[n - 3]));
        assert(tail[3] == lower(name[n - 2]));
        assert(tail[4] == lower(name[n - 1]));
        if tail == want {
            assert(want[0] == 0x2e && want[1] == 0x66 && want[2] == 0x69 && want[3] == 0x74
                && want[4] == 0x73);
        }
        if fits_name(name) {
            assert(tail =~= want);
        }
    }
}

/// What is told of an image is its own: its quality and width, its number of
/// stars, its first and fifth star, and its background with and without the
/// bias of the settings. Without a pattern nothing is told of one.
pub proof fn images_are_described_by_themselves(
    info: ImageInfo,
    file_name: Seq<char>,
    img: AstroImage,
    c: Option<Constellation>,
    config: AppConfig,
)
    requires
        info.describes(file_name, img, c, config),
    ensures
        info.file_name@ == file_name,
        info.quality == img.quality,
        info.fwhm == img.fwhm,
        info.star_count == img.detected_stars@.len(),
        info.background_raw_adu == of_int(img.background_level_adu as int),
        ({
            let net = difference(
                of_int(img.background_level_adu as int),
                config.background_bias_adu,
            );
            &&& at_most(of_int(0), net) ==> info.background_corrected_adu == net
            &&& below(net, of_int(0)) ==> info.background_corrected_adu == of_int(0)
        }),
        img.detected_stars@.len() > 0 ==> info.brightest_star_adu
            == img.detected_stars@[0].magnitude_adu && info.brightest_star_photons
            == img.detected_stars@[0].magnitude,
        img.detected_stars@.len() > 4 ==> info.star5_photons == img.detected_stars@[4].magnitude,
        img.detected_stars@.len() <= 4 ==> info.star5_photons == of_int(0),
        img.detected_stars@.len() == 0 ==> info.brightest_star_adu == of_int(0)
            && info.brightest_star_photons == of_int(0),
        c is None ==> info.constellation_found is None,
        c is None || !c->0.found ==> info.quality_image is None && info.star_brightness_adu is None
            && info.snr is None && info.matched_star_count == 0,
{
    crate::double::small_integers_are_exact(0);
}

/// Of a pattern that was found, the number of its stars is told, the brightness
/// of those that count for the quality and how it compares with the noise, and
/// the quality of exactly those of them that have more photons than the limit
/// for quality.
pub proof fn found_patterns_are_described(
    info: ImageInfo,
    file_name: Seq<char>,
    img: AstroImage,
    c: Constellation,
    config: AppConfig,
)
    requires
        info.describes(file_name, img, Some(c), config),
    ensures
        info.constellation_found == Some(c.found),
        c.found ==> {
            let stars = img.detected_stars@;
            let noise = of_int(img.sigma_adu as int);
            let used = crate::astro_image::chosen_among(
                stars,
                c.quality_stars(),
                config.min_photons_quality,
                stars.len() as int,
            );
            let light = accumulated(
                of_int(0),
                used.map_values(|i: usize| stars[i as int].magnitude),
            );
            &&& info.matched_star_count == c.star_mapping@.len()
            &&& info.star_brightness_adu == Some(
                total(c.signals(stars, c.registered_stars@.len() as int)),
            )
            &&& img.sigma_adu > 0 ==> info.snr == Some(
                quotient(info.star_brightness_adu->0, noise),
            )
            &&& img.sigma_adu == 0 ==> info.snr is None
            &&& below(of_int(0), light) ==> info.quality_image == Some(
                quotient(
                    accumulated(
                        of_int(0),
                        used.map_values(
                            |i: usize|
                                product(
                                    stars[i as int].magnitude,
                                    stars[i as int].top_4_pixels_part,
                                ),
                        ),
                    ),
                    light,
                ),
            )
            &&& !below(of_int(0), light) ==> info.quality_image is None
        },
{
    if c.found {
        let stars = img.detected_stars@;
        let used = chosen(stars, c.quality_stars(), config.min_photons_quality);
        let list = picked(stars, used);
        assert(list.map_values(|s: Star| s.magnitude) =~= used.map_values(
            |i: usize| stars[i as int].magnitude,
        ));
        assert(list.map_values(|s: Star| product(s.magnitude, s.top_4_pixels_part))
            =~= used.map_values(
            |i: usize| product(stars[i as int].magnitude, stars[i as int].top_4_pixels_part),
        ));
        crate::double::small_integers_are_exact(img.sigma_adu as int);
        vstd::arithmetic::power2::lemma_pow2_pos(1074);
        let s = img.sigma_adu as int;
        assert(s > 0 ==> s * vstd::arithmetic::power2::pow2(1074) > 0) by (nonlinear_arith)
            requires
                vstd::arithmetic::power2::pow2(1074) > 0,
        ;
        assert(s == 0 ==> s * vstd::arithmetic::power2::pow2(1074) == 0) by (nonlinear_arith);
    }
}

/// The metrics of an image are what is known of it, each under its own name; the
/// quality of the pattern is there exactly where the image has one.
pub proof fn metrics_keep_their_meaning(image: ImageInfo)
    ensures
        ({
            let m = metrics_of(image);
            &&& m.quality == image.quality
            &&& m.fwhm == image.fwhm
            &&& m.star_count == image.star_count
            &&& m.brightest_star_adu == image.brightest_star_adu
            &&& m.brightest_star_photons == image.brightest_star_photons
            &&& m.star5_photons == image.star5_photons
            &&& m.background_raw_adu == image.background_raw_adu
            &&& m.background_corrected_adu == image.background_corrected_adu
            &&& m.quality_star_pattern == image.quality_image
            &&& m.quality_star_pattern_source <==> image.quality_image is Some
            &&& m.star_brightness_adu == image.star_brightness_adu
            &&& m.snr == image.snr
            &&& m.star_pattern_found <==> image.constellation_found == Some(true)
            &&& m.matched_star_count == image.matched_star_count
        }),
{
}

/// A finite quality is the last one of the window afterwards, the others keep
/// their order, and at most the oldest one goes; its mean is what is shown. A
/// quality that is not finite changes nothing.
pub proof fn windows_hold_the_last_qualities(
    before: Progress,
    after: Progress,
    quality: Double,
    fwhm: Double,
    exp_t: Double,
    config: AppConfig,
)
    requires
        after.follows(before, quality, fwhm, exp_t, config),
    ensures
        quality.finite() ==> {
            &&& after.window@ == before.window@.push(quality) || after.window@
                == before.window@.push(quality).skip(1)
            &&& after.window@ == before.window@.push(quality).skip(1) <==> 0
                <= after.images_in_window <= before.window@.len()
            &&& after.quality_count == before.quality_count + 1
            &&& after.quality_sum == sum(before.quality_sum, quality)
            &&& after.fwhm_sum == sum(before.fwhm_sum, fwhm)
            &&& after.last_quality == quotient(
                total(after.window@),
                of_int(after.window@.len() as int),
            )
        },
        !quality.finite() ==> {
            &&& after.window@ == before.window@
            &&& after.quality_count == before.quality_count
            &&& after.quality_sum == before.quality_sum
            &&& after.fwhm_sum == before.fwhm_sum
            &&& after.last_quality == before.last_quality
        },
{
    let longer = before.window@.push(quality);
    assert(longer.drop_first() =~= longer.skip(1));
    assert(longer.len() != longer.skip(1).len());
}

/// The first image tells how many images the window has room for: the least
/// number of exposures that fill the time of the settings. It stays so.
pub proof fn windows_span_their_time(
    before: Progress,
    after: Progress,
    quality: Double,
    fwhm: Double,
    exp_t: Double,
    config: AppConfig,
)
    requires
        after.follows(before, quality, fwhm, exp_t, config),
    ensures
        before.window_known ==> after.images_in_window == before.images_in_window,
        ({
            let n = quotient(config.log_quality_window_t, exp_t);
            let one = vstd::arithmetic::power2::pow2(1074) as int;
            !before.window_known && n.finite() && 0 <= n.units() < 0x7fff_ffff * one ==> {
                &&& n.units() <= after.images_in_window * one
                &&& (after.images_in_window - 1) * one < n.units()
            }
        }),
{
    let n = quotient(config.log_quality_window_t, exp_t);
    let one = vstd::arithmetic::power2::pow2(1074) as int;
    vstd::arithmetic::power2::lemma_pow2_pos(1074);
    if !before.window_known && n.finite() && 0 <= n.units() < 0x7fff_ffff * one {
        crate::double::lemma_ceiling(n);
        let c = ceiling(n);
        assert(0 <= c <= 0x7fff_ffff) by (nonlinear_arith)
            requires
                (c - 1) * one < n.units(),
                n.units() <= c * one,
                0 <= n.units() < 0x7fff_ffff * one,
                one > 0,
        ;
    }
}

/// What is shown is the mean width and quality over all images so far, how long
/// the exposures of the window took in minutes, and its mean quality; qualities
/// in percent.
pub proof fn messages_show_the_means(p: Progress, exp_t: Double)
    ensures
        ({
            let m = p.message(exp_t);
            &&& m.avg_fwhm == quotient(p.fwhm_sum, of_int(p.quality_count as int))
            &&& m.avg_quality == product(
                quotient(p.quality_sum, of_int(p.quality_count as int)),
                of_int(100),
            )
            &&& m.last_time == quotient(
                product(of_int(p.window@.len() as int), exp_t),
                of_int(60),
            )
            &&& m.last_quality == product(p.last_quality, of_int(100))
        }),
{
}

/// A full analysis writes the quality map and draws the charts, and moves files
/// exactly where a filter is asked for. Limits without a filter are warned of
/// and nothing else is done with them.
pub proof fn full_analyses_do_everything(request: DirectoryRequest, has_pattern: bool)
    requires
        request.check_count is None,
    ensures
        steps_of(request, has_pattern).write_quality_map,
        steps_of(request, has_pattern).draw_charts,
        steps_of(request, has_pattern).move_files <==> request.options.filter,
        steps_of(request, has_pattern).warn_of_limits ==> !request.options.filter,
        !request.options.filter && rules_of(request.options, has_pattern) is Ok ==> (steps_of(
            request,
            has_pattern,
        ).warn_of_limits <==> rules_of(request.options, has_pattern)->Ok_0.len() > 0),
{
}

/// A plan holds what was asked for: the division by the metric and into folders
/// of the size that were named, and the rules of the filter where there is one.
pub proof fn plans_hold_what_was_asked_for(request: DirectoryRequest, has_pattern: bool)
    ensures
        request.divide is Some && !request.options.filter ==> plan_of(
            request,
            has_pattern,
        ) is Err,
        plan_of(request, has_pattern) is Ok ==> {
            let plan = plan_of(request, has_pattern)->Ok_0;
            &&& plan.0 is Some <==> request.divide is Some
            &&& request.divide is Some ==> Ok::<(Metric, usize), Seq<char>>(plan.0->0) == division(
                request.divide->0@,
            )
            &&& plan.1 is Some <==> request.options.filter
            &&& request.options.filter ==> Ok::<Seq<FilterRule>, Seq<char>>(plan.1->0) == rules_of(
                request.options,
                has_pattern,
            )
        },
        request.divide is None && !request.options.filter ==> plan_of(
            request,
            has_pattern,
        ) is Ok,
{
}

/// What is stored of an image comes back field by field; the quality of a
/// pattern only where it was stored as that.
pub proof fn records_are_images_again(image: ImageInfo, record: MetricRecord)
    requires
        image.restored(record),
    ensures
        ({
            let m = record.metrics;
            &&& image.file_name@ == record.file_name@
            &&& image.quality == m.quality
            &&& image.fwhm == m.fwhm
            &&& m.quality_star_pattern_source ==> image.quality_image == m.quality_star_pattern
            &&& !m.quality_star_pattern_source ==> image.quality_image is None
            &&& image.star_count == m.star_count
            &&& image.constellation_found == Some(m.star_pattern_found)
            &&& image.matched_star_count == m.matched_star_count
            &&& image.star_brightness_adu == m.star_brightness_adu
            &&& image.snr == m.snr
            &&& image.brightest_star_adu == m.brightest_star_adu
            &&& image.background_raw_adu == m.background_raw_adu
            &&& image.background_corrected_adu == m.background_corrected_adu
            &&& image.brightest_star_photons == m.brightest_star_photons
            &&& image.star5_photons == m.star5_photons
        }),
{
}

/// A full analysis takes the FITS files by their names. A quick check starts
/// with the newest: a file is never older than one behind it, and files of one
/// time come by their names.
pub proof fn quick_checks_start_with_the_newest(
    names: Seq<Vec<u8>>,
    modified: Seq<u128>,
    n: usize,
    i: int,
    j: int,
)
    requires
        0 <= i < j < analysed(names, modified, Some(n)).len(),
    ensures
        analysed(names, modified, None) == fits_in_order(names),
        ({
            let r = analysed(names, modified, Some(n));
            let a = r[i] as int;
            let b = r[j] as int;
            &&& modified[a] >= modified[b]
            &&& modified[a] == modified[b] ==> bytes_at_most(names[a]@, names[b]@)
        }),
{
    let files = fits_in_order(names);
    let leq = newest_first(modified, names);
    let sorted = arranged(files, leq);
    assert forall|a: usize, b: usize| #[trigger] leq(a, b) || leq(b, a) by {
        crate::order::dictionary_order_is_total(names[a as int]@, names[b as int]@);
    }
    assert forall|a: usize, b: usize, c: usize| #[trigger] leq(a, b) && #[trigger] leq(
        b,
        c,
    ) implies leq(a, c) by {
        if modified[a as int] == modified[b as int] && modified[b as int] == modified[c as int] {
            crate::order::dictionary_order_is_transitive(
                names[a as int]@,
                names[b as int]@,
                names[c as int]@,
            );
        }
    }
    crate::order::arranging_sorts(files, leq);
    assert(leq(sorted[i], sorted[j]));
}

/// No file is collected twice.
pub proof fn files_are_collected_once(names: Seq<Vec<u8>>)
    requires
        names.len() <= usize::MAX,
    ensures
        fits_in_order(names).no_duplicates(),
{
    let found = fits_among(names, names.len() as int);
    lemma_fits_rise(names, names.len() as int);
    assert(found.no_duplicates()) by {
        assert forall|i: int, j: int|
            0 <= i < found.len() && 0 <= j < found.len() && i != j implies found[i] != found[j] by {
            if i < j {
                assert(found[i] < found[j]);
            } else {
                assert(found[j] < found[i]);
            }
        }
    }
    crate::order::arranging_keeps_the_elements(found, by_name(names));
    found.lemma_multiset_has_no_duplicates();
    fits_in_order(names).lemma_multiset_has_no_duplicates_conv();
}

proof fn lemma_fits_rise(names: Seq<Vec<u8>>, n: int)
    requires
        0 <= n <= names.len() <= usize::MAX,
    ensures
        forall|i: int, j: int|
            0 <= i < j < fits_among(names, n).len() ==> #[trigger] fits_among(names, n)[i]
                < #[trigger] fits_among(names, n)[j],
        forall|i: int|
            0 <= i < fits_among(names, n).len() ==> #[trigger] fits_among(names, n)[i] < n,
    decreases n,
{
    if n > 0 {
        lemma_fits_rise(names, n - 1);
        let rest = fits_among(names, n - 1);
        let r = fits_among(names, n);
        assert forall|i: int| 0 <= i < r.len() implies #[trigger] r[i] < n by {
            if i < rest.len() {
                assert(rest[i] < n - 1);
            }
        }
        assert forall|i: int, j: int| 0 <= i < j < r.len() implies #[trigger] r[i]
            < #[trigger] r[j] by {
            assert(rest[i] < n - 1);
            if j < rest.len() {
                assert(rest[i] < rest[j]);
            }
        }
    }
}

/// A plan fails for the first reason that there is: a division without a filter,
/// a division that cannot be read, a filter that is unsound.
pub proof fn plans_fail_for_the_first_reason(request: DirectoryRequest, has_pattern: bool)
    ensures
        ({
            let told = plan_of(request, has_pattern);
            let unread = request.divide is Some && division(request.divide->0@) is Err;
            let unsound = request.options.filter && rules_of(request.options, has_pattern) is Err;
            &&& told is Err <==> (request.divide is Some && !request.options.filter) || unread
                || unsound
            &&& request.divide is Some && !request.options.filter ==> told->Err_0
                == "--divide must be used together with --filter"@
            &&& request.options.filter && unread ==> told->Err_0 == division(
                request.divide->0@,
            )->Err_0
            &&& !unread && unsound ==> told->Err_0 == rules_of(
                request.options,
                has_pattern,
            )->Err_0
        }),
{
}

} // verus!
