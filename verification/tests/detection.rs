use lucky_star::astro_image::{
    fwhm_from_quality, level_at, sample_levels, select_stars, AstroImage, ImageHeader, SAMPLE_COUNT,
};
use lucky_star::canvas::Colour;
use lucky_star::config::AppConfig;
use lucky_star::detect::{drop_crowded, find_peaks, search_region, Region};
use lucky_star::double::Double;
use lucky_star::pixels::{PixelGrid, Point};
use lucky_star::star::Star;
use std::collections::HashSet;

fn d(x: f64) -> Double {
    Double::from_bits(x.to_bits())
}

fn f(x: Double) -> f64 {
    f64::from_bits(x.to_bits())
}

fn power(x: Double) -> Double {
    d(f(x).powf(-0.186645))
}

fn raw(level: u16) -> i16 {
    (level as i32 - 0x8000) as i16
}

struct Sky {
    width: usize,
    height: usize,
    levels: Vec<u16>,
}

impl Sky {
    fn new(width: usize, height: usize, level: u16) -> Sky {
        Sky { width, height, levels: vec![level; width * height] }
    }

    fn set(&mut self, x: usize, y: usize, level: u16) {
        self.levels[x * self.height + y] = level;
    }

    fn star(&mut self, x: usize, y: usize, peak: u16) {
        self.set(x, y, peak);
        for (dx, dy, part) in [(0, 1, 2), (1, 0, 2), (1, 1, 4), (0, 2, 8), (2, 0, 8)] {
            let l = peak / part;
            self.set(x + dx, y + dy, l);
            self.set(x - dx, y + dy, l);
            self.set(x + dx, y - dy, l);
            self.set(x - dx, y - dy, l);
        }
    }

    fn grid(&self) -> PixelGrid {
        PixelGrid::from_samples(
            self.width,
            self.height,
            self.levels.iter().map(|l| raw(*l)).collect(),
        )
        .unwrap()
    }
}

#[test]
fn grids_are_filled_column_by_column() {
    let g = PixelGrid::from_samples(2, 3, vec![-32768, -32767, 0, 1, 2, 32767]).unwrap();
    assert_eq!(g.brightness(0, 0), 0);
    assert_eq!(g.brightness(0, 1), 1);
    assert_eq!(g.brightness(0, 2), 32768);
    assert_eq!(g.brightness(1, 0), 32769);
    assert_eq!(g.brightness(1, 2), 65535);
    assert!(PixelGrid::from_samples(2, 3, vec![0; 5]).is_none());
    assert!(PixelGrid::from_samples(2, 3, vec![0; 7]).is_none());
    assert!(PixelGrid::from_samples(0, 3, vec![]).is_none());
}

#[test]
fn stars_are_measured() {
    let mut sky = Sky::new(9, 9, 100);
    sky.set(4, 4, 1100);
    sky.set(4, 5, 600);
    sky.set(3, 4, 400);
    sky.set(5, 5, 90);
    sky.set(5, 3, 300);
    sky.set(4, 7, 9000);
    let s = Star::new(Point { x: 4, y: 4 }, &sky.grid(), d(27.5), 100, 3);
    let flux = 1000.0 + 500.0 + 300.0 - 10.0 + 200.0;
    assert_eq!(s.magnitude_adu, d(flux));
    assert_eq!(s.magnitude, d(flux / 27.5));
    assert_eq!(s.brightest_pixel_adu, d(1000.0));
    assert_eq!(s.brightest_pixel_part, d(1000.0 / flux));
    assert_eq!(s.top_4_pixels_part, d(2000.0 / flux));
    assert!(!s.ill_defined);
    let wide = Star::new(Point { x: 4, y: 4 }, &sky.grid(), d(27.5), 100, 7);
    assert!(wide.ill_defined);
}

#[test]
fn dark_neighbours_do_not_count_among_the_brightest() {
    let mut sky = Sky::new(5, 5, 50);
    sky.set(2, 2, 300);
    let s = Star::new(Point { x: 2, y: 2 }, &sky.grid(), d(1.0), 100, 3);
    assert_eq!(s.magnitude_adu, d(200.0 - 8.0 * 50.0));
    assert_eq!(s.top_4_pixels_part, d(200.0 / (200.0 - 400.0)));
}

#[test]
fn the_search_region_leaves_the_size_of_a_star() {
    assert_eq!(
        search_region(100, 60, 13, None),
        Region { left: 13, right: 87, top: 13, bottom: 47 }
    );
    assert_eq!(
        search_region(1000, 600, 13, Some(d(0.3))),
        Region { left: 350, right: 650, top: 210, bottom: 390 }
    );
    assert_eq!(
        search_region(1000, 600, 13, Some(d(7.0))),
        Region { left: 13, right: 987, top: 13, bottom: 587 }
    );
    assert_eq!(
        search_region(1000, 600, 13, Some(d(f64::NAN))),
        Region { left: 500, right: 500, top: 300, bottom: 300 }
    );
}

#[test]
fn peaks_are_brighter_than_all_around() {
    let mut sky = Sky::new(20, 20, 10);
    sky.set(6, 6, 100);
    sky.set(8, 7, 90);
    sky.set(12, 12, 80);
    sky.set(12, 14, 80);
    sky.set(15, 6, 50);
    sky.set(1, 1, 500);
    let region = Region { left: 3, right: 17, top: 3, bottom: 17 };
    assert_eq!(
        find_peaks(&sky.grid(), region, 40),
        vec![Point { x: 6, y: 6 }, Point { x: 15, y: 6 }]
    );
    assert_eq!(find_peaks(&sky.grid(), region, 50), vec![Point { x: 6, y: 6 }]);
}

#[test]
fn crowded_positions_are_dropped_with_their_partner() {
    let p = |x: usize, y: usize| Point { x, y };
    // The first is close to both others, which are not close to each other: it
    // goes with its first partner only.
    assert_eq!(drop_crowded(&vec![p(10, 10), p(4, 10), p(16, 10)], 7), vec![p(16, 10)]);
    assert_eq!(drop_crowded(&vec![p(4, 10), p(10, 10), p(16, 10)], 7), vec![]);
    assert_eq!(
        drop_crowded(&vec![p(0, 0), p(7, 0), p(50, 50), p(53, 54)], 7),
        vec![p(0, 0), p(7, 0)]
    );
}

fn config() -> AppConfig {
    AppConfig { psf_size: 7, ..AppConfig::default() }
}

fn header(width: u32, height: u32) -> ImageHeader {
    ImageHeader { width, height, exposure: Some(d(30.0)), gain: Some(5200) }
}

fn sky() -> Sky {
    let mut sky = Sky::new(80, 60, 1000);
    sky.star(20, 20, 9000);
    sky.star(40, 30, 30000);
    sky.star(60, 40, 60000);
    sky.star(30, 45, 20000);
    sky
}

fn image(crop: Option<Double>) -> AstroImage {
    let mut img = AstroImage::from_header(header(80, 60), &config());
    img.detect_stars(sky().grid(), 1000, 20, crop, &config(), &power);
    img
}

#[test]
fn headers_choose_the_gain() {
    let img = AstroImage::from_header(
        ImageHeader { width: 3, height: 4, exposure: None, gain: None },
        &AppConfig::default(),
    );
    assert_eq!((img.width(), img.height()), (3, 4));
    assert_eq!(img.adu_e, d(250.0));
    assert_eq!(img.exp_t(), d(0.0));
    assert_eq!(AstroImage::from_header(header(1, 1), &AppConfig::default()).adu_e, d(27.5));
}

#[test]
fn stars_are_found_and_sorted() {
    let img = image(None);
    let found: Vec<(usize, usize)> = img.stars().iter().map(|s| (s.pos.x, s.pos.y)).collect();
    // The saturated star at (60, 40) is left out.
    assert_eq!(found, vec![(40, 30), (30, 45), (20, 20)]);
    assert_eq!(img.star_count(), 3);
    for pair in img.stars().windows(2) {
        assert!(f(pair[0].magnitude) >= f(pair[1].magnitude));
    }
    let by_hand = select_stars(
        &vec![
            Point { x: 20, y: 20 },
            Point { x: 40, y: 30 },
            Point { x: 60, y: 40 },
            Point { x: 30, y: 45 },
        ],
        &sky().grid(),
        d(27.5),
        1000,
        7,
        300,
    );
    assert_eq!(&by_hand, img.stars());
    let cropped = image(Some(d(0.3)));
    assert_eq!(cropped.star_count(), 1);
}

#[test]
fn quality_weighs_concentration_by_magnitude() {
    let img = image(None);
    let mut q = 0.0;
    let mut m = 0.0;
    for s in img.stars() {
        if f(s.magnitude) > 450.0 {
            q += f(s.magnitude) * f(s.top_4_pixels_part);
            m += f(s.magnitude);
        }
    }
    assert!(m > 0.0);
    assert_eq!(f(img.quality()), q / m);
    assert_eq!(
        f(img.fwhm()),
        -11.06713 + 26.141212 * ((q / m) * 100.0).powf(-0.186645)
    );
    assert_eq!(img.quality_image(), None);
    assert_eq!(img.quality_star_indices(), None);
    assert_eq!(img.background_raw_adu(), d(1000.0));
    assert_eq!(img.background_noise_adu(), d(20.0));
}

#[test]
fn images_without_stars_have_no_quality() {
    let mut img = AstroImage::from_header(header(40, 40), &config());
    img.detect_stars(Sky::new(40, 40, 1000).grid(), 1000, 20, None, &config(), &power);
    assert_eq!(img.star_count(), 0);
    assert_eq!(img.quality(), d(0.0));
    assert_eq!(img.fwhm(), d(0.0));
    let s = img.summary(10);
    assert_eq!(s.avg_top4, d(0.0));
    assert_eq!(s.median_top4, d(0.0));
    assert!(s.table.is_empty());
}

#[test]
fn blurred_stars_are_left_out() {
    let mut sky = Sky::new(100, 60, 1000);
    sky.star(20, 20, 20000);
    sky.star(40, 20, 21000);
    sky.star(60, 20, 22000);
    for dx in 0..7usize {
        for dy in 0..7usize {
            sky.set(77 + dx, 37 + dy, 4000);
        }
    }
    sky.set(80, 40, 5000);
    let mut img = AstroImage::from_header(header(100, 60), &config());
    img.detect_stars(sky.grid(), 1000, 20, None, &config(), &power);
    let found: Vec<usize> = img.stars().iter().map(|s| s.pos.x).collect();
    assert_eq!(found, vec![60, 40, 20]);
}

#[test]
fn selected_stars_decide_the_quality() {
    let mut img = image(None);
    let own = img.quality();
    let picked: HashSet<usize> = HashSet::from([1, 7]);
    let s = img.stars()[1];
    let expected = f(s.magnitude) * f(s.top_4_pixels_part) / f(s.magnitude);
    assert_eq!(img.quality_for_star_indices(&picked, &config()), Some(d(expected)));
    assert_eq!(img.quality_for_star_indices(&HashSet::new(), &config()), None);
    img.recalculate_quality_for_star_indices(&picked, &config(), &power);
    assert_eq!(img.quality(), d(expected));
    assert_eq!(img.quality_image(), Some(own));
    assert_eq!(img.quality_star_indices(), Some(&vec![1]));
    assert_eq!(img.summary(10).table, vec![1]);
    assert!(img.summary(10).of_constellation);
    img.recalculate_quality_for_star_indices(&HashSet::new(), &config(), &power);
    assert_eq!(img.quality(), d(expected));
    assert_eq!(img.quality_star_indices(), Some(&vec![]));
    assert!(!img.summary(10).of_constellation);
}

#[test]
fn stars_are_listed_by_magnitude_range() {
    let img = image(None);
    let m: Vec<f64> = img.stars().iter().map(|s| f(s.magnitude)).collect();
    assert_eq!(img.stars_with_magnitude_between(d(m[1]), d(m[1])), vec![1]);
    assert_eq!(img.stars_with_magnitude_between(d(0.0), d(m[1])), vec![1, 2]);
    assert_eq!(img.stars_with_magnitude_between(d(m[1]), d(1e9)), vec![0, 1]);
}

#[test]
fn summaries_list_the_most_concentrated_stars() {
    let img = image(None);
    let s = img.summary(2);
    let parts: Vec<f64> = img.stars().iter().map(|s| f(s.top_4_pixels_part)).collect();
    assert_eq!(f(s.avg_top4), parts.iter().sum::<f64>() / 3.0 * 100.0);
    let mut sorted = parts.clone();
    sorted.sort_by(|a, b| a.total_cmp(b));
    assert_eq!(f(s.median_top4), sorted[1] * 100.0);
    assert_eq!(f(s.quality), f(img.quality()) * 100.0);
    let mut order: Vec<usize> = vec![0, 1, 2];
    order.sort_by(|a, b| parts[*b].total_cmp(&parts[*a]));
    order.truncate(2);
    assert_eq!(s.table, order);
    assert_eq!(s.constellation_stars, None);
}

#[test]
fn widths_follow_from_qualities() {
    let expected = -11.06713 + 26.141212 * (0.4f64 * 100.0).powf(-0.186645);
    assert_eq!(f(fwhm_from_quality(d(0.4), &power)), expected);
}

#[test]
fn samples_are_pixels_of_the_image() {
    let levels = sample_levels(&sky().grid(), 80, 60);
    assert_eq!(levels.len(), SAMPLE_COUNT);
    let known: HashSet<u16> = sky().levels.into_iter().collect();
    assert!(levels.iter().all(|l| known.contains(l)));
    assert!(levels.iter().any(|l| *l != 1000));
}

#[test]
fn numbers_choose_pixels() {
    let grid = PixelGrid::from_samples(3, 2, (0..6).map(|k| raw(100 + k)).collect()).unwrap();
    assert_eq!(level_at(&grid, 3, 2, 0, 0), 100);
    assert_eq!(level_at(&grid, 3, 2, 2, 1), 105);
    assert_eq!(level_at(&grid, 3, 2, 7, 5), 103);
    assert_eq!(level_at(&grid, 3, 1, 4, u32::MAX), 102);
}

#[test]
fn pictures_mark_the_stars() {
    let img = image(None);
    let gray = |background: u16, sigma: u16, level: u16| -> u8 {
        let range = (20.0 * sigma as f32).max(1.0);
        (((level as f32 - background as f32) / range).clamp(0.0, 1.0) * 255.0) as u8
    };
    let p = img.stars_picture(&gray);
    assert_eq!(p.dimensions(), (80, 60));
    let at = |x: u32, y: u32| p.pixel(x, y).unwrap();
    let red = Colour { red: 255, green: 0, blue: 0 };
    assert_eq!(at(20, 20), Colour { red: 255, green: 255, blue: 255 });
    assert_eq!(at(0, 0), Colour { red: 0, green: 0, blue: 0 });
    assert_eq!(at(20, 25), red);
    assert_eq!(at(15, 20), red);
    assert_eq!(at(23, 24), red);
    assert_eq!(p.pixel(80, 0), None);
    // The first digit of the label of the first star.
    assert_eq!(at(47, 4), Colour { red: 0, green: 0, blue: 0 });
    assert_eq!(at(54, 8), Colour { red: 200, green: 200, blue: 0 });
    let bytes = p.into_bytes();
    assert_eq!(bytes.len(), 3 * 80 * 60);
    assert_eq!(&bytes[3 * (25 * 80 + 20)..3 * (25 * 80 + 20) + 3], &[255, 0, 0]);
}
