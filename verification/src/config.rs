//! Settings of the analysis.
use crate::double::{at_most, below, of_int, ratio, small_integers_are_exact, Double};
use crate::metrics::outcome;
use std::collections::HashMap;
use vstd::prelude::*;

verus! {

/// The settings.
#[derive(Clone, Debug)]
pub struct AppConfig {
    /// For each gain, how many units of brightness one photon gives.
    pub gain_to_adu: HashMap<u32, Double>,
    pub min_photons_to_detect_star: i32,
    pub min_central_photons_to_detect_star: i32,
    pub psf_size: usize,
    pub min_photons_quality: Double,
    pub rolling_avg_window: usize,
    pub log_quality_window_t: Double,
    pub star_pattern_position_tolerance_px: Double,
    pub background_bias_adu: Double,
}

/// The settings that a file gives; the others keep their defaults.
#[derive(Clone, Debug)]
pub struct PartialAppConfig {
    pub gain_to_adu: Option<HashMap<u32, Double>>,
    pub min_photons_to_detect_star: Option<i32>,
    pub min_central_photons_to_detect_star: Option<i32>,
    pub psf_size: Option<usize>,
    pub min_photons_quality: Option<Double>,
    pub rolling_avg_window: Option<usize>,
    pub log_quality_window_t: Option<Double>,
    pub star_pattern_position_tolerance_px: Option<Double>,
    pub background_bias_adu: Option<Double>,
}

/// The gains that are known without a settings file.
pub open spec fn default_gains() -> Map<u32, Double> {
    map![
        5200u32 => ratio(275, 10),
        7000u32 => of_int(40),
        9000u32 => ratio(615, 10),
        12000u32 => of_int(143),
        15000u32 => of_int(250),
        0u32 => of_int(250),
    ]
}

/// What an absent value is replaced by.
pub open spec fn given_or<T>(value: Option<T>, default: T) -> T {
    match value {
        Some(v) => v,
        None => default,
    }
}

fn pick<T>(value: Option<T>, default: T) -> (r: T)
    ensures
        r == given_or(value, default),
{
    match value {
        Some(v) => v,
        None => default,
    }
}

impl AppConfig {
    /// The settings that hold where nothing else is given.
    pub open spec fn standard(self) -> bool {
        &&& self.gain_to_adu@ == default_gains()
        &&& self.min_photons_to_detect_star == 300
        &&& self.min_central_photons_to_detect_star == 30
        &&& self.psf_size == 13
        &&& self.min_photons_quality == of_int(450)
        &&& self.rolling_avg_window == 100
        &&& self.log_quality_window_t == of_int(300)
        &&& self.star_pattern_position_tolerance_px == of_int(7)
        &&& self.background_bias_adu == of_int(1000)
    }

    /// The settings of `partial`, and the defaults where it has none.
    pub open spec fn completes(self, partial: PartialAppConfig) -> bool {
        &&& self.gain_to_adu@ == (match partial.gain_to_adu {
            Some(m) => m@,
            None => default_gains(),
        })
        &&& self.min_photons_to_detect_star == given_or(partial.min_photons_to_detect_star, 300)
        &&& self.min_central_photons_to_detect_star == given_or(
            partial.min_central_photons_to_detect_star,
            30,
        )
        &&& self.psf_size == given_or(partial.psf_size, 13)
        &&& self.min_photons_quality == given_or(partial.min_photons_quality, of_int(450))
        &&& self.rolling_avg_window == given_or(partial.rolling_avg_window, 100)
        &&& self.log_quality_window_t == given_or(partial.log_quality_window_t, of_int(300))
        &&& self.star_pattern_position_tolerance_px == given_or(
            partial.star_pattern_position_tolerance_px,
            of_int(7),
        )
        &&& self.background_bias_adu == given_or(partial.background_bias_adu, of_int(1000))
    }
}

impl Default for AppConfig {
    fn default() -> (r: AppConfig)
        ensures
            r.standard(),
    {
        broadcast use vstd::std_specs::hash::group_hash_axioms;

        let mut gain_to_adu: HashMap<u32, Double> = HashMap::new();
        gain_to_adu.insert(5200, Double::ratio(275, 10));
        gain_to_adu.insert(7000, Double::of_u64(40));
        gain_to_adu.insert(9000, Double::ratio(615, 10));
        gain_to_adu.insert(12000, Double::of_u64(143));
        gain_to_adu.insert(15000, Double::of_u64(250));
        gain_to_adu.insert(0, Double::of_u64(250));
        assert(gain_to_adu@ =~= default_gains());
        AppConfig {
            gain_to_adu,
            min_photons_to_detect_star: 300,
            min_central_photons_to_detect_star: 30,
            psf_size: 13,
            min_photons_quality: Double::of_u64(450),
            rolling_avg_window: 100,
            log_quality_window_t: Double::of_u64(300),
            star_pattern_position_tolerance_px: Double::of_u64(7),
            background_bias_adu: Double::of_u64(1000),
        }
    }
}

impl AppConfig {
    /// Fills in the settings that `partial` leaves open.
    pub fn from_partial(partial: PartialAppConfig) -> (r: AppConfig)
        ensures
            r.completes(partial),
    {
        let default = AppConfig::default();
        AppConfig {
            gain_to_adu: pick(partial.gain_to_adu, default.gain_to_adu),
            min_photons_to_detect_star: pick(
                partial.min_photons_to_detect_star,
                default.min_photons_to_detect_star,
            ),
            min_central_photons_to_detect_star: pick(
                partial.min_central_photons_to_detect_star,
                default.min_central_photons_to_detect_star,
            ),
            psf_size: pick(partial.psf_size, default.psf_size),
            min_photons_quality: pick(partial.min_photons_quality, default.min_photons_quality),
            rolling_avg_window: pick(partial.rolling_avg_window, default.rolling_avg_window),
            log_quality_window_t: pick(partial.log_quality_window_t, default.log_quality_window_t),
            star_pattern_position_tolerance_px: pick(
                partial.star_pattern_position_tolerance_px,
                default.star_pattern_position_tolerance_px,
            ),
            background_bias_adu: pick(partial.background_bias_adu, default.background_bias_adu),
        }
    }

    /// What is wrong with the settings.
    pub open spec fn complaint(self) -> Result<(), Seq<char>> {
        if !self.background_bias_adu.finite() || self.background_bias_adu.units() < 0 {
            Err("background_bias_adu must be finite and must not be negative"@)
        } else if !self.star_pattern_position_tolerance_px.finite()
            || self.star_pattern_position_tolerance_px.units() <= 0 {
            Err("star_pattern_position_tolerance_px must be greater than zero"@)
        } else {
            Ok(())
        }
    }

    pub fn validate(&self) -> (r: Result<(), String>)
        ensures
            outcome(r) == self.complaint(),
    {
        let zero = Double::from_bits(0);
        if !self.background_bias_adu.is_finite() || self.background_bias_adu.below(zero) {
            return Err("background_bias_adu must be finite and must not be negative".to_owned());
        }
        if !self.star_pattern_position_tolerance_px.is_finite()
            || self.star_pattern_position_tolerance_px.at_most(zero) {
            return Err("star_pattern_position_tolerance_px must be greater than zero".to_owned());
        }
        Ok(())
    }

    /// The settings beside the program, else those of the current directory,
    /// else the defaults.
    pub fn load_or_default(
        beside_program: Option<AppConfig>,
        current_directory: Option<AppConfig>,
    ) -> (r: AppConfig)
        ensures
            match (beside_program, current_directory) {
                (Some(c), _) => r == c,
                (None, Some(c)) => r == c,
                (None, None) => r.standard(),
            },
    {
        match beside_program {
            Some(c) => c,
            None => match current_directory {
                Some(c) => c,
                None => AppConfig::default(),
            },
        }
    }
}

/// A settings file that gives nothing gives the defaults.
pub proof fn an_empty_file_gives_the_defaults(partial: PartialAppConfig, config: AppConfig)
    requires
        partial.gain_to_adu is None,
        partial.min_photons_to_detect_star is None,
        partial.min_central_photons_to_detect_star is None,
        partial.psf_size is None,
        partial.min_photons_quality is None,
        partial.rolling_avg_window is None,
        partial.log_quality_window_t is None,
        partial.star_pattern_position_tolerance_px is None,
        partial.background_bias_adu is None,
    ensures
        config.completes(partial) <==> config.standard(),
{
}

/// The default settings are valid.
pub proof fn the_defaults_are_valid(config: AppConfig)
    requires
        config.standard(),
    ensures
        config.complaint() == Ok::<(), Seq<char>>(()),
{
    small_integers_are_exact(1000);
    small_integers_are_exact(7);
    vstd::arithmetic::power2::lemma_pow2_pos(1074);
}

/// What a settings file gives holds, each value in its own place; what it does
/// not give is as in the default settings.
pub proof fn given_settings_hold(
    partial: PartialAppConfig,
    config: AppConfig,
    default: AppConfig,
)
    requires
        config.completes(partial),
        default.standard(),
    ensures
        config.gain_to_adu@ == (if partial.gain_to_adu is Some {
            partial.gain_to_adu->0@
        } else {
            default.gain_to_adu@
        }),
        config.min_photons_to_detect_star == (if partial.min_photons_to_detect_star is Some {
            partial.min_photons_to_detect_star->0
        } else {
            default.min_photons_to_detect_star
        }),
        config.min_central_photons_to_detect_star == (
        if partial.min_central_photons_to_detect_star is Some {
            partial.min_central_photons_to_detect_star->0
        } else {
            default.min_central_photons_to_detect_star
        }),
        config.psf_size == (if partial.psf_size is Some {
            partial.psf_size->0
        } else {
            default.psf_size
        }),
        config.min_photons_quality == (if partial.min_photons_quality is Some {
            partial.min_photons_quality->0
        } else {
            default.min_photons_quality
        }),
        config.rolling_avg_window == (if partial.rolling_avg_window is Some {
            partial.rolling_avg_window->0
        } else {
            default.rolling_avg_window
        }),
        config.log_quality_window_t == (if partial.log_quality_window_t is Some {
            partial.log_quality_window_t->0
        } else {
            default.log_quality_window_t
        }),
        config.star_pattern_position_tolerance_px == (
        if partial.star_pattern_position_tolerance_px is Some {
            partial.star_pattern_position_tolerance_px->0
        } else {
            default.star_pattern_position_tolerance_px
        }),
        config.background_bias_adu == (if partial.background_bias_adu is Some {
            partial.background_bias_adu->0
        } else {
            default.background_bias_adu
        }),
{
}

/// Settings are valid exactly where the bias is a finite number that is not
/// below zero and the tolerance a finite number above zero. A bias that is not
/// is told first.
pub proof fn settings_are_checked(config: AppConfig)
    ensures
        ({
            let bias = config.background_bias_adu;
            let tolerance = config.star_pattern_position_tolerance_px;
            let sound_bias = bias.finite() && at_most(of_int(0), bias);
            let sound_tolerance = tolerance.finite() && below(of_int(0), tolerance);
            &&& config.complaint() is Ok <==> sound_bias && sound_tolerance
            &&& !sound_bias ==> config.complaint() == Err::<(), Seq<char>>(
                "background_bias_adu must be finite and must not be negative"@,
            )
            &&& sound_bias && !sound_tolerance ==> config.complaint() == Err::<(), Seq<char>>(
                "star_pattern_position_tolerance_px must be greater than zero"@,
            )
        }),
{
    small_integers_are_exact(0);
    assert(0 * vstd::arithmetic::power2::pow2(1074) == 0) by (nonlinear_arith);
}

} // verus!
