pub mod astro_image;
pub mod cache;
pub mod canvas;
pub mod chart;
pub mod clock;
pub mod config;
pub mod constellation;
pub mod detect;
pub mod double;
pub mod draw;
pub mod helpers;
mod lists;
pub mod metrics;
pub mod order;
pub mod paths;
pub mod pixels;
pub mod report;
pub mod rules;
pub mod session;
pub mod star;
pub mod star_pattern;
pub mod text;
