//! ironnest: the integer core of a deterministic 2D nesting engine.
//!
//! The placement search draws every random decision from [`prng::Prng`], a PCG64 (XSL-RR 128/64)
//! generator seeded through SplitMix64, so a given seed yields the same stream on every platform.
pub mod bpp;
pub mod convex_hull;
pub mod demand;
pub mod fill;
pub mod geo_enums;
pub mod pair_matrix;
pub mod period;
pub mod prng;
pub mod search;
pub mod seeding;
pub mod sep;
pub mod shape_modification;
pub mod slice_specs;
