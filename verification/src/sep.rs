//! Fixed-budget configuration of the overlap-minimisation separation search, and the axis choice
//! of its coordinate descent. Every budget is an integer count: the search never reads a clock.
use vstd::prelude::*;

use crate::prng::{below_spec, Prng};

verus! {

/// How many poses to draw and how many to refine, per move.
#[derive(Clone, Copy, Debug, PartialEq, Eq, Structural)]
pub struct SampleConfig {
    pub n_container_samples: usize,
    pub n_focussed_samples: usize,
    pub n_coord_descents: usize,
}

/// Fixed-budget configuration for one separation run.
#[derive(Clone, Copy, Debug, PartialEq, Eq, Structural)]
pub struct SepConfig {
    pub sample: SampleConfig,
    /// Max consecutive iterations without a (substantial) improvement before a strike.
    pub iter_no_imprv_limit: u32,
    /// Max strikes (rollback-and-retry-with-evolved-weights) before giving up.
    pub strike_limit: u32,
}

/// The fixed per-insertion separation budget: 80 container + 40 focused samples, 3 coordinate
/// descents, 150 no-improvement iterations, 4 strikes.
pub fn sep_config() -> (cfg: SepConfig)
    ensures
        cfg.sample.n_container_samples == 80,
        cfg.sample.n_focussed_samples == 40,
        cfg.sample.n_coord_descents == 3,
        cfg.iter_no_imprv_limit == 150,
        cfg.strike_limit == 4,
{
    SepConfig {
        sample: SampleConfig { n_container_samples: 80, n_focussed_samples: 40, n_coord_descents: 3 },
        iter_no_imprv_limit: 150,
        strike_limit: 4,
    }
}

/// Poses sampled when seeding a new (overlapping) part at its lowest-overlap position.
pub const SEED_SAMPLES: usize = 400;

/// The translation axis a coordinate-descent step moves along.
#[derive(Clone, Copy, Debug, PartialEq, Eq, Structural)]
pub enum CDAxis {
    Horizontal,
    Vertical,
    ForwardDiag,
    BackwardDiag,
}

/// The axis selected by a draw `k` from `0..4`.
pub open spec fn axis_of(k: u64) -> CDAxis {
    if k == 0 {
        CDAxis::Horizontal
    } else if k == 1 {
        CDAxis::Vertical
    } else if k == 2 {
        CDAxis::ForwardDiag
    } else {
        CDAxis::BackwardDiag
    }
}

impl CDAxis {
    /// Picks one of the four axes uniformly from the stream.
    pub fn pick(prng: &mut Prng) -> (axis: Self)
        ensures
            final(prng)@ == below_spec(old(prng)@, 4).0,
            axis == axis_of(below_spec(old(prng)@, 4).1),
    {
        match prng.below(4) {
            0 => CDAxis::Horizontal,
            1 => CDAxis::Vertical,
            2 => CDAxis::ForwardDiag,
            _ => CDAxis::BackwardDiag,
        }
    }
}

} // verus!
