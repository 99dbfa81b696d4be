//! The colour with which a root marks its tree.
use rand::rngs::ThreadRng;
use vstd::prelude::*;

use crate::rng;
use crate::Configuration;

verus! {

/// A tree colour.
#[derive(Debug, Clone, Copy, PartialEq, Eq, Structural)]
pub struct TreeColor {
    pub value: usize,
}

impl TreeColor {
    /// The colour with the given value.
    pub fn of(value: usize) -> (c: Self)
        ensures
            c.value == value,
    {
        TreeColor { value }
    }

    /// A colour drawn below the configuration's colour bound, which must be
    /// positive.
    pub fn new_random(conf: &Configuration, rng: &mut ThreadRng) -> (c: Self)
        requires
            conf.spec_max_color() > 0,
        ensures
            c.value < conf.spec_max_color(),
    {
        TreeColor { value: rng::random_usize(rng, 0, conf.max_color()) }
    }
}

} // verus!
