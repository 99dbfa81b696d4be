//! A simulation of a self-stabilising spanning-tree algorithm: every node of a
//! graph elects a parent among the peers that offer it a tree, trees merge
//! towards the largest tree id, and roots recolour their trees to detect
//! convergence.
use rand::rngs::ThreadRng;
use vstd::prelude::*;

pub mod algorithm;
pub mod forest;
pub mod graph;
pub mod messages;
pub mod node;
pub mod numerals;
pub mod random_peer_generator;
pub mod rng;
pub mod tree_color;
pub mod tree_id;
pub mod tree_info;
pub mod view;

verus! {

/// A probability, held as the ratio `numerator / denominator` of two
/// integers.
#[derive(Debug, Clone, Copy)]
pub struct Probability {
    numerator: u32,
    denominator: u32,
}

impl Probability {
    /// The ratio lies between 0 and 1.
    #[verifier::type_invariant]
    spec fn is_ratio(&self) -> bool {
        0 < self.denominator && self.numerator <= self.denominator
    }

    pub closed spec fn spec_numerator(&self) -> u32 {
        self.numerator
    }

    pub closed spec fn spec_denominator(&self) -> u32 {
        self.denominator
    }

    /// The event always happens.
    pub open spec fn is_certain(&self) -> bool {
        self.spec_numerator() == self.spec_denominator()
    }

    /// The event never happens.
    pub open spec fn is_impossible(&self) -> bool {
        self.spec_numerator() == 0
    }

    /// The probability `numerator / denominator`, which must lie between 0
    /// and 1.
    pub fn new(numerator: u32, denominator: u32) -> (p: Self)
        requires
            0 < denominator,
            numerator <= denominator,
        ensures
            p.spec_numerator() == numerator,
            p.spec_denominator() == denominator,
    {
        Probability { numerator, denominator }
    }

    pub fn numerator(&self) -> (r: u32)
        ensures
            r == self.spec_numerator(),
    {
        self.numerator
    }

    pub fn denominator(&self) -> (r: u32)
        ensures
            r == self.spec_denominator(),
            0 < r,
            self.spec_numerator() <= r,
    {
        proof {
            use_type_invariant(self);
        }
        self.denominator
    }
}

/// The parameters of a simulation: the number of nodes `n`, the number of
/// children `d` that each node looks for, the probability that a randomly
/// created node starts as a root, and the range of randomly drawn tree ids.
#[derive(Debug, Clone, Copy)]
pub struct Configuration {
    pub n: usize,
    pub d: usize,
    pub initial_root_probability: Probability,
    pub id_range: u64,
}

impl Configuration {
    /// A configuration; `d` may not exceed `n`.
    pub fn new(n: usize, d: usize, initial_root_probability: Probability, id_range: u64) -> (c: Self)
        requires
            d <= n,
        ensures
            c.n == n,
            c.d == d,
            c.initial_root_probability == initial_root_probability,
            c.id_range == id_range,
    {
        Configuration { n, d, initial_root_probability, id_range }
    }

    /// The number of rounds a reset count-down starts from.
    pub open spec fn spec_reset_countdown_max(&self) -> usize {
        self.n
    }

    pub fn reset_countdown_max(&self) -> (r: usize)
        ensures
            r == self.spec_reset_countdown_max(),
    {
        self.n
    }

    /// The number of rounds after which a tree is expected to have converged.
    pub open spec fn spec_num_rounds_to_convergence(&self) -> usize {
        self.n
    }

    pub fn num_rounds_to_convergence(&self) -> (r: usize)
        ensures
            r == self.spec_num_rounds_to_convergence(),
    {
        self.n
    }

    /// Tree colours are drawn below this bound.
    pub open spec fn spec_max_color(&self) -> usize {
        self.n
    }

    pub fn max_color(&self) -> (r: usize)
        ensures
            r == self.spec_max_color(),
    {
        self.n
    }

    /// Draws whether a randomly created node starts as a root: always when
    /// the probability is certain, never when it is impossible.
    pub fn draw_from_initial_root_probablity(&self, rng: &mut ThreadRng) -> (r: bool)
        ensures
            self.initial_root_probability.is_certain() ==> r,
            self.initial_root_probability.is_impossible() ==> !r,
    {
        let p = self.initial_root_probability;
        let denominator = p.denominator();
        rng::random_ratio(rng, p.numerator(), denominator)
    }
}

/// Three nodes looking for two children each, every random node a root,
/// and tree ids below 0xffff.
impl Default for Configuration {
    fn default() -> (c: Self)
        ensures
            c.n == 3,
            c.d == 2,
            c.initial_root_probability.is_certain(),
            c.id_range == 0xffff,
    {
        Configuration::new(3, 2, Probability::new(1, 1), 0xffff)
    }
}

} // verus!
