//! The catalogue of assignment algorithms.

use vstd::prelude::*;
use vstd::string::*;

verus! {

/// Available assignment algorithms.
#[derive(Clone, Copy, Debug, PartialEq, Eq, Structural)]
pub enum Algorithm {
    /// Exact Kuhn-Munkres (Hungarian) assignment.
    Optimal,
    /// Random pair-swap annealing. Fast, approximate.
    Genetic,
    /// Exact linear assignment by shortest augmenting paths.
    JonkerVolgenant,
    /// Dense forward auction with epsilon scaling. Approximate to exact.
    Auction,
    /// Multiscale sparse auction, the headline algorithm and the default.
    Multiscale,
    /// Entropy-regularised optimal transport, rounded to a hard permutation.
    Sinkhorn,
    /// Correspondence propagation and random search, repaired to a permutation.
    PatchMatch,
    /// Composed mode: PatchMatch, then one pass of local swaps.
    Fast,
    /// Composed mode: the multiscale pipeline end to end.
    Balanced,
    /// Composed mode: the balanced result with further refinement.
    Maximum,
}

/// Grouping in the picker: composed modes or individual solvers.
#[derive(Clone, Copy, Debug, PartialEq, Eq, Structural)]
pub enum AlgorithmGroup {
    Mode,
    Algorithm,
}

/// Metadata of an algorithm, used by the picker.
pub struct AlgorithmInfo {
    pub algorithm: Algorithm,
    pub group: AlgorithmGroup,
    pub label: &'static str,
    pub short_label: &'static str,
    pub description: &'static str,
    pub max_sidelen: Option<u32>,
}

/// Whether an algorithm is a composed mode.
pub open spec fn group_of(a: Algorithm) -> AlgorithmGroup {
    match a {
        Algorithm::Optimal => AlgorithmGroup::Algorithm,
        Algorithm::Genetic => AlgorithmGroup::Algorithm,
        Algorithm::JonkerVolgenant => AlgorithmGroup::Algorithm,
        Algorithm::Auction => AlgorithmGroup::Algorithm,
        Algorithm::Multiscale => AlgorithmGroup::Algorithm,
        Algorithm::Sinkhorn => AlgorithmGroup::Algorithm,
        Algorithm::PatchMatch => AlgorithmGroup::Algorithm,
        Algorithm::Fast => AlgorithmGroup::Mode,
        Algorithm::Balanced => AlgorithmGroup::Mode,
        Algorithm::Maximum => AlgorithmGroup::Mode,
    }
}

/// The full name of an algorithm.
pub open spec fn label_of(a: Algorithm) -> Seq<char> {
    match a {
        Algorithm::Optimal => "Hungarian exact"@,
        Algorithm::Genetic => "Genetic"@,
        Algorithm::JonkerVolgenant => "Jonker-Volgenant exact"@,
        Algorithm::Auction => "Auction dense"@,
        Algorithm::Multiscale => "Multiscale sparse auction"@,
        Algorithm::Sinkhorn => "Sinkhorn OT"@,
        Algorithm::PatchMatch => "PatchMatch + repair"@,
        Algorithm::Fast => "Fast mode"@,
        Algorithm::Balanced => "Balanced mode"@,
        Algorithm::Maximum => "Maximum mode"@,
    }
}

/// The short name of an algorithm.
pub open spec fn short_label_of(a: Algorithm) -> Seq<char> {
    match a {
        Algorithm::Optimal => "Hungarian"@,
        Algorithm::Genetic => "Genetic"@,
        Algorithm::JonkerVolgenant => "JV exact"@,
        Algorithm::Auction => "Auction"@,
        Algorithm::Multiscale => "Multiscale"@,
        Algorithm::Sinkhorn => "Sinkhorn"@,
        Algorithm::PatchMatch => "PatchMatch"@,
        Algorithm::Fast => "Fast"@,
        Algorithm::Balanced => "Balanced"@,
        Algorithm::Maximum => "Maximum"@,
    }
}

/// What the picker says of an algorithm.
pub open spec fn description_of(a: Algorithm) -> Seq<char> {
    match a {
        Algorithm::Optimal => "Legacy exact assignment. Best for tiny sources; capped to avoid dense blowups."@,
        Algorithm::Genetic => "Original random-swap optimizer. Fast, approximate, and good for comparison."@,
        Algorithm::JonkerVolgenant => "Exact shortest-augmenting-path solver with better constants than Hungarian."@,
        Algorithm::Auction => "Dense epsilon-scaling auction. Strong small-image baseline."@,
        Algorithm::Multiscale => "Default coarse-to-fine sparse auction. Reliable for normal web sizes."@,
        Algorithm::Sinkhorn => "Entropy-regularized transport rounded into a hard permutation."@,
        Algorithm::PatchMatch => "Propagation and random search, repaired by sparse auction."@,
        Algorithm::Fast => "Quick approximate pass for previews and experimentation."@,
        Algorithm::Balanced => "Recommended quality/speed tradeoff. Uses the same solver as Multiscale."@,
        Algorithm::Maximum => "Balanced result plus extra refinement when the selected size is safe."@,
    }
}

/// The greatest side that an algorithm takes, if it is limited.
pub open spec fn side_limit_of(a: Algorithm) -> Option<u32> {
    match a {
        Algorithm::Optimal => Some(64u32),
        Algorithm::Genetic => None,
        Algorithm::JonkerVolgenant => Some(64u32),
        Algorithm::Auction => Some(64u32),
        Algorithm::Multiscale => None,
        Algorithm::Sinkhorn => Some(32u32),
        Algorithm::PatchMatch => None,
        Algorithm::Fast => None,
        Algorithm::Balanced => None,
        Algorithm::Maximum => None,
    }
}

impl Default for Algorithm {
    fn default() -> (r: Self)
        ensures
            r == Algorithm::Multiscale,
    {
        Algorithm::Multiscale
    }
}

impl Algorithm {
    /// All algorithms in the order of the picker.
    pub const ALL: [Algorithm; 10] = [
        Algorithm::Fast,
        Algorithm::Balanced,
        Algorithm::Maximum,
        Algorithm::Multiscale,
        Algorithm::Auction,
        Algorithm::JonkerVolgenant,
        Algorithm::Sinkhorn,
        Algorithm::PatchMatch,
        Algorithm::Optimal,
        Algorithm::Genetic,
    ];

    /// The catalogue entry of the algorithm.
    pub fn info(self) -> (r: AlgorithmInfo)
        ensures
            r.algorithm == self,
            r.group == group_of(self),
            r.label@ == label_of(self),
            r.short_label@ == short_label_of(self),
            r.description@ == description_of(self),
            r.max_sidelen == side_limit_of(self),
    {
        match self {
            Algorithm::Optimal => AlgorithmInfo {
                algorithm: self,
                group: AlgorithmGroup::Algorithm,
                label: "Hungarian exact",
                short_label: "Hungarian",
                description: "Legacy exact assignment. Best for tiny sources; capped to avoid dense blowups.",
                max_sidelen: Some(64),
            },
            Algorithm::Genetic => AlgorithmInfo {
                algorithm: self,
                group: AlgorithmGroup::Algorithm,
                label: "Genetic",
                short_label: "Genetic",
                description: "Original random-swap optimizer. Fast, approximate, and good for comparison.",
                max_sidelen: None,
            },
            Algorithm::JonkerVolgenant => AlgorithmInfo {
                algorithm: self,
                group: AlgorithmGroup::Algorithm,
                label: "Jonker-Volgenant exact",
                short_label: "JV exact",
                description: "Exact shortest-augmenting-path solver with better constants than Hungarian.",
                max_sidelen: Some(64),
            },
            Algorithm::Auction => AlgorithmInfo {
                algorithm: self,
                group: AlgorithmGroup::Algorithm,
                label: "Auction dense",
                short_label: "Auction",
                description: "Dense epsilon-scaling auction. Strong small-image baseline.",
                max_sidelen: Some(64),
            },
            Algorithm::Multiscale => AlgorithmInfo {
                algorithm: self,
                group: AlgorithmGroup::Algorithm,
                label: "Multiscale sparse auction",
                short_label: "Multiscale",
                description: "Default coarse-to-fine sparse auction. Reliable for normal web sizes.",
                max_sidelen: None,
            },
            Algorithm::Sinkhorn => AlgorithmInfo {
                algorithm: self,
                group: AlgorithmGroup::Algorithm,
                label: "Sinkhorn OT",
                short_label: "Sinkhorn",
                description: "Entropy-regularized transport rounded into a hard permutation.",
                max_sidelen: Some(32),
            },
            Algorithm::PatchMatch => AlgorithmInfo {
                algorithm: self,
                group: AlgorithmGroup::Algorithm,
                label: "PatchMatch + repair",
                short_label: "PatchMatch",
                description: "Propagation and random search, repaired by sparse auction.",
                max_sidelen: None,
            },
            Algorithm::Fast => AlgorithmInfo {
                algorithm: self,
                group: AlgorithmGroup::Mode,
                label: "Fast mode",
                short_label: "Fast",
                description: "Quick approximate pass for previews and experimentation.",
                max_sidelen: None,
            },
            Algorithm::Balanced => AlgorithmInfo {
                algorithm: self,
                group: AlgorithmGroup::Mode,
                label: "Balanced mode",
                short_label: "Balanced",
                description: "Recommended quality/speed tradeoff. Uses the same solver as Multiscale.",
                max_sidelen: None,
            },
            Algorithm::Maximum => AlgorithmInfo {
                algorithm: self,
                group: AlgorithmGroup::Mode,
                label: "Maximum mode",
                short_label: "Maximum",
                description: "Balanced result plus extra refinement when the selected size is safe.",
                max_sidelen: None,
            },
        }
    }

    pub fn label(self) -> (r: &'static str)
        ensures
            r@ == label_of(self),
    {
        self.info().label
    }

    pub fn short_label(self) -> (r: &'static str)
        ensures
            r@ == short_label_of(self),
    {
        self.info().short_label
    }

    /// The greatest side that the algorithm takes, if it is limited.
    pub fn max_sidelen(self) -> (r: Option<u32>)
        ensures
            r == side_limit_of(self),
    {
        self.info().max_sidelen
    }

    /// Whether the algorithm takes pictures of this side.
    pub fn supports_sidelen(self, sidelen: u32) -> (r: bool)
        ensures
            r == match side_limit_of(self) {
                Some(max) => sidelen <= max,
                None => true,
            },
    {
        match self.max_sidelen() {
            Some(max) => sidelen <= max,
            None => true,
        }
    }
}

/// The picker lists every algorithm exactly once.
pub proof fn lemma_all_lists_every_algorithm_once(a: Algorithm)
    ensures
        exists|i: int|
            0 <= i < Algorithm::ALL@.len() && #[trigger] Algorithm::ALL@[i] == a && forall|k: int|
                0 <= k < Algorithm::ALL@.len() && #[trigger] Algorithm::ALL@[k] == a ==> k == i,
{
    let all = Algorithm::ALL@;
    let i: int = match a {
        Algorithm::Fast => 0,
        Algorithm::Balanced => 1,
        Algorithm::Maximum => 2,
        Algorithm::Multiscale => 3,
        Algorithm::Auction => 4,
        Algorithm::JonkerVolgenant => 5,
        Algorithm::Sinkhorn => 6,
        Algorithm::PatchMatch => 7,
        Algorithm::Optimal => 8,
        Algorithm::Genetic => 9,
    };
    assert(all[i] == a);
}

} // verus!
