//! Rate limiting configuration for octree refinement.
//!
//! Limits the number of subdivisions and collapses performed per frame so that
//! cascading operations cannot cause frame spikes.
use vstd::prelude::*;

verus! {

/// Rate limiting configuration for octree refinement.
#[derive(Clone, Copy, Debug, PartialEq, Eq, Structural)]
pub struct RefinementBudget {
    /// Maximum subdivisions per frame (0 = unlimited).
    pub max_subdivisions: usize,
    /// Maximum collapses per frame (0 = unlimited).
    pub max_collapses: usize,
    /// Maximum LOD difference between adjacent cells (1 = no T-junctions).
    /// Set to 0 to disable neighbor enforcement.
    pub max_relative_lod: i32,
    /// Maximum neighbor enforcement iterations per frame.
    pub max_neighbor_iterations: usize,
}

impl RefinementBudget {
    /// Default budget with reasonable limits: 32 subdivisions, 32 collapses,
    /// adjacent LODs differ by at most 1, 4 neighbor enforcement iterations.
    pub fn default_limits() -> (b: Self)
        ensures
            b == (RefinementBudget {
                max_subdivisions: 32,
                max_collapses: 32,
                max_relative_lod: 1,
                max_neighbor_iterations: 4,
            }),
    {
        RefinementBudget {
            max_subdivisions: 32,
            max_collapses: 32,
            max_relative_lod: 1,
            max_neighbor_iterations: 4,
        }
    }

    /// Unlimited budget for testing or special cases.
    pub fn unlimited() -> (b: Self)
        ensures
            b == (RefinementBudget {
                max_subdivisions: usize::MAX,
                max_collapses: usize::MAX,
                max_relative_lod: 1,
                max_neighbor_iterations: usize::MAX,
            }),
    {
        RefinementBudget {
            max_subdivisions: usize::MAX,
            max_collapses: usize::MAX,
            max_relative_lod: 1,
            max_neighbor_iterations: usize::MAX,
        }
    }

    /// Budget with neighbor enforcement disabled.
    pub fn no_neighbor_enforcement() -> (b: Self)
        ensures
            b == (RefinementBudget {
                max_subdivisions: 32,
                max_collapses: 32,
                max_relative_lod: 0,
                max_neighbor_iterations: 0,
            }),
    {
        RefinementBudget {
            max_subdivisions: 32,
            max_collapses: 32,
            max_relative_lod: 0,
            max_neighbor_iterations: 0,
        }
    }

    /// Whether `performed` subdivisions still leave room for another one.
    pub open spec fn allows_subdivision(&self, performed: int) -> bool {
        self.max_subdivisions == 0 || performed < self.max_subdivisions
    }

    /// Whether `performed` collapses still leave room for another one.
    pub open spec fn allows_collapse(&self, performed: int) -> bool {
        self.max_collapses == 0 || performed < self.max_collapses
    }

    /// Check if neighbor enforcement is enabled.
    pub fn neighbor_enforcement_enabled(&self) -> (b: bool)
        ensures
            b == (self.max_relative_lod > 0),
    {
        self.max_relative_lod > 0
    }

    /// Check if more subdivisions can be performed.
    pub fn can_subdivide(&self, performed: usize) -> (b: bool)
        ensures
            b == self.allows_subdivision(performed as int),
    {
        self.max_subdivisions == 0 || performed < self.max_subdivisions
    }

    /// Check if more collapses can be performed.
    pub fn can_collapse(&self, performed: usize) -> (b: bool)
        ensures
            b == self.allows_collapse(performed as int),
    {
        self.max_collapses == 0 || performed < self.max_collapses
    }
}

impl Default for RefinementBudget {
    fn default() -> (b: Self)
        ensures
            b == (RefinementBudget {
                max_subdivisions: 32,
                max_collapses: 32,
                max_relative_lod: 1,
                max_neighbor_iterations: 4,
            }),
    {
        RefinementBudget::default_limits()
    }
}

/// Statistics from refinement execution.
#[derive(Clone, Copy, Debug, Default, PartialEq, Eq, Structural)]
pub struct RefinementStats {
    /// Number of user-requested subdivisions performed.
    pub subdivisions_performed: usize,
    /// Number of collapses performed.
    pub collapses_performed: usize,
    /// Number of neighbor enforcement subdivisions performed.
    pub neighbor_subdivisions_performed: usize,
}

impl RefinementStats {
    /// Total number of transitions performed.
    pub fn total_transitions(&self) -> (t: usize)
        requires
            self.subdivisions_performed + self.collapses_performed
                + self.neighbor_subdivisions_performed <= usize::MAX,
        ensures
            t == self.subdivisions_performed + self.collapses_performed
                + self.neighbor_subdivisions_performed,
    {
        self.subdivisions_performed + self.collapses_performed + self.neighbor_subdivisions_performed
    }

    /// Total subdivisions including neighbor enforcement.
    pub fn total_subdivisions(&self) -> (t: usize)
        requires
            self.subdivisions_performed + self.neighbor_subdivisions_performed <= usize::MAX,
        ensures
            t == self.subdivisions_performed + self.neighbor_subdivisions_performed,
    {
        self.subdivisions_performed + self.neighbor_subdivisions_performed
    }
}

} // verus!
