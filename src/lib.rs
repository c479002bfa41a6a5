//! Spatial weight matrices (rook, queen and distance contiguity) and the
//! integer machinery of local spatial autocorrelation (LISA) statistics.

pub mod contiguity;
pub mod distance;
pub mod lisa;
pub mod weights;

pub use contiguity::{EdgeKey, QueensWeights, RookWeights, VertexKey};
pub use distance::DistanceWeights;
pub use lisa::{
    generate_perturbation_lookups, lisa_plan, observation_of, pseudo_p_value, simulation_draws,
    LisaError, LisaPlan, PermutationMethod, PseudoPValue, Quad,
};
pub use weights::{SparseRows, TransformType, Weights, WeightsError};
