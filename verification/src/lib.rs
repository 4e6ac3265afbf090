//! Hysteresis mask growth: grows the regions marked in a seed mask to fill
//! the candidate-connected components they touch, per plane, producing a
//! bi-level output mask.

pub mod engine;
pub mod plane_ops;
pub mod policy;
