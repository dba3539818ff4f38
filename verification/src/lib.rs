//! Procedural generation of a square heightfield terrain with hydrological
//! features: fractal mesh subdivision, erosion towards downhill-completeness,
//! per-cell downhill direction sets, flow accumulation by rain tracing, and
//! extraction of a river network with flow-scaled junction widths.
//!
//! Elevations are fixed-point integers: `scale::UNIT` units stand for 1.0.

pub mod downhill;
pub mod erosion;
pub mod flow_map;
pub mod mesh;
pub mod mesh_splitter;
pub mod pipeline;
pub mod rand;
pub mod river_runner;
pub mod scale;
pub mod single_downhill;
pub mod version;
pub mod world;
