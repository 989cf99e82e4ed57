//! Reaction networks and their compilation into linear constraint models.
pub mod terms;
pub mod text;
pub mod order;
pub mod model;
pub mod scale;
pub mod compile;
pub mod render;
pub mod emit;
