//! What the steps of a simulation are for: what their results must satisfy, and how the results
//! of related inputs relate.

pub mod distances;
pub mod lags;
pub mod looking;
pub mod nodes;
pub mod reducing;
pub mod retrieving;
pub mod scanning;
pub mod surroundings;
pub mod weighting;
pub mod windows;
pub mod words;
