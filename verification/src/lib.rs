//! Direct sampling for multiple-point statistics.
//!
//! The crate simulates a grid node by node: for each node it gathers the values
//! around it into a data event, looks for a place in a training image (TI) where
//! the event is matched well enough, and copies the value found there.
//!
//! Grid values are binary64 numbers. The crate carries them as the 64-bit words
//! that encode them (see [`word`]), decides everything that the encoding alone
//! decides, and leaves the rounding operations to an implementation of
//! [`arithmetic::Arithmetic`].

pub mod arithmetic;
pub mod determinism;
pub mod distance;
pub mod event;
pub mod exactness;
pub mod fitting;
pub mod gathering;
pub mod grid;
pub mod guarantees;
pub mod image;
pub mod index;
pub mod laws;
pub mod messages;
pub mod mps;
pub mod mps_engine;
pub mod neighbors;
pub mod node;
pub mod order;
pub mod pool;
pub mod retrieval;
pub mod scan;
pub mod search;
pub mod setup;
pub mod weights;
pub mod window;
pub mod word;
