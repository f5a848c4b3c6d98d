//! Recombination moves on district plans, and the search by short bursts
//! that they drive.
//!
//! A recombination step merges two adjacent districts, draws a spanning
//! tree of the merged area and cuts the tree into two districts of balanced
//! population. `recom` holds the proposal and the split; `rooting`, `gather`
//! and `cutting` are the three passes of the split over the tree; `tree`,
//! `weights` and `seam` say what rooted trees, subtree populations and seams
//! are; `spanning` tells spanning trees from other lists. `short_bursts`
//! holds the worker and the driver of the search as state machines.
pub mod buffers;
pub mod counting;
pub mod cutting;
pub mod gather;
pub mod graph;
pub mod recom;
pub mod rng;
pub mod rooting;
pub mod seam;
pub mod short_bursts;
pub mod spanning;
pub mod tree;
pub mod weights;
