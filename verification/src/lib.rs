//! A verified core for a small machine-learning toolkit: text tokenisation
//! (splitting, token tables, stemming) and the structural layer of a dense
//! feed-forward network (topology validation, buffer shapes, fit dispatch,
//! and the epoch stopping rule). The floating-point evaluation of a network
//! is left to the surrounding application; everything here is proved.

pub mod image_handling;
pub mod network;
pub mod special_iterator;
pub mod tokenisation;
