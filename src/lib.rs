//! Index-level core of a 2D particle simulation: the canonical edges between
//! particles, the proximity graph that is pruned and resampled every tick, and
//! the bookkeeping that decides where respawned particles reappear.
pub mod graph;
pub mod random;
pub mod respawn;
