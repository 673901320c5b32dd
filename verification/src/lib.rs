//! Simulation core of a multiplayer text dungeon: a seeded deterministic
//! sampler, a procedural topology generator, a world materializer, and the
//! world engine that serves connect/look/move/inspect/attack and idle
//! eviction while preserving the world's consistency invariants.
pub mod assoc;
pub mod data_model;
pub mod decimal;
pub mod gen_plan;
mod guid;
pub mod seed;
pub mod world;

pub use guid::Guid;
