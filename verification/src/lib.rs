//! Verified core of a small data-oriented ECS game engine: collision
//! layers, trigger-volume bookkeeping and the spatial hash grid used by the
//! broad phase.

pub mod components;
pub mod resources;
pub mod systems;
