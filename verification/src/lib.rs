//! Game rules of a small tower-defence game: the road that enemies follow,
//! how enemies are spawned and walk from checkpoint to checkpoint, how
//! cannons pick and keep their targets, and how damage removes enemies.
//!
//! Rendering, input and the entity world live in the application; this
//! library decides, the application draws and moves.

pub mod defence;
pub mod enemy;
pub mod health;
pub mod road;
pub mod tilemap;
