//! Memory reuse: object pools with statistics and bump arenas.

pub mod arena;
pub mod pool;

pub use arena::{ArenaHandle, ArenaId, ArenaStats, GeometryArena, MultiArena};
pub use pool::{ObjectPool, PoolStats, PoolView};
