//! Bullet system: fractal splitting patterns, the bullet pool and the
//! scheduling of fractal splits.
pub mod fractal;
pub mod pool;
pub mod split_queue;
