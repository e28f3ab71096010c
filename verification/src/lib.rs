//! Game-scene logic of a gravity-driven 3D arena shooter: entity identifiers,
//! render palettes, fractal bullet patterns and split scheduling, bullet
//! pools, enemy behaviours (blob, shield, snake, splitter), the blob and
//! death passes, large gravitational bodies and their life cycle, weapons,
//! on-screen text styles and the glyph atlas.
pub mod engine;
pub mod graphics;
mod random;
pub mod scene;
pub mod ui;
