//! Game scene: bullets, enemies, explosions, large bodies and weapons.
pub mod bullet;
pub mod enemy;
pub mod explosion;
pub mod large_body;
pub mod weapon;
