pub mod map;
pub mod rng;
pub mod flood;
pub mod rect;
pub mod architect;
pub mod theme;
pub mod template;
pub mod fov;
pub mod score;
pub mod monsters;
