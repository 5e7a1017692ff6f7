pub mod flood_fill;
pub mod game;
pub mod pathfinding;
pub mod reachability;
pub mod strategy;
