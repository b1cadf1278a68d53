pub mod combat;
pub mod gameboard;
pub mod graph;
pub mod model;
pub mod rng;

pub use combat::{battle, battle_with_rolls, AttackCheck};
pub use gameboard::{clear_neighbors, Gameboard};
pub use graph::{is_connected, is_symmetric};
pub use model::Territory;
