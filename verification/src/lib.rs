pub mod basis;
pub mod cards;
pub mod game;
pub mod math;
pub mod util;
