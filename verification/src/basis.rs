pub mod builders;
pub mod display;
pub mod equality;
pub mod latex;
pub mod operators;
pub mod product;
pub mod tally;
pub mod structs;
