pub mod field;
pub mod selection;
pub mod structs;
pub mod turn;
pub mod table;
