pub mod grams;
pub mod rank;
pub mod table;
