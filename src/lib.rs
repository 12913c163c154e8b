pub mod conflict;
pub mod display;
pub mod listing;
pub mod order;
pub mod rank;
pub mod schedule;
pub mod structs;
pub mod text;
pub mod time;
