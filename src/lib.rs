pub mod date;
pub mod event;
pub mod input;
pub mod query;
