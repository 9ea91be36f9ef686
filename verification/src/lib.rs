pub mod amount;
pub mod command;
pub mod database;
pub mod dates;
pub mod food;
pub mod log;
pub mod manager;
pub mod resolver;
pub mod text;
pub mod traversal;
