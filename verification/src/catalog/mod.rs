//! What the engine knows of the tables: their columns and statistics.

pub mod db_context;
pub mod statistics;
pub mod table;
