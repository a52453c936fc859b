//! Databases and what may be done to them.

pub mod database;
