//! The application database.

pub mod migrations;
