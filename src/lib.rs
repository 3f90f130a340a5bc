//! A small line-oriented text search: parse the command line into a
//! [`Config`], then keep the lines of a text that contain a query.
pub mod config;
pub mod laws;
pub mod search;
pub mod text;

pub use config::{Config, ConfigError};
pub use search::search;
