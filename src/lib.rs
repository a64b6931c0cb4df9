pub mod config;
pub mod filter;
pub mod matcher;
pub mod mdfind;
pub mod model;
pub mod output;
pub mod pathname;
pub mod query;
mod text;
