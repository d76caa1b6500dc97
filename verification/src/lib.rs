//! Reading the data table of XLX reflector dashboards, with the change detection
//! and error bookkeeping of a periodic scraper.

pub mod text;
pub mod cell;
pub mod dom;
pub mod row;
pub mod table;
pub mod digest;
pub mod target;
pub mod config;
pub mod laws;
