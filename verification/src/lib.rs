//! Directory size analysis: size parsing and formatting, report rows and
//! split files, the largest-entries table, and the scan state machine.

pub mod config;
pub mod error_log;
pub mod human;
pub mod num;
pub mod progress;
pub mod report;
pub mod scan_model;
pub mod scanner;
pub mod summary;
pub mod text;
pub mod top;
