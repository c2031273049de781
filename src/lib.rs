//! Work-hours and flex-time accounting: parsing of day and time expressions,
//! the flex balance rules, an in-memory model of the stored records, and the
//! human and CSV reports.
pub mod text;
pub mod calendar;
pub mod records;
pub mod flex;
pub mod validators;
pub mod parsers;
pub mod report_generation;
pub mod laws;
pub mod ledger;
pub mod commands;
