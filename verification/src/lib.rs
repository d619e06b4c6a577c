//! Verified core of a Greek morphology trainer: paradigm parsing, the
//! grammatical catalogue built from the paradigms, filtering and question
//! generation.
pub mod text;
pub mod models;
pub mod quiz;
pub mod tags;
pub mod catalog;
pub mod filters;
pub mod db;
pub mod records;
pub mod paradigm;
pub mod session;
